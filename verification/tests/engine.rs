use mimir_core::engine::{
    auto_rerank_loads, fetch_limit, first_step, matrix_step, rank_by_scores, reorder, rerank_doc,
    rerank_query_gates_pass, should_auto_rerank, step_after_remote_failed, Lazy, MatrixStep,
    QueryCache, RerankStep, PATCH_THRESHOLD, QUERY_CACHE_CAP, RERANK_DOC_CHARS,
    RERANK_MIN_STORE_NODES,
};
use mimir_core::model::{Kind, Meta, Node};

fn node(id: i64, kind: Kind, subkind: &str, title: &str, body: &str) -> Node {
    Node {
        id,
        uid: format!("01JXGABCDEF123456789{:06}", id),
        kind,
        subkind: Some(subkind.to_string()),
        project_id: None,
        collection_id: None,
        parent_id: None,
        title: Some(title.to_string()),
        body: Some(body.to_string()),
        path: None,
        span_start: None,
        span_end: None,
        lang: None,
        tags_text: String::new(),
        content_hash: None,
        meta: Meta::empty(),
        created_at: 1_780_000_000,
        updated_at: 1_780_000_000,
        access_count: 0,
        last_accessed: None,
        pinned: false,
        superseded_by: None,
        deleted_at: None,
    }
}


const BIG: Option<i64> = Some(RERANK_MIN_STORE_NODES + 1);

#[test]
fn auto_rerank_off_never_fires() {
    assert!(!should_auto_rerank(
        "off",
        true,
        true,
        true,
        "a real multi word query",
        BIG
    ));
}

#[test]
fn auto_rerank_warm_requires_already_loaded() {
    assert!(!should_auto_rerank(
        "warm",
        false,
        false,
        true,
        "a real multi word query",
        BIG
    ));
    assert!(
        !auto_rerank_loads("warm", false),
        "the warm gate must never load the model itself"
    );
    assert!(should_auto_rerank(
        "warm",
        true,
        false,
        false,
        "a real multi word query",
        BIG
    ));
}

#[test]
fn auto_rerank_gates_single_token_queries() {
    assert!(!rerank_query_gates_pass("resolve_ref", BIG));
    assert!(!rerank_query_gates_pass("", BIG));
    assert!(!rerank_query_gates_pass("   ", BIG));
}

#[test]
fn auto_rerank_gates_tiny_store() {
    assert!(!rerank_query_gates_pass("a real multi word query", Some(0)));
    // Past the threshold the answer flips.
    assert!(rerank_query_gates_pass("a real multi word query", BIG));
    assert!(!rerank_query_gates_pass(
        "a real multi word query",
        Some(RERANK_MIN_STORE_NODES - 1)
    ));
    assert!(!rerank_query_gates_pass("a real multi word query", None));
}

#[test]
fn warm_auto_rerank_fires_via_remote_and_reorders() {
    let text = "alpha topic";
    // Warm + nothing resident + no remote: never fires.
    assert!(!should_auto_rerank("warm", false, false, false, text, BIG));
    // Live remote: warm fires and the scores dictate the order.
    assert!(should_auto_rerank("warm", false, true, false, text, BIG));
    assert_eq!(first_step(false, true, false, "warm"), RerankStep::Remote);
    let bodies = ["alpha topic plain", "alpha topic gamma", "alpha topic beta"];
    let scores: Vec<i64> = bodies
        .iter()
        .map(|d| {
            if d.contains("gamma") {
                9
            } else if d.contains("beta") {
                5
            } else {
                1
            }
        })
        .collect();
    let order = rank_by_scores(&scores, bodies.len()).unwrap();
    assert_eq!(reorder(&order, bodies.len(), 2), vec![1, 2]);
    // Failing remote: the order stays instead of a local model being loaded.
    assert_eq!(step_after_remote_failed(false), RerankStep::Keep);
    assert_eq!(step_after_remote_failed(true), RerankStep::Local);
}

#[test]
fn a_ranking_of_the_wrong_length_is_not_used() {
    assert_eq!(rank_by_scores(&vec![1, 2], 3), None);
    assert_eq!(rank_by_scores(&vec![1, 2, 2], 3), Some(vec![1, 2, 0]));
}

#[test]
fn what_no_ranking_names_keeps_its_order_at_the_end() {
    assert_eq!(reorder(&vec![2], 4, 10), vec![2, 0, 1, 3]);
    assert_eq!(reorder(&vec![], 3, 10), vec![0, 1, 2]);
    assert_eq!(reorder(&vec![9, 1, 1], 3, 10), vec![1, 0, 2]);
}

#[test]
fn reranking_fetches_its_candidates() {
    assert_eq!(fetch_limit(5, 20, false), 5);
    assert_eq!(fetch_limit(5, 20, true), 20);
    assert_eq!(fetch_limit(50, 20, true), 50);
}

#[test]
fn documents_for_reranking_are_bounded() {
    let n = node(1, Kind::Memory, "note", "title", &"x".repeat(5000));
    let doc = rerank_doc(&n);
    assert!(doc.starts_with("title"));
    assert!(doc.chars().count() <= RERANK_DOC_CHARS + 10);
}

#[test]
fn a_model_is_tried_once() {
    let mut m = Lazy::new();
    assert!(m.start(false, true));
    m.finish(false);
    assert!(!m.start(false, true));
    assert!(!m.loaded);
    let mut absent = Lazy::new();
    assert!(!absent.start(false, false));
    let mut ok = Lazy::new();
    assert!(ok.start(true, false));
    ok.finish(true);
    assert!(ok.loaded);
    assert!(!ok.start(true, false));
}

#[test]
fn small_changes_patch_the_matrix() {
    assert_eq!(matrix_step(0), MatrixStep::Keep);
    assert_eq!(matrix_step(PATCH_THRESHOLD), MatrixStep::Patch);
    assert_eq!(matrix_step(PATCH_THRESHOLD + 1), MatrixStep::Drop);
}

#[test]
fn the_query_cache_remembers_and_is_bounded() {
    let mut c = QueryCache::new();
    assert_eq!(c.get("a"), None);
    c.insert("a", vec![1, 2]);
    assert_eq!(c.get("a"), Some(&vec![1, 2]));
    for i in 0..QUERY_CACHE_CAP {
        c.insert(&format!("q{i}"), vec![i as u32]);
    }
    let last = format!("q{}", QUERY_CACHE_CAP - 1);
    assert_eq!(c.get(&last), Some(&vec![QUERY_CACHE_CAP as u32 - 1]));
    assert_eq!(c.get("a"), None);
}
