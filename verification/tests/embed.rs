use mimir_core::config::Paths;
use mimir_core::embed::{
    batch_rows, embeddable, embedder_source, from_blob, gpu_backend, has_pending, marker_path,
    model_from_name, model_ready, pending, plan_batch, reranker_from_name, reranker_source,
    texts_to_embed, to_blob, upsert, Embedding, ModelSource, RerankerSource, Vector,
};
use mimir_core::error::Error;
use mimir_core::memory::content_hash;
use mimir_core::model::{Kind, Meta, Node};

fn node(id: i64, kind: Kind, subkind: &str, title: &str, body: &str) -> Node {
    Node {
        id,
        uid: format!("01JXGABCDEF123456789{:06}", id),
        kind,
        subkind: Some(subkind.to_string()),
        project_id: None,
        collection_id: None,
        parent_id: None,
        title: Some(title.to_string()),
        body: Some(body.to_string()),
        path: None,
        span_start: None,
        span_end: None,
        lang: None,
        tags_text: String::new(),
        content_hash: None,
        meta: Meta::empty(),
        created_at: 1_780_000_000,
        updated_at: 1_780_000_000,
        access_count: 0,
        last_accessed: None,
        pinned: false,
        superseded_by: None,
        deleted_at: None,
    }
}


fn memory(id: i64, text: &str) -> Node {
    let mut n = node(id, Kind::Memory, "note", text, text);
    n.content_hash = Some(content_hash(text));
    n
}

fn bits(v: &[f32]) -> Vec<u32> {
    v.iter().map(|x| x.to_bits()).collect()
}

#[test]
fn blob_round_trip() {
    let v = vec![0.25f32, -1.5, 3.0e-7, 42.0];
    let back: Vec<f32> = from_blob(&to_blob(&bits(&v)))
        .into_iter()
        .map(f32::from_bits)
        .collect();
    assert_eq!(back, v);
}

#[test]
fn blobs_are_little_endian_and_odd_bytes_are_dropped() {
    assert_eq!(to_blob(&vec![0x0403_0201]), vec![1, 2, 3, 4]);
    assert_eq!(to_blob(&bits(&[1.0])), 1.0f32.to_le_bytes().to_vec());
    assert_eq!(from_blob(&vec![1, 2, 3, 4, 9]), vec![0x0403_0201]);
}

#[test]
fn has_pending_gates_on_real_work() {
    let model = "bge-small-en-v1.5";
    let mut stored: Vec<Embedding> = vec![];
    assert!(!has_pending(&vec![], &stored, model), "empty store");

    let nodes = vec![memory(1, "SCRAM auth rejects non-ASCII passwords")];
    assert!(has_pending(&nodes, &stored, model), "one unembedded memory");

    let hash = nodes[0].content_hash.clone().unwrap();
    upsert(
        &mut stored,
        Embedding {
            node_id: 1,
            model: model.to_string(),
            dim: 4,
            vec: to_blob(&bits(&[0.5; 4])),
            content_hash: hash,
        },
    );
    assert!(
        !has_pending(&nodes, &stored, model),
        "embedded at current hash"
    );
    assert!(
        has_pending(&nodes, &stored, "some-other-model"),
        "same row is still pending for a different model"
    );
}

#[test]
fn embed_pending_skips_model_load_when_nothing_pending() {
    let nodes: Vec<Node> = vec![];
    assert!(pending(&nodes, &vec![], "m").is_empty());
    assert!(!has_pending(&nodes, &vec![], "m"));
}

#[test]
fn model_names() {
    assert!(model_from_name("bge-small-en-v1.5").is_ok());
    assert!(model_from_name("granite-embedding-small-r2").is_ok());
    assert!(model_from_name("nonsense").is_err());
    assert_eq!(
        model_from_name("bge-base-en-v1.5").unwrap(),
        ModelSource::BgeBase
    );
    assert!(matches!(model_from_name("nonsense"), Err(Error::Invalid(_))));
}

#[test]
fn reranker_names() {
    assert!(reranker_from_name("jina-reranker-v1-turbo-en").is_ok());
    assert!(reranker_from_name("jina-reranker-v1-turbo-en-int8").is_ok());
    assert!(reranker_from_name("nonsense").is_err());
    assert_eq!(
        reranker_from_name("jina-reranker-v1-turbo-en-int8").unwrap(),
        RerankerSource::JinaTurboInt8
    );
}

#[test]
fn a_missing_model_is_only_loaded_with_leave_to_download() {
    assert!(embedder_source("bge-small-en-v1.5", false, false).is_err());
    assert!(embedder_source("bge-small-en-v1.5", true, false).is_ok());
    assert!(embedder_source("bge-small-en-v1.5", false, true).is_ok());
    assert!(reranker_source("jina-reranker-v1-turbo-en", false, false).is_err());
    assert!(reranker_source("jina-reranker-v1-turbo-en", false, true).is_ok());
    assert!(embedder_source("nonsense", true, true).is_err());
}

#[test]
fn a_model_is_ready_where_its_marker_is() {
    let paths = Paths::under_root("/home/u/.mimir");
    let marker = marker_path(&paths, "some/model");
    assert!(marker.starts_with("/home/u/.mimir/models/"), "{marker}");
    assert!(model_ready(&paths, "some/model", |p: &str| p == marker));
    assert!(!model_ready(&paths, "some/model", |_: &str| false));
    assert_eq!(gpu_backend(), None);
}

#[test]
fn only_texts_are_embedded() {
    assert!(embeddable(Kind::Memory) && embeddable(Kind::Chunk));
    assert!(!embeddable(Kind::Project) && !embeddable(Kind::Collection));
}

#[test]
fn known_content_is_copied_and_new_content_embedded() {
    let model = "m";
    let nodes = vec![memory(1, "alpha"), memory(2, "beta"), memory(3, "alpha")];
    let stored = vec![Embedding {
        node_id: 1,
        model: model.to_string(),
        dim: 2,
        vec: vec![7; 8],
        content_hash: content_hash("alpha"),
    }];
    let todo = pending(&nodes, &stored, model);
    let ids: Vec<i64> = todo.iter().map(|p| p.id).collect();
    assert_eq!(ids, vec![2, 3]);
    let plan = plan_batch(&stored, model, &todo, 0);
    assert_eq!(plan.to_embed, vec![0]);
    assert_eq!(plan.copies, vec![(1, 0)]);
    assert_eq!(texts_to_embed(&todo, &plan).len(), 1);
    let vectors = vec![Vector {
        dim: 2,
        blob: vec![9; 8],
    }];
    let rows = batch_rows(&stored, &todo, &plan, &vectors, model);
    assert_eq!(rows.len(), 2);
    let of = |id: i64| rows.iter().find(|r| r.node_id == id).expect("a row");
    assert_eq!(of(3).vec, vec![7; 8]);
    assert_eq!(of(2).vec, vec![9; 8]);
    assert_eq!(of(2).content_hash, content_hash("beta"));
    let mut all = stored;
    for r in rows {
        upsert(&mut all, r);
    }
    assert_eq!(all.len(), 3);
    assert!(!has_pending(&nodes, &all, model));
}

#[test]
fn embed_pending_persists_remote_vectors() {
    let model = "bge-small-en-v1.5";
    let nodes = vec![memory(1, "SCRAM auth rejects non-ASCII passwords")];
    let mut stored: Vec<Embedding> = vec![];
    let todo = pending(&nodes, &stored, model);
    assert_eq!(todo.len(), 1);
    let plan = plan_batch(&stored, model, &todo, 0);
    let vectors: Vec<Vector> = texts_to_embed(&todo, &plan)
        .iter()
        .map(|_| Vector {
            dim: 4,
            blob: to_blob(&bits(&[0.5, 0.5, 0.5, 0.5])),
        })
        .collect();
    for row in batch_rows(&stored, &todo, &plan, &vectors, model) {
        upsert(&mut stored, row);
    }
    assert_eq!(stored.len(), 1);
    assert_eq!(stored[0].model, model);
    assert_eq!(stored[0].dim, 4);
    assert!(!has_pending(&nodes, &stored, model));
}

#[test]
fn a_node_without_a_hash_is_embedded_once() {
    let model = "m";
    let mut nodes = vec![memory(1, "alpha"), memory(2, "beta")];
    nodes[0].content_hash = None;
    let mut stored: Vec<Embedding> = vec![];
    let todo = pending(&nodes, &stored, model);
    assert_eq!(todo.len(), 2);
    let plan = plan_batch(&stored, model, &todo, 0);
    let vectors: Vec<Vector> = texts_to_embed(&todo, &plan)
        .iter()
        .map(|_| Vector {
            dim: 2,
            blob: vec![9; 8],
        })
        .collect();
    for row in batch_rows(&stored, &todo, &plan, &vectors, model) {
        upsert(&mut stored, row);
    }
    assert!(pending(&nodes, &stored, model).is_empty());
    assert!(!has_pending(&nodes, &stored, model));
    // New content is new work.
    nodes[0].body = Some("gamma".into());
    assert_eq!(pending(&nodes, &stored, model).len(), 1);
}

#[test]
fn embed_pending_remote_failure_leaves_rows_pending() {
    let model = "bge-small-en-v1.5";
    let nodes = vec![memory(1, "SCRAM auth rejects non-ASCII passwords")];
    let stored: Vec<Embedding> = vec![];
    let todo = pending(&nodes, &stored, model);
    let plan = plan_batch(&stored, model, &todo, 0);
    // No vectors came back: nothing is stored, and the row stays pending.
    assert!(batch_rows(&stored, &todo, &plan, &vec![], model).is_empty());
    assert!(has_pending(&nodes, &stored, model));
}
