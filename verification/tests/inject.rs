use mimir_core::inject::{
    compute_with_session, search_text, select_injection, select_unseen_injection,
    truncate_to_token_budget, Hit,
};
use mimir_core::model::{Kind, Meta, Node};
use std::collections::HashMap;

fn node(id: i64, kind: Kind, subkind: &str, title: &str, body: &str) -> Node {
    Node {
        id,
        uid: format!("01JXGABCDEF123456789{:06}", id),
        kind,
        subkind: Some(subkind.to_string()),
        project_id: None,
        collection_id: None,
        parent_id: None,
        title: Some(title.to_string()),
        body: Some(body.to_string()),
        path: None,
        span_start: None,
        span_end: None,
        lang: None,
        tags_text: String::new(),
        content_hash: None,
        meta: Meta::empty(),
        created_at: 1_780_000_000,
        updated_at: 1_780_000_000,
        access_count: 0,
        last_accessed: None,
        pinned: false,
        superseded_by: None,
        deleted_at: None,
    }
}

fn stop() -> Vec<String> {
    [
        "a", "and", "before", "be", "does", "how", "is", "it", "more", "please", "the", "there",
        "this", "through", "to", "we", "why", "work",
    ]
    .iter()
    .map(|s| s.to_string())
    .collect()
}

fn hit(subkind: &str, title: &str, body: &str, tags: &str) -> Hit {
    let mut n = node(1, Kind::Memory, subkind, title, body);
    n.tags_text = tags.to_string();
    Hit { node: n }
}

/// The lexical leg alone, as on a machine without a model.
fn injects(h: Hit, prompt: &str, enrich: &str) -> bool {
    let hits = vec![h];
    select_injection(&hits, prompt, enrich, &vec![vec![1]], &stop()).is_some()
}

#[test]
fn note_type_never_injects_even_with_overlap() {
    let h = hit(
        "note",
        "SCRAM auth notes",
        "some notes about scram authentication normalization",
        "",
    );
    assert!(
        !injects(h, "how does scram authentication normalization work", ""),
        "note-type hit must never auto-inject"
    );
}

#[test]
fn pinned_note_passes_rule_one() {
    let mut h = hit(
        "note",
        "SCRAM auth pinned note",
        "pinned notes about scram authentication normalization details",
        "",
    );
    h.node.pinned = true;
    assert!(
        injects(h, "how does scram authentication normalization work", ""),
        "pinned hit should clear rule 1 like a gotcha/decision"
    );
}

#[test]
fn tags_count_toward_overlap() {
    let h = hit(
        "gotcha",
        "auth edge case",
        "remember to check this before shipping",
        "scram nfkc normalization",
    );
    assert!(
        injects(h, "scram nfkc normalization", ""),
        "tag overlap alone should clear rule 2"
    );
}

#[test]
fn unrelated_prompt_stays_silent() {
    let h = hit(
        "gotcha",
        "SCRAM auth rejects non-ASCII passwords",
        "always normalize with NFKC before hashing",
        "auth scram",
    );
    assert!(!injects(
        h,
        "please refactor this function to be more readable",
        ""
    ));
}

#[test]
fn enrichment_alone_cannot_clear_floor() {
    let h = hit(
        "gotcha",
        "WAL autocheckpoint pathological growth",
        "always run PRAGMA wal_checkpoint before assuming corruption",
        "",
    );
    assert!(
        !injects(h, "let's get started", "wal autocheckpoint"),
        "enrichment-only overlap must not self-license an injection"
    );
}

#[test]
fn enrichment_extends_a_real_overlap() {
    let h = hit(
        "gotcha",
        "WAL checkpoint pathological growth",
        "always run PRAGMA wal_checkpoint before assuming corruption",
        "",
    );
    assert!(
        injects(h, "why does checkpoint never happen?", "pathological"),
        "enrichment should extend a real single-token overlap"
    );
}

#[test]
fn bm25_only_mode_still_injects_on_a_clean_lexical_match() {
    let h = hit(
        "gotcha",
        "auth edge case",
        "remember to check this before shipping",
        "scram nfkc normalization",
    );
    assert!(
        injects(h, "scram nfkc normalization", ""),
        "a single leg must still inject on a clean lexical match"
    );
}

#[test]
fn bm25_only_mode_still_blocks_enrichment_only_self_licensing() {
    let h = hit(
        "gotcha",
        "WAL autocheckpoint pathological growth",
        "always run PRAGMA wal_checkpoint before assuming corruption",
        "",
    );
    assert!(
        !injects(h, "let's get started", "wal autocheckpoint"),
        "a single leg must not let enrichment-only overlap self-license an injection"
    );
}

fn release_note() -> Hit {
    let mut h = hit(
        "note",
        "Release day operational notes",
        "double check environment variables before shipping",
        "",
    );
    h.node.meta.fires_when = Some(vec!["release checklist".to_string()]);
    h
}

#[test]
fn fires_when_bypasses_type_and_overlap_rules() {
    assert!(
        injects(
            release_note(),
            "is there a checklist to run through before we release?",
            ""
        ),
        "fires_when match must bypass rules 1 and 2"
    );
}

#[test]
fn fires_when_present_but_not_matched_stays_silent() {
    assert!(
        !injects(release_note(), "why is the CI docs job failing", ""),
        "an unrelated prompt must not fire an unmatched trigger"
    );
}

#[test]
fn session_ledger_dedups_within_a_session_but_not_across() {
    let hits = vec![release_note()];
    let legs = vec![vec![1]];
    let prompt = "is there a checklist to run through before we release?";
    let mut a: Option<Vec<i64>> = Some(vec![]);

    let first = compute_with_session(
        &hits, &legs, prompt, "", &stop(), &mut a, &HashMap::new(), 160,
    );
    assert!(first.is_some(), "first call in a session should inject");
    assert_eq!(first.unwrap().node_id, 1);

    let second = compute_with_session(
        &hits, &legs, prompt, "", &stop(), &mut a, &HashMap::new(), 160,
    );
    assert!(
        second.is_none(),
        "the same session must not re-inject the same memory"
    );

    let mut b: Option<Vec<i64>> = Some(vec![]);
    let other_session = compute_with_session(
        &hits, &legs, prompt, "", &stop(), &mut b, &HashMap::new(), 160,
    );
    assert!(
        other_session.is_some(),
        "a different session should still inject"
    );
}

#[test]
fn a_blank_prompt_searches_nothing() {
    assert_eq!(search_text("   ", ""), None);
    let hits = vec![release_note()];
    let mut seen: Option<Vec<i64>> = Some(vec![4]);
    let none = compute_with_session(
        &hits, &vec![vec![1]], " \n\t", "", &stop(), &mut seen, &HashMap::new(), 160,
    );
    assert!(none.is_none());
    assert_eq!(seen, Some(vec![4]));
}

#[test]
fn what_is_shown_says_so_and_is_written_down() {
    let mut note = release_note();
    note.node.body = Some("checklist ".repeat(300));
    let mut seen: Option<Vec<i64>> = Some(vec![4]);
    let shown = compute_with_session(
        &vec![note],
        &vec![vec![1]],
        "is there a checklist to run through before we release?",
        "",
        &stop(),
        &mut seen,
        &HashMap::new(),
        2000,
    )
    .unwrap();
    assert!(shown.text.starts_with("Relevant memory: "), "{}", shown.text);
    assert_eq!(shown.text.chars().count(), 801);
    assert_eq!(seen, Some(vec![4, 1]));
}

#[test]
fn budget_truncation_is_bounded_and_cheap() {
    let long = "word ".repeat(500);
    let out = truncate_to_token_budget(&long, 50);
    // 50 tokens * 4 chars/token + 1 ellipsis char, generously bounded.
    assert!(out.chars().count() <= 50 * 4 + 1);
    assert!(out.ends_with('…'));
}

#[test]
fn short_text_is_untouched() {
    let out = truncate_to_token_budget("short line", 200);
    assert_eq!(out, "short line");
}

#[test]
fn a_weaker_hit_never_stands_in_for_the_top_one() {
    let mut second = hit("gotcha", "scram auth", "scram auth rejects ascii", "");
    second.node.id = 2;
    let note = hit("note", "scram auth", "scram auth rejects", "");
    let legs = vec![vec![1, 2]];
    let hits = vec![note.clone(), second.clone()];
    let prompt = "scram auth fails";
    assert!(select_injection(&hits, prompt, "", &legs, &stop()).is_none());
    assert!(select_unseen_injection(&hits, prompt, "", &legs, &stop(), &vec![]).is_none());
    assert!(select_unseen_injection(&hits, prompt, "", &legs, &stop(), &vec![1]).is_none());
    // Nor does what is no memory pass for one.
    let mut chunk = second;
    chunk.node.kind = Kind::Chunk;
    assert!(select_injection(&vec![chunk], prompt, "", &legs, &stop()).is_none());
}

#[test]
fn a_session_is_not_told_twice() {
    let mut second = hit("gotcha", "scram auth", "scram auth rejects ascii", "");
    second.node.id = 2;
    let hits = vec![hit("gotcha", "scram auth", "scram auth rejects", ""), second];
    let legs = vec![vec![1, 2]];
    let pick = |seen: Vec<i64>| {
        select_unseen_injection(&hits, "scram auth fails", "", &legs, &stop(), &seen)
            .map(|h| h.node.id)
    };
    assert_eq!(pick(vec![]), Some(1));
    assert_eq!(pick(vec![1]), Some(2));
    assert_eq!(pick(vec![1, 2]), None);
}

#[test]
fn a_top_hit_shown_by_its_trigger_makes_way() {
    let mut second = hit("gotcha", "release checklist", "run the checklist, release, tag", "");
    second.node.id = 2;
    let hits = vec![release_note(), second];
    let legs = vec![vec![1, 2]];
    let pick = |seen: Vec<i64>| {
        let prompt = "is there a checklist to run through before we release?";
        select_unseen_injection(&hits, prompt, "", &legs, &stop(), &seen).map(|h| h.node.id)
    };
    assert_eq!(pick(vec![]), Some(1));
    assert_eq!(pick(vec![1]), Some(2));
    assert_eq!(pick(vec![1, 2]), None);
}
