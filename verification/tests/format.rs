use mimir_core::format::{
    agent_line, agent_line_for_query, collapse_ws, full_date, full_record, match_window,
    month_day, query_stems, truncate_chars,
};
use mimir_core::grounding::Grounding;
use mimir_core::model::{Edge, Kind, Meta, Node, Rel};
use std::collections::HashMap;

fn node(id: i64, kind: Kind, subkind: &str, title: &str, body: &str) -> Node {
    Node {
        id,
        uid: format!("01JXGABCDEF123456789{:06}", id),
        kind,
        subkind: Some(subkind.to_string()),
        project_id: None,
        collection_id: None,
        parent_id: None,
        title: Some(title.to_string()),
        body: Some(body.to_string()),
        path: None,
        span_start: None,
        span_end: None,
        lang: None,
        tags_text: String::new(),
        content_hash: None,
        meta: Meta::empty(),
        created_at: 1_780_000_000,
        updated_at: 1_780_000_000,
        access_count: 0,
        last_accessed: None,
        pinned: false,
        superseded_by: None,
        deleted_at: None,
    }
}

fn stop() -> Vec<String> {
    ["how", "is", "it", "the", "a"]
        .iter()
        .map(|s| s.to_string())
        .collect()
}

#[test]
fn dates() {
    assert_eq!(full_date(0), "1970-01-01");
    assert_eq!(full_date(1_780_000_000), "2026-05-28");
    assert_eq!(month_day(1_780_000_000), "05-28");
}

#[test]
fn dates_at_the_edges() {
    assert_eq!(full_date(-1), "1969-12-31");
    assert_eq!(full_date(951_782_400), "2000-02-29");
    assert_eq!(full_date(4_107_542_400), "2100-03-01");
    assert_eq!(full_date(-2_203_891_200), "1900-03-01");
}

#[test]
fn whitespace_and_truncation() {
    assert_eq!(collapse_ws("  a \t b\n\nc "), "a b c");
    assert_eq!(truncate_chars("abc", 3), "abc");
    assert_eq!(truncate_chars("abcd", 3), "abc…");
}

#[test]
fn agent_line_shape() {
    let n = node(1, Kind::Memory, "gotcha", "watch out", "watch out\nfor the    thing");
    let line = agent_line(&n, Some("mimir"), 120);
    let tail = &n.uid[n.uid.len() - 6..];
    assert_eq!(
        line,
        format!(
            "m:{tail} [gotcha pr:mimir {}] watch out — for the thing",
            month_day(n.created_at)
        )
    );
}

#[test]
fn only_unsure_reaches_the_compact_line() {
    let make = |level: Option<&str>| {
        let mut n = node(1, Kind::Memory, "note", "dns is the cause", "dns is the cause");
        n.meta.confidence = level.map(|l| l.to_string());
        agent_line(&n, None, 120)
    };
    assert!(make(Some("unsure")).contains("unsure"));
    assert!(!make(Some("certain")).contains("certain"));
    assert!(!make(Some("likely")).contains("likely"));
    let bare = make(None);
    assert!(!bare.contains("unsure") && !bare.contains("certain"));
}

#[test]
fn full_record_attributes_confidence_to_the_author() {
    let mut n = node(1, Kind::Memory, "insight", "the flake is dns", "the flake is dns");
    n.meta.confidence = Some("unsure".to_string());
    let out = full_record(&n, &HashMap::new(), &vec![], &vec![], &Grounding::Ungrounded);
    assert!(out.contains("confidence: unsure"), "{out}");
    assert!(out.contains("author-declared"), "{out}");
    assert!(out.contains("not a ranking signal"), "{out}");
}

#[test]
fn full_record_lists_edges() {
    let n = node(1, Kind::Memory, "insight", "title", "body");
    let other = node(2, Kind::File, "", "store.rs", "");
    let edge = Edge {
        id: 1,
        src: 1,
        dst: 2,
        rel: Rel::Relates,
        created_at: 0,
    };
    let out = full_record(&n, &HashMap::new(), &vec![edge], &vec![other], &Grounding::Ungrounded);
    assert!(out.contains("relates"), "{out}");
}

#[test]
fn agent_line_skips_redundant_snippet() {
    let n = node(1, Kind::Memory, "note", "short", "short");
    let line = agent_line(&n, None, 120);
    assert!(!line.contains('—'), "no snippet expected: {line}");
}

fn breadcrumb_chunk() -> Node {
    let body = format!(
        "proxy › mimir proxy › What it actually does {}the proxy adds ephemeral \
         breakpoints on the system prompt and the last message.",
        "You cannot compress text and have the API bill fewer tokens. ".repeat(4)
    );
    let mut n = node(
        1,
        Kind::Chunk,
        "",
        "proxy › mimir proxy › What it actually does",
        &body,
    );
    n.subkind = None;
    n
}

#[test]
fn query_aware_snippet_centres_on_the_match() {
    let n = breadcrumb_chunk();

    let blind = agent_line(&n, None, 120);
    assert!(
        !blind.contains("breakpoints"),
        "head truncation should miss the match: {blind}"
    );

    let aware = agent_line_for_query(&n, None, 120, Some("prompt cache breakpoints"), &stop());
    assert!(
        aware.contains("breakpoints"),
        "snippet should be centred on the match: {aware}"
    );
    assert!(aware.contains("— …"), "shifted window is elided: {aware}");
}

#[test]
fn query_aware_snippet_falls_back_when_nothing_matches() {
    let n = breadcrumb_chunk();
    assert_eq!(
        agent_line_for_query(&n, None, 120, Some("kubernetes ingress"), &stop()),
        agent_line(&n, None, 120),
        "a query with no lexical match must not change the line"
    );
}

#[test]
fn query_aware_snippet_leaves_early_matches_alone() {
    let n = breadcrumb_chunk();
    // "compress" is inside the head window, which already shows it.
    assert_eq!(
        agent_line_for_query(&n, None, 120, Some("compress"), &stop()),
        agent_line(&n, None, 120),
    );
}

#[test]
fn query_stems_drop_stopwords_and_short_tokens() {
    assert_eq!(query_stems("how is it   split", &stop()), vec!["split"]);
    // Stemmed to a shared prefix, so "splitting" finds "splits".
    assert_eq!(query_stems("splitting", &stop()), vec!["split"]);
}

#[test]
fn match_window_is_char_safe_on_multibyte_text() {
    let text = format!("{}naïve café — chunking rules apply", "ø".repeat(200));
    let stems = query_stems("chunking", &stop());
    let win = match_window(&text, &stems, 40).expect("match past the window");
    assert!(win.contains("chunking"), "{win}");
    assert!(win.starts_with('…'), "{win}");
}

#[test]
fn match_window_survives_chars_that_grow_when_lowercased() {
    // U+0130 lowercases to TWO chars, so a char index computed in the
    // lowercased text can run past the original's char count.
    let text = format!("{}chunking rules apply", "İ".repeat(200));
    let stems = query_stems("chunking", &stop());
    let win = match_window(&text, &stems, 40).expect("match past the window");
    assert!(win.contains("chunking"), "{win}");
}

#[test]
fn match_window_prefers_density_over_the_earliest_match() {
    // "cache" appears early and alone; the passage that answers the
    // query — all three terms together — sits much later.
    let text = format!(
        "the cache is warm. {} prompt cache breakpoints are set here.",
        "filler prose that says nothing useful. ".repeat(12)
    );
    let stems = query_stems("prompt cache breakpoints", &stop());
    let win = match_window(&text, &stems, 80).expect("a denser window exists");
    assert!(win.contains("breakpoints"), "{win}");
    assert!(win.contains("prompt"), "{win}");
}

#[test]
fn match_window_finds_the_one_window_that_covers_both() {
    let text = format!("{}alpha{}bravo", "x ".repeat(50), " x".repeat(15));
    let stems = vec!["alpha".to_string(), "bravo".to_string()];
    assert_eq!(
        match_window(&text, &stems, 40),
        Some(format!("…alpha{}bravo", " x".repeat(15)))
    );
}

#[test]
fn match_window_counts_a_repeated_stem_once() {
    let text = format!("bbb ccc{} aaa", " x".repeat(40));
    let stems: Vec<String> = ["aaa", "aaa", "aaa", "bbb", "ccc"]
        .iter()
        .map(|s| s.to_string())
        .collect();
    assert_eq!(match_window(&text, &stems, 40), None);
}

#[test]
fn match_window_takes_any_snippet_length() {
    let stems = vec!["alpha".to_string()];
    assert_eq!(match_window("one alpha two", &stems, usize::MAX), None);
    assert_eq!(match_window("one alpha two", &stems, 0), None);
}

#[test]
fn match_window_keeps_the_head_when_it_is_already_densest() {
    let text = format!(
        "prompt cache breakpoints explained up front. {}",
        "later filler with no query terms at all. ".repeat(12)
    );
    let stems = query_stems("prompt cache breakpoints", &stop());
    assert_eq!(
        match_window(&text, &stems, 80),
        None,
        "head already wins — must not churn the line"
    );
}

#[test]
fn days_and_dates_agree_across_leap_years() {
    assert_eq!(full_date(951_782_400), "2000-02-29");
    assert_eq!(full_date(951_868_800), "2000-03-01");
    assert_eq!(full_date(-86_400), "1969-12-31");
}
