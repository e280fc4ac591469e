use mimir_core::anchors::{
    anchor_matches_command, anchor_matches_path, anchored_candidates, find_and_record, glob_match,
    sanitize_anchors, set_anchors,
};
use mimir_core::model::{Kind, Meta, Node, Scope};
use std::collections::HashMap;

fn node(id: i64, kind: Kind, subkind: &str, title: &str, body: &str) -> Node {
    Node {
        id,
        uid: format!("01JXGABCDEF123456789{:06}", id),
        kind,
        subkind: Some(subkind.to_string()),
        project_id: None,
        collection_id: None,
        parent_id: None,
        title: Some(title.to_string()),
        body: Some(body.to_string()),
        path: None,
        span_start: None,
        span_end: None,
        lang: None,
        tags_text: String::new(),
        content_hash: None,
        meta: Meta::empty(),
        created_at: 1_780_000_000,
        updated_at: 1_780_000_000,
        access_count: 0,
        last_accessed: None,
        pinned: false,
        superseded_by: None,
        deleted_at: None,
    }
}

#[test]
fn glob_match_basics() {
    assert!(glob_match("store.rs", "store.rs"));
    assert!(!glob_match("store.rs", "other.rs"));
    assert!(glob_match("*.rs", "store.rs"));
    assert!(glob_match("store.*", "store.rs"));
    assert!(glob_match("s?ore.rs", "store.rs"));
    assert!(glob_match(
        "mimir-core/*/store.rs",
        "mimir-core/src/store.rs"
    ));
    // A single `*` spans separators too.
    assert!(glob_match(
        "mimir-core/*/store.rs",
        "mimir-core/src/deep/store.rs"
    ));
}

#[test]
fn glob_match_edges() {
    assert!(glob_match("", ""));
    assert!(!glob_match("", "a"));
    assert!(glob_match("*", ""));
    assert!(glob_match("*", "anything/at all"));
    assert!(!glob_match("?", ""));
    assert!(!glob_match("a?", "a"));
    assert!(glob_match("a*b*c", "axxbyybzzc"));
    assert!(!glob_match("a*b*c", "axxbyy"));
    // A star in the text is an ordinary character there.
    assert!(glob_match("*b", "*ab"));
    assert!(glob_match("*.rs", "*x.rs"));
}

#[test]
fn anchor_matches_path_tries_every_suffix() {
    assert!(anchor_matches_path(
        "store.rs",
        "/home/t/repo/crates/mimir-core/src/store.rs"
    ));
    assert!(anchor_matches_path(
        "mimir-core/src/store.rs",
        "/home/t/repo/crates/mimir-core/src/store.rs"
    ));
    assert!(!anchor_matches_path(
        "commands.rs",
        "/home/t/repo/crates/mimir-core/src/store.rs"
    ));
    assert!(anchor_matches_path("*.rs", "/a/b/store.rs"));
    assert!(!anchor_matches_path("*.rs", "/a/b/store.txt"));
}

#[test]
fn anchor_matches_command_scans_tokens() {
    assert!(anchor_matches_command(
        "store.rs",
        "cat crates/mimir-core/src/store.rs"
    ));
    assert!(anchor_matches_command(
        "store.rs",
        r#"rg "meta.anchors" crates/mimir-core/src/store.rs"#
    ));
    assert!(!anchor_matches_command("store.rs", "cargo build --release"));
}

#[test]
fn sanitize_anchors_strips_file_prefix_trims_caps() {
    let out = sanitize_anchors(vec![
        "file:store.rs".into(),
        "  crates/mimir-core/**  ".into(),
        "".into(),
        "   ".into(),
        "x".repeat(201),
    ]);
    assert_eq!(
        out,
        vec!["store.rs".to_string(), "crates/mimir-core/**".to_string()]
    );
}

#[test]
fn the_anchor_cap_counts_characters() {
    assert_eq!(sanitize_anchors(vec!["é".repeat(150)]), vec!["é".repeat(150)]);
    assert_eq!(sanitize_anchors(vec!["é".repeat(200)]).len(), 1);
    assert!(sanitize_anchors(vec!["é".repeat(201)]).is_empty());
}

#[test]
fn sanitize_anchors_caps_at_eight() {
    let patterns: Vec<String> = (0..20).map(|i| format!("p{i}.rs")).collect();
    assert_eq!(sanitize_anchors(patterns).len(), 8);
}

fn anchored(id: i64, text: &str, anchors: &[&str]) -> Node {
    let mut n = node(id, Kind::Memory, "gotcha", text, text);
    let json = set_anchors(
        &mut n.meta,
        anchors.iter().map(|s| s.to_string()).collect(),
    );
    // What is stored reads back as what was set.
    let back = Meta::parse(&format!("{{\"anchors\":{json}}}"));
    assert_eq!(back.anchors, n.meta.anchors);
    n
}

#[test]
fn find_and_record_matches_edit_and_dedupes_per_session() {
    let nodes = vec![anchored(
        1,
        "store.rs: never call json_set twice in one UPDATE",
        &["store.rs"],
    )];
    let projects = HashMap::new();
    let path = "/home/t/repo/crates/mimir-core/src/store.rs";

    let mut s1: Vec<i64> = vec![];
    let first = find_and_record(&nodes, Scope::All, &mut s1, &projects, path, false);
    assert!(first.unwrap().contains("json_set"));
    assert_eq!(s1, vec![1]);

    // Same session, same file again: silent (already surfaced).
    let second = find_and_record(&nodes, Scope::All, &mut s1, &projects, path, false);
    assert!(second.is_none());

    // A different session sees it fresh.
    let mut s2: Vec<i64> = vec![];
    let third = find_and_record(&nodes, Scope::All, &mut s2, &projects, path, false);
    assert!(third.is_some());
}

#[test]
fn find_and_record_matches_bash_command_text() {
    let nodes = vec![anchored(
        1,
        "migrations.rs: bump schema_version too",
        &["migrations.rs"],
    )];
    let hit = find_and_record(
        &nodes,
        Scope::All,
        &mut vec![],
        &HashMap::new(),
        "cat crates/mimir-core/src/db/migrations.rs",
        true,
    );
    assert!(hit.unwrap().contains("schema_version"));
}

#[test]
fn find_and_record_is_none_without_a_match() {
    let nodes = vec![anchored(1, "unrelated", &["store.rs"])];
    let mut seen: Vec<i64> = vec![];
    let hit = find_and_record(&nodes, Scope::All, &mut seen, &HashMap::new(), "/a/b/commands.rs", false);
    assert!(hit.is_none());
    assert!(seen.is_empty());
}

#[test]
fn find_and_record_is_none_when_no_memory_has_anchors() {
    let nodes = vec![node(1, Kind::Memory, "note", "plain", "plain memory, no anchors")];
    let hit = find_and_record(&nodes, Scope::All, &mut vec![], &HashMap::new(), "/a/b/store.rs", false);
    assert!(hit.is_none());
}

#[test]
fn anchors_are_stored_as_json() {
    let mut meta = Meta::empty();
    let json = set_anchors(&mut meta, vec!["a\"b".to_string(), "*.rs".to_string()]);
    assert_eq!(json, "[\"a\\\"b\",\"*.rs\"]");
    assert_eq!(
        meta.anchors,
        Some(vec!["a\"b".to_string(), "*.rs".to_string()])
    );
    // What was written reads back.
    let back = Meta::parse(&format!("{{\"anchors\":{json}}}"));
    assert_eq!(back.anchors, meta.anchors);
}

#[test]
fn a_star_matches_everything_and_plain_text_itself() {
    for text in ["", "a", "a/b.rs", "**"] {
        assert!(glob_match("*", text));
        assert!(glob_match(text, text));
    }
}

#[test]
fn only_live_anchored_memories_in_scope_are_candidates() {
    let mut dead = anchored(1, "dead", &["a.rs"]);
    dead.deleted_at = Some(5);
    let mut elsewhere = anchored(2, "elsewhere", &["a.rs"]);
    elsewhere.project_id = Some(7);
    let mut chunk = anchored(3, "chunk", &["a.rs"]);
    chunk.kind = Kind::Chunk;
    let mut bare = anchored(4, "bare", &[]);
    bare.meta.anchors = Some(vec![]);
    let nodes = vec![
        anchored(9, "late", &["a.rs"]),
        dead,
        elsewhere,
        chunk,
        bare,
        anchored(6, "early", &["a.rs"]),
    ];
    let ids = |scope: Scope| -> Vec<i64> {
        anchored_candidates(&nodes, scope).iter().map(|n| n.id).collect()
    };
    assert_eq!(ids(Scope::All), vec![2, 6, 9]);
    assert_eq!(ids(Scope::Project(7)), vec![2]);

    // The lowest id that matches surfaces first, then the next.
    let mut seen: Vec<i64> = vec![2];
    for expect in [Some("early"), Some("late"), None] {
        let hit = find_and_record(&nodes, Scope::All, &mut seen, &HashMap::new(), "/x/a.rs", false);
        match expect {
            Some(word) => assert!(hit.unwrap().contains(word)),
            None => assert!(hit.is_none()),
        }
    }
    assert_eq!(seen, vec![2, 6, 9]);
}
