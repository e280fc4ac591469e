use mimir_core::context_guard::{
    guard_message, handle_session_start, restore_handoff_text, should_emit, transcript_marker,
    SessionState,
};
use mimir_core::model::{Kind, Meta, Node, Scope};

fn node(id: i64, kind: Kind, subkind: &str, title: &str, body: &str) -> Node {
    Node {
        id,
        uid: format!("01JXGABCDEF123456789{:06}", id),
        kind,
        subkind: Some(subkind.to_string()),
        project_id: None,
        collection_id: None,
        parent_id: None,
        title: Some(title.to_string()),
        body: Some(body.to_string()),
        path: None,
        span_start: None,
        span_end: None,
        lang: None,
        tags_text: String::new(),
        content_hash: None,
        meta: Meta::empty(),
        created_at: 1_780_000_000,
        updated_at: 1_780_000_000,
        access_count: 0,
        last_accessed: None,
        pinned: false,
        superseded_by: None,
        deleted_at: None,
    }
}


fn fresh() -> SessionState {
    SessionState {
        transcript_marker: None,
        guard_last_pct: None,
    }
}

#[test]
fn guard_message_respects_threshold_and_mode() {
    assert!(guard_message(44, 45, "pause").is_none(), "below threshold");
    let pause = guard_message(45, 45, "pause").unwrap();
    assert!(pause.contains("45%"));
    assert!(pause.contains("/clear"));
    let handoff = guard_message(50, 45, "handoff").unwrap();
    assert!(handoff.contains("mimir remember"));
    assert!(handoff.contains("session-handoff"));
    assert!(
        guard_message(90, 45, "off").is_none(),
        "unrecognized mode is silent"
    );
}

#[test]
fn should_emit_fires_once_at_crossing_then_every_ten_points() {
    let mut s = fresh();
    // Below threshold: never emits, never records state.
    assert!(!should_emit(&mut s, 40, 45));
    assert_eq!(s.guard_last_pct, None);
    // First crossing: emits.
    assert!(should_emit(&mut s, 45, 45));
    // Same band again: silent (no new +10 crossed).
    assert!(!should_emit(&mut s, 48, 45));
    assert!(!should_emit(&mut s, 54, 45));
    // +10 over the last emitted pct: fires again.
    assert!(should_emit(&mut s, 55, 45));
    assert!(!should_emit(&mut s, 60, 45));
    assert!(should_emit(&mut s, 65, 45));
}

#[test]
fn should_emit_is_independent_per_session() {
    let mut a = fresh();
    let mut b = fresh();
    assert!(should_emit(&mut a, 50, 45));
    assert!(
        should_emit(&mut b, 50, 45),
        "a fresh session isn't nagged-out by another"
    );
}

#[test]
fn session_start_startup_clears_marker_and_nag() {
    let mut s = SessionState {
        transcript_marker: Some("9000".into()),
        guard_last_pct: Some("70".into()),
    };
    handle_session_start(&mut s, "startup", 0);
    assert_eq!(transcript_marker(&s), 0);
    assert_eq!(s.guard_last_pct, None);
}

#[test]
fn session_start_clear_and_compact_record_marker_and_reset_nag() {
    let mut s = fresh();
    s.guard_last_pct = Some("70".into());
    handle_session_start(&mut s, "clear", 12345);
    assert_eq!(transcript_marker(&s), 12345);
    assert_eq!(s.guard_last_pct, None);

    handle_session_start(&mut s, "compact", 999);
    assert_eq!(transcript_marker(&s), 999);
}

#[test]
fn session_start_resume_leaves_marker_and_nag_untouched() {
    let mut s = SessionState {
        transcript_marker: Some("4242".into()),
        guard_last_pct: Some("55".into()),
    };
    handle_session_start(&mut s, "resume", 999_999);
    assert_eq!(transcript_marker(&s), 4242);
    assert_eq!(s.guard_last_pct, Some("55".into()));
}

#[test]
fn transcript_marker_is_zero_when_absent_fail_open() {
    assert_eq!(transcript_marker(&fresh()), 0);
    let mut s = fresh();
    s.transcript_marker = Some("not a number".into());
    assert_eq!(transcript_marker(&s), 0);
}

#[test]
fn restore_handoff_text_finds_the_newest_tagged_memory() {
    let mut old = node(
        1,
        Kind::Memory,
        "note",
        "old handoff",
        "old handoff: refactor foo",
    );
    old.tags_text = "session-handoff".into();
    old.created_at -= 10;
    let mut new = node(
        2,
        Kind::Memory,
        "note",
        "new handoff",
        "new handoff: fix bar next",
    );
    new.tags_text = "session-handoff".into();
    let text = restore_handoff_text(&vec![old, new], Scope::Global).unwrap();
    assert!(text.starts_with("Restored session handoff:"));
    assert!(text.contains("fix bar next"), "picks the newest: {text}");
}

#[test]
fn restore_handoff_text_is_none_without_a_tagged_memory() {
    assert_eq!(restore_handoff_text(&vec![], Scope::Global), None);
    let plain = node(1, Kind::Memory, "note", "t", "session-handoff");
    assert_eq!(restore_handoff_text(&vec![plain], Scope::Global), None);
}
