use mimir_core::audit::Mutation;
use mimir_core::memory::{
    content_hash, derive_title, edit, gist_of, is_near_duplicate, is_reword, list,
    parse_expires_in, record_revival, remember, sanitize_fires_when, sanitize_tags, tokens, Edit,
    Remember, RememberOutcome,
};
use mimir_core::model::{Actor, Kind, MemoryType, Meta, MutationOp, NewNode, Node, Scope};

fn node(id: i64, kind: Kind, subkind: &str, title: &str, body: &str) -> Node {
    Node {
        id,
        uid: format!("01JXGABCDEF123456789{:06}", id),
        kind,
        subkind: Some(subkind.to_string()),
        project_id: None,
        collection_id: None,
        parent_id: None,
        title: Some(title.to_string()),
        body: Some(body.to_string()),
        path: None,
        span_start: None,
        span_end: None,
        lang: None,
        tags_text: String::new(),
        content_hash: None,
        meta: Meta::empty(),
        created_at: 1_780_000_000,
        updated_at: 1_780_000_000,
        access_count: 0,
        last_accessed: None,
        pinned: false,
        superseded_by: None,
        deleted_at: None,
    }
}

#[test]
fn sanitize_tags_strips_markup_and_drops_empties() {
    let got = sanitize_tags(vec![
        "<img/src=x/onerror=alert(1)>".into(),
        "auth".into(),
        "<>&\"'".into(),
        "  postgres  ".into(),
    ]);
    // markup chars gone, empties dropped, whitespace trimmed
    assert_eq!(got, vec!["img/src=x/onerror=alert(1)", "auth", "postgres"]);
    assert!(got.iter().all(|t| !t.contains('<') && !t.contains('>')));
}

#[test]
fn sanitize_fires_when_normalizes_caps_and_drops_oversized() {
    let got = sanitize_fires_when(vec![
        "  Release   Checklist  ".into(),
        "CUTTING a release".into(),
        "".into(),
        "   ".into(),
        "this phrase has way more than six words in it".into(),
    ]);
    assert_eq!(got, vec!["release checklist", "cutting a release"]);
}

#[test]
fn sanitize_fires_when_caps_at_eight_phrases() {
    let phrases: Vec<String> = (0..12).map(|i| format!("phrase {i}")).collect();
    assert_eq!(sanitize_fires_when(phrases).len(), 8);
}

/// A store of memories, as the tables would keep it.
struct Store {
    nodes: Vec<Node>,
}

impl Store {
    fn new() -> Store {
        Store { nodes: vec![] }
    }

    fn insert(&mut self, new: NewNode) -> i64 {
        let id = self.nodes.len() as i64 + 1;
        let mut n = node(id, Kind::Memory, "note", "", "");
        n.subkind = new.subkind;
        n.title = new.title;
        n.body = new.body;
        n.content_hash = new.content_hash;
        self.nodes.push(n);
        id
    }

    fn remember(&mut self, text: &str, force: bool) -> (RememberOutcome, Option<i64>) {
        let live: Vec<Node> = self
            .nodes
            .iter()
            .filter(|n| n.deleted_at.is_none())
            .cloned()
            .collect();
        let deleted: Vec<Node> = self
            .nodes
            .iter()
            .filter(|n| n.deleted_at.is_some())
            .cloned()
            .collect();
        let out = remember(
            Remember {
                text: text.into(),
                mtype: MemoryType::Note,
                tags: vec![],
                project_id: None,
                force,
                actor: Actor::System,
            },
            live.clone(),
            deleted,
            live,
        );
        let id = match &out {
            RememberOutcome::Created { node, .. } => Some(self.insert(node.clone())),
            _ => None,
        };
        (out, id)
    }

    fn forget(&mut self, id: i64) {
        self.nodes[id as usize - 1].deleted_at = Some(1);
    }
}

#[test]
fn remember_then_exact_duplicate_refused() {
    let mut s = Store::new();
    let first = s
        .remember("SCRAM auth rejects non-ASCII passwords", false)
        .1
        .expect("expected Created");
    // Same content, different whitespace/case → still a duplicate.
    match s.remember("scram auth  rejects\nnon-ascii passwords", false).0 {
        RememberOutcome::Duplicate(d) => assert_eq!(d.id, first),
        other => panic!("expected Duplicate, got {other:?}"),
    }
}

#[test]
fn forgotten_memory_is_not_silently_re_added() {
    let mut s = Store::new();
    let text = "staging db password rotation runs from the ops cron at 03:00 UTC";
    let first = s.remember(text, false).1.expect("expected Created");
    s.forget(first);

    // Same fact, reformatted the way a different extractor would emit it.
    match s
        .remember(
            "Staging DB password rotation runs from the OPS cron at 03:00 utc",
            false,
        )
        .0
    {
        RememberOutcome::Forgotten(gone) => {
            assert_eq!(gone.id, first);
            assert!(gone.deleted_at.is_some(), "must carry the tombstone date");
        }
        other => panic!("expected Forgotten, got {other:?}"),
    }

    // Refusing is not the same as making it impossible.
    let (forced, id) = s.remember(text, true);
    match forced {
        RememberOutcome::Created { revived, .. } => assert!(revived),
        other => panic!("forcing must override the tombstone: {other:?}"),
    }
    assert_ne!(id, Some(first));
    assert!(s.nodes[id.unwrap() as usize - 1].deleted_at.is_none());
}

#[test]
fn forgotten_memory_is_not_re_added_under_a_reword() {
    let mut s = Store::new();
    let first = s
        .remember("SCRAM auth rejects non-ASCII passwords at 03:00 UTC", false)
        .1
        .expect("expected Created");
    s.forget(first);
    match s
        .remember("scram auth rejects non-ascii passwords at 03:00 utc.", false)
        .0
    {
        RememberOutcome::Forgotten(gone) => assert_eq!(gone.id, first),
        other => panic!("expected Forgotten, got {other:?}"),
    }
}

#[test]
fn reword_guard_does_not_depend_on_memory_length() {
    for n in [5usize, 9, 12, 13, 20] {
        let mut s = Store::new();
        let base: String = (1..n).fold(String::new(), |mut s, i| {
            s.push_str(&format!("w{i} "));
            s
        }) + "tail";
        let first = s.remember(&base, false).1.expect("expected Created");
        s.forget(first);
        match s.remember(&format!("{base}."), false).0 {
            RememberOutcome::Forgotten(gone) => assert_eq!(gone.id, first),
            other => panic!(
                "[n={n} unique tokens] a forgotten memory walked back in \
                 under a one-token reword: {other:?}"
            ),
        }
    }
}

#[test]
fn short_distinct_facts_are_not_confused_for_a_reword() {
    let mut s = Store::new();
    let first = s.remember("redis port 6379", false).1.expect("expected Created");
    s.forget(first);
    assert!(
        matches!(
            s.remember("postgres port 5432", false).0,
            RememberOutcome::Created { .. }
        ),
        "a different fact of the same shape must still be capturable"
    );
}

#[test]
fn auto_archived_memory_does_not_block_re_adding() {
    let mut s = Store::new();
    let text = "cargo nextest needs a separate install on the CI image";
    let first = s.remember(text, false).1.expect("expected Created");
    // Exactly what the decay pass does.
    s.forget(first);
    s.nodes[first as usize - 1].meta.archived = Some(1);
    assert!(
        matches!(s.remember(text, false).0, RememberOutcome::Created { .. }),
        "decay archival must not masquerade as a deliberate forget"
    );
}

#[test]
fn live_duplicate_wins_over_an_older_tombstone() {
    let mut s = Store::new();
    let text = "the proxy strips cache breakpoints above four";
    let first = s.remember(text, false).1.expect("expected Created");
    s.forget(first);
    let revived = s.remember(text, true).1.expect("expected Created");
    match s.remember(text, false).0 {
        RememberOutcome::Duplicate(d) => assert_eq!(d.id, revived),
        other => panic!("expected Duplicate, got {other:?}"),
    }
}

#[test]
fn near_duplicate_refused_force_overrides() {
    let mut s = Store::new();
    s.remember("the indexer walks gitignore files using the ignore crate", false);
    let again = "the indexer walks gitignore files using the ignore crate now";
    match s.remember(again, false).0 {
        RememberOutcome::Duplicate(_) => {}
        other => panic!("expected Duplicate, got {other:?}"),
    }
    assert!(matches!(
        s.remember(again, true).0,
        RememberOutcome::Created { revived: false, .. }
    ));
}

#[test]
fn distinct_memories_both_stored() {
    let mut s = Store::new();
    s.remember("use WAL mode for concurrent readers", false);
    s.remember("prefer RRF over score normalization for fusion", false);
    assert_eq!(s.nodes.len(), 2);
}

#[test]
fn edit_updates_body_title_and_hash() {
    let mut s = Store::new();
    let id = s.remember("original text here", false).1.unwrap();
    let n = &s.nodes[id as usize - 1];
    let (mut revisions, mut ledger) = (vec![], vec![]);
    let updated = edit(
        n,
        Edit {
            text: Some("completely new body".into()),
            title: None,
            mtype: None,
            tags: None,
        },
        Actor::Human,
        None,
        &mut revisions,
        &mut ledger,
        7,
    );
    assert_eq!(updated.updated_at, 7);
    assert_eq!(
        revisions[0].revision.body.as_deref(),
        Some("original text here")
    );
    assert_eq!(ledger[0].op, MutationOp::Edit);
    assert_eq!(ledger[0].before_hash, n.content_hash);
    assert_eq!(ledger[0].after_hash, updated.content_hash);
    assert_eq!(updated.title.as_deref(), Some("completely new body"));
    assert_ne!(updated.content_hash, n.content_hash);
    assert_eq!(
        updated.content_hash,
        Some(content_hash("completely new body"))
    );
}

#[test]
fn hash_ignores_case_and_spacing() {
    assert_eq!(content_hash("A  b"), content_hash("a b"));
    assert_ne!(content_hash("a b"), content_hash("a c"));
    assert_eq!(
        content_hash("a b"),
        blake3::hash("a b".as_bytes()).as_bytes().to_vec()
    );
}

#[test]
fn tokens_keep_inner_punctuation() {
    assert_eq!(tokens("Edit file.rs, now"), vec!["edit", "file.rs", "now"]);
    assert_eq!(
        tokens("Fix file.rs, snake_case & kebab-case: UTC."),
        vec!["fix", "file.rs", "snake_case", "kebab-case", "utc."]
    );
}

#[test]
fn a_blank_keeps_tokens_apart() {
    for (a, b) in [("Fix file.rs,", "& UTC."), ("", "x"), ("ΟΔΟΣ", "Σ İ"), ("..", "-")] {
        let mut both = tokens(a);
        both.extend(tokens(b));
        assert_eq!(tokens(&format!("{a} {b}")), both);
        assert!(both.iter().all(|t| !t.is_empty()));
    }
}

#[test]
fn derive_title_truncates() {
    assert_eq!(derive_title("short one\nsecond line"), "short one");
    let long = "x".repeat(100);
    let title = derive_title(&long);
    assert_eq!(title.chars().count(), 81); // 80 + ellipsis
}

#[test]
fn parse_expires_in_accepts_hours_days_weeks() {
    let now = 1_000_000;
    assert_eq!(parse_expires_in("12h", now), Some(now + 43_200));
    assert_eq!(parse_expires_in("90d", now), Some(now + 7_776_000));
    assert_eq!(parse_expires_in("2w", now), Some(now + 1_209_600));
    // Forgiving about spelling and padding, since this is hand-typed.
    assert_eq!(parse_expires_in("  3 DAYS ", now), None); // inner space is not
    assert_eq!(parse_expires_in("3days", now), Some(now + 259_200));
    assert_eq!(parse_expires_in(" 1W ", now), Some(now + 604_800));
}

#[test]
fn parse_expires_in_rejects_rather_than_guesses() {
    let now = 1_000_000;
    // No unit: "30" could be seconds, days, anything. Refuse.
    assert_eq!(parse_expires_in("30", now), None);
    // Ambiguous-length units are deliberately unsupported.
    assert_eq!(parse_expires_in("6m", now), None);
    assert_eq!(parse_expires_in("1y", now), None);
    // Zero/negative would store an already-passed expiry, hiding the
    // memory the instant it was written.
    assert_eq!(parse_expires_in("0d", now), None);
    assert_eq!(parse_expires_in("-5d", now), None);
    assert_eq!(parse_expires_in("", now), None);
    assert_eq!(parse_expires_in("soon", now), None);
    // Overflow must not wrap into the past.
    assert_eq!(parse_expires_in("999999999999999999999d", now), None);
}

#[test]
fn distinct_memories_both_stored_and_listed() {
    let mut s = Store::new();
    s.remember("use WAL mode for concurrent readers", false);
    s.remember("prefer RRF over score normalization for fusion", false);
    let all = list(&s.nodes, Scope::All, None, None, 10);
    assert_eq!(all.len(), 2);
}

#[test]
fn list_filters_by_type_and_tag() {
    let mut gotcha = node(1, Kind::Memory, "gotcha", "tagged gotcha", "tagged gotcha");
    gotcha.tags_text = "sqlite".into();
    let nodes = vec![
        gotcha,
        node(2, Kind::Memory, "note", "plain note", "plain note"),
    ];
    let gotchas = list(&nodes, Scope::All, Some(MemoryType::Gotcha), None, 10);
    assert_eq!(gotchas.len(), 1);
    let tagged = list(&nodes, Scope::All, None, Some("sqlite"), 10);
    assert_eq!(tagged.len(), 1);
    let missing = list(&nodes, Scope::All, None, Some("nope"), 10);
    assert!(missing.is_empty());
    // A tag is asked for whole and as it is written.
    assert!(list(&nodes, Scope::All, None, Some("sql"), 10).is_empty());
    assert!(list(&nodes, Scope::All, None, Some("SQLite"), 10).is_empty());
    assert!(list(&nodes, Scope::All, None, Some("sq_ite"), 10).is_empty());
    assert!(list(&nodes, Scope::All, None, Some("sql%"), 10).is_empty());
}

#[test]
fn a_tag_of_two_words_is_found_as_a_run() {
    let mut a = node(1, Kind::Memory, "note", "a", "a");
    a.tags_text = "db two words ops".into();
    let mut b = node(2, Kind::Memory, "note", "b", "b");
    b.tags_text = "two db words".into();
    let c = node(3, Kind::Memory, "note", "c", "c");
    let nodes = vec![a, b, c];
    let found = |tag: &str| {
        let mut ids: Vec<i64> =
            list(&nodes, Scope::All, None, Some(tag), 10).iter().map(|n| n.id).collect();
        ids.sort();
        ids
    };
    assert_eq!(found("two words"), vec![1]);
    assert_eq!(found("words ops"), vec![1]);
    assert_eq!(found("two"), vec![1, 2]);
    assert_eq!(found("db"), vec![1, 2]);
    assert!(found("words two").is_empty());
    assert!(found("wo words").is_empty());
    assert!(found("two  words").is_empty());
    // Asking for no word finds what has no tag.
    assert_eq!(found(""), vec![3]);
}

#[test]
fn listing_is_newest_first_and_bounded() {
    let mut nodes = vec![
        node(1, Kind::Memory, "note", "a", "a"),
        node(2, Kind::Memory, "note", "b", "b"),
        node(3, Kind::Memory, "note", "c", "c"),
    ];
    nodes[0].created_at += 5;
    nodes[2].deleted_at = Some(1);
    let ids: Vec<i64> = list(&nodes, Scope::All, None, None, 10)
        .iter()
        .map(|n| n.id)
        .collect();
    assert_eq!(ids, vec![1, 2]);
    assert_eq!(list(&nodes, Scope::All, None, None, 1).len(), 1);
}

#[test]
fn the_gist_leaves_out_short_and_ignored_words() {
    let stop = vec!["with".to_string()];
    assert_eq!(
        gist_of("Run the Installer WITH care", &stop),
        vec!["installer", "care"]
    );
}

#[test]
fn saying_again_is_mutual() {
    let a = "redis port 6379";
    let b = "redis default port 6379";
    assert!(is_reword(a, b) && is_reword(b, a));
    assert!(!is_reword(a, "redis port 5432") && !is_reword("redis port 5432", a));
    assert!(!is_reword("", a));
    assert!(is_near_duplicate(a, a) && !is_near_duplicate(a, b));
}

#[test]
fn a_few_added_words_are_the_same_fact_and_more_are_not() {
    let fact = "the deploy token rotates";
    assert!(is_reword(fact, "the deploy token rotates on Sundays again"));
    assert!(!is_reword(
        fact,
        "the deploy token rotates on Sundays again today"
    ));
}

#[test]
fn a_full_stop_never_hides_a_rewording() {
    for text in ["utc", "redis port 6379", "ports stay closed ", "é is kept at 9"] {
        for mark in [".", "-", "_"] {
            let marked = format!("{text}{mark}");
            assert!(is_reword(text, &marked), "{marked}");
            assert!(is_reword(&marked, text), "{marked}");
        }
    }
    for text in ["ΟΔΟΣ", "İ", "Ⓐ x", "Σ", "日本", "a"] {
        assert!(is_reword(text, text), "{text}");
        for mark in [".", "-", "_"] {
            let marked = format!("{text}{mark}");
            assert!(is_reword(text, &marked), "{marked}");
            assert!(is_reword(&marked, text), "{marked}");
        }
    }
    assert!(!is_reword("", "."));
    assert!(!is_reword("...", "..."));
    assert_eq!(tokens("Over TO file.rs."), vec!["over", "to", "file.rs."]);
}

#[test]
fn an_edit_of_the_tags_keeps_title_and_hash() {
    let mut s = Store::new();
    let id = s.remember("original text here", false).1.unwrap();
    s.nodes[id as usize - 1].title = Some("A title of my own".into());
    let n = &s.nodes[id as usize - 1];
    let (mut revisions, mut ledger) = (vec![], vec![]);
    let updated = edit(
        n,
        Edit {
            text: None,
            title: None,
            mtype: None,
            tags: Some(vec!["ops".into()]),
        },
        Actor::Human,
        None,
        &mut revisions,
        &mut ledger,
        7,
    );
    assert_eq!(updated.title.as_deref(), Some("A title of my own"));
    assert_eq!(updated.body, n.body);
    assert_eq!(updated.content_hash, n.content_hash);
    assert_eq!(updated.tags_text, "ops");
}

#[test]
fn the_content_hash_is_that_of_the_tokens() {
    let want = blake3::hash(b"scram auth").as_bytes().to_vec();
    assert_eq!(content_hash("  SCRAM,\n auth!"), want);
}

#[test]
fn a_revival_is_written_down_and_an_ordinary_memory_is_not() {
    let mut s = Store::new();
    let mut ledger: Vec<Mutation> = vec![];
    let text = "staging db password rotation runs from the ops cron at 03:00 UTC";
    let (out, id) = s.remember(text, false);
    record_revival(&mut ledger, &out, id.unwrap(), Actor::Human, 5);
    assert!(ledger.is_empty());

    s.forget(id.unwrap());
    let (out, _) = s.remember("staging db password rotation runs from the ops cron at 03:00 utc.", false);
    assert!(matches!(out, RememberOutcome::Forgotten(_)));
    record_revival(&mut ledger, &out, 9, Actor::Human, 6);
    assert!(ledger.is_empty());

    let (out, id) = s.remember(text, true);
    record_revival(&mut ledger, &out, id.unwrap(), Actor::Human, 7);
    assert_eq!(ledger.len(), 1);
    assert_eq!(ledger[0].node_id, id.unwrap());
    assert_eq!(ledger[0].op, MutationOp::Restore);
    assert_eq!(ledger[0].at, 7);
    assert_eq!(
        ledger[0].reason.as_deref(),
        Some("--force over a deliberate tombstone")
    );
    assert_eq!(ledger[0].before_hash, None);
    assert_eq!(ledger[0].after_hash, Some(content_hash(text)));
}
