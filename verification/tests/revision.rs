use mimir_core::audit::Mutation;
use mimir_core::memory::{content_hash, edit, Edit};
use mimir_core::model::{Actor, Kind, Meta, MutationOp, Node};
use mimir_core::revision::{history, purge, snapshot, text_at, Revision, Row};

const NOW: i64 = 1_780_000_000;

fn node(id: i64, kind: Kind, subkind: &str, title: &str, body: &str) -> Node {
    Node {
        id,
        uid: format!("01JXGABCDEF123456789{:06}", id),
        kind,
        subkind: Some(subkind.to_string()),
        project_id: None,
        collection_id: None,
        parent_id: None,
        title: Some(title.to_string()),
        body: Some(body.to_string()),
        path: None,
        span_start: None,
        span_end: None,
        lang: None,
        tags_text: String::new(),
        content_hash: None,
        meta: Meta::empty(),
        created_at: 1_780_000_000,
        updated_at: 1_780_000_000,
        access_count: 0,
        last_accessed: None,
        pinned: false,
        superseded_by: None,
        deleted_at: None,
    }
}


fn memory_node(body: &str) -> Node {
    let mut n = node(1, Kind::Memory, "note", body, body);
    n.content_hash = Some(content_hash(body));
    n
}

fn reword(rows: &mut Vec<Row>, n: &mut Node, text: &str) {
    let mut ledger: Vec<Mutation> = vec![];
    let e = edit(
        n,
        Edit {
            text: Some(text.to_string()),
            title: None,
            mtype: None,
            tags: None,
        },
        Actor::Human,
        Some("region migration"),
        rows,
        &mut ledger,
        NOW,
    );
    assert_eq!(ledger.len(), 1);
    assert_eq!(ledger[0].op, MutationOp::Edit);
    assert_eq!(ledger[0].reason.as_deref(), Some("region migration"));
    assert_eq!(ledger[0].before_hash, n.content_hash);
    assert_eq!(ledger[0].after_hash, e.content_hash);
    n.title = e.title;
    n.body = e.body;
}

#[test]
fn an_edit_keeps_what_the_memory_used_to_say() {
    let mut rows: Vec<Row> = vec![];
    let mut n = memory_node("deploys go to eu-west-1");
    reword(&mut rows, &mut n, "deploys go to eu-north-1");
    let h = history(&rows, 1);
    assert_eq!(h.len(), 1, "the pre-edit text must be kept: {h:?}");
    assert_eq!(
        h[0].revision.body.as_deref(),
        Some("deploys go to eu-west-1")
    );
    assert_eq!(
        n.body.as_deref(),
        Some("deploys go to eu-north-1"),
        "the live row must still carry the new text"
    );
}

#[test]
fn forgetting_purges_the_history_too() {
    let mut rows: Vec<Row> = vec![];
    let mut n = memory_node("Plumbus Vantablack-7 is the staging root password hint");
    reword(&mut rows, &mut n, "Plumbus Vantablack-7 was rotated out");
    assert_eq!(history(&rows, 1).len(), 1);
    assert_eq!(purge(&mut rows, 1), 1);
    assert!(
        history(&rows, 1).is_empty(),
        "a deliberate forget must leave no prior version behind"
    );
    assert!(
        !rows
            .iter()
            .any(|r| r.revision.body.as_deref().is_some_and(|b| b.contains("Vantablack"))),
        "the deleted value survived among the revisions"
    );
}

#[test]
fn decay_archival_keeps_the_history() {
    let mut rows: Vec<Row> = vec![];
    let mut n = memory_node("cargo nextest needs a separate install");
    reword(
        &mut rows,
        &mut n,
        "cargo nextest needs a separate install on CI",
    );
    // Exactly what the decay pass does.
    n.deleted_at = Some(1);
    n.meta.archived = Some(1);
    assert_eq!(
        history(&rows, 1).len(),
        1,
        "archival is not a deletion and must not destroy history"
    );
}

#[test]
fn text_at_returns_the_wording_that_was_live_then() {
    let rows = vec![Row {
        node_id: 1,
        revision: Revision {
            at: 1000,
            title: Some("the retry budget is 3".into()),
            body: Some("the retry budget is 3".into()),
        },
    }];
    let then = text_at(&rows, 1, 500).expect("a prior version");
    assert_eq!(
        then.revision.body.as_deref(),
        Some("the retry budget is 3")
    );
    assert!(
        text_at(&rows, 1, 2000).is_none(),
        "after the last revision the current text applies"
    );
}

#[test]
fn ordinary_capture_writes_no_revision() {
    let rows: Vec<Row> = vec![];
    assert!(
        history(&rows, 1).is_empty(),
        "history is for changes, not for existing"
    );
}

#[test]
fn only_memories_have_revisions_and_others_are_left_alone() {
    let mut rows: Vec<Row> = vec![];
    let mut chunk = memory_node("a chunk");
    chunk.kind = Kind::Chunk;
    snapshot(&mut rows, &chunk, NOW);
    assert!(rows.is_empty());
    let mut other = memory_node("another");
    other.id = 2;
    snapshot(&mut rows, &other, NOW);
    assert_eq!(purge(&mut rows, 1), 0);
    assert_eq!(history(&rows, 2).len(), 1);
}
