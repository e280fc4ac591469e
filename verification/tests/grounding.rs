use mimir_core::grounding::{grounding, newest_first, stale_memories, tally, Grounding, Link};
use mimir_core::model::{Kind, Meta, Node};

fn node(id: i64, kind: Kind, subkind: &str, title: &str, body: &str) -> Node {
    Node {
        id,
        uid: format!("01JXGABCDEF123456789{:06}", id),
        kind,
        subkind: Some(subkind.to_string()),
        project_id: None,
        collection_id: None,
        parent_id: None,
        title: Some(title.to_string()),
        body: Some(body.to_string()),
        path: None,
        span_start: None,
        span_end: None,
        lang: None,
        tags_text: String::new(),
        content_hash: None,
        meta: Meta::empty(),
        created_at: 1_780_000_000,
        updated_at: 1_780_000_000,
        access_count: 0,
        last_accessed: None,
        pinned: false,
        superseded_by: None,
        deleted_at: None,
    }
}


fn link(kind: Kind, label: &str, alive: bool) -> Link {
    Link {
        kind: kind.as_str().to_string(),
        label: label.to_string(),
        alive,
    }
}

#[test]
fn unlinked_memory_is_ungrounded() {
    assert_eq!(grounding(&vec![]), Grounding::Ungrounded);
}

#[test]
fn memory_linked_to_a_live_symbol_is_grounded() {
    assert!(matches!(
        grounding(&vec![link(Kind::Symbol, "retry_with_backoff", true)]),
        Grounding::Grounded { kind: Kind::Symbol, label } if label == "retry_with_backoff"
    ));
}

#[test]
fn grounding_goes_stale_when_the_symbol_disappears() {
    let mut links = vec![link(Kind::Symbol, "retry_with_backoff", true)];
    assert!(!grounding(&links).is_stale());
    links[0].alive = false;
    let g = grounding(&links);
    assert!(g.is_stale(), "symbol is gone; the claim is falsified");
    assert_eq!(g.target(), Some((Kind::Symbol, "retry_with_backoff")));
}

#[test]
fn one_live_artifact_outweighs_a_dead_one() {
    let links = vec![
        link(Kind::CodeChunk, "old_chunk", false),
        link(Kind::File, "src/index/mod.rs", true),
    ];
    assert!(matches!(
        grounding(&links),
        Grounding::Grounded {
            kind: Kind::File,
            ..
        }
    ));
}

#[test]
fn linking_to_another_memory_grounds_nothing() {
    assert_eq!(
        grounding(&vec![link(Kind::Memory, "backoff was tuned", true)]),
        Grounding::Ungrounded
    );
}

#[test]
fn tally_and_stale_listing_agree() {
    let nodes = vec![
        node(1, Kind::Memory, "note", "chunker splits", "chunker splits on symbol boundaries"),
        node(2, Kind::Memory, "note", "the old pruner", "the old pruner ran on every write"),
        node(3, Kind::Memory, "note", "prefer ripgrep", "prefer ripgrep over find on this box"),
    ];
    let groundings = vec![
        grounding(&vec![link(Kind::Symbol, "chunk_source", true)]),
        grounding(&vec![link(Kind::Symbol, "prune_on_write", false)]),
        grounding(&vec![]),
    ];
    assert_eq!(tally(&nodes, &groundings), (1, 1, 1));
    let stale = stale_memories(&nodes, &groundings, 10);
    assert_eq!(stale.len(), 1);
    assert_eq!(nodes[stale[0].0].id, 2);
    assert_eq!(stale[0].1, "symbol prune_on_write");
    // What is deleted or replaced is counted nowhere.
    let mut nodes = nodes;
    nodes[1].deleted_at = Some(1);
    nodes[2].superseded_by = Some(1);
    assert_eq!(tally(&nodes, &groundings), (1, 0, 0));
    assert!(stale_memories(&nodes, &groundings, 10).is_empty());
}

#[test]
fn labels_name_the_status() {
    let g = grounding(&vec![link(Kind::File, "a.rs", true)]);
    assert_eq!(g.label(), "grounded");
    assert_eq!(Grounding::Ungrounded.label(), "ungrounded");
    assert_eq!(Grounding::Ungrounded.target(), None);
}

#[test]
fn the_newest_memory_comes_first() {
    let mut nodes = vec![
        node(1, Kind::Memory, "note", "a", "a"),
        node(2, Kind::Memory, "note", "b", "b"),
        node(3, Kind::Memory, "note", "c", "c"),
    ];
    nodes[1].updated_at += 5;
    nodes[1].created_at += 5;
    assert_eq!(newest_first(&nodes)[0], 1);
    let groundings: Vec<Grounding> = (0..3)
        .map(|i| grounding(&vec![link(Kind::File, &format!("f{i}"), false)]))
        .collect();
    let stale = stale_memories(&nodes, &groundings, 1);
    assert_eq!(stale, vec![(1, "file f1".to_string())]);
}
