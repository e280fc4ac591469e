use mimir_core::audit::{history, Mutation};
use mimir_core::grounding::Grounding;
use mimir_core::memory::content_hash;
use mimir_core::model::{Actor, Kind, Meta, MutationOp, Node};
use mimir_core::review::{
    decide, decision_note, enqueue, find_node, open, open_count, order_by_age, scan, Disposition,
    Effect, Finding, Row,
};

const NOW: i64 = 1_780_000_000;

fn node(id: i64, kind: Kind, subkind: &str, title: &str, body: &str) -> Node {
    Node {
        id,
        uid: format!("01JXGABCDEF123456789{:06}", id),
        kind,
        subkind: Some(subkind.to_string()),
        project_id: None,
        collection_id: None,
        parent_id: None,
        title: Some(title.to_string()),
        body: Some(body.to_string()),
        path: None,
        span_start: None,
        span_end: None,
        lang: None,
        tags_text: String::new(),
        content_hash: None,
        meta: Meta::empty(),
        created_at: 1_780_000_000,
        updated_at: 1_780_000_000,
        access_count: 0,
        last_accessed: None,
        pinned: false,
        superseded_by: None,
        deleted_at: None,
    }
}


struct Desk {
    nodes: Vec<Node>,
    rows: Vec<Row>,
    ledger: Vec<Mutation>,
}

impl Desk {
    fn new() -> Desk {
        Desk {
            nodes: vec![],
            rows: vec![],
            ledger: vec![],
        }
    }

    fn memory(&mut self, body: &str, created_at: i64) -> i64 {
        let id = self.nodes.len() as i64 + 1;
        let mut n = node(id, Kind::Memory, "note", body, body);
        n.content_hash = Some(content_hash(body));
        n.created_at = created_at;
        self.nodes.push(n);
        id
    }

    fn raise(&mut self, f: Finding, node: i64, other: Option<i64>, detail: Option<&str>) {
        let id = self.rows.len() as i64 + 1;
        enqueue(&mut self.rows, id, f, node, other, detail, NOW);
    }

    fn decide(&mut self, id: i64, d: Disposition, reason: Option<&str>) -> bool {
        match decide(
            &mut self.rows,
            &mut self.ledger,
            &self.nodes,
            id,
            d,
            reason,
            NOW,
        ) {
            Ok((_, effect)) => {
                if let Effect::Supersede { older, newer } = effect {
                    self.nodes[older as usize - 1].superseded_by = Some(newer);
                }
                true
            }
            Err(_) => false,
        }
    }

    fn scan(&mut self) -> usize {
        let first = self.rows.len() as i64 + 1;
        let groundings = vec![Grounding::Ungrounded; self.nodes.len()];
        scan(&mut self.rows, first, &self.nodes, &groundings, NOW)
    }
}

#[test]
fn a_finding_waits_for_a_person_and_records_who_decided() {
    let mut d = Desk::new();
    let a = d.memory("the cron runs at 03:00", 1000);
    let b = d.memory("the cron runs at 04:00", 2000);
    d.raise(Finding::Contradiction, a, Some(b), Some("03:00 vs 04:00"));

    assert_eq!(open_count(&d.rows), 1);
    let first = open(&d.rows, 10)[0].item.clone();
    assert_eq!(first.finding, Finding::Contradiction);

    assert!(d.decide(
        first.id,
        Disposition::Supersede,
        Some("schedule changed after the incident"),
    ));

    assert_eq!(open_count(&d.rows), 0, "a decided item leaves the queue");
    assert_eq!(
        d.nodes[a as usize - 1].superseded_by,
        Some(b),
        "the older memory must be the one retired"
    );
    let h = history(&d.ledger, a);
    assert_eq!(h.last().unwrap().op, MutationOp::Supersede);
    assert_eq!(h.last().unwrap().actor, Actor::Human);
    assert_eq!(
        h.last().unwrap().reason.as_deref(),
        Some("schedule changed after the incident")
    );
}

#[test]
fn re_detecting_neither_duplicates_nor_reopens() {
    let mut d = Desk::new();
    let a = d.memory("left", 1000);
    let b = d.memory("right", 2000);

    d.raise(Finding::Contradiction, a, Some(b), None);
    d.raise(Finding::Contradiction, a, Some(b), None);
    assert_eq!(open_count(&d.rows), 1, "same finding, one row");

    let id = open(&d.rows, 10)[0].item.id;
    assert!(d.decide(id, Disposition::Dismiss, Some("both are fine")));
    d.raise(Finding::Contradiction, a, Some(b), None);
    assert_eq!(
        open_count(&d.rows),
        0,
        "a dismissed finding must stay dismissed"
    );
}

#[test]
fn keeping_records_the_decision_without_touching_the_memory() {
    let mut d = Desk::new();
    let a = d.memory("both of these are true", 1000);
    let b = d.memory("and so is this", 2000);
    d.raise(Finding::Contradiction, a, Some(b), None);
    let id = open(&d.rows, 10)[0].item.id;

    assert!(d.decide(id, Disposition::Keep, Some("different environments")));

    assert!(
        d.nodes[a as usize - 1].superseded_by.is_none(),
        "keep must not retire anything"
    );
    let h = history(&d.ledger, a);
    assert_eq!(h.len(), 1);
    assert_eq!(h[0].op, MutationOp::Review);
    assert!(h[0]
        .reason
        .as_deref()
        .unwrap()
        .contains("different environments"));
}

#[test]
fn superseding_needs_something_to_supersede_with() {
    let mut d = Desk::new();
    let a = d.memory("a memory whose link went stale", 1000);
    d.raise(Finding::StaleGrounding, a, None, Some("symbol gone"));
    let id = open(&d.rows, 10)[0].item.id;

    assert!(
        !d.decide(id, Disposition::Supersede, None),
        "there is no replacement, so this must error rather than guess"
    );
    assert_eq!(
        open_count(&d.rows),
        1,
        "a failed decision must leave the item open"
    );
}

#[test]
fn deciding_twice_is_refused() {
    let mut d = Desk::new();
    let a = d.memory("something", 1000);
    d.raise(Finding::Unresolved, a, None, None);
    let id = open(&d.rows, 10)[0].item.id;
    assert!(d.decide(id, Disposition::Dismiss, None));
    assert!(!d.decide(id, Disposition::Keep, None));
    assert!(!d.decide(99, Disposition::Keep, None));
}

#[test]
fn scan_queues_an_expired_memory_with_an_unmet_condition() {
    let mut d = Desk::new();
    let id = d.memory("deluge needs the libtorrent 2.0 workaround", 1000);
    let meta = &mut d.nodes[id as usize - 1].meta;
    meta.expires_at = Some(2000);
    meta.resolves_when = Some("when upstream ships 2.1".into());

    d.scan();

    let items = open(&d.rows, 10);
    assert_eq!(items.len(), 1, "expected one finding: {items:?}");
    assert_eq!(items[0].item.finding, Finding::Unresolved);
    assert_eq!(
        items[0].item.detail.as_deref(),
        Some("when upstream ships 2.1")
    );
}

#[test]
fn scan_leaves_an_unexpired_condition_alone() {
    let mut d = Desk::new();
    let id = d.memory("still true for now", 1000);
    let meta = &mut d.nodes[id as usize - 1].meta;
    meta.expires_at = Some(NOW + 86_400);
    meta.resolves_when = Some("when the migration lands".into());
    d.scan();
    assert_eq!(open_count(&d.rows), 0);
}

#[test]
fn a_condition_without_a_declared_expiry_is_left_alone() {
    let mut d = Desk::new();
    let id = d.memory("true until the migration lands", 1000);
    d.nodes[id as usize - 1].meta.resolves_when = Some("when the migration lands".into());
    scan(&mut d.rows, 1, &d.nodes, &vec![Grounding::Ungrounded], i64::MAX);
    assert_eq!(open_count(&d.rows), 0);
}

#[test]
fn scan_reads_expiry_and_condition_in_any_form() {
    let raised = |json: &str, now: i64| {
        let mut d = Desk::new();
        let id = d.memory("expired with a condition", 1000);
        d.nodes[id as usize - 1].meta = Meta::parse(json);
        scan(&mut d.rows, 1, &d.nodes, &vec![Grounding::Ungrounded], now);
        d.rows.first().map(|r| r.item.detail.clone())
    };
    let half = "{\"expires_at\":2000.5,\"resolves_when\":\"done\"}";
    assert_eq!(raised(half, 2000), None);
    assert_eq!(raised(half, 2001), Some(Some("done".to_string())));
    let list = "{\"expires_at\":2000,\"resolves_when\":[1]}";
    assert_eq!(raised(list, 1999), None);
    assert_eq!(raised(list, 2000), Some(None));
    assert_eq!(raised("{\"expires_at\":2000,\"resolves_when\":null}", 2000), None);
    assert_eq!(raised("{\"expires_at\":\"2000\",\"resolves_when\":\"x\"}", 2000), None);
}

#[test]
fn scanning_repeatedly_is_idempotent() {
    let mut d = Desk::new();
    let id = d.memory("expired with a condition", 1000);
    let meta = &mut d.nodes[id as usize - 1].meta;
    meta.expires_at = Some(2000);
    meta.resolves_when = Some("someday".into());
    for _ in 0..3 {
        d.scan();
    }
    assert_eq!(open_count(&d.rows), 1);
}

#[test]
fn the_next_scan_raises_the_rest() {
    let mut d = Desk::new();
    for i in 0..60 {
        let id = d.memory(&format!("condition {i}"), 1000 + i);
        let meta = &mut d.nodes[id as usize - 1].meta;
        meta.expires_at = Some(2000);
        meta.resolves_when = Some("someday".into());
    }
    let waiting: Vec<usize> = (0..4).map(|_| d.scan()).collect();
    assert_eq!(waiting, vec![25, 50, 60, 60]);
    // The newest come first.
    assert_eq!(d.rows[0].item.node_id, 60);
    assert_eq!(d.rows[59].item.node_id, 1);
}

#[test]
fn a_stale_grounding_is_queued_with_its_label() {
    let mut d = Desk::new();
    d.memory("the old pruner", 1000);
    let groundings = vec![Grounding::Stale {
        kind: Kind::Symbol,
        label: "prune_on_write".into(),
    }];
    scan(&mut d.rows, 1, &d.nodes, &groundings, NOW);
    let items = open(&d.rows, 10);
    assert_eq!(items.len(), 1);
    assert_eq!(items[0].item.finding, Finding::StaleGrounding);
    assert_eq!(
        items[0].item.detail.as_deref(),
        Some("symbol prune_on_write")
    );
}

#[test]
fn names_of_findings_read_back() {
    for f in [
        Finding::Contradiction,
        Finding::StaleGrounding,
        Finding::Unresolved,
        Finding::Resurfacing,
    ] {
        assert_eq!(Finding::parse(f.as_str()), Some(f));
        assert_eq!(Finding::from_row(f.as_str()), f);
    }
    assert_eq!(Finding::parse("other"), None);
    let note = decision_note(Disposition::Dismiss, Finding::Unresolved, Some("why"));
    assert!(note.contains(Disposition::Dismiss.as_str()) && note.contains("why"));
}

#[test]
fn the_older_memory_yields() {
    let mut d = Desk::new();
    let a = d.memory("a", 2000);
    let b = d.memory("b", 1000);
    assert_eq!(order_by_age(&d.nodes, a, b), Some((b, a)));
    assert_eq!(order_by_age(&d.nodes, a, 99), None);
    assert_eq!(find_node(&d.nodes, b), Some(1));
}
