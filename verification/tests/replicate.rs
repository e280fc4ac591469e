use mimir_core::memory::content_hash;
use mimir_core::model::Kind;
use mimir_core::replicate::{
    apply_changes, changes_since, current_high_watermark, from_hex, get_watermark, machine_id,
    meta_key, new_token, project_is_syncable, set_watermark, snapshot, to_hex, ApplyStats,
    LocalEdge, Memory, Project, SyncBatch, SyncEdge, SyncRecord,
};

const NOW: i64 = 1_780_000_000;

/// One machine's memories.
struct Peer {
    rows: Vec<Memory>,
    projects: Vec<Project>,
    edges: Vec<LocalEdge>,
}

impl Peer {
    fn new() -> Peer {
        Peer {
            rows: vec![],
            projects: vec![],
            edges: vec![],
        }
    }

    fn project(&mut self, key: &str, sync: bool) -> i64 {
        let id = 1000 + self.projects.len() as i64;
        self.projects.push(Project {
            id,
            meta: format!("{{\"portable_key\":\"{key}\",\"sync\":{sync}}}"),
        });
        id
    }

    fn mem(&mut self, project_id: Option<i64>, text: &str) -> Memory {
        let m = Memory {
            id: self.rows.len() as i64 + 1,
            uid: new_token(),
            kind: Kind::Memory,
            subkind: Some("note".into()),
            project_id,
            title: Some(text.into()),
            body: Some(text.into()),
            tags_text: "t".into(),
            pinned: false,
            content_hash: Some(content_hash(text)),
            meta: "{}".into(),
            created_at: NOW,
            updated_at: NOW,
            deleted_at: None,
        };
        self.rows.push(m.clone());
        m
    }

    fn snapshot(&self) -> SyncBatch {
        snapshot(&self.rows, &self.projects, &self.edges).unwrap()
    }

    /// Merges a batch, with a project of its own for every key it does not know.
    fn apply(&mut self, batch: &SyncBatch) -> ApplyStats {
        let mut ids: Vec<Option<i64>> = vec![];
        for r in &batch.nodes {
            ids.push(match &r.project_key {
                None => None,
                Some(key) => {
                    let wanted = format!("\"{key}\"");
                    let known = self.projects.iter().find(|p| p.meta.contains(&wanted));
                    Some(match known {
                        Some(p) => p.id,
                        None => self.project(key, true),
                    })
                }
            });
        }
        let first = self.rows.len() as i64 + 1;
        let applied = apply_changes(&mut self.rows, batch, &ids, first);
        for l in &applied.links {
            self.edges.push(LocalEdge {
                src: l.src,
                dst: l.dst,
                rel: l.rel.as_str().to_string(),
                weight_bits: l.weight_bits,
                created_at: NOW,
            });
        }
        applied.stats
    }

    fn of(&self, uid: &str) -> &Memory {
        self.rows.iter().find(|m| m.uid == uid).expect("a row")
    }
}

fn record(uid: &str, body: &str, updated_at: i64) -> SyncRecord {
    SyncRecord {
        uid: uid.into(),
        mtype: Some("note".into()),
        title: Some("x".into()),
        body: Some(body.into()),
        tags: vec![],
        pinned: false,
        content_hash: None,
        meta: "{}".into(),
        created_at: NOW,
        updated_at,
        deleted_at: None,
        project_key: None,
    }
}

fn batch_of(r: SyncRecord) -> SyncBatch {
    SyncBatch {
        nodes: vec![r],
        edges: vec![],
        watermark: 0,
    }
}

#[test]
fn project_memory_syncs_via_key_and_creates_shadow() {
    let mut a = Peer::new();
    let pid = a.project("git:github.com/o/r", true);
    let g = a.mem(None, "global fact");
    let pm = a.mem(Some(pid), "project fact");

    let batch = a.snapshot();
    assert_eq!(batch.nodes.len(), 2, "global + synced-project memory");
    let pr = batch.nodes.iter().find(|r| r.uid == pm.uid).unwrap();
    assert_eq!(pr.project_key.as_deref(), Some("git:github.com/o/r"));
    let gr = batch.nodes.iter().find(|r| r.uid == g.uid).unwrap();
    assert_eq!(gr.project_key, None);

    let mut b = Peer::new();
    b.apply(&batch);
    let shadow = b.projects.first().expect("shadow project created").id;
    assert_eq!(b.of(&pm.uid).project_id, Some(shadow));
    assert_eq!(
        b.of(&g.uid).project_id,
        None,
        "global stays global on the peer"
    );
}

#[test]
fn unsynced_project_memory_stays_local() {
    let mut a = Peer::new();
    // Has a key but sync=false → excluded from replication.
    let pid = a.project("git:github.com/o/r", false);
    a.mem(Some(pid), "private fact");
    a.mem(None, "global fact");
    let batch = a.snapshot();
    assert_eq!(batch.nodes.len(), 1, "only the global memory syncs");
    assert_eq!(batch.nodes[0].project_key, None);
}

#[test]
fn roundtrip_and_idempotent() {
    let mut a = Peer::new();
    a.mem(None, "alpha fact");
    a.mem(None, "beta fact");
    let batch = a.snapshot();
    assert_eq!(batch.nodes.len(), 2);

    let mut b = Peer::new();
    let s1 = b.apply(&batch);
    assert_eq!(s1.nodes_upserted, 2);
    // Second apply is a no-op (last-write-wins guard).
    let s2 = b.apply(&batch);
    assert_eq!(s2.nodes_upserted, 0);
    assert_eq!(s2.nodes_skipped, 2);
    assert_eq!(
        changes_since(&b.rows, &b.projects, &b.edges, i64::MIN)
            .unwrap()
            .nodes
            .len(),
        2
    );
    let uid = &a.rows[0].uid;
    assert_eq!(b.of(uid).content_hash, a.rows[0].content_hash);
    assert_eq!(b.of(uid).tags_text, "t");
}

#[test]
fn last_write_wins_both_directions() {
    let mut a = Peer::new();
    let n = a.mem(None, "shared fact");
    let mut b = Peer::new();
    b.apply(&a.snapshot());

    // Newer edit on A wins on B.
    a.rows[0].body = Some("edited".into());
    a.rows[0].updated_at += 100;
    b.apply(&a.snapshot());
    assert_eq!(b.of(&n.uid).body.as_deref(), Some("edited"));

    // A stale older edit must NOT overwrite.
    let s = b.apply(&batch_of(record(&n.uid, "STALE", 1)));
    assert_eq!(s.nodes_skipped, 1);
    assert_eq!(
        b.of(&n.uid).body.as_deref(),
        Some("edited"),
        "stale write rejected"
    );
}

#[test]
fn tombstone_propagates_and_sticks() {
    let mut a = Peer::new();
    let n = a.mem(None, "doomed fact");
    let mut b = Peer::new();
    b.apply(&a.snapshot());

    a.rows[0].deleted_at = Some(NOW + 5);
    a.rows[0].updated_at = NOW + 5;
    let batch = a.snapshot();
    assert!(batch
        .nodes
        .iter()
        .any(|r| r.uid == n.uid && r.deleted_at.is_some()));
    let s = b.apply(&batch);
    assert_eq!(s.tombstones, 1);
    assert!(b.of(&n.uid).deleted_at.is_some(), "deleted on peer");

    // A stale pre-delete snapshot must not resurrect it.
    b.apply(&batch_of(record(&n.uid, "back", n.updated_at)));
    assert!(
        b.of(&n.uid).deleted_at.is_some(),
        "stale write did not resurrect"
    );
}

#[test]
fn edge_skipped_until_endpoints_present() {
    let mut a = Peer::new();
    let x = a.mem(None, "node x");
    let y = a.mem(None, "node y");
    a.edges.push(LocalEdge {
        src: x.id,
        dst: y.id,
        rel: "relates".into(),
        weight_bits: 1.0f64.to_bits(),
        created_at: NOW,
    });

    // Deliver only the edge + node x → edge can't resolve y, skipped.
    let mut b = Peer::new();
    let full = a.snapshot();
    let partial = SyncBatch {
        nodes: full
            .nodes
            .iter()
            .filter(|r| r.uid == x.uid)
            .cloned()
            .collect(),
        edges: full.edges.clone(),
        watermark: full.watermark,
    };
    let s = b.apply(&partial);
    assert_eq!(s.edges_skipped, 1);

    // Now deliver everything → edge resolves.
    let s = b.apply(&full);
    assert_eq!(s.edges_upserted, 1);
    assert_eq!(f64::from_bits(b.edges[0].weight_bits), 1.0);
}

#[test]
fn merging_two_batches_in_either_order_agrees() {
    let mut seed = Peer::new();
    let n = seed.mem(None, "one");
    let older = batch_of(record(&n.uid, "older", 10));
    let newer = batch_of(record(&n.uid, "newer", 20));
    let mut a = Peer::new();
    a.apply(&older);
    a.apply(&newer);
    let mut b = Peer::new();
    b.apply(&newer);
    b.apply(&older);
    assert_eq!(a.of(&n.uid).body, b.of(&n.uid).body);
    assert_eq!(a.of(&n.uid).body.as_deref(), Some("newer"));
}

#[test]
fn only_what_changed_since_is_sent() {
    let mut a = Peer::new();
    a.mem(None, "early");
    let late = a.mem(None, "late");
    a.rows[1].updated_at = NOW + 50;
    assert_eq!(current_high_watermark(&a.rows, &a.projects), NOW + 50);
    let batch = changes_since(&a.rows, &a.projects, &a.edges, NOW).unwrap();
    assert_eq!(batch.nodes.len(), 1);
    assert_eq!(batch.nodes[0].uid, late.uid);
    assert_eq!(batch.watermark, NOW + 50);
}

#[test]
fn hashes_travel_as_hex() {
    assert_eq!(to_hex(&vec![0, 15, 255]), "000fff");
    assert_eq!(from_hex("000fff"), Some(vec![0, 15, 255]));
    assert_eq!(from_hex("0"), None);
    assert_eq!(from_hex("zz"), None);
}

#[test]
fn watermarks_read_back() {
    assert_eq!(get_watermark(Some(&set_watermark(-42))), -42);
    assert_eq!(get_watermark(Some(&set_watermark(i64::MAX))), i64::MAX);
    assert_eq!(get_watermark(None), 0);
    assert_eq!(get_watermark(Some("x")), 0);
    assert_eq!(meta_key("watermark"), "sync.watermark");
}

#[test]
fn a_project_syncs_with_a_key_and_consent() {
    assert!(project_is_syncable("{\"portable_key\":\"k\",\"sync\":true}"));
    assert!(!project_is_syncable("{\"sync\":true}"));
    assert!(!project_is_syncable("{\"portable_key\":\"k\"}"));
    assert!(!project_is_syncable("not json"));
    // Null is no key, anything else is one, and consent is the word itself.
    assert!(!project_is_syncable("{\"sync\":true,\"portable_key\":null}"));
    assert!(project_is_syncable("{\"sync\":true,\"portable_key\":7}"));
    assert!(project_is_syncable("{\"sync\":true,\"portable_key\":\"null\"}"));
    assert!(project_is_syncable("{\"sync\":true,\"portable_key\":[\"a\"]}"));
    assert!(!project_is_syncable("{\"sync\":1,\"portable_key\":\"k\"}"));
}

#[test]
fn a_machine_keeps_its_name() {
    assert_eq!(
        machine_id(Some("01ABC".into())),
        ("01ABC".to_string(), false)
    );
    let (a, fresh) = machine_id(None);
    assert!(fresh);
    assert_eq!(a.len(), 26);
    assert!(a
        .chars()
        .all(|c| "0123456789ABCDEFGHJKMNPQRSTVWXYZ".contains(c)));
    assert_ne!(a, machine_id(None).0);
}

#[test]
fn a_key_without_a_text_replicates_but_cannot_be_sent() {
    let mut a = Peer::new();
    a.projects.push(Project {
        id: 1000,
        meta: "{\"sync\":true,\"portable_key\":7}".into(),
    });
    a.mem(Some(1000), "keyed by a number");
    assert_eq!(current_high_watermark(&a.rows, &a.projects), NOW);
    let refused = snapshot(&a.rows, &a.projects, &a.edges).unwrap_err();
    assert_eq!(refused.message(), "a portable key is not text");
    // What is not sent does not stand in the way.
    let later = changes_since(&a.rows, &a.projects, &a.edges, NOW).unwrap();
    assert!(later.nodes.is_empty());
    assert_eq!(later.watermark, NOW);
    // A list is its own text.
    a.projects[0].meta = "{\"sync\":true,\"portable_key\":[\"a\", 1]}".into();
    let sent = a.snapshot();
    assert_eq!(sent.nodes[0].project_key.as_deref(), Some("[\"a\",1]"));
}

#[test]
fn an_edge_may_end_at_a_node_of_any_kind() {
    let mut b = Peer::new();
    let note = b.mem(None, "a note");
    let file = b.mem(None, "src/lib.rs");
    b.rows[1].kind = Kind::File;
    let batch = SyncBatch {
        nodes: vec![],
        edges: vec![SyncEdge {
            src_uid: note.uid.clone(),
            dst_uid: file.uid.clone(),
            rel: "relates".into(),
            weight_bits: 1.0f64.to_bits(),
            created_at: NOW,
        }],
        watermark: 0,
    };
    let s = b.apply(&batch);
    assert_eq!((s.edges_upserted, s.edges_skipped), (1, 0));
    assert_eq!((b.edges[0].src, b.edges[0].dst), (note.id, file.id));
    // The file is not sent, and so neither is the edge.
    let out = b.snapshot();
    assert_eq!(out.nodes.len(), 1);
    assert!(out.edges.is_empty());
}

#[test]
fn a_record_under_the_uid_of_another_kind_keeps_the_kind() {
    let mut b = Peer::new();
    let file = b.mem(None, "src/lib.rs");
    b.rows[0].kind = Kind::File;
    let s = b.apply(&batch_of(record(&file.uid, "newer", NOW + 1)));
    assert_eq!(s.nodes_upserted, 1);
    assert_eq!(b.rows.len(), 1);
    assert_eq!(b.rows[0].kind, Kind::File);
    assert_eq!(b.rows[0].body.as_deref(), Some("newer"));
}
