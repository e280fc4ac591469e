use mimir_core::consolidate::store::{apply, load_memories};
use mimir_core::consolidate::{
    auto_due, consolidate, distil, has_summary, may_archive, negation_mismatch, single_link, theme,
    Band, Mem, Plan, Report,
};
use mimir_core::learn::decay;
use mimir_core::model::{Kind, Meta, NewEdge, Node, Rel};

const NOW: i64 = 1_780_000_000;
const DAY: i64 = 86_400;

fn node(id: i64, kind: Kind, subkind: &str, title: &str, body: &str) -> Node {
    Node {
        id,
        uid: format!("01JXGABCDEF123456789{:06}", id),
        kind,
        subkind: Some(subkind.to_string()),
        project_id: None,
        collection_id: None,
        parent_id: None,
        title: Some(title.to_string()),
        body: Some(body.to_string()),
        path: None,
        span_start: None,
        span_end: None,
        lang: None,
        tags_text: String::new(),
        content_hash: None,
        meta: Meta::empty(),
        created_at: 1_780_000_000,
        updated_at: 1_780_000_000,
        access_count: 0,
        last_accessed: None,
        pinned: false,
        superseded_by: None,
        deleted_at: None,
    }
}


struct Store {
    vecs: Vec<Vec<f32>>,
    nodes: Vec<Node>,
    edges: Vec<NewEdge>,
    summarized: Vec<i64>,
}

impl Store {
    fn new() -> Store {
        Store {
            vecs: vec![],
            nodes: vec![],
            edges: vec![],
            summarized: vec![],
        }
    }

    fn add(&mut self, subkind: &str, title: &str, vec: &[f32], created_at: i64) -> i64 {
        let id = self.nodes.len() as i64 + 1;
        let mut n = node(id, Kind::Memory, subkind, title, title);
        n.created_at = created_at;
        let norm = vec.iter().map(|x| x * x).sum::<f32>().sqrt();
        self.vecs.push(vec.iter().map(|x| x / norm).collect());
        self.nodes.push(n);
        id
    }

    /// What takes part in a run: live memories.
    fn run(&mut self, dry_run: bool) -> Plan {
        let vecs: Vec<&Vec<f32>> = self
            .nodes
            .iter()
            .zip(&self.vecs)
            .filter(|(n, _)| n.superseded_by.is_none() && n.deleted_at.is_none())
            .map(|(_, v)| v)
            .collect();
        let mems = load_memories(&self.nodes);
        let faded: Vec<bool> = self
            .nodes
            .iter()
            .map(|n| match decay(n, NOW) {
                Some((age, half)) => 2f64.powf(-(age as f64 / DAY as f64) / half as f64) < 0.05,
                None => false,
            })
            .collect();
        let band = |a: &Vec<f32>, b: &Vec<f32>| -> Band {
            let cos: f32 = a.iter().zip(b).map(|(x, y)| x * y).sum();
            if cos >= 0.92 {
                Band::Same
            } else if cos >= 0.85 {
                Band::Near
            } else if cos >= 0.80 {
                Band::Related
            } else {
                Band::Apart
            }
        };
        let bands: Vec<Vec<Band>> = vecs
            .iter()
            .map(|a| vecs.iter().map(|b| band(a, b)).collect())
            .collect();
        let stop: Vec<String> = vec![];
        let plan = consolidate(
            &mems,
            &bands,
            &self.summarized,
            &stop,
            &self.nodes,
            &faded,
            NOW,
            dry_run,
        );
        self.edges.extend(apply(&mut self.nodes, &plan, NOW));
        for d in &plan.summaries {
            self.summarized.extend(d.members.iter().copied());
        }
        plan
    }
}

#[test]
fn near_dups_superseded_newer_wins() {
    let mut s = Store::new();
    let old = s.add("note", "sqlite wal is great", &[1.0, 0.0, 0.01], NOW - 2000);
    let new = s.add("note", "sqlite wal is great!", &[1.0, 0.0, 0.0], NOW - 1000);
    let plan = s.run(false);
    assert_eq!(plan.report.superseded, 1);
    assert_eq!(s.nodes[old as usize - 1].superseded_by, Some(new));
    assert_eq!(s.nodes[old as usize - 1].deleted_at, None);
    assert_eq!(
        s.edges,
        vec![NewEdge {
            src: new,
            dst: old,
            rel: Rel::Supersedes
        }]
    );
    // Idempotent: superseded nodes don't re-trigger.
    assert_eq!(s.run(false).report.superseded, 0);
}

#[test]
fn different_scope_or_type_never_merges() {
    let mut s = Store::new();
    s.add("note", "fact", &[1.0, 0.0], NOW - 2000);
    s.add("gotcha", "fact", &[1.0, 0.0], NOW - 1000);
    assert_eq!(s.run(false).report.superseded, 0);
    let mut s = Store::new();
    s.add("note", "fact", &[1.0, 0.0], NOW - 2000);
    s.add("note", "fact", &[1.0, 0.0], NOW - 1000);
    s.nodes[1].project_id = Some(9);
    assert_eq!(s.run(false).report.superseded, 0);
}

#[test]
fn contradictions_flagged_not_resolved() {
    let mut s = Store::new();
    // cosine ≈ 0.88: similar but below the dup threshold; one negated.
    s.add("note", "the api needs auth", &[1.0, 0.0, 0.0], NOW - 2000);
    s.add(
        "note",
        "the api does not need auth",
        &[1.0, 0.54, 0.0],
        NOW - 1000,
    );
    let plan = s.run(false);
    assert_eq!(plan.report.contradictions.len(), 1);
    assert_eq!(plan.report.superseded, 0);
    // Nothing was changed.
    assert!(s.nodes.iter().all(|n| n.superseded_by.is_none()));
}

#[test]
fn clusters_distilled_once() {
    let mut s = Store::new();
    // Points on an arc, 25° apart: adjacent cosine ≈ 0.91 (cluster range, below the
    // 0.92 dup threshold); chain connectivity does the rest.
    for i in 0..6 {
        let theta = 25f32.to_radians() * i as f32;
        s.add(
            "gotcha",
            &format!("docker network gotcha number {i}"),
            &[theta.cos(), theta.sin()],
            NOW - 1000 + i,
        );
    }
    let plan = s.run(false);
    assert_eq!(plan.report.distilled, 1, "{:?}", plan.report);
    let summary = plan.summaries[0].node.title.clone().unwrap();
    assert!(summary.starts_with("Distilled:"), "{summary}");
    assert_eq!(plan.summaries[0].node.subkind.as_deref(), Some("summary"));
    assert_eq!(plan.summaries[0].members, vec![1, 2, 3, 4, 5, 6]);
    // Second run: cluster already covered.
    assert_eq!(s.run(false).report.distilled, 0);
}

#[test]
fn decayed_idle_memories_archived_reversibly() {
    let mut s = Store::new();
    let old = s.add("idea", "stale idea", &[0.0, 1.0], NOW - 500 * DAY);
    let fresh = s.add("idea", "fresh idea", &[1.0, 0.0], NOW);
    let plan = s.run(false);
    assert_eq!(plan.report.archived, 1);
    assert_eq!(plan.archive, vec![old]);
    assert_eq!(s.nodes[old as usize - 1].deleted_at, Some(NOW));
    assert_eq!(s.nodes[old as usize - 1].meta.archived, Some(1));
    assert!(s.nodes[fresh as usize - 1].deleted_at.is_none());
}

#[test]
fn dry_run_changes_nothing() {
    let mut s = Store::new();
    s.add("note", "dup a", &[1.0, 0.0], NOW - 2000);
    s.add("note", "dup a!", &[1.0, 0.001], NOW - 1000);
    let plan = s.run(true);
    assert_eq!(plan.report.superseded, 1);
    assert!(plan.supersede.is_empty(), "dry run must not write");
    assert!(s.nodes.iter().all(|n| n.superseded_by.is_none()));
    assert!(plan.summaries.is_empty() && plan.archive.is_empty());
}

#[test]
fn a_negation_on_one_side_only_is_a_mismatch() {
    assert!(negation_mismatch("use tabs", "never use tabs"));
    assert!(!negation_mismatch("never use tabs", "do not use tabs"));
    assert!(!negation_mismatch("use tabs", "use spaces"));
}

fn mem(id: i64, title: &str) -> Mem {
    Mem {
        id,
        uid: format!("01JXGABCDEF123456789{id:06}"),
        title: title.to_string(),
        body: title.to_string(),
        subkind: "note".to_string(),
        project_id: None,
        created_at: id,
        pinned: false,
    }
}

#[test]
fn clusters_follow_chains_of_links() {
    let mems: Vec<Mem> = (0..6).map(|i| mem(i, "m")).collect();
    let mut bands = vec![vec![Band::Apart; 6]; 6];
    for i in 0..5usize {
        bands[i][i + 1] = Band::Related;
        bands[i + 1][i] = Band::Related;
    }
    let clusters = single_link(&mems, &bands, &vec![true; 6]);
    assert_eq!(clusters, vec![vec![0, 1, 2, 3, 4, 5]]);
    // One that does not take part breaks the chain.
    let mut live = vec![true; 6];
    live[2] = false;
    let parts = single_link(&mems, &bands, &live);
    assert!(parts.iter().all(|c| !c.contains(&2)));
    assert!(!parts.iter().any(|c| c.contains(&1) && c.contains(&3)));
}

#[test]
fn a_theme_is_the_most_frequent_words() {
    let mems = vec![
        mem(1, "docker network outage"),
        mem(2, "docker network volumes"),
        mem(3, "docker cache"),
    ];
    let stop: Vec<String> = vec![];
    assert_eq!(
        theme(&mems, &vec![0, 1, 2], &stop),
        "docker, network, outage"
    );
    assert_eq!(theme(&mems, &vec![], &stop), "related memories");
    let n = distil(&mems, &vec![0, 1], &stop);
    assert!(n.title.unwrap().starts_with("Distilled: docker, network"));
    assert!(n.body.unwrap().contains("docker network volumes"));
    assert!(n.content_hash.is_some());
    assert!(has_summary(&mems, &vec![0, 1], &vec![1]));
    assert!(!has_summary(&mems, &vec![0, 1], &vec![3]));
}

#[test]
fn pinned_and_recent_memories_are_kept() {
    let mut n = node(1, Kind::Memory, "idea", "t", "b");
    n.created_at = NOW - 91 * DAY;
    assert!(may_archive(&n, NOW));
    n.last_accessed = Some(NOW - DAY);
    assert!(!may_archive(&n, NOW));
    n.last_accessed = None;
    n.pinned = true;
    assert!(!may_archive(&n, NOW));
}

#[test]
fn automatic_runs_keep_their_cadence() {
    let last = format!("{}", NOW - 6 * DAY);
    assert!(!auto_due("weekly", Some(&last), NOW));
    let last = format!("{}", NOW - 8 * DAY);
    assert!(auto_due("weekly", Some(&last), NOW));
    assert!(auto_due("weekly", None, NOW));
    assert!(!auto_due("off", None, NOW));
}

#[test]
fn an_untouched_report_is_empty() {
    assert!(Report::default().is_empty());
    let r = Report {
        archived: 1,
        ..Report::default()
    };
    assert!(!r.is_empty());
}

#[test]
fn a_pinned_memory_never_loses() {
    let mut s = Store::new();
    let old = s.add("note", "sqlite wal is great", &[1.0, 0.0], NOW - 2000);
    s.add("note", "sqlite wal is great!", &[1.0, 0.001], NOW - 1000);
    s.nodes[old as usize - 1].pinned = true;
    assert_eq!(s.run(false).report.superseded, 0);
    assert!(s.nodes.iter().all(|n| n.superseded_by.is_none()) && s.edges.is_empty());
    assert_eq!(s.run(false).report.superseded, 0);
}

#[test]
fn a_chain_of_repetitions_settles_in_one_run() {
    let mut s = Store::new();
    for i in 0..4 {
        s.add("note", &format!("same fact {i}"), &[1.0, 0.01 * i as f32], NOW - 100 * i);
    }
    let before = s.run(false).report.superseded;
    assert_eq!(before, 3);
    assert_eq!(s.run(false).report.superseded, 0);
    let left: Vec<i64> = s
        .nodes
        .iter()
        .filter(|n| n.superseded_by.is_none())
        .map(|n| n.id)
        .collect();
    assert_eq!(left, vec![1]);
}

#[test]
fn the_older_of_a_contradiction_is_named_first() {
    let mut s = Store::new();
    s.add("note", "the api does not need auth", &[1.0, 0.54], NOW - 1000);
    s.add("note", "the api needs auth", &[1.0, 0.0], NOW - 2000);
    let plan = s.run(false);
    assert_eq!(plan.report.contradictions.len(), 1);
    let (older, newer) = &plan.report.contradictions[0];
    assert!(older.ends_with(" the api needs auth"), "{older}");
    assert!(newer.ends_with(" the api does not need auth"), "{newer}");
}
