use mimir_core::audit::{record_for_kind, Mutation};
use mimir_core::eval::forget::{
    attacks, durability, leaks_anywhere, Observed, Score, Scorecard, Table,
};
use mimir_core::memory::{edit, remember, Edit, Remember, RememberOutcome};
use mimir_core::model::{Actor, Kind, MemoryType, Meta, MutationOp, Node};
use mimir_core::revision::{history, purge, Row};

const NOW: i64 = 1_780_000_000;
const CANARY: &str = "Plumbus Vantablack-7 is the staging root password hint";
const CANARY_TOKEN: &str = "Vantablack";
const TWIN: &str = "Plumbus Quicksilver-9 is the staging readonly password hint";
const TWIN_TOKEN: &str = "Quicksilver";

fn node(id: i64, kind: Kind, subkind: &str, title: &str, body: &str) -> Node {
    Node {
        id,
        uid: format!("01JXGABCDEF123456789{:06}", id),
        kind,
        subkind: Some(subkind.to_string()),
        project_id: None,
        collection_id: None,
        parent_id: None,
        title: Some(title.to_string()),
        body: Some(body.to_string()),
        path: None,
        span_start: None,
        span_end: None,
        lang: None,
        tags_text: String::new(),
        content_hash: None,
        meta: Meta::empty(),
        created_at: 1_780_000_000,
        updated_at: 1_780_000_000,
        access_count: 0,
        last_accessed: None,
        pinned: false,
        superseded_by: None,
        deleted_at: None,
    }
}


fn offer(nodes: &Vec<Node>, text: &str) -> RememberOutcome {
    let live: Vec<Node> = nodes
        .iter()
        .filter(|n| n.deleted_at.is_none())
        .cloned()
        .collect();
    let deleted: Vec<Node> = nodes
        .iter()
        .filter(|n| n.deleted_at.is_some())
        .cloned()
        .collect();
    remember(
        Remember {
            text: text.into(),
            mtype: MemoryType::Note,
            tags: vec![],
            project_id: None,
            force: false,
            actor: Actor::System,
        },
        live.clone(),
        deleted,
        live,
    )
}

fn capture(nodes: &mut Vec<Node>, text: &str) -> i64 {
    match offer(nodes, text) {
        RememberOutcome::Created { node: new, .. } => {
            let id = nodes.len() as i64 + 1;
            let mut n = node(id, Kind::Memory, "note", "", "");
            n.title = new.title;
            n.body = new.body;
            n.content_hash = new.content_hash;
            nodes.push(n);
            id
        }
        other => panic!("expected Created, got {other:?}"),
    }
}

#[test]
fn forgotten_facts_survive_every_attack_shape() {
    let mut card = Scorecard::default();
    let mut failures: Vec<String> = vec![];
    for a in attacks() {
        let mut nodes: Vec<Node> = vec![];
        let id = capture(&mut nodes, a.original);
        nodes[id as usize - 1].deleted_at = Some(NOW);
        let refused = matches!(offer(&nodes, a.variant), RememberOutcome::Forgotten(_));
        let ok = refused == a.same_fact;
        if a.same_fact {
            card.negative(&format!("{}: re-offer refused", a.category), ok);
        } else {
            card.obligation(&format!("{}: control accepted", a.category), ok);
        }
        if !ok {
            failures.push(format!(
                "[{}] {:?} -> {:?}: expected {}, got {}",
                a.category,
                a.original,
                a.variant,
                if a.same_fact { "refused" } else { "accepted" },
                if refused { "refused" } else { "accepted" },
            ));
        }
    }
    assert!(
        failures.is_empty(),
        "{}\n{}",
        failures.join("\n"),
        card.render()
    );
}

fn found(nodes: &Vec<Node>, token: &str) -> bool {
    nodes.iter().any(|n| {
        n.deleted_at.is_none() && n.body.as_deref().is_some_and(|b| b.contains(token))
    })
}

fn tables(nodes: &Vec<Node>, revisions: &Vec<Row>, ledger: &Vec<Mutation>) -> Vec<Table> {
    vec![
        Table {
            name: "node".into(),
            rows: nodes
                .iter()
                .map(|n| vec![n.title.clone().unwrap(), n.body.clone().unwrap()])
                .collect(),
        },
        Table {
            name: "node_revision".into(),
            rows: revisions
                .iter()
                .map(|r| vec![r.revision.body.clone().unwrap()])
                .collect(),
        },
        Table {
            name: "mutation".into(),
            rows: ledger.iter().map(|m| vec![format!("{m:?}")]).collect(),
        },
    ]
}

/// Writes a canary and its twin, rewords and deletes the canary, offers it again,
/// and reports what was seen.
fn observe(hard: bool) -> Observed {
    let mut nodes: Vec<Node> = vec![];
    let mut revisions: Vec<Row> = vec![];
    let mut ledger: Vec<Mutation> = vec![];
    let canary = capture(&mut nodes, CANARY);
    capture(&mut nodes, TWIN);
    let canary_before = found(&nodes, CANARY_TOKEN);
    let twin_before = found(&nodes, TWIN_TOKEN);

    let i = canary as usize - 1;
    let e = edit(
        &nodes[i],
        Edit {
            text: Some(format!("{CANARY} (rotated)")),
            title: None,
            mtype: None,
            tags: None,
        },
        Actor::Human,
        None,
        &mut revisions,
        &mut ledger,
        NOW,
    );
    nodes[i].title = e.title;
    nodes[i].body = e.body;
    nodes[i].content_hash = e.content_hash;
    let prior_kept = !history(&revisions, canary).is_empty();

    let before = nodes[i].content_hash.clone();
    record_for_kind(
        &mut ledger,
        Kind::Memory,
        NOW,
        canary,
        if hard {
            MutationOp::HardDelete
        } else {
            MutationOp::Forget
        },
        Actor::Human,
        Some("eval"),
        before.as_ref(),
        None,
    );
    purge(&mut revisions, canary);
    if hard {
        nodes.remove(i);
    } else {
        nodes[i].deleted_at = Some(NOW);
    }
    let canary_deleted = found(&nodes, CANARY_TOKEN);
    let twin_deleted = found(&nodes, TWIN_TOKEN);

    let refused = !hard && matches!(offer(&nodes, CANARY), RememberOutcome::Forgotten(_));
    let synced: Vec<Node> = nodes
        .iter()
        .filter(|n| n.deleted_at.is_none())
        .cloned()
        .collect();
    Observed {
        canary_before,
        twin_before,
        prior_kept,
        canary_deleted,
        twin_deleted,
        refused,
        canary_offered: found(&nodes, CANARY_TOKEN),
        canary_jobs: found(&nodes, CANARY_TOKEN),
        twin_jobs: found(&nodes, TWIN_TOKEN),
        leaking: leaks_anywhere(&tables(&nodes, &revisions, &ledger), CANARY_TOKEN),
        prior_left: !history(&revisions, canary).is_empty(),
        ledger,
        canary_synced: found(&synced, CANARY_TOKEN),
        twin_synced: found(&synced, TWIN_TOKEN),
    }
}

#[test]
fn soft_delete_is_durable_across_the_thirteen_steps() {
    let card = durability(false, &observe(false));
    assert!(
        card.negative.is_clean() && card.obligation.is_clean(),
        "{}",
        card.render()
    );
}

#[test]
fn hard_delete_leaves_nothing_anywhere() {
    let card = durability(true, &observe(true));
    assert!(
        card.negative.is_clean() && card.obligation.is_clean(),
        "{}",
        card.render()
    );
}

#[test]
fn an_empty_store_fails_every_obligation() {
    let nodes: Vec<Node> = vec![];
    let mut card = Scorecard::default();
    card.obligation("canary retrievable", found(&nodes, CANARY_TOKEN));
    card.obligation("twin retrievable", found(&nodes, TWIN_TOKEN));
    card.negative(
        "nothing leaks",
        leaks_anywhere(&tables(&nodes, &vec![], &vec![]), CANARY_TOKEN).is_empty(),
    );
    assert_eq!(card.obligation.passed, 0, "{}", card.render());
    assert!(
        card.negative.is_clean(),
        "an empty store must pass the negative arm — that is exactly why \
         the two arms are never pooled:\n{}",
        card.render()
    );
}

#[test]
fn a_leak_is_found_in_any_cell_and_named_once() {
    let t = |name: &str, cells: Vec<Vec<&str>>| Table {
        name: name.to_string(),
        rows: cells
            .into_iter()
            .map(|r| r.into_iter().map(String::from).collect())
            .collect(),
    };
    let all = vec![
        t("clean", vec![vec!["nothing"]]),
        t("leaky", vec![vec!["a", "xx Vantablack xx"], vec!["Vantablack"]]),
    ];
    assert_eq!(leaks_anywhere(&all, CANARY_TOKEN), vec!["leaky"]);
}

#[test]
fn leaks_beyond_the_tombstone_are_held_against_a_soft_delete() {
    let mut o = observe(false);
    assert_eq!(o.leaking, vec!["node"]);
    o.leaking.push("embedding_cache".into());
    assert!(!durability(false, &o).negative.is_clean());
}

#[test]
fn scores_count_what_passed() {
    let mut s = Score::default();
    s.record(true);
    s.record(false);
    assert_eq!(
        s,
        Score {
            passed: 1,
            total: 2
        }
    );
    assert!(!s.is_clean());
    let mut card = Scorecard::default();
    card.obligation("kept", true);
    card.negative("leaked", false);
    let text = card.render();
    assert!(text.contains("kept") && text.contains("leaked"), "{text}");
}
