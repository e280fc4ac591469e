use mimir_core::audit::{
    history, recent, record, record_for_kind, row_to_mutation, superseded_at, Mutation,
};
use mimir_core::memory::content_hash;
use mimir_core::model::{Actor, Kind, MutationOp};

const NOW: i64 = 1_780_000_000;

fn forget(ledger: &mut Vec<Mutation>, id: i64, actor: Actor, reason: Option<&str>, text: &str) {
    let hash = content_hash(text);
    record(
        ledger,
        Some(Kind::Memory),
        NOW,
        id,
        MutationOp::Forget,
        actor,
        reason,
        Some(&hash),
        None,
    );
}

#[test]
fn forget_records_who_and_when() {
    let mut ledger = vec![];
    forget(
        &mut ledger,
        1,
        Actor::Human,
        Some("wrong timezone"),
        "the ops cron runs at 03:00",
    );
    let h = history(&ledger, 1);
    assert_eq!(h.len(), 1, "expected exactly one recorded mutation: {h:?}");
    assert_eq!(h[0].op, MutationOp::Forget);
    assert_eq!(h[0].actor, Actor::Human);
    assert_eq!(h[0].reason.as_deref(), Some("wrong timezone"));
    assert!(h[0].at > 0);
}

#[test]
fn supersede_time_survives_a_later_edit() {
    let mut ledger = vec![];
    record_for_kind(
        &mut ledger,
        Kind::Memory,
        NOW,
        1,
        MutationOp::Supersede,
        Actor::Human,
        None,
        None,
        None,
    );
    let at = superseded_at(&ledger, 1).expect("supersede recorded");
    record_for_kind(
        &mut ledger,
        Kind::Memory,
        NOW + 50,
        1,
        MutationOp::Edit,
        Actor::Agent,
        None,
        None,
        None,
    );
    assert_eq!(
        superseded_at(&ledger, 1),
        Some(at),
        "an unrelated update must not move when the supersession happened"
    );
    assert_eq!(superseded_at(&ledger, 2), None);
}

#[test]
fn derived_kinds_are_not_audited() {
    let mut ledger = vec![];
    for kind in [Some(Kind::Chunk), None] {
        record(
            &mut ledger,
            kind,
            NOW,
            7,
            MutationOp::Forget,
            Actor::System,
            None,
            None,
            None,
        );
    }
    assert!(
        history(&ledger, 7).is_empty(),
        "indexer churn must stay out of the mutation ledger"
    );
}

#[test]
fn the_ledger_never_stores_the_value() {
    let secret = "Plumbus Vantablack-7 is the canary phrase";
    let mut ledger = vec![];
    forget(&mut ledger, 1, Actor::Human, Some("no longer true"), secret);
    record_for_kind(
        &mut ledger,
        Kind::Memory,
        NOW,
        1,
        MutationOp::HardDelete,
        Actor::Human,
        Some("purge"),
        Some(&content_hash(secret)),
        None,
    );
    assert!(!ledger.is_empty(), "expected mutation rows to sweep");
    for row in &ledger {
        assert!(
            !format!("{row:?}").contains("Vantablack"),
            "the mutation ledger leaked the value it audited: {row:?}"
        );
    }
}

#[test]
fn before_hash_identifies_the_removed_value() {
    let text = "staging rotates credentials on Sundays";
    let mut ledger = vec![];
    forget(&mut ledger, 1, Actor::Agent, None, text);
    let h = history(&ledger, 1);
    assert_eq!(
        h[0].before_hash.as_deref(),
        Some(content_hash(text).as_slice()),
        "before_hash must match the content hash of what was removed"
    );
    assert_ne!(
        h[0].before_hash.as_deref(),
        Some(content_hash("staging rotates credentials on Mondays").as_slice())
    );
}

#[test]
fn recent_is_latest_first_and_bounded() {
    let mut ledger = vec![];
    for (id, at) in [(1, 10), (2, 30), (3, 20), (4, 30)] {
        record_for_kind(
            &mut ledger,
            Kind::Memory,
            at,
            id,
            MutationOp::Edit,
            Actor::Agent,
            None,
            None,
            None,
        );
    }
    let ids: Vec<i64> = recent(&ledger, 3).iter().map(|m| m.node_id).collect();
    assert_eq!(ids, vec![4, 2, 3]);
}

#[test]
fn unknown_words_in_a_row_fall_back() {
    let m = row_to_mutation(5, 1, "supersede", "agent", None, None, None);
    assert_eq!((m.op, m.actor), (MutationOp::Supersede, Actor::Agent));
    let odd = row_to_mutation(5, 1, "???", "???", Some("why".into()), None, None);
    assert_eq!((odd.op, odd.actor), (MutationOp::Edit, Actor::System));
    assert_eq!(odd.reason.as_deref(), Some("why"));
}
