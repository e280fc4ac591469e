//! The mutation ledger: who changed a memory, when, and why.
//!
//! Two rules hold the design together.
//!
//! No values: the ledger keeps hashes of what was replaced, never the text. A
//! record of a deletion that quotes what it deletes is a second copy of it.
//!
//! Memories only: an indexer deletes and rewrites chunks and symbols in bulk, and
//! the few rows that a person would want to read would drown in them.
//!
//! A ledger is a list of mutations in the order in which they were written.

use vstd::prelude::*;

use crate::model::{Actor, Kind, MutationOp};
#[allow(unused_imports)]
use crate::order::{as_ints, deref_all, flipped, marked, picked, ranking};
use crate::order::{flip, pick, rank, rank_where, Key};
use crate::seqs::copy_bytes;
#[allow(unused_imports)]
use crate::seqs::{first_n, kept};

verus! {

/// One recorded change.
#[derive(Debug, Clone)]
pub struct Mutation {
    pub at: i64,
    pub node_id: i64,
    pub op: MutationOp,
    pub actor: Actor,
    pub reason: Option<String>,
    pub before_hash: Option<Vec<u8>>,
    pub after_hash: Option<Vec<u8>>,
}

/// Whether `op` is what a stored name means; an edit where it means none.
pub open spec fn is_op_named(op: MutationOp, s: Seq<char>) -> bool {
    op.name() == s || (op == MutationOp::Edit && forall|v: MutationOp| #[trigger] v.name() != s)
}

/// Whether `actor` is what a stored name means; the system where it means none.
pub open spec fn is_actor_named(actor: Actor, s: Seq<char>) -> bool {
    actor.name() == s || (actor == Actor::System && forall|v: Actor| #[trigger] v.name() != s)
}

/// Whether `m` holds the given fields.
pub open spec fn is_entry(
    m: Mutation,
    at: i64,
    node_id: i64,
    op: MutationOp,
    actor: Actor,
    reason: Option<Seq<char>>,
    before_hash: Option<Seq<u8>>,
    after_hash: Option<Seq<u8>>,
) -> bool {
    &&& m.at == at
    &&& m.node_id == node_id
    &&& m.op == op
    &&& m.actor == actor
    &&& (match m.reason {
        Some(s) => Some(s@),
        None => None,
    }) == reason
    &&& (match m.before_hash {
        Some(h) => Some(h@),
        None => None,
    }) == before_hash
    &&& (match m.after_hash {
        Some(h) => Some(h@),
        None => None,
    }) == after_hash
}

/// Reads a stored row.
pub fn row_to_mutation(
    at: i64,
    node_id: i64,
    op: &str,
    actor: &str,
    reason: Option<String>,
    before_hash: Option<Vec<u8>>,
    after_hash: Option<Vec<u8>>,
) -> (r: Mutation)
    ensures
        r.at == at,
        r.node_id == node_id,
        is_op_named(r.op, op@),
        is_actor_named(r.actor, actor@),
        r.reason == reason,
        r.before_hash == before_hash,
        r.after_hash == after_hash,
{
    let op = match MutationOp::from_name(op) {
        Some(op) => op,
        None => MutationOp::Edit,
    };
    let actor = match Actor::from_name(actor) {
        Some(a) => a,
        None => Actor::System,
    };
    Mutation { at, node_id, op, actor, reason, before_hash, after_hash }
}

/// The view of an optional reason.
pub open spec fn text_of(s: Option<&str>) -> Option<Seq<char>> {
    match s {
        Some(t) => Some(t@),
        None => None,
    }
}

/// The view of an optional hash.
pub open spec fn bytes_of(h: Option<&Vec<u8>>) -> Option<Seq<u8>> {
    match h {
        Some(b) => Some(b@),
        None => None,
    }
}

/// Appends a mutation, where the kind says that it is one of a memory. For callers
/// that know the kind, such as a hard delete, after which nobody can look it up.
pub fn record_for_kind(
    ledger: &mut Vec<Mutation>,
    kind: Kind,
    now: i64,
    node_id: i64,
    op: MutationOp,
    actor: Actor,
    reason: Option<&str>,
    before_hash: Option<&Vec<u8>>,
    after_hash: Option<&Vec<u8>>,
)
    ensures
        kind != Kind::Memory ==> final(ledger)@ == old(ledger)@,
        kind == Kind::Memory ==> {
            &&& final(ledger)@.len() == old(ledger)@.len() + 1
            &&& final(ledger)@.drop_last() == old(ledger)@
            &&& is_entry(
                final(ledger)@.last(),
                now,
                node_id,
                op,
                actor,
                text_of(reason),
                bytes_of(before_hash),
                bytes_of(after_hash),
            )
        },
{
    if kind != Kind::Memory {
        return;
    }
    let reason = match reason {
        Some(s) => Some(s.to_owned()),
        None => None,
    };
    let before_hash = match before_hash {
        Some(h) => Some(copy_bytes(h)),
        None => None,
    };
    let after_hash = match after_hash {
        Some(h) => Some(copy_bytes(h)),
        None => None,
    };
    ledger.push(Mutation { at: now, node_id, op, actor, reason, before_hash, after_hash });
    assert(ledger@.drop_last() =~= old(ledger)@);
}

/// Appends a mutation of the node whose stored kind is `kind`: a memory's, and
/// nothing where it is another kind or the node is not there.
pub fn record(
    ledger: &mut Vec<Mutation>,
    kind: Option<Kind>,
    now: i64,
    node_id: i64,
    op: MutationOp,
    actor: Actor,
    reason: Option<&str>,
    before_hash: Option<&Vec<u8>>,
    after_hash: Option<&Vec<u8>>,
)
    ensures
        kind != Some(Kind::Memory) ==> final(ledger)@ == old(ledger)@,
        kind == Some(Kind::Memory) ==> {
            &&& final(ledger)@.len() == old(ledger)@.len() + 1
            &&& final(ledger)@.drop_last() == old(ledger)@
            &&& is_entry(
                final(ledger)@.last(),
                now,
                node_id,
                op,
                actor,
                text_of(reason),
                bytes_of(before_hash),
                bytes_of(after_hash),
            )
        },
{
    match kind {
        Some(k) => record_for_kind(
            ledger,
            k,
            now,
            node_id,
            op,
            actor,
            reason,
            before_hash,
            after_hash,
        ),
        None => {},
    }
}

/// Sort keys: by time.
pub open spec fn by_time(ledger: Seq<Mutation>) -> Seq<Key> {
    Seq::new(
        ledger.len(),
        |i: int| Key { first: ledger[i].at as i128, second: 0, third: 0 },
    )
}

/// Sort keys: the latest first, and of one instant the last written.
pub open spec fn latest_first(ledger: Seq<Mutation>) -> Seq<Key> {
    Seq::new(
        ledger.len(),
        |i: int|
            Key { first: flipped(ledger[i].at as int) as i128, second: -i as i128, third: 0 },
    )
}

/// Places in the ledger that are about `node_id`.
pub open spec fn is_about(ledger: Seq<Mutation>, node_id: i64) -> spec_fn(int) -> bool {
    |i: int| 0 <= i < ledger.len() && ledger[i].node_id == node_id
}

/// Every recorded change to one memory, oldest first.
pub fn history<'a>(ledger: &'a Vec<Mutation>, node_id: i64) -> (r: Vec<&'a Mutation>)
    ensures
        deref_all(r@) == picked(
            ledger@,
            kept(ranking(by_time(ledger@)), is_about(ledger@, node_id)),
        ),
{
    let mut keys: Vec<Key> = Vec::new();
    let mut keep: Vec<bool> = Vec::new();
    let mut i: usize = 0;
    while i < ledger.len()
        invariant
            i <= ledger@.len(),
            keys@.len() == i,
            keep@.len() == i,
            forall|k: int| 0 <= k < i ==> #[trigger] keys@[k] == by_time(ledger@)[k],
            forall|k: int| 0 <= k < i ==> #[trigger] keep@[k] == (ledger@[k].node_id == node_id),
        decreases ledger@.len() - i,
    {
        keys.push(Key::of(ledger[i].at as i128));
        keep.push(ledger[i].node_id == node_id);
        i += 1;
    }
    assert(keys@ =~= by_time(ledger@));
    assert(marked(keep@) =~= is_about(ledger@, node_id));
    let order = rank_where(&keys, &keep);
    let r = pick(ledger, &order, order.len());
    assert(deref_all(r@) =~= picked(ledger@, as_ints(order@)));
    r
}

/// The `limit` most recent changes, newest first.
pub fn recent<'a>(ledger: &'a Vec<Mutation>, limit: usize) -> (r: Vec<&'a Mutation>)
    ensures
        deref_all(r@) == first_n(picked(ledger@, ranking(latest_first(ledger@))), limit as int),
{
    let mut keys: Vec<Key> = Vec::new();
    let mut i: usize = 0;
    while i < ledger.len()
        invariant
            i <= ledger@.len(),
            keys@.len() == i,
            forall|k: int| 0 <= k < i ==> #[trigger] keys@[k] == latest_first(ledger@)[k],
        decreases ledger@.len() - i,
    {
        keys.push(Key { first: flip(ledger[i].at), second: -(i as i128), third: 0 });
        i += 1;
    }
    assert(keys@ =~= latest_first(ledger@));
    let order = rank(&keys);
    assert forall|i: int| 0 <= i < order@.len() implies #[trigger] order@[i] < ledger@.len() by {
        assert(as_ints(order@)[i] == order@[i]);
    }
    pick(ledger, &order, limit)
}

/// When `node_id` was last superseded, if it ever was.
pub open spec fn supersession(ledger: Seq<Mutation>, node_id: i64) -> Option<i64>
    decreases ledger.len(),
{
    if ledger.len() == 0 {
        None
    } else {
        let before = supersession(ledger.drop_last(), node_id);
        let m = ledger.last();
        if m.node_id == node_id && m.op == MutationOp::Supersede && (before is None || before->0
            < m.at) {
            Some(m.at)
        } else {
            before
        }
    }
}

/// When `node_id` was last superseded, if it ever was. The node itself only says
/// by what, and its time of change moves with every edit.
pub fn superseded_at(ledger: &Vec<Mutation>, node_id: i64) -> (r: Option<i64>)
    ensures
        r == supersession(ledger@, node_id),
{
    let mut latest: Option<i64> = None;
    let mut i: usize = 0;
    while i < ledger.len()
        invariant
            i <= ledger@.len(),
            latest == supersession(ledger@.take(i as int), node_id),
        decreases ledger@.len() - i,
    {
        assert(ledger@.take(i + 1).drop_last() =~= ledger@.take(i as int));
        assert(ledger@.take(i + 1).last() == ledger@[i as int]);
        let m = &ledger[i];
        if m.node_id == node_id && m.op == MutationOp::Supersede {
            latest = match latest {
                Some(t) => if t < m.at {
                    Some(m.at)
                } else {
                    Some(t)
                },
                None => Some(m.at),
            };
        }
        i += 1;
    }
    assert(ledger@.take(ledger@.len() as int) =~= ledger@);
    latest
}

// ---------------------------------------------------------------------
// Laws
// ---------------------------------------------------------------------

/// The time of a supersession is a latest one: some supersession of the node was
/// recorded then, and none later.
pub proof fn supersession_is_the_latest(ledger: Seq<Mutation>, node_id: i64)
    ensures
        match supersession(ledger, node_id) {
            Some(t) => (exists|i: int|
                0 <= i < ledger.len() && (#[trigger] ledger[i]).node_id == node_id && ledger[i].op
                    == MutationOp::Supersede && ledger[i].at == t) && (forall|i: int|
                0 <= i < ledger.len() && (#[trigger] ledger[i]).node_id == node_id && ledger[i].op
                    == MutationOp::Supersede ==> ledger[i].at <= t),
            None => forall|i: int|
                0 <= i < ledger.len() && (#[trigger] ledger[i]).node_id == node_id ==> ledger[i].op
                    != MutationOp::Supersede,
        },
    decreases ledger.len(),
{
    if ledger.len() > 0 {
        let t = ledger.drop_last();
        supersession_is_the_latest(t, node_id);
        assert forall|i: int| 0 <= i < ledger.len() implies #[trigger] ledger[i] == if i < t.len() {
            t[i]
        } else {
            ledger.last()
        } by {}
        match supersession(t, node_id) {
            Some(at) => {
                let i = choose|i: int|
                    0 <= i < t.len() && (#[trigger] t[i]).node_id == node_id && t[i].op
                        == MutationOp::Supersede && t[i].at == at;
                assert(ledger[i].at == at);
            },
            None => {},
        }
        let n = ledger.len() - 1;
        assert(ledger[n] == ledger.last());
    }
}

/// What happens to a memory later, short of another supersession, does not move the
/// time at which it was superseded.
pub proof fn supersession_survives_other_changes(ledger: Seq<Mutation>, m: Mutation, node_id: i64)
    requires
        m.op != MutationOp::Supersede || m.node_id != node_id,
    ensures
        supersession(ledger.push(m), node_id) == supersession(ledger, node_id),
{
    assert(ledger.push(m).drop_last() =~= ledger);
}

} // verus!
