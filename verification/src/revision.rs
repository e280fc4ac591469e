//! Content history: what a memory used to say.
//!
//! An edit overwrites a memory's text. The wording before it is kept here, so that
//! a question about a past date is answered with the text of that date. A
//! deliberate deletion purges the history too: otherwise the deleted value would
//! live on in it.
//!
//! The history is a list of rows in the order in which they were written.

use vstd::prelude::*;

use crate::model::{Kind, Node};
#[allow(unused_imports)]
use crate::order::{
    as_ints, deref_all, lemma_ranking_has, marked, picked, ranking, ranking_is_sorted,
};
use crate::order::{pick, rank_where, Key};
#[allow(unused_imports)]
use crate::seqs::{kept, lemma_kept, lemma_kept_all};

verus! {

/// A memory's text as it stood, and when it stopped standing that way.
#[derive(Debug, Clone)]
pub struct Revision {
    pub at: i64,
    pub title: Option<String>,
    pub body: Option<String>,
}

/// A stored revision.
#[derive(Debug, Clone)]
pub struct Row {
    pub node_id: i64,
    pub revision: Revision,
}

/// The view of an optional text.
pub open spec fn text_of(s: Option<String>) -> Option<Seq<char>> {
    match s {
        Some(t) => Some(t@),
        None => None,
    }
}

fn copied(s: &Option<String>) -> (r: Option<String>)
    ensures
        text_of(r) == text_of(*s),
{
    match s {
        Some(t) => Some(t.as_str().to_owned()),
        None => None,
    }
}

/// Whether `row` keeps the text of `node` as it stood until `now`.
pub open spec fn keeps(row: Row, node: Node, now: i64) -> bool {
    &&& row.node_id == node.id
    &&& row.revision.at == now
    &&& text_of(row.revision.title) == text_of(node.title)
    &&& text_of(row.revision.body) == text_of(node.body)
}

/// Keeps a memory's text before an edit replaces it. Other kinds are derived from
/// sources that are their own history.
pub fn snapshot(rows: &mut Vec<Row>, node: &Node, now: i64)
    ensures
        node.kind != Kind::Memory ==> final(rows)@ == old(rows)@,
        node.kind == Kind::Memory ==> {
            &&& final(rows)@.len() == old(rows)@.len() + 1
            &&& final(rows)@.drop_last() == old(rows)@
            &&& keeps(final(rows)@.last(), *node, now)
        },
{
    if node.kind != Kind::Memory {
        return;
    }
    let revision = Revision { at: now, title: copied(&node.title), body: copied(&node.body) };
    rows.push(Row { node_id: node.id, revision });
    assert(rows@.drop_last() =~= old(rows)@);
}

/// Sort keys: by time.
pub open spec fn by_time(rows: Seq<Row>) -> Seq<Key> {
    Seq::new(
        rows.len(),
        |i: int| Key { first: rows[i].revision.at as i128, second: 0, third: 0 },
    )
}

/// Rows of `node_id` that end after `at`, if a time is given.
pub open spec fn is_of(rows: Seq<Row>, node_id: i64, after: Option<i64>) -> spec_fn(int) -> bool {
    |i: int|
        0 <= i < rows.len() && rows[i].node_id == node_id && (match after {
            Some(t) => rows[i].revision.at > t,
            None => true,
        })
}

/// The rows of a node that end after a time, oldest first.
pub open spec fn rows_of(rows: Seq<Row>, node_id: i64, after: Option<i64>) -> Seq<Row> {
    picked(rows, kept(ranking(by_time(rows)), is_of(rows, node_id, after)))
}

fn select<'a>(rows: &'a Vec<Row>, node_id: i64, after: Option<i64>) -> (r: Vec<&'a Row>)
    ensures
        deref_all(r@) == rows_of(rows@, node_id, after),
{
    let mut keys: Vec<Key> = Vec::new();
    let mut keep: Vec<bool> = Vec::new();
    let mut i: usize = 0;
    while i < rows.len()
        invariant
            i <= rows@.len(),
            keys@.len() == i,
            keep@.len() == i,
            forall|k: int| 0 <= k < i ==> #[trigger] keys@[k] == by_time(rows@)[k],
            forall|k: int|
                0 <= k < i ==> #[trigger] keep@[k] == is_of(rows@, node_id, after)(k),
        decreases rows@.len() - i,
    {
        keys.push(Key::of(rows[i].revision.at as i128));
        keep.push(
            rows[i].node_id == node_id && (match after {
                Some(t) => rows[i].revision.at > t,
                None => true,
            }),
        );
        i += 1;
    }
    assert(keys@ =~= by_time(rows@));
    assert(marked(keep@) =~= is_of(rows@, node_id, after));
    let order = rank_where(&keys, &keep);
    let r = pick(rows, &order, order.len());
    assert(deref_all(r@) =~= picked(rows@, as_ints(order@)));
    r
}

/// Every replaced version of `node_id`, oldest first.
pub fn history<'a>(rows: &'a Vec<Row>, node_id: i64) -> (r: Vec<&'a Row>)
    ensures
        deref_all(r@) == rows_of(rows@, node_id, None),
{
    select(rows, node_id, None)
}

/// The text that `node_id` carried at `at`: the earliest revision that ended later.
/// Nothing where the current text already applied.
pub fn text_at<'a>(rows: &'a Vec<Row>, node_id: i64, at: i64) -> (r: Option<&'a Row>)
    ensures
        match r {
            Some(row) => rows_of(rows@, node_id, Some(at)).len() > 0 && *row == rows_of(
                rows@,
                node_id,
                Some(at),
            )[0],
            None => rows_of(rows@, node_id, Some(at)).len() == 0,
        },
{
    let found = select(rows, node_id, Some(at));
    if found.len() == 0 {
        None
    } else {
        assert(deref_all(found@)[0] == *found@[0]);
        Some(found[0])
    }
}

/// Rows of other nodes than `node_id`.
pub open spec fn is_other(node_id: i64) -> spec_fn(Row) -> bool {
    |row: Row| row.node_id != node_id
}

/// Drops every stored version of `node_id`, and says how many there were. For
/// deliberate deletions only: nobody decides an archival, and it can be undone.
pub fn purge(rows: &mut Vec<Row>, node_id: i64) -> (r: usize)
    ensures
        final(rows)@ == kept(old(rows)@, is_other(node_id)),
        r == old(rows)@.len() - final(rows)@.len(),
{
    let ghost all = rows@;
    let ghost p = is_other(node_id);
    let n: usize = rows.len();
    let mut dropped: usize = 0;
    let mut i: usize = 0;
    assert(rows@ =~= kept(all.take(0), p) + all.skip(0));
    while i < rows.len()
        invariant
            i <= rows@.len(),
            n == all.len(),
            rows@.len() + dropped == n,
            p == is_other(node_id),
            kept(all.take(i + dropped), p).len() == i,
            rows@ == kept(all.take(i + dropped), p) + all.skip(i + dropped),
        decreases rows@.len() - i,
    {
        let ghost k = i + dropped;
        let ghost head = kept(all.take(k), p);
        assert(all.take(k + 1).drop_last() =~= all.take(k));
        assert(all.take(k + 1).last() == all[k]);
        assert(rows@[i as int] == all[k]);
        if rows[i].node_id == node_id {
            rows.remove(i);
            assert(rows@ =~= head + all.skip(k + 1));
            dropped += 1;
        } else {
            assert(head.push(all[k]) + all.skip(k + 1) =~= head + all.skip(k));
            i += 1;
        }
    }
    assert(all.take(n as int) =~= all);
    assert(rows@ =~= kept(all, p));
    dropped
}

// ---------------------------------------------------------------------
// Laws
// ---------------------------------------------------------------------

/// The rows of a node are its own, and end after the given time.
pub proof fn rows_are_of_the_node(rows: Seq<Row>, node_id: i64, after: Option<i64>, k: int)
    requires
        0 <= k < rows_of(rows, node_id, after).len(),
    ensures
        rows.contains(rows_of(rows, node_id, after)[k]),
        rows_of(rows, node_id, after)[k].node_id == node_id,
        after is Some ==> rows_of(rows, node_id, after)[k].revision.at > after->0,
{
    let p = is_of(rows, node_id, after);
    lemma_kept(ranking(by_time(rows)), p);
    let i = kept(ranking(by_time(rows)), p)[k];
    assert(p(i));
}

/// A deliberate deletion leaves no version of the memory behind, and takes none of
/// any other.
pub proof fn purge_leaves_nothing(rows: Seq<Row>, node_id: i64, after: Option<i64>)
    ensures
        rows_of(kept(rows, is_other(node_id)), node_id, after).len() == 0,
        forall|row: Row|
            row.node_id != node_id && rows.contains(row) ==> #[trigger] kept(
                rows,
                is_other(node_id),
            ).contains(row),
{
    let rest = kept(rows, is_other(node_id));
    if rows_of(rest, node_id, after).len() > 0 {
        rows_are_of_the_node(rest, node_id, after, 0);
        let row = rows_of(rest, node_id, after)[0];
        let i = choose|i: int| 0 <= i < rest.len() && rest[i] == row;
        lemma_kept(rows, is_other(node_id));
        assert(is_other(node_id)(rest[i]));
    }
    assert forall|row: Row| row.node_id != node_id && rows.contains(row) implies #[trigger] rest.contains(
        row,
    ) by {
        let i = choose|i: int| 0 <= i < rows.len() && rows[i] == row;
        lemma_kept_all(rows, is_other(node_id), i);
    }
}

/// After an edit at `now`, the memory is known to have said at any earlier time,
/// back to the version before, what it said until the edit.
pub proof fn an_edit_keeps_the_old_wording(
    rows: Seq<Row>,
    row: Row,
    at: i64,
)
    requires
        at < row.revision.at,
        forall|i: int|
            0 <= i < rows.len() && (#[trigger] rows[i]).node_id == row.node_id
                ==> rows[i].revision.at <= at,
    ensures
        rows_of(rows.push(row), row.node_id, Some(at)) == seq![row],
{
    let all = rows.push(row);
    let keys = by_time(all);
    let order = ranking(keys);
    let p = is_of(all, row.node_id, Some(at));
    let n = rows.len() as int;
    ranking_is_sorted(keys, keys.len() as int);
    lemma_ranking_has(order, keys, n);
    let k = choose|k: int| 0 <= k < order.len() && order[k] == n;
    assert(all[n] == row);
    assert forall|i: int| 0 <= i < order.len() implies p(#[trigger] order[i]) == (i == k) by {
        if i != k {
            assert(order[i] != order[k]);
            assert(all[order[i]] == rows[order[i]]);
        }
    }
    lemma_kept_single(order, p, k);
    assert(rows_of(all, row.node_id, Some(at)) =~= seq![row]);
}

proof fn lemma_kept_single(s: Seq<int>, p: spec_fn(int) -> bool, k: int)
    requires
        0 <= k < s.len(),
        forall|i: int| 0 <= i < s.len() ==> p(#[trigger] s[i]) == (i == k),
    ensures
        kept(s, p) == seq![s[k]],
    decreases s.len(),
{
    let t = s.drop_last();
    assert forall|i: int| 0 <= i < t.len() implies p(#[trigger] t[i]) == (i == k) by {
        assert(t[i] == s[i]);
    }
    if k == s.len() - 1 {
        lemma_kept_none(t, p);
        assert(kept(s, p) =~= seq![s[k]]);
    } else {
        lemma_kept_single(t, p, k);
        assert(!p(s[s.len() - 1]));
    }
}

proof fn lemma_kept_none(s: Seq<int>, p: spec_fn(int) -> bool)
    requires
        forall|i: int| 0 <= i < s.len() ==> !p(#[trigger] s[i]),
    ensures
        kept(s, p).len() == 0,
    decreases s.len(),
{
    if s.len() > 0 {
        let t = s.drop_last();
        assert forall|i: int| 0 <= i < t.len() implies !p(#[trigger] t[i]) by {
            assert(t[i] == s[i]);
        }
        lemma_kept_none(t, p);
        assert(!p(s[s.len() - 1]));
    }
}

} // verus!
