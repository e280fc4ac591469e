//! The review queue: what the store noticed and deliberately does not decide.
//!
//! The machine says what it noticed, a person says what it means, and the saying is
//! recorded. The queue is a list of rows in the order in which they were written.

use vstd::prelude::*;

use crate::audit::{record, Mutation};
#[allow(unused_imports)]
use crate::audit::is_entry;
use crate::error::{Error, Result};
use crate::grounding::{stale_memories, Grounding};
#[allow(unused_imports)]
use crate::grounding::{newest_keys, stale_list, stale_text};
use crate::model::{Actor, Kind, MutationOp, Node};
#[allow(unused_imports)]
use crate::order::{as_ints, deref_all, marked, picked, ranking};
use crate::order::{flip, pick, rank_where, Key};
#[allow(unused_imports)]
use crate::seqs::{
    count_where, first_n, first_where, kept, lemma_first_where, lemma_first_where_is,
    lemma_first_where_none,
};
use crate::text::{decimal_of, same};
#[allow(unused_imports)]
use crate::text::decimal;
#[allow(unused_imports)]
use vstd::string::*;

verus! {

/// Most new findings that one detector raises in one scan; the next raises of the
/// rest.
pub const SCAN_LIMIT: usize = 25;

/// What kind of thing was noticed.
#[derive(Debug, Clone, Copy, PartialEq, Eq, Structural)]
pub enum Finding {
    /// Two memories that appear to contradict each other.
    Contradiction,
    /// A memory whose grounding link points at something no longer indexed.
    StaleGrounding,
    /// Past its declared expiry, with a condition that nobody has confirmed.
    Unresolved,
    /// A deliberately forgotten fact that keeps being offered again.
    Resurfacing,
}

impl Finding {
    /// The stored name.
    pub open spec fn name(self) -> Seq<char> {
        match self {
            Finding::Contradiction => "contradiction"@,
            Finding::StaleGrounding => "stale-grounding"@,
            Finding::Unresolved => "unresolved"@,
            Finding::Resurfacing => "resurfacing"@,
        }
    }

    /// The stored name.
    pub fn as_str(self) -> (r: &'static str)
        ensures
            r@ == self.name(),
    {
        match self {
            Finding::Contradiction => "contradiction",
            Finding::StaleGrounding => "stale-grounding",
            Finding::Unresolved => "unresolved",
            Finding::Resurfacing => "resurfacing",
        }
    }

    /// The finding of that name, if there is one.
    pub fn parse(s: &str) -> (r: Option<Finding>)
        ensures
            match r {
                Some(v) => v.name() == s@,
                None => forall|v: Finding| #[trigger] v.name() != s@,
            },
    {
        if same(s, "contradiction") {
            Some(Finding::Contradiction)
        } else if same(s, "stale-grounding") {
            Some(Finding::StaleGrounding)
        } else if same(s, "unresolved") {
            Some(Finding::Unresolved)
        } else if same(s, "resurfacing") {
            Some(Finding::Resurfacing)
        } else {
            assert forall|v: Finding| #[trigger] v.name() != s@ by {
                match v {
                    Finding::Contradiction => {},
                    Finding::StaleGrounding => {},
                    Finding::Unresolved => {},
                    Finding::Resurfacing => {},
                }
            }
            None
        }
    }

    /// The finding that a stored row means; a contradiction where the name is
    /// unknown.
    pub fn from_row(s: &str) -> (r: Finding)
        ensures
            r.name() == s@ || (r == Finding::Contradiction && forall|v: Finding| #[trigger]
                v.name() != s@),
    {
        match Finding::parse(s) {
            Some(f) => f,
            None => Finding::Contradiction,
        }
    }
}

/// What a person decided.
#[derive(Debug, Clone, Copy, PartialEq, Eq, Structural)]
pub enum Disposition {
    /// Both are right, or the finding is no problem. Nothing changes.
    Keep,
    /// The older one is retired in favour of the newer.
    Supersede,
    /// Not worth acting on, and not worth showing again.
    Dismiss,
}

impl Disposition {
    /// The stored name.
    pub open spec fn name(self) -> Seq<char> {
        match self {
            Disposition::Keep => "keep"@,
            Disposition::Supersede => "supersede"@,
            Disposition::Dismiss => "dismiss"@,
        }
    }

    /// The stored name.
    pub fn as_str(self) -> (r: &'static str)
        ensures
            r@ == self.name(),
    {
        match self {
            Disposition::Keep => "keep",
            Disposition::Supersede => "supersede",
            Disposition::Dismiss => "dismiss",
        }
    }
}

/// A finding that waits for a person.
#[derive(Debug, Clone)]
pub struct Item {
    pub id: i64,
    pub at: i64,
    pub finding: Finding,
    pub node_id: i64,
    pub other_id: Option<i64>,
    pub detail: Option<String>,
}

/// What a person said about a finding, and when.
#[derive(Debug, Clone)]
pub struct Decision {
    pub disposition: Disposition,
    pub at: i64,
    pub reason: Option<String>,
}

/// A row of the queue.
#[derive(Debug, Clone)]
pub struct Row {
    pub item: Item,
    pub decided: Option<Decision>,
}

/// The view of an optional text.
pub open spec fn text_of(s: Option<String>) -> Option<Seq<char>> {
    match s {
        Some(t) => Some(t@),
        None => None,
    }
}

/// The view of an optional text.
pub open spec fn str_of(s: Option<&str>) -> Option<Seq<char>> {
    match s {
        Some(t) => Some(t@),
        None => None,
    }
}

fn owned(s: Option<&str>) -> (r: Option<String>)
    ensures
        text_of(r) == str_of(s),
{
    match s {
        Some(t) => Some(t.to_owned()),
        None => None,
    }
}

/// A row as the rules see it.
pub ghost struct RowView {
    pub id: i64,
    pub at: i64,
    pub finding: Finding,
    pub node_id: i64,
    pub other_id: Option<i64>,
    pub detail: Option<Seq<char>>,
    pub decided: Option<(Disposition, i64, Option<Seq<char>>)>,
}

impl View for Row {
    type V = RowView;

    open spec fn view(&self) -> RowView {
        RowView {
            id: self.item.id,
            at: self.item.at,
            finding: self.item.finding,
            node_id: self.item.node_id,
            other_id: self.item.other_id,
            detail: text_of(self.item.detail),
            decided: match self.decided {
                Some(d) => Some((d.disposition, d.at, text_of(d.reason))),
                None => None,
            },
        }
    }
}

/// The rows of a queue as the rules see them.
pub open spec fn views(rows: Seq<Row>) -> Seq<RowView> {
    Seq::new(rows.len(), |i: int| rows[i]@)
}

// ---------------------------------------------------------------------
// Queueing
// ---------------------------------------------------------------------

/// The second memory of a finding as the queue tells findings apart.
pub open spec fn other_key(other_id: Option<i64>) -> i64 {
    match other_id {
        Some(id) => id,
        None => (-1int) as i64,
    }
}

/// Rows about the same thing.
pub open spec fn is_same_finding(finding: Finding, node_id: i64, other_id: Option<i64>) -> spec_fn(
    RowView,
) -> bool {
    |v: RowView|
        v.finding == finding && v.node_id == node_id && other_key(v.other_id) == other_key(other_id)
}

/// The queue once a finding is raised: a new row, or the waiting one about the same
/// thing with its time and detail refreshed. A decided row stays as it is.
pub open spec fn enqueued(
    v: Seq<RowView>,
    id: i64,
    finding: Finding,
    node_id: i64,
    other_id: Option<i64>,
    detail: Option<Seq<char>>,
    now: i64,
) -> Seq<RowView> {
    match first_where(v, is_same_finding(finding, node_id, other_id)) {
        Some(i) => if v[i].decided is None {
            v.update(i, RowView { at: now, detail, ..v[i] })
        } else {
            v
        },
        None => v.push(RowView { id, at: now, finding, node_id, other_id, detail, decided: None }),
    }
}

fn find_same(rows: &Vec<Row>, finding: Finding, node_id: i64, other_id: Option<i64>) -> (r: Option<
    usize,
>)
    ensures
        match r {
            Some(i) => i < rows@.len() && first_where(
                views(rows@),
                is_same_finding(finding, node_id, other_id),
            ) == Some(i as int),
            None => first_where(views(rows@), is_same_finding(finding, node_id, other_id)) is None,
        },
{
    let ghost p = is_same_finding(finding, node_id, other_id);
    let ghost v = views(rows@);
    let mut i: usize = 0;
    while i < rows.len()
        invariant
            i <= rows@.len(),
            p == is_same_finding(finding, node_id, other_id),
            v == views(rows@),
            forall|k: int| 0 <= k < i ==> !p(#[trigger] v[k]),
        decreases rows@.len() - i,
    {
        let item = &rows[i].item;
        let a: i64 = match item.other_id {
            Some(id) => id,
            None => -1,
        };
        let b: i64 = match other_id {
            Some(id) => id,
            None => -1,
        };
        assert(v[i as int] == rows@[i as int]@);
        if item.finding == finding && item.node_id == node_id && a == b {
            proof {
                lemma_first_where_is(v, p, i as int);
            }
            return Some(i);
        }
        i += 1;
    }
    proof {
        lemma_first_where_none(v, p);
    }
    None
}

/// Queues a finding, or refreshes the waiting one about the same thing. `id` is the
/// id of a new row.
pub fn enqueue(
    rows: &mut Vec<Row>,
    id: i64,
    finding: Finding,
    node_id: i64,
    other_id: Option<i64>,
    detail: Option<&str>,
    now: i64,
)
    ensures
        views(final(rows)@) == enqueued(
            views(old(rows)@),
            id,
            finding,
            node_id,
            other_id,
            str_of(detail),
            now,
        ),
{
    let ghost before = views(rows@);
    match find_same(rows, finding, node_id, other_id) {
        Some(i) => {
            assert(before[i as int] == rows@[i as int]@);
            if rows[i].decided.is_none() {
                let row = Row {
                    item: Item {
                        id: rows[i].item.id,
                        at: now,
                        finding: rows[i].item.finding,
                        node_id: rows[i].item.node_id,
                        other_id: rows[i].item.other_id,
                        detail: owned(detail),
                    },
                    decided: None,
                };
                rows.set(i, row);
                assert(views(rows@) =~= before.update(i as int, row@));
            }
        },
        None => {
            let row = Row {
                item: Item { id, at: now, finding, node_id, other_id, detail: owned(detail) },
                decided: None,
            };
            rows.push(row);
            assert(views(rows@) =~= before.push(row@));
        },
    }
}

/// Rows that wait for a person.
pub open spec fn is_waiting(v: Seq<RowView>) -> spec_fn(int) -> bool {
    |i: int| 0 <= i < v.len() && v[i].decided is None
}

/// Sort keys: by time, and of one instant by id.
pub open spec fn queue_keys(v: Seq<RowView>) -> Seq<Key> {
    Seq::new(
        v.len(),
        |i: int| Key { first: v[i].at as i128, second: v[i].id as i128, third: 0 },
    )
}

/// Everything that waits for a person, oldest first.
pub fn open<'a>(rows: &'a Vec<Row>, limit: usize) -> (r: Vec<&'a Row>)
    ensures
        deref_all(r@) == first_n(
            picked(rows@, kept(ranking(queue_keys(views(rows@))), is_waiting(views(rows@)))),
            limit as int,
        ),
{
    let ghost v = views(rows@);
    let mut keys: Vec<Key> = Vec::new();
    let mut keep: Vec<bool> = Vec::new();
    let mut i: usize = 0;
    while i < rows.len()
        invariant
            i <= rows@.len(),
            v == views(rows@),
            keys@.len() == i,
            keep@.len() == i,
            forall|k: int| 0 <= k < i ==> #[trigger] keys@[k] == queue_keys(v)[k],
            forall|k: int| 0 <= k < i ==> #[trigger] keep@[k] == is_waiting(v)(k),
        decreases rows@.len() - i,
    {
        assert(v[i as int] == rows@[i as int]@);
        keys.push(
            Key { first: rows[i].item.at as i128, second: rows[i].item.id as i128, third: 0 },
        );
        keep.push(rows[i].decided.is_none());
        i += 1;
    }
    assert(keys@ =~= queue_keys(v));
    assert(marked(keep@) =~= is_waiting(v));
    let order = rank_where(&keys, &keep);
    pick(rows, &order, limit)
}

/// Being undecided.
pub open spec fn undecided() -> spec_fn(RowView) -> bool {
    |v: RowView| v.decided is None
}

/// How many findings wait for a person.
pub fn open_count(rows: &Vec<Row>) -> (r: usize)
    ensures
        r == count_where(views(rows@), undecided()),
{
    let ghost v = views(rows@);
    let mut n: usize = 0;
    let mut i: usize = 0;
    while i < rows.len()
        invariant
            i <= rows@.len(),
            n <= i,
            v == views(rows@),
            n == count_where(v.take(i as int), undecided()),
        decreases rows@.len() - i,
    {
        assert(v.take(i + 1).drop_last() =~= v.take(i as int));
        assert(v.take(i + 1).last() == rows@[i as int]@);
        if rows[i].decided.is_none() {
            n += 1;
        }
        i += 1;
    }
    assert(v.take(v.len() as int) =~= v);
    n
}

// ---------------------------------------------------------------------
// Scanning
// ---------------------------------------------------------------------

/// Memories past their declared expiry whose end condition nobody has confirmed.
pub open spec fn is_unresolved(nodes: Seq<Node>, now: int) -> spec_fn(int) -> bool {
    |i: int|
        {
            &&& 0 <= i < nodes.len()
            &&& nodes[i].kind == Kind::Memory
            &&& nodes[i].deleted_at is None
            &&& nodes[i].meta.has_condition()
            &&& nodes[i].meta.lapses_at() is Some
            &&& nodes[i].meta.lapses_at()->0 <= now
        }
}

/// The memories with an unconfirmed end condition, newest first.
pub open spec fn unresolved(nodes: Seq<Node>, now: int) -> Seq<int> {
    kept(ranking(newest_keys(nodes)), is_unresolved(nodes, now))
}

/// Whether a finding is in the queue, decided or not.
pub open spec fn is_queued(
    v: Seq<RowView>,
    finding: Finding,
    node_id: i64,
    other_id: Option<i64>,
) -> bool {
    first_where(v, is_same_finding(finding, node_id, other_id)) is Some
}

/// The queue after the first `k` of the findings of one detector: the memories
/// `ids`, each with its detail. What is in the queue already is refreshed; of what is
/// not, the first are added, up to the cap. The rest waits for the next scan.
pub open spec fn raised(
    v: Seq<RowView>,
    first_id: int,
    start: int,
    finding: Finding,
    ids: Seq<i64>,
    details: Seq<Option<Seq<char>>>,
    now: i64,
    k: int,
) -> Seq<RowView>
    decreases k,
{
    if k <= 0 {
        v
    } else {
        let before = raised(v, first_id, start, finding, ids, details, now, k - 1);
        if is_queued(before, finding, ids[k - 1], None) || before.len() < v.len() + SCAN_LIMIT {
            enqueued(
                before,
                (first_id + before.len() - start) as i64,
                finding,
                ids[k - 1],
                None,
                details[k - 1],
                now,
            )
        } else {
            before
        }
    }
}

/// The ids of the nodes at some places.
pub open spec fn ids_at(nodes: Seq<Node>, places: Seq<int>) -> Seq<i64> {
    Seq::new(places.len(), |i: int| nodes[places[i]].id)
}

/// What the stale memories at some places pointed at.
pub open spec fn stale_details(groundings: Seq<Grounding>, places: Seq<int>) -> Seq<
    Option<Seq<char>>,
> {
    Seq::new(places.len(), |i: int| Some(stale_text(groundings[places[i]])))
}

/// The end conditions of the memories at some places.
pub open spec fn condition_details(nodes: Seq<Node>, places: Seq<int>) -> Seq<Option<Seq<char>>> {
    Seq::new(places.len(), |i: int| text_of(nodes[places[i]].meta.resolves_when))
}

/// The queue after the stale memories are raised.
pub open spec fn stale_raised(
    v: Seq<RowView>,
    first_id: int,
    nodes: Seq<Node>,
    groundings: Seq<Grounding>,
    now: i64,
) -> Seq<RowView> {
    let places = stale_list(nodes, groundings, nodes.len() as int);
    raised(
        v,
        first_id,
        v.len() as int,
        Finding::StaleGrounding,
        ids_at(nodes, places),
        stale_details(groundings, places),
        now,
        places.len() as int,
    )
}

/// The queue after a scan: stale memories first, then unconfirmed conditions. New
/// rows are numbered from `first_id`.
pub open spec fn scanned(
    v: Seq<RowView>,
    first_id: int,
    nodes: Seq<Node>,
    groundings: Seq<Grounding>,
    now: i64,
) -> Seq<RowView> {
    let places = unresolved(nodes, now as int);
    raised(
        stale_raised(v, first_id, nodes, groundings, now),
        first_id,
        v.len() as int,
        Finding::Unresolved,
        ids_at(nodes, places),
        condition_details(nodes, places),
        now,
        places.len() as int,
    )
}

proof fn lemma_raised_len(
    v: Seq<RowView>,
    first_id: int,
    start: int,
    finding: Finding,
    ids: Seq<i64>,
    details: Seq<Option<Seq<char>>>,
    now: i64,
    k: int,
)
    requires
        0 <= k,
    ensures
        v.len() <= raised(v, first_id, start, finding, ids, details, now, k).len() <= v.len()
            + SCAN_LIMIT,
    decreases k,
{
    if k > 0 {
        lemma_raised_len(v, first_id, start, finding, ids, details, now, k - 1);
        let before = raised(v, first_id, start, finding, ids, details, now, k - 1);
        lemma_first_where(before, is_same_finding(finding, ids[k - 1], None));
    }
}

fn find_unresolved(nodes: &Vec<Node>, now: i64) -> (r: Vec<usize>)
    ensures
        as_ints(r@) == unresolved(nodes@, now as int),
        forall|i: int| 0 <= i < r@.len() ==> #[trigger] r@[i] < nodes@.len(),
{
    let ghost p = is_unresolved(nodes@, now as int);
    let mut keys: Vec<Key> = Vec::new();
    let mut keep: Vec<bool> = Vec::new();
    let mut i: usize = 0;
    while i < nodes.len()
        invariant
            i <= nodes@.len(),
            p == is_unresolved(nodes@, now as int),
            keys@.len() == i,
            keep@.len() == i,
            forall|k: int| 0 <= k < i ==> #[trigger] keys@[k] == newest_keys(nodes@)[k],
            forall|k: int| 0 <= k < i ==> #[trigger] keep@[k] == p(k),
        decreases nodes@.len() - i,
    {
        let n = &nodes[i];
        keys.push(Key::of(flip(n.created_at)));
        let due = match (n.meta.expires_at, n.meta.rough_expiry) {
            (Some(t), _) => t <= now,
            (None, Some(t)) => t <= now,
            (None, None) => false,
        };
        let asked = n.meta.resolves_when.is_some() || n.meta.other_condition;
        keep.push(n.kind == Kind::Memory && n.deleted_at.is_none() && asked && due);
        i += 1;
    }
    assert(keys@ =~= newest_keys(nodes@));
    assert(marked(keep@) =~= p);
    rank_where(&keys, &keep)
}

/// Runs the detectors that own no other write path and queues what they find: links
/// that went stale, and end conditions that nobody has confirmed. `groundings[i]` is
/// the grounding of `nodes[i]`. Says how many findings wait afterwards.
pub fn scan(
    rows: &mut Vec<Row>,
    first_id: i64,
    nodes: &Vec<Node>,
    groundings: &Vec<Grounding>,
    now: i64,
) -> (r: usize)
    requires
        nodes@.len() == groundings@.len(),
        first_id <= i64::MAX - 50,
    ensures
        views(final(rows)@) == scanned(
            views(old(rows)@),
            first_id as int,
            nodes@,
            groundings@,
            now,
        ),
        r == count_where(views(final(rows)@), undecided()),
{
    let ghost v0 = views(rows@);
    let start: usize = rows.len();
    let stale = stale_memories(nodes, groundings, nodes.len());
    let ghost places = stale_list(nodes@, groundings@, nodes@.len() as int);
    let ghost ids = ids_at(nodes@, places);
    let ghost details = stale_details(groundings@, places);
    let mut k: usize = 0;
    while k < stale.len()
        invariant
            k <= stale@.len(),
            nodes@.len() == groundings@.len(),
            first_id <= i64::MAX - 50,
            start == v0.len(),
            places == stale_list(nodes@, groundings@, nodes@.len() as int),
            ids == ids_at(nodes@, places),
            details == stale_details(groundings@, places),
            stale@.len() == places.len(),
            forall|k: int|
                0 <= k < stale@.len() ==> (#[trigger] stale@[k]).0 == places[k] && stale@[k].0
                    < nodes@.len() && stale@[k].1@ == stale_text(groundings@[stale@[k].0 as int]),
            views(rows@) == raised(
                v0,
                first_id as int,
                start as int,
                Finding::StaleGrounding,
                ids,
                details,
                now,
                k as int,
            ),
        decreases stale@.len() - k,
    {
        proof {
            lemma_raised_len(
                v0,
                first_id as int,
                start as int,
                Finding::StaleGrounding,
                ids,
                details,
                now,
                k as int,
            );
            assert(views(rows@).len() == rows@.len());
            assert(stale@[k as int].0 == places[k as int]);
            assert(details[k as int] == Some(stale@[k as int].1@));
        }
        let what = Some(stale[k].1.as_str());
        assert(str_of(what) == details[k as int]);
        let node_id: i64 = nodes[stale[k].0].id;
        let known = find_same(rows, Finding::StaleGrounding, node_id, None).is_some();
        if known || rows.len() - start < SCAN_LIMIT {
            let id: i64 = first_id + (rows.len() - start) as i64;
            enqueue(rows, id, Finding::StaleGrounding, node_id, None, what, now);
        }
        k += 1;
    }
    let ghost v1 = views(rows@);
    proof {
        lemma_raised_len(
            v0,
            first_id as int,
            start as int,
            Finding::StaleGrounding,
            ids,
            details,
            now,
            k as int,
        );
        assert(v1 == stale_raised(v0, first_id as int, nodes@, groundings@, now));
    }
    let found = find_unresolved(nodes, now);
    let n: usize = found.len();
    let middle: usize = rows.len();
    let ghost places2 = unresolved(nodes@, now as int);
    let ghost ids2 = ids_at(nodes@, places2);
    let ghost details2 = condition_details(nodes@, places2);
    let mut j: usize = 0;
    while j < n
        invariant
            j <= n == found@.len(),
            middle == v1.len(),
            first_id <= i64::MAX - 50,
            start == v0.len(),
            start <= v1.len() <= start + SCAN_LIMIT,
            places2 == as_ints(found@),
            ids2 == ids_at(nodes@, places2),
            details2 == condition_details(nodes@, places2),
            forall|i: int| 0 <= i < found@.len() ==> #[trigger] found@[i] < nodes@.len(),
            views(rows@) == raised(
                v1,
                first_id as int,
                start as int,
                Finding::Unresolved,
                ids2,
                details2,
                now,
                j as int,
            ),
        decreases n - j,
    {
        proof {
            lemma_raised_len(
                v1,
                first_id as int,
                start as int,
                Finding::Unresolved,
                ids2,
                details2,
                now,
                j as int,
            );
            assert(views(rows@).len() == rows@.len());
            assert(places2[j as int] == found@[j as int]);
        }
        let node = &nodes[found[j]];
        let detail = node.resolves_when();
        assert(str_of(detail) == details2[j as int]);
        let known = find_same(rows, Finding::Unresolved, node.id, None).is_some();
        if known || rows.len() - middle < SCAN_LIMIT {
            let id: i64 = first_id + (rows.len() - start) as i64;
            enqueue(rows, id, Finding::Unresolved, node.id, None, detail, now);
        }
        j += 1;
    }
    open_count(rows)
}

// ---------------------------------------------------------------------
// Deciding
// ---------------------------------------------------------------------

/// Waiting rows of an id.
pub open spec fn is_open_row(id: i64) -> spec_fn(RowView) -> bool {
    |v: RowView| v.id == id && v.decided is None
}

/// The note that the ledger keeps of a decision that changes no memory.
pub open spec fn note_text(d: Disposition, f: Finding, reason: Option<Seq<char>>) -> Seq<char> {
    let base = "review: "@ + f.name() + " — "@ + d.name();
    match reason {
        Some(r) => base + " — "@ + r,
        None => base,
    }
}

/// The note that the ledger keeps of a decision that changes no memory.
pub fn decision_note(d: Disposition, f: Finding, reason: Option<&str>) -> (r: String)
    ensures
        r@ == note_text(d, f, str_of(reason)),
{
    let mut out = "review: ".to_owned();
    out.append(f.as_str());
    out.append(" — ");
    out.append(d.as_str());
    match reason {
        Some(r) => {
            out.append(" — ");
            out.append(r);
        },
        None => {},
    }
    out
}

/// Nodes of an id.
pub open spec fn is_node(id: i64) -> spec_fn(Node) -> bool {
    |n: Node| n.id == id
}

/// The place of the node of an id.
pub fn find_node(nodes: &Vec<Node>, id: i64) -> (r: Option<usize>)
    ensures
        match r {
            Some(i) => i < nodes@.len() && first_where(nodes@, is_node(id)) == Some(i as int),
            None => first_where(nodes@, is_node(id)) is None,
        },
{
    let mut i: usize = 0;
    while i < nodes.len()
        invariant
            i <= nodes@.len(),
            forall|k: int| 0 <= k < i ==> !is_node(id)(#[trigger] nodes@[k]),
        decreases nodes@.len() - i,
    {
        if nodes[i].id == id {
            proof {
                lemma_first_where_is(nodes@, is_node(id), i as int);
            }
            return Some(i);
        }
        i += 1;
    }
    proof {
        lemma_first_where_none(nodes@, is_node(id));
    }
    None
}

/// What a decision does to the memories.
#[derive(Debug, Clone, Copy, PartialEq, Eq, Structural)]
pub enum Effect {
    /// `older` is retired in favour of `newer`; the ledger has it.
    Supersede { older: i64, newer: i64 },
    /// Nothing; the ledger has a note of it.
    Noted,
}

/// The older of two memories, and the newer; nothing where one is not there.
pub open spec fn by_age(nodes: Seq<Node>, a: i64, b: i64) -> Option<(i64, i64)> {
    match (first_where(nodes, is_node(a)), first_where(nodes, is_node(b))) {
        (Some(i), Some(j)) => if nodes[i].created_at <= nodes[j].created_at {
            Some((a, b))
        } else {
            Some((b, a))
        },
        _ => None,
    }
}

/// The older of two memories, and the newer; the first counts as older where they
/// are of one age.
pub fn order_by_age(nodes: &Vec<Node>, a: i64, b: i64) -> (r: Option<(i64, i64)>)
    ensures
        r == by_age(nodes@, a, b),
{
    match (find_node(nodes, a), find_node(nodes, b)) {
        (Some(i), Some(j)) => if nodes[i].created_at <= nodes[j].created_at {
            Some((a, b))
        } else {
            Some((b, a))
        },
        _ => None,
    }
}

/// What comes of a decision on the row at `i`, before anything is written.
pub open spec fn effect_of(nodes: Seq<Node>, v: RowView, disposition: Disposition) -> Option<Effect> {
    if disposition == Disposition::Supersede {
        match v.other_id {
            Some(other) => match by_age(nodes, v.node_id, other) {
                Some(pair) => Some(Effect::Supersede { older: pair.0, newer: pair.1 }),
                None => None,
            },
            None => None,
        }
    } else {
        Some(Effect::Noted)
    }
}

/// The kind of the node of an id, if it is there.
pub open spec fn kind_of(nodes: Seq<Node>, id: i64) -> Option<Kind> {
    match first_where(nodes, is_node(id)) {
        Some(i) => Some(nodes[i].kind),
        None => None,
    }
}

/// The hash of the text of the node of an id, if there is one.
pub open spec fn hash_of(nodes: Seq<Node>, id: i64) -> Option<Seq<u8>> {
    match first_where(nodes, is_node(id)) {
        Some(i) => match nodes[i].content_hash {
            Some(h) => Some(h@),
            None => None,
        },
        None => None,
    }
}

/// The memory that a decision on a row is about: the one that is retired, or else
/// the one of the finding.
pub open spec fn subject_of(v: RowView, effect: Effect) -> i64 {
    match effect {
        Effect::Supersede { older, .. } => older,
        Effect::Noted => v.node_id,
    }
}

/// Whether `m` is what the ledger keeps of a decision: that a memory was retired,
/// with the hash of what it said, or that somebody looked.
pub open spec fn is_decision_entry(
    m: Mutation,
    nodes: Seq<Node>,
    v: RowView,
    effect: Effect,
    disposition: Disposition,
    reason: Option<Seq<char>>,
    now: i64,
) -> bool {
    match effect {
        Effect::Supersede { older, .. } => is_entry(
            m,
            now,
            older,
            MutationOp::Supersede,
            Actor::Human,
            reason,
            hash_of(nodes, older),
            None,
        ),
        Effect::Noted => is_entry(
            m,
            now,
            v.node_id,
            MutationOp::Review,
            Actor::Human,
            Some(note_text(disposition, v.finding, reason)),
            None,
            None,
        ),
    }
}

/// The text of the error for an id under which nothing waits.
pub open spec fn not_open_text(id: i64) -> Seq<char> {
    "no open review item #"@ + decimal(id as int)
}

/// The text of the error for a finding about one memory alone.
pub open spec fn nothing_text(id: i64, f: Finding) -> Seq<char> {
    "review #"@ + decimal(id as int) + " is a "@ + f.name()
        + " finding with nothing to supersede it with"@
}

fn find_open(rows: &Vec<Row>, id: i64) -> (r: Option<usize>)
    ensures
        match r {
            Some(i) => i < rows@.len() && first_where(views(rows@), is_open_row(id)) == Some(
                i as int,
            ),
            None => first_where(views(rows@), is_open_row(id)) is None,
        },
{
    let ghost v = views(rows@);
    let mut i: usize = 0;
    while i < rows.len()
        invariant
            i <= rows@.len(),
            v == views(rows@),
            forall|k: int| 0 <= k < i ==> !is_open_row(id)(#[trigger] v[k]),
        decreases rows@.len() - i,
    {
        assert(v[i as int] == rows@[i as int]@);
        if rows[i].item.id == id && rows[i].decided.is_none() {
            proof {
                lemma_first_where_is(v, is_open_row(id), i as int);
            }
            return Some(i);
        }
        i += 1;
    }
    proof {
        lemma_first_where_none(v, is_open_row(id));
    }
    None
}

/// Records that a person retired a memory.
fn retire(
    ledger: &mut Vec<Mutation>,
    nodes: &Vec<Node>,
    older: i64,
    reason: Option<&str>,
    now: i64,
)
    ensures
        if kind_of(nodes@, older) == Some(Kind::Memory) {
            &&& final(ledger)@.len() == old(ledger)@.len() + 1
            &&& final(ledger)@.drop_last() == old(ledger)@
            &&& is_entry(
                final(ledger)@.last(),
                now,
                older,
                MutationOp::Supersede,
                Actor::Human,
                str_of(reason),
                hash_of(nodes@, older),
                None,
            )
        } else {
            final(ledger)@ == old(ledger)@
        },
{
    match find_node(nodes, older) {
        Some(k) => {
            let hash = match &nodes[k].content_hash {
                Some(h) => Some(h),
                None => None,
            };
            record(
                ledger,
                Some(nodes[k].kind),
                now,
                older,
                MutationOp::Supersede,
                Actor::Human,
                reason,
                hash,
                None,
            );
        },
        None => {},
    }
}

/// Records what a person decided about the finding `id`. Superseding retires the
/// older of the two memories; the other dispositions change no memory, and leave a
/// note in the ledger that somebody looked. Returns the place of the row, and what
/// is left to do. `nodes` holds the memories that the finding is about.
pub fn decide(
    rows: &mut Vec<Row>,
    ledger: &mut Vec<Mutation>,
    nodes: &Vec<Node>,
    id: i64,
    disposition: Disposition,
    reason: Option<&str>,
    now: i64,
) -> (r: Result<(usize, Effect)>)
    ensures
        match first_where(views(old(rows)@), is_open_row(id)) {
            None => r is Err && r->Err_0 is NotFound && (r->Err_0)->NotFound_0@ == not_open_text(id),
            Some(i) => {
                let v = views(old(rows)@)[i];
                match effect_of(nodes@, v, disposition) {
                    Some(effect) => {
                        &&& r == Ok::<(usize, Effect), Error>((i as usize, effect))
                        &&& views(final(rows)@) == views(old(rows)@).update(
                            i,
                            RowView { decided: Some((disposition, now, str_of(reason))), ..v },
                        )
                        &&& if kind_of(nodes@, subject_of(v, effect)) == Some(Kind::Memory) {
                            &&& final(ledger)@.len() == old(ledger)@.len() + 1
                            &&& final(ledger)@.drop_last() == old(ledger)@
                            &&& is_decision_entry(
                                final(ledger)@.last(),
                                nodes@,
                                v,
                                effect,
                                disposition,
                                str_of(reason),
                                now,
                            )
                        } else {
                            final(ledger)@ == old(ledger)@
                        }
                    },
                    None => if v.other_id is None {
                        r is Err && r->Err_0 is Invalid && (r->Err_0)->Invalid_0@ == nothing_text(
                            id,
                            v.finding,
                        )
                    } else {
                        r is Err && r->Err_0 is NotFound && (r->Err_0)->NotFound_0@
                            == "a memory of the finding is gone"@
                    },
                }
            },
        },
        r is Err ==> views(final(rows)@) == views(old(rows)@) && final(ledger)@ == old(ledger)@,
{
    let ghost before = views(rows@);
    let i: usize = match find_open(rows, id) {
        Some(i) => i,
        None => {
            let mut msg = "no open review item #".to_owned();
            msg.append(decimal_of(id).as_str());
            return Err(Error::NotFound(msg));
        },
    };
    assert(before[i as int] == rows@[i as int]@);
    let node_id: i64 = rows[i].item.node_id;
    let finding = rows[i].item.finding;
    let effect = if disposition == Disposition::Supersede {
        match rows[i].item.other_id {
            Some(other) => match order_by_age(nodes, node_id, other) {
                Some(pair) => {
                    retire(ledger, nodes, pair.0, reason, now);
                    Effect::Supersede { older: pair.0, newer: pair.1 }
                },
                None => {
                    return Err(Error::NotFound("a memory of the finding is gone".to_owned()));
                },
            },
            None => {
                let mut msg = "review #".to_owned();
                msg.append(decimal_of(id).as_str());
                msg.append(" is a ");
                msg.append(finding.as_str());
                msg.append(" finding with nothing to supersede it with");
                return Err(Error::Invalid(msg));
            },
        }
    } else {
        let kind = match find_node(nodes, node_id) {
            Some(k) => Some(nodes[k].kind),
            None => None,
        };
        let note = decision_note(disposition, finding, reason);
        record(
            ledger,
            kind,
            now,
            node_id,
            MutationOp::Review,
            Actor::Human,
            Some(note.as_str()),
            None,
            None,
        );
        Effect::Noted
    };
    let detail = match &rows[i].item.detail {
        Some(s) => Some(s.as_str().to_owned()),
        None => None,
    };
    let row = Row {
        item: Item {
            id: rows[i].item.id,
            at: rows[i].item.at,
            finding,
            node_id,
            other_id: rows[i].item.other_id,
            detail,
        },
        decided: Some(Decision { disposition, at: now, reason: owned(reason) }),
    };
    rows.set(i, row);
    assert(views(rows@) =~= before.update(i as int, row@));
    Ok((i, effect))
}

// ---------------------------------------------------------------------
// Laws
// ---------------------------------------------------------------------

/// What a person decided stays decided: raising any finding changes no decided row.
pub proof fn a_decision_stands(
    v: Seq<RowView>,
    id: i64,
    finding: Finding,
    node_id: i64,
    other_id: Option<i64>,
    detail: Option<Seq<char>>,
    now: i64,
    i: int,
)
    requires
        0 <= i < v.len(),
        v[i].decided is Some,
    ensures
        enqueued(v, id, finding, node_id, other_id, detail, now).len() >= v.len(),
        enqueued(v, id, finding, node_id, other_id, detail, now)[i] == v[i],
{
    lemma_first_where(v, is_same_finding(finding, node_id, other_id));
}

/// Raising a finding puts it in the queue, and takes none out of it.
pub proof fn raising_queues(
    v: Seq<RowView>,
    id: i64,
    finding: Finding,
    node_id: i64,
    other_id: Option<i64>,
    detail: Option<Seq<char>>,
    now: i64,
)
    ensures
        is_queued(
            enqueued(v, id, finding, node_id, other_id, detail, now),
            finding,
            node_id,
            other_id,
        ),
        forall|f: Finding, n: i64, o: Option<i64>| #[trigger]
            is_queued(v, f, n, o) ==> is_queued(
                enqueued(v, id, finding, node_id, other_id, detail, now),
                f,
                n,
                o,
            ),
{
    let w = enqueued(v, id, finding, node_id, other_id, detail, now);
    let p = is_same_finding(finding, node_id, other_id);
    lemma_first_where(v, p);
    lemma_first_where(w, p);
    match first_where(v, p) {
        Some(i) => {
            assert(p(w[i]));
        },
        None => {
            assert(p(w[v.len() as int]));
        },
    }
    assert forall|f: Finding, n: i64, o: Option<i64>| #[trigger]
        is_queued(v, f, n, o) implies is_queued(w, f, n, o) by {
        let q = is_same_finding(f, n, o);
        lemma_first_where(v, q);
        lemma_first_where(w, q);
        let i = first_where(v, q)->0;
        assert(q(w[i]));
    }
}

/// Raising what is in the queue already makes no second row of it.
pub proof fn raising_again_adds_nothing(
    v: Seq<RowView>,
    id: i64,
    finding: Finding,
    node_id: i64,
    other_id: Option<i64>,
    detail: Option<Seq<char>>,
    now: i64,
)
    requires
        is_queued(v, finding, node_id, other_id),
    ensures
        enqueued(v, id, finding, node_id, other_id, detail, now).len() == v.len(),
{
    lemma_first_where(v, is_same_finding(finding, node_id, other_id));
}

/// A detector queues all that it finds, or as many new findings as the cap allows.
proof fn lemma_raised_queued(
    v: Seq<RowView>,
    first_id: int,
    start: int,
    finding: Finding,
    ids: Seq<i64>,
    details: Seq<Option<Seq<char>>>,
    now: i64,
    k: int,
)
    requires
        0 <= k <= ids.len(),
    ensures
        ({
            let after = raised(v, first_id, start, finding, ids, details, now, k);
            &&& after.len() == v.len() + SCAN_LIMIT || all_queued(after, finding, ids.take(k))
            &&& k <= SCAN_LIMIT ==> all_queued(after, finding, ids.take(k)) && after.len()
                <= v.len() + k
            &&& forall|f: Finding, n: i64, o: Option<i64>| #[trigger]
                is_queued(v, f, n, o) ==> is_queued(after, f, n, o)
        }),
    decreases k,
{
    if k > 0 {
        lemma_raised_queued(v, first_id, start, finding, ids, details, now, k - 1);
        lemma_raised_len(v, first_id, start, finding, ids, details, now, k - 1);
        lemma_raised_len(v, first_id, start, finding, ids, details, now, k);
        let before = raised(v, first_id, start, finding, ids, details, now, k - 1);
        let after = raised(v, first_id, start, finding, ids, details, now, k);
        let id = (first_id + before.len() - start) as i64;
        raising_queues(before, id, finding, ids[k - 1], None, details[k - 1], now);
        lemma_first_where(before, is_same_finding(finding, ids[k - 1], None));
        assert forall|f: Finding, n: i64, o: Option<i64>| #[trigger]
            is_queued(v, f, n, o) implies is_queued(after, f, n, o) by {
            assert(is_queued(before, f, n, o));
        }
        assert forall|i: int|
            0 <= i < k && all_queued(before, finding, ids.take(k - 1)) && (is_queued(
                before,
                finding,
                ids[k - 1],
                None,
            ) || before.len() < v.len() + SCAN_LIMIT) implies is_queued(
            after,
            finding,
            #[trigger] ids.take(k)[i],
            None,
        ) by {
            if i < k - 1 {
                assert(ids.take(k - 1)[i] == ids[i]);
                assert(is_queued(before, finding, ids.take(k - 1)[i], None));
            }
        }
    }
}

proof fn lemma_raised_again(
    v: Seq<RowView>,
    first_id: int,
    start: int,
    finding: Finding,
    ids: Seq<i64>,
    details: Seq<Option<Seq<char>>>,
    now: i64,
    k: int,
)
    requires
        0 <= k <= ids.len(),
        all_queued(v, finding, ids),
    ensures
        raised(v, first_id, start, finding, ids, details, now, k).len() == v.len(),
    decreases k,
{
    if k > 0 {
        lemma_raised_again(v, first_id, start, finding, ids, details, now, k - 1);
        lemma_raised_queued(v, first_id, start, finding, ids, details, now, k - 1);
        let before = raised(v, first_id, start, finding, ids, details, now, k - 1);
        assert(is_queued(v, finding, ids[k - 1], None));
        raising_again_adds_nothing(
            before,
            (first_id + before.len() - start) as i64,
            finding,
            ids[k - 1],
            None,
            details[k - 1],
            now,
        );
    }
}

/// Whether findings about some memories are all in the queue.
pub open spec fn all_queued(v: Seq<RowView>, finding: Finding, ids: Seq<i64>) -> bool {
    forall|i: int| 0 <= i < ids.len() ==> is_queued(v, finding, #[trigger] ids[i], None)
}

/// The memories that a scan finds stale.
pub open spec fn stale_ids(nodes: Seq<Node>, groundings: Seq<Grounding>) -> Seq<i64> {
    ids_at(nodes, stale_list(nodes, groundings, nodes.len() as int))
}

/// The memories whose end condition a scan finds unconfirmed.
pub open spec fn unresolved_ids(nodes: Seq<Node>, now: i64) -> Seq<i64> {
    ids_at(nodes, unresolved(nodes, now as int))
}

/// A scan leaves nothing out but for the cap: of each kind, all that is found is in
/// the queue afterwards, or as many new findings as the cap allows were added, and
/// the next scan adds of the rest.
pub proof fn a_scan_raises_up_to_the_cap(
    v: Seq<RowView>,
    first_id: int,
    nodes: Seq<Node>,
    groundings: Seq<Grounding>,
    now: i64,
)
    ensures
        ({
            let a = stale_raised(v, first_id, nodes, groundings, now);
            let b = scanned(v, first_id, nodes, groundings, now);
            let stale = stale_ids(nodes, groundings);
            let open = unresolved_ids(nodes, now);
            &&& v.len() <= a.len() <= v.len() + SCAN_LIMIT
            &&& a.len() <= b.len() <= a.len() + SCAN_LIMIT
            &&& a.len() == v.len() + SCAN_LIMIT || all_queued(b, Finding::StaleGrounding, stale)
            &&& b.len() == a.len() + SCAN_LIMIT || all_queued(b, Finding::Unresolved, open)
            &&& stale.len() <= SCAN_LIMIT ==> all_queued(b, Finding::StaleGrounding, stale)
            &&& open.len() <= SCAN_LIMIT ==> all_queued(b, Finding::Unresolved, open)
        }),
{
    let n = v.len() as int;
    let a = stale_raised(v, first_id, nodes, groundings, now);
    let places = stale_list(nodes, groundings, nodes.len() as int);
    let stale = stale_ids(nodes, groundings);
    let details = stale_details(groundings, places);
    let places2 = unresolved(nodes, now as int);
    let open = unresolved_ids(nodes, now);
    let details2 = condition_details(nodes, places2);
    lemma_raised_len(v, first_id, n, Finding::StaleGrounding, stale, details, now, stale.len() as int);
    lemma_raised_queued(
        v,
        first_id,
        n,
        Finding::StaleGrounding,
        stale,
        details,
        now,
        stale.len() as int,
    );
    lemma_raised_len(a, first_id, n, Finding::Unresolved, open, details2, now, open.len() as int);
    lemma_raised_queued(a, first_id, n, Finding::Unresolved, open, details2, now, open.len() as int);
    assert(stale.take(stale.len() as int) =~= stale);
    assert(open.take(open.len() as int) =~= open);
    let b = scanned(v, first_id, nodes, groundings, now);
    if all_queued(a, Finding::StaleGrounding, stale) {
        assert forall|i: int| 0 <= i < stale.len() implies is_queued(
            b,
            Finding::StaleGrounding,
            #[trigger] stale[i],
            None,
        ) by {
            assert(is_queued(a, Finding::StaleGrounding, stale[i], None));
        }
    }
}

/// Scanning again adds no row once all that there is to find is in the queue.
pub proof fn scanning_again_adds_nothing(
    v: Seq<RowView>,
    first_id: int,
    nodes: Seq<Node>,
    groundings: Seq<Grounding>,
    now: i64,
)
    requires
        all_queued(v, Finding::StaleGrounding, stale_ids(nodes, groundings)),
        all_queued(v, Finding::Unresolved, unresolved_ids(nodes, now)),
    ensures
        scanned(v, first_id, nodes, groundings, now).len() == v.len(),
{
    let n = v.len() as int;
    let places = stale_list(nodes, groundings, nodes.len() as int);
    let stale = stale_ids(nodes, groundings);
    let details = stale_details(groundings, places);
    let places2 = unresolved(nodes, now as int);
    let open = unresolved_ids(nodes, now);
    let details2 = condition_details(nodes, places2);
    let a = stale_raised(v, first_id, nodes, groundings, now);
    lemma_raised_again(v, first_id, n, Finding::StaleGrounding, stale, details, now, stale.len() as int);
    lemma_raised_queued(
        v,
        first_id,
        n,
        Finding::StaleGrounding,
        stale,
        details,
        now,
        stale.len() as int,
    );
    assert forall|i: int| 0 <= i < open.len() implies is_queued(
        a,
        Finding::Unresolved,
        #[trigger] open[i],
        None,
    ) by {
        assert(is_queued(v, Finding::Unresolved, open[i], None));
    }
    lemma_raised_again(a, first_id, n, Finding::Unresolved, open, details2, now, open.len() as int);
}

/// A finding is decided once: where ids are told apart, nothing waits under the id
/// of a decided row.
pub proof fn deciding_twice_is_refused(
    v: Seq<RowView>,
    i: int,
    disposition: Disposition,
    at: i64,
    reason: Option<Seq<char>>,
)
    requires
        0 <= i < v.len(),
        forall|j: int, k: int|
            #![trigger v[j], v[k]]
            0 <= j < k < v.len() ==> v[j].id != v[k].id,
    ensures
        first_where(
            v.update(i, RowView { decided: Some((disposition, at, reason)), ..v[i] }),
            is_open_row(v[i].id),
        ) is None,
{
    let w = v.update(i, RowView { decided: Some((disposition, at, reason)), ..v[i] });
    assert forall|k: int| 0 <= k < w.len() implies !is_open_row(v[i].id)(#[trigger] w[k]) by {
        if k != i {
            assert(w[k] == v[k]);
            if k < i {
                assert(v[k].id != v[i].id);
            } else {
                assert(v[i].id != v[k].id);
            }
        }
    }
    lemma_first_where_none(w, is_open_row(v[i].id));
}

} // verus!
