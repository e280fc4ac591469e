//! Consolidation on the stored nodes: which of them take part, and what a plan does
//! to them.

use vstd::prelude::*;

use crate::consolidate::{Mem, Plan};
#[allow(unused_imports)]
use crate::consolidate::{
    all_pairs, archived_ids, band, compared, is_gone, is_superseded, merges_are_fair, older_first,
    pairs_up_to, same_bucket, supersessions, Band,
};
#[allow(unused_imports)]
use crate::json::opt_view;
#[allow(unused_imports)]
use crate::model::Meta;
use crate::model::{NewEdge, Node, Rel};
#[allow(unused_imports)]
use crate::seqs::kept;

verus! {

// ---------------------------------------------------------------------
// Loading
// ---------------------------------------------------------------------

/// Memories that take part in a consolidation: live, and not superseded.
pub open spec fn is_candidate() -> spec_fn(Node) -> bool {
    |n: Node| n.live_memory()
}

/// A text, empty where there is none.
pub open spec fn or_empty(t: Option<String>) -> Seq<char> {
    match opt_view(t) {
        Some(s) => s,
        None => Seq::empty(),
    }
}

/// Whether `m` is the node `n` as a consolidation sees it.
pub open spec fn is_mem_of(m: Mem, n: Node) -> bool {
    &&& m.id == n.id
    &&& m.uid@ == n.uid@
    &&& m.title@ == or_empty(n.title)
    &&& m.body@ == or_empty(n.body)
    &&& m.subkind@ == or_empty(n.subkind)
    &&& m.project_id == n.project_id
    &&& m.created_at == n.created_at
    &&& m.pinned == n.pinned
}

/// Whether memories are those of nodes, one for one.
pub open spec fn are_mems_of(mems: Seq<Mem>, nodes: Seq<Node>) -> bool {
    &&& mems.len() == nodes.len()
    &&& forall|i: int| 0 <= i < mems.len() ==> is_mem_of(#[trigger] mems[i], nodes[i])
}

fn text_or_empty(t: &Option<String>) -> (r: String)
    ensures
        r@ == or_empty(*t),
{
    match t {
        Some(s) => s.clone(),
        None => String::new(),
    }
}

/// The memories that take part, out of nodes that have an embedding.
pub fn load_memories(nodes: &Vec<Node>) -> (r: Vec<Mem>)
    ensures
        are_mems_of(r@, kept(nodes@, is_candidate())),
{
    let ghost p = is_candidate();
    let mut out: Vec<Mem> = Vec::new();
    let mut i: usize = 0;
    while i < nodes.len()
        invariant
            i <= nodes@.len(),
            p == is_candidate(),
            are_mems_of(out@, kept(nodes@.take(i as int), p)),
        decreases nodes@.len() - i,
    {
        assert(nodes@.take(i + 1).drop_last() =~= nodes@.take(i as int));
        assert(nodes@.take(i + 1).last() == nodes@[i as int]);
        let n = &nodes[i];
        if n.is_live_memory() {
            out.push(
                Mem {
                    id: n.id,
                    uid: n.uid.clone(),
                    title: text_or_empty(&n.title),
                    body: text_or_empty(&n.body),
                    subkind: text_or_empty(&n.subkind),
                    project_id: n.project_id,
                    created_at: n.created_at,
                    pinned: n.pinned,
                },
            );
        }
        i += 1;
    }
    assert(nodes@.take(nodes@.len() as int) =~= nodes@);
    out
}

// ---------------------------------------------------------------------
// Applying a plan
// ---------------------------------------------------------------------

/// The memory that supersedes `id`, the last one where several do.
pub open spec fn winner(superseded: Seq<(i64, i64)>, id: i64) -> Option<i64>
    decreases superseded.len(),
{
    if superseded.len() == 0 {
        None
    } else if superseded.last().0 == id {
        Some(superseded.last().1)
    } else {
        winner(superseded.drop_last(), id)
    }
}

/// A node once what superseded it is on record.
pub open spec fn superseded_node(n: Node, superseded: Seq<(i64, i64)>) -> Node {
    match winner(superseded, n.id) {
        Some(w) => Node { superseded_by: Some(w), ..n },
        None => n,
    }
}

/// A node once a plan is applied: superseded, archived, or as it was.
pub open spec fn settled(n: Node, superseded: Seq<(i64, i64)>, archive: Seq<i64>, now: i64) -> Node {
    let s = superseded_node(n, superseded);
    if archive.contains(n.id) {
        Node { deleted_at: Some(now), meta: Meta { archived: Some(1), ..s.meta }, ..s }
    } else {
        s
    }
}

/// The nodes once a plan is applied.
pub open spec fn all_settled(
    nodes: Seq<Node>,
    superseded: Seq<(i64, i64)>,
    archive: Seq<i64>,
    now: i64,
) -> Seq<Node> {
    Seq::new(nodes.len(), |i: int| settled(nodes[i], superseded, archive, now))
}

/// The edges that record supersessions, from the newer memory to the older.
pub open spec fn supersession_edges(superseded: Seq<(i64, i64)>) -> Seq<NewEdge> {
    Seq::new(
        superseded.len(),
        |k: int| NewEdge { src: superseded[k].1, dst: superseded[k].0, rel: Rel::Supersedes },
    )
}

fn winner_of(superseded: &Vec<(i64, i64)>, id: i64) -> (r: Option<i64>)
    ensures
        r == winner(superseded@, id),
{
    let mut found: Option<i64> = None;
    let mut k: usize = 0;
    while k < superseded.len()
        invariant
            k <= superseded@.len(),
            found == winner(superseded@.take(k as int), id),
        decreases superseded@.len() - k,
    {
        assert(superseded@.take(k + 1).drop_last() =~= superseded@.take(k as int));
        assert(superseded@.take(k + 1).last() == superseded@[k as int]);
        if superseded[k].0 == id {
            found = Some(superseded[k].1);
        }
        k += 1;
    }
    assert(superseded@.take(superseded@.len() as int) =~= superseded@);
    found
}

fn has_id(ids: &Vec<i64>, id: i64) -> (r: bool)
    ensures
        r == ids@.contains(id),
{
    let mut i: usize = 0;
    while i < ids.len()
        invariant
            i <= ids@.len(),
            forall|k: int| 0 <= k < i ==> #[trigger] ids@[k] != id,
        decreases ids@.len() - i,
    {
        if ids[i] == id {
            return true;
        }
        i += 1;
    }
    false
}

/// Applies a plan to the stored nodes: what it supersedes is marked, what it archives
/// is soft-deleted. The edges to be stored come back. The summaries are nodes of
/// their own, and are left to be inserted.
pub fn apply(nodes: &mut Vec<Node>, plan: &Plan, now: i64) -> (r: Vec<NewEdge>)
    ensures
        final(nodes)@ == all_settled(old(nodes)@, plan.supersede@, plan.archive@, now),
        r@ == supersession_edges(plan.supersede@),
{
    let ghost was = nodes@;
    let mut i: usize = 0;
    while i < nodes.len()
        invariant
            i <= nodes@.len(),
            nodes@.len() == was.len(),
            forall|k: int|
                0 <= k < i ==> #[trigger] nodes@[k] == settled(
                    was[k],
                    plan.supersede@,
                    plan.archive@,
                    now,
                ),
            forall|k: int| i <= k < was.len() ==> #[trigger] nodes@[k] == was[k],
        decreases nodes@.len() - i,
    {
        let id: i64 = nodes[i].id;
        if let Some(w) = winner_of(&plan.supersede, id) {
            nodes[i].superseded_by = Some(w);
        }
        if has_id(&plan.archive, id) {
            nodes[i].deleted_at = Some(now);
            nodes[i].meta.archived = Some(1);
        }
        i += 1;
    }
    assert(nodes@ =~= all_settled(was, plan.supersede@, plan.archive@, now));
    let mut edges: Vec<NewEdge> = Vec::new();
    let mut k: usize = 0;
    while k < plan.supersede.len()
        invariant
            k <= plan.supersede@.len(),
            edges@.len() == k,
            forall|j: int|
                0 <= j < k ==> #[trigger] edges@[j] == supersession_edges(plan.supersede@)[j],
        decreases plan.supersede@.len() - k,
    {
        let (older, newer) = plan.supersede[k];
        edges.push(NewEdge { src: newer, dst: older, rel: Rel::Supersedes });
        k += 1;
    }
    assert(edges@ =~= supersession_edges(plan.supersede@));
    edges
}

// ---------------------------------------------------------------------
// Laws
// ---------------------------------------------------------------------

proof fn lemma_winner(superseded: Seq<(i64, i64)>, id: i64)
    ensures
        winner(superseded, id) is Some <==> is_superseded(superseded, id),
    decreases superseded.len(),
{
    if superseded.len() > 0 {
        let t = superseded.drop_last();
        lemma_winner(t, id);
        if superseded.last().0 == id {
            assert(superseded[superseded.len() - 1].0 == id);
        } else if is_superseded(t, id) {
            let k = choose|k: int| 0 <= k < t.len() && (#[trigger] t[k]).0 == id;
            assert(superseded[k].0 == id);
        } else if is_superseded(superseded, id) {
            let k = choose|k: int| 0 <= k < superseded.len() && (#[trigger] superseded[k]).0 == id;
            assert(t[k].0 == id);
        }
    }
}

proof fn lemma_winner_is(superseded: Seq<(i64, i64)>, k: int)
    requires
        0 <= k < superseded.len(),
        forall|i: int, j: int|
            #![trigger superseded[i], superseded[j]]
            0 <= i < j < superseded.len() ==> superseded[i].0 != superseded[j].0,
    ensures
        winner(superseded, superseded[k].0) == Some(superseded[k].1),
    decreases superseded.len(),
{
    let n = superseded.len() - 1;
    if k < n {
        assert(superseded[k].0 != superseded[n].0);
        let t = superseded.drop_last();
        assert forall|i: int, j: int|
            #![trigger t[i], t[j]]
            0 <= i < j < t.len() implies t[i].0 != t[j].0 by {
            assert(t[i] == superseded[i] && t[j] == superseded[j]);
        }
        lemma_winner_is(t, k);
    }
}

proof fn lemma_not_archived(
    nodes: Seq<Node>,
    faded: Seq<bool>,
    superseded: Seq<(i64, i64)>,
    now: int,
    n: int,
    id: i64,
)
    requires
        is_superseded(superseded, id),
    ensures
        !archived_ids(nodes, faded, superseded, false, now, n).contains(id),
    decreases n,
{
    if n > 0 {
        lemma_not_archived(nodes, faded, superseded, now, n - 1, id);
        let before = archived_ids(nodes, faded, superseded, false, now, n - 1);
        let all = archived_ids(nodes, faded, superseded, false, now, n);
        if all.contains(id) {
            let k = choose|k: int| 0 <= k < all.len() && all[k] == id;
            if k < before.len() {
                assert(before[k] == id);
                assert(before.contains(id));
            }
        }
    }
}

/// A superseded memory stays: it names the newer memory that replaced it, is not
/// deleted, and an edge leads to it from that memory.
pub proof fn a_superseded_memory_stays(
    mems: Seq<Mem>,
    bands: Seq<Vec<Band>>,
    nodes: Seq<Node>,
    faded: Seq<bool>,
    now: i64,
    k: int,
    i: int,
)
    requires
        0 <= k < supersessions(mems, bands).len(),
        0 <= i < nodes.len(),
        nodes[i].id == supersessions(mems, bands)[k].0,
    ensures
        ({
            let s = supersessions(mems, bands);
            let archive = archived_ids(nodes, faded, s, false, now as int, nodes.len() as int);
            let n = all_settled(nodes, s, archive, now)[i];
            &&& n.superseded_by == Some(s[k].1)
            &&& n.deleted_at == nodes[i].deleted_at
            &&& supersession_edges(s)[k] == (NewEdge {
                src: s[k].1,
                dst: nodes[i].id,
                rel: Rel::Supersedes,
            })
        }),
{
    let s = supersessions(mems, bands);
    let p = all_pairs(mems, bands).superseded;
    merges_are_fair(mems, bands);
    assert forall|a: int, b: int|
        #![trigger s[a], s[b]]
        0 <= a < b < s.len() implies s[a].0 != s[b].0 by {
        assert(mems[p[a].0].id != mems[p[b].0].id);
    }
    lemma_winner_is(s, k);
    assert(is_superseded(s, nodes[i].id));
    lemma_not_archived(nodes, faded, s, now as int, nodes.len() as int, nodes[i].id);
}

/// The places of the elements that satisfy `p`, in order.
spec fn places(s: Seq<Node>, p: spec_fn(Node) -> bool) -> Seq<int>
    decreases s.len(),
{
    if s.len() == 0 {
        Seq::empty()
    } else if p(s.last()) {
        places(s.drop_last(), p).push(s.len() - 1)
    } else {
        places(s.drop_last(), p)
    }
}

proof fn lemma_places(s: Seq<Node>, p: spec_fn(Node) -> bool)
    ensures
        places(s, p).len() == kept(s, p).len(),
        forall|k: int|
            0 <= k < places(s, p).len() ==> 0 <= #[trigger] places(s, p)[k] < s.len() && p(
                s[places(s, p)[k]],
            ) && kept(s, p)[k] == s[places(s, p)[k]],
        forall|j: int, k: int|
            #![trigger places(s, p)[j], places(s, p)[k]]
            0 <= j < k < places(s, p).len() ==> places(s, p)[j] < places(s, p)[k],
        forall|i: int| 0 <= i < s.len() && p(#[trigger] s[i]) ==> places(s, p).contains(i),
    decreases s.len(),
{
    if s.len() > 0 {
        let t = s.drop_last();
        lemma_places(t, p);
        let a = places(t, p);
        let b = places(s, p);
        assert forall|k: int| 0 <= k < b.len() implies 0 <= #[trigger] b[k] < s.len() && p(s[b[k]])
            && kept(s, p)[k] == s[b[k]] by {
            if k < a.len() {
                assert(b[k] == a[k]);
                assert(t[a[k]] == s[a[k]]);
            }
        }
        assert forall|j: int, k: int|
            #![trigger b[j], b[k]]
            0 <= j < k < b.len() implies b[j] < b[k] by {
            assert(b[j] == a[j]);
            if k < a.len() {
                assert(b[k] == a[k]);
            }
        }
        assert forall|i: int| 0 <= i < s.len() && p(#[trigger] s[i]) implies b.contains(i) by {
            if i < t.len() {
                assert(t[i] == s[i]);
                let k = choose|k: int| 0 <= k < a.len() && a[k] == i;
                assert(b[k] == i);
            } else {
                assert(b[b.len() - 1] == i);
            }
        }
    }
}

/// What is superseded stays superseded as further pairs are compared.
proof fn lemma_gone_stays(
    mems: Seq<Mem>,
    bands: Seq<Vec<Band>>,
    a: int,
    b: int,
    x: int,
    y: int,
    m: int,
)
    requires
        0 <= x < mems.len(),
        0 <= y <= mems.len(),
        0 <= a,
        b <= mems.len(),
        x < a || (x == a && y <= b),
        is_gone(mems, pairs_up_to(mems, bands, x, y).superseded, m),
    ensures
        is_gone(mems, pairs_up_to(mems, bands, a, b).superseded, m),
    decreases a, b,
{
    let before = pairs_up_to(mems, bands, x, y).superseded;
    if x == a && y == b {
    } else if b > a + 1 {
        lemma_gone_stays(mems, bands, a, b - 1, x, y, m);
        let p = pairs_up_to(mems, bands, a, b - 1).superseded;
        let q = pairs_up_to(mems, bands, a, b).superseded;
        let k = choose|k: int| 0 <= k < p.len() && mems[(#[trigger] p[k]).0].id == mems[m].id;
        assert(q[k] == p[k]);
    } else if x < a {
        lemma_gone_stays(mems, bands, a - 1, mems.len() as int, x, y, m);
        assert(pairs_up_to(mems, bands, a, b) == pairs_up_to(
            mems,
            bands,
            a - 1,
            mems.len() as int,
        ));
    } else {
        assert(pairs_up_to(mems, bands, a, b) == pairs_up_to(mems, bands, x, y));
    }
}

/// Every supersession comes from a pair of one type and scope that was compared.
proof fn lemma_from_pair(mems: Seq<Mem>, bands: Seq<Vec<Band>>, a: int, b: int, k: int)
    requires
        0 <= a <= mems.len(),
        b <= mems.len(),
        a == mems.len() ==> b <= 0,
        0 <= k < pairs_up_to(mems, bands, a, b).superseded.len(),
    ensures
        exists|x: int, y: int|
            0 <= x < y < mems.len() && (x < a || (x == a && y < b)) && same_bucket(
                mems[x],
                mems[y],
            ) && pairs_up_to(mems, bands, a, b).superseded[k] == #[trigger] older_first(mems, x, y),
    decreases a, b,
{
    if b > a + 1 {
        let p = pairs_up_to(mems, bands, a, b - 1).superseded;
        if k < p.len() {
            lemma_from_pair(mems, bands, a, b - 1, k);
            let (x, y) = choose|x: int, y: int|
                0 <= x < y < mems.len() && (x < a || (x == a && y < b - 1)) && same_bucket(
                    mems[x],
                    mems[y],
                ) && p[k] == #[trigger] older_first(mems, x, y);
            assert(pairs_up_to(mems, bands, a, b).superseded[k] == older_first(mems, x, y));
        } else {
            assert(pairs_up_to(mems, bands, a, b).superseded[k] == older_first(mems, a, b - 1));
        }
    } else if a > 0 {
        lemma_from_pair(mems, bands, a - 1, mems.len() as int, k);
    }
}

/// Where the two memories at `a` and `b` are the only ones of their type and scope, a
/// supersession of either is of the older by the newer, and comes from their
/// comparison.
proof fn lemma_only_pair(mems: Seq<Mem>, bands: Seq<Vec<Band>>, a: int, b: int, i: int, j: int, m: int)
    requires
        is_lone_pair(mems, a, b),
        0 <= i <= mems.len(),
        j <= mems.len(),
        i == mems.len() ==> j <= 0,
        m == a || m == b,
        is_gone(mems, pairs_up_to(mems, bands, i, j).superseded, m),
    ensures
        m == older_first(mems, a, b).0,
        pairs_up_to(mems, bands, i, j).superseded.contains(older_first(mems, a, b)),
        a < i || (a == i && b < j),
{
    let s = pairs_up_to(mems, bands, i, j).superseded;
    let k = choose|k: int| 0 <= k < s.len() && mems[(#[trigger] s[k]).0].id == mems[m].id;
    lemma_from_pair(mems, bands, i, j, k);
    let (x, y) = choose|x: int, y: int|
        0 <= x < y < mems.len() && (x < i || (x == i && y < j)) && same_bucket(mems[x], mems[y])
            && s[k] == #[trigger] older_first(mems, x, y);
    assert(s[k].0 == x || s[k].0 == y);
    assert(s[k].0 == m);
    assert(x == a || x == b);
    assert(y == a || y == b);
}

/// Whether two memories, the first before the second, are the only ones of their type
/// and scope, and no two memories share an id.
pub open spec fn is_lone_pair(mems: Seq<Mem>, a: int, b: int) -> bool {
    &&& 0 <= a < b < mems.len()
    &&& same_bucket(mems[a], mems[b])
    &&& forall|m: int|
        0 <= m < mems.len() && m != a && m != b ==> !same_bucket(#[trigger] mems[m], mems[a])
    &&& forall|i: int, j: int|
        #![trigger mems[i], mems[j]]
        0 <= i < j < mems.len() ==> mems[i].id != mems[j].id
}

/// Of two memories that say the same, the older is superseded by the newer, unless it
/// is pinned: then neither is superseded.
pub proof fn a_repetition_is_superseded(mems: Seq<Mem>, bands: Seq<Vec<Band>>, a: int, b: int)
    requires
        is_lone_pair(mems, a, b),
        band(bands, a, b) == Band::Same,
    ensures
        ({
            let (older, newer) = older_first(mems, a, b);
            let s = supersessions(mems, bands);
            &&& !is_superseded(s, mems[newer].id)
            &&& if mems[older].pinned {
                !is_superseded(s, mems[older].id)
            } else {
                s.contains((mems[older].id, mems[newer].id))
            }
        }),
{
    let n = mems.len() as int;
    let pair = older_first(mems, a, b);
    let all = all_pairs(mems, bands).superseded;
    let s = supersessions(mems, bands);
    let p = pairs_up_to(mems, bands, a, b);
    let q = pairs_up_to(mems, bands, a, b + 1);
    assert(q == compared(mems, bands, p, a, b));
    if is_gone(mems, p.superseded, a) {
        lemma_only_pair(mems, bands, a, b, a, b, a);
    }
    if is_gone(mems, p.superseded, b) {
        lemma_only_pair(mems, bands, a, b, a, b, b);
    }
    assert forall|m: int| (m == a || m == b) && is_superseded(s, mems[m].id) implies is_gone(
        mems,
        all,
        m,
    ) by {
        let k = choose|k: int| 0 <= k < s.len() && (#[trigger] s[k]).0 == mems[m].id;
        assert(mems[all[k].0].id == mems[m].id);
    }
    if is_gone(mems, all, pair.1) {
        lemma_only_pair(mems, bands, a, b, n, 0, pair.1);
    }
    if mems[pair.0].pinned {
        if is_gone(mems, all, pair.0) {
            merges_are_fair(mems, bands);
            lemma_only_pair(mems, bands, a, b, n, 0, pair.0);
            let k = choose|k: int| 0 <= k < all.len() && all[k] == pair;
            assert(!mems[all[k].0].pinned);
        }
    } else {
        assert(q.superseded[p.superseded.len() as int] == pair);
        assert(is_gone(mems, q.superseded, pair.0));
        lemma_gone_stays(mems, bands, n, 0, a, b + 1, pair.0);
        lemma_only_pair(mems, bands, a, b, n, 0, pair.0);
        let k = choose|k: int| 0 <= k < all.len() && all[k] == pair;
        assert(s[k] == (mems[pair.0].id, mems[pair.1].id));
    }
}

/// Of two memories that say the same and are both left, the older is pinned.
proof fn lemma_left_is_pinned(mems: Seq<Mem>, bands: Seq<Vec<Band>>, a: int, b: int)
    requires
        0 <= a < b < mems.len(),
        same_bucket(mems[a], mems[b]),
        band(bands, a, b) == Band::Same,
        !is_gone(mems, all_pairs(mems, bands).superseded, a),
        !is_gone(mems, all_pairs(mems, bands).superseded, b),
    ensures
        mems[older_first(mems, a, b).0].pinned,
{
    let n = mems.len() as int;
    let p = pairs_up_to(mems, bands, a, b);
    let q = pairs_up_to(mems, bands, a, b + 1);
    assert(q == compared(mems, bands, p, a, b));
    if is_gone(mems, p.superseded, a) {
        lemma_gone_stays(mems, bands, n, 0, a, b, a);
    }
    if is_gone(mems, p.superseded, b) {
        lemma_gone_stays(mems, bands, n, 0, a, b, b);
    }
    let pair = older_first(mems, a, b);
    if !mems[pair.0].pinned {
        assert(q.superseded == p.superseded.push(pair));
        assert(q.superseded[p.superseded.len() as int] == pair);
        assert(is_gone(mems, q.superseded, pair.0));
        lemma_gone_stays(mems, bands, n, 0, a, b + 1, pair.0);
    }
}

proof fn lemma_nothing_superseded(mems: Seq<Mem>, bands: Seq<Vec<Band>>, a: int, b: int)
    requires
        0 <= a <= mems.len(),
        b <= mems.len(),
        forall|x: int, y: int|
            0 <= x < y < mems.len() && #[trigger] band(bands, x, y) == Band::Same && same_bucket(
                mems[x],
                mems[y],
            ) ==> mems[older_first(mems, x, y).0].pinned,
    ensures
        pairs_up_to(mems, bands, a, b).superseded.len() == 0,
    decreases a, b,
{
    if b > a + 1 {
        lemma_nothing_superseded(mems, bands, a, b - 1);
        assert(band(bands, a, b - 1) == Band::Same ==> !same_bucket(mems[a], mems[b - 1])
            || mems[older_first(mems, a, b - 1).0].pinned);
    } else if a > 0 {
        lemma_nothing_superseded(mems, bands, a - 1, mems.len() as int);
    }
}

/// Whether two runs found the memories that they share equally alike.
pub open spec fn is_as_alike(
    mems: Seq<Mem>,
    bands: Seq<Vec<Band>>,
    mems2: Seq<Mem>,
    bands2: Seq<Vec<Band>>,
) -> bool {
    forall|a: int, b: int, x: int, y: int|
        #![trigger band(bands, a, b), band(bands2, x, y)]
        0 <= a < b < mems.len() && 0 <= x < y < mems2.len() && mems[a].id == mems2[x].id
            && mems[b].id == mems2[y].id ==> band(bands, a, b) == band(bands2, x, y)
}

/// Consolidation settles: once the plan of a run is applied, a second run over the
/// same embeddings supersedes nothing more.
pub proof fn a_second_run_supersedes_nothing(
    nodes: Seq<Node>,
    mems: Seq<Mem>,
    bands: Seq<Vec<Band>>,
    archive: Seq<i64>,
    now: i64,
    mems2: Seq<Mem>,
    bands2: Seq<Vec<Band>>,
)
    requires
        are_mems_of(mems, kept(nodes, is_candidate())),
        are_mems_of(
            mems2,
            kept(
                all_settled(nodes, supersessions(mems, bands), archive, now),
                is_candidate(),
            ),
        ),
        is_as_alike(mems, bands, mems2, bands2),
    ensures
        supersessions(mems2, bands2).len() == 0,
{
    let s = supersessions(mems, bands);
    let after = all_settled(nodes, s, archive, now);
    let c = is_candidate();
    lemma_places(nodes, c);
    lemma_places(after, c);
    let p1 = places(nodes, c);
    let p2 = places(after, c);
    assert forall|x: int, y: int|
        0 <= x < y < mems2.len() && #[trigger] band(bands2, x, y) == Band::Same && same_bucket(
            mems2[x],
            mems2[y],
        ) implies mems2[older_first(mems2, x, y).0].pinned by {
        let i = p2[x];
        let j = p2[y];
        assert(i < j);
        assert(c(after[i]) && c(after[j]));
        assert(after[i] == settled(nodes[i], s, archive, now));
        assert(after[j] == settled(nodes[j], s, archive, now));
        assert(c(nodes[i]) && c(nodes[j]));
        let a = choose|a: int| 0 <= a < p1.len() && p1[a] == i;
        let b = choose|b: int| 0 <= b < p1.len() && p1[b] == j;
        assert(a < b) by {
            if b < a {
                assert(p1[b] < p1[a]);
            }
        }
        assert(is_mem_of(mems[a], nodes[i]));
        assert(is_mem_of(mems[b], nodes[j]));
        assert(is_mem_of(mems2[x], after[i]));
        assert(is_mem_of(mems2[y], after[j]));
        lemma_winner(s, nodes[i].id);
        lemma_winner(s, nodes[j].id);
        let gone = all_pairs(mems, bands).superseded;
        if is_gone(mems, gone, a) {
            let k = choose|k: int|
                0 <= k < gone.len() && mems[(#[trigger] gone[k]).0].id == mems[a].id;
            assert(s[k].0 == nodes[i].id);
        }
        if is_gone(mems, gone, b) {
            let k = choose|k: int|
                0 <= k < gone.len() && mems[(#[trigger] gone[k]).0].id == mems[b].id;
            assert(s[k].0 == nodes[j].id);
        }
        assert(band(bands, a, b) == Band::Same);
        lemma_left_is_pinned(mems, bands, a, b);
    }
    lemma_nothing_superseded(mems2, bands2, mems2.len() as int, 0);
}

} // verus!
