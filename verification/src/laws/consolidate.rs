//! Laws of the consolidation: what is superseded, reported, distilled and archived.

use vstd::prelude::*;

#[allow(unused_imports)]
use crate::consolidate::store::{settled, supersession_edges, winner};
#[allow(unused_imports)]
use crate::consolidate::{
    all_pairs, archived_ids, cluster_of, clusters, clusters_up_to, compared, connected, covered,
    in_cluster_of, indices, is_due, is_due_for_summary, is_gone, is_idle, is_summary, is_superseded,
    leads, linked, negated, older_first, pairs_up_to, respects_links, supersessions, survives,
    theme_of, theme_words, Band, Mem, NEGATIONS,
};
#[allow(unused_imports)]
use crate::model::{Kind, NewNode, Node, Rel};
#[allow(unused_imports)]
use crate::order::{ranking, ranking_is_sorted};
#[allow(unused_imports)]
use crate::seqs::{count_where, first_n};
#[allow(unused_imports)]
use crate::sets::first_seen;
#[allow(unused_imports)]
use crate::text::{contains, join, lowercase, signed};
#[allow(unused_imports)]
use vstd::string::*;

verus! {

/// A statement is negated where one of these words stands in it, in whatever case, and
/// nowhere else.
pub proof fn negating_words(text: Seq<char>)
    ensures
        negated(text) <==> {
            let t = lowercase(text);
            ||| contains(t, "not"@)
            ||| contains(t, "never"@)
            ||| contains(t, "don't"@)
            ||| contains(t, "dont"@)
            ||| contains(t, "doesn't"@)
            ||| contains(t, "doesnt"@)
            ||| contains(t, "isn't"@)
            ||| contains(t, "isnt"@)
            ||| contains(t, "won't"@)
            ||| contains(t, "wont"@)
            ||| contains(t, "no longer"@)
            ||| contains(t, "avoid"@)
            ||| contains(t, "instead"@)
            ||| contains(t, "deprecated"@)
            ||| contains(t, "wrong"@)
            ||| contains(t, "refuting"@)
            ||| contains(t, "refuted"@)
        },
{
    let n = NEGATIONS@;
    assert(n[0]@ == "not"@ && n[1]@ == "never"@ && n[2]@ == "don't"@ && n[3]@ == "dont"@);
    assert(n[4]@ == "doesn't"@ && n[5]@ == "doesnt"@ && n[6]@ == "isn't"@ && n[7]@ == "isnt"@);
    assert(n[8]@ == "won't"@ && n[9]@ == "wont"@ && n[10]@ == "no longer"@ && n[11]@ == "avoid"@);
    assert(n[12]@ == "instead"@ && n[13]@ == "deprecated"@ && n[14]@ == "wrong"@);
    assert(n[15]@ == "refuting"@ && n[16]@ == "refuted"@);
    if negated(text) {
        let k = choose|k: int| 0 <= k < 17 && contains(lowercase(text), #[trigger] NEGATIONS@[k]@);
        assert(contains(lowercase(text), n[k]@));
    }
}

proof fn lemma_pairs_grow(
    mems: Seq<Mem>,
    bands: Seq<Vec<Band>>,
    x: int,
    y: int,
    a: int,
    b: int,
)
    requires
        0 <= x <= a,
        y <= mems.len(),
        b <= mems.len(),
        x < a || y <= b,
    ensures
        ({
            let p = pairs_up_to(mems, bands, x, y);
            let q = pairs_up_to(mems, bands, a, b);
            &&& p.superseded.len() <= q.superseded.len()
            &&& p.contradicting.len() <= q.contradicting.len()
            &&& forall|k: int|
                0 <= k < p.superseded.len() ==> #[trigger] q.superseded[k] == p.superseded[k]
            &&& forall|k: int|
                0 <= k < p.contradicting.len() ==> #[trigger] q.contradicting[k]
                    == p.contradicting[k]
        }),
    decreases a, b,
{
    if b > a + 1 {
        if x < a || y < b {
            lemma_pairs_grow(mems, bands, x, y, a, b - 1);
        }
    } else if a > 0 {
        if x < a {
            lemma_pairs_grow(mems, bands, x, y, a - 1, mems.len() as int);
        }
    }
}

/// Of two memories of one type and project that are the same statement, not both stay,
/// unless the older is pinned: one of them is superseded.
pub proof fn repetitions_do_not_both_stay(mems: Seq<Mem>, bands: Seq<Vec<Band>>, x: int, y: int)
    requires
        0 <= x < y < mems.len(),
        mems[x].subkind@ == mems[y].subkind@,
        mems[x].project_id == mems[y].project_id,
        bands[x]@[y] == Band::Same,
        mems[x].created_at <= mems[y].created_at ==> !mems[x].pinned,
        mems[x].created_at > mems[y].created_at ==> !mems[y].pinned,
    ensures
        exists|k: int|
            0 <= k < all_pairs(mems, bands).superseded.len() && (mems[(
            #[trigger] all_pairs(mems, bands).superseded[k]).0].id == mems[x].id || mems[all_pairs(
                mems,
                bands,
            ).superseded[k].0].id == mems[y].id),
{
    let p = pairs_up_to(mems, bands, x, y);
    let q = pairs_up_to(mems, bands, x, y + 1);
    assert(q == compared(mems, bands, p, x, y));
    lemma_pairs_grow(mems, bands, x, y + 1, mems.len() as int, 0);
    let all = all_pairs(mems, bands);
    let k = if is_gone(mems, p.superseded, x) {
        choose|k: int| 0 <= k < p.superseded.len() && mems[(#[trigger] p.superseded[k]).0].id
            == mems[x].id
    } else if is_gone(mems, p.superseded, y) {
        choose|k: int| 0 <= k < p.superseded.len() && mems[(#[trigger] p.superseded[k]).0].id
            == mems[y].id
    } else {
        p.superseded.len() as int
    };
    assert(q.superseded[k] == q.superseded[k]);
    if k < p.superseded.len() {
        assert(q.superseded[k] == p.superseded[k]);
    }
    assert(all.superseded[k] == q.superseded[k]);
}

/// Two memories of one type and project that are much alike, but not the same
/// statement, and of which exactly one is negated, are reported, the older first, where
/// neither is superseded.
pub proof fn near_opposites_are_reported(mems: Seq<Mem>, bands: Seq<Vec<Band>>, x: int, y: int)
    requires
        0 <= x < y < mems.len(),
        mems[x].subkind@ == mems[y].subkind@,
        mems[x].project_id == mems[y].project_id,
        bands[x]@[y] == Band::Near,
        negated(mems[x].body@) != negated(mems[y].body@),
        forall|k: int|
            0 <= k < all_pairs(mems, bands).superseded.len() ==> mems[(#[trigger] all_pairs(
                mems,
                bands,
            ).superseded[k]).0].id != mems[x].id && mems[all_pairs(mems, bands).superseded[k].0].id
                != mems[y].id,
    ensures
        mems[x].created_at <= mems[y].created_at ==> all_pairs(mems, bands).contradicting.contains(
            (x, y),
        ),
        mems[x].created_at > mems[y].created_at ==> all_pairs(mems, bands).contradicting.contains(
            (y, x),
        ),
{
    let p = pairs_up_to(mems, bands, x, y);
    let q = pairs_up_to(mems, bands, x, y + 1);
    assert(q == compared(mems, bands, p, x, y));
    lemma_pairs_grow(mems, bands, x, y + 1, mems.len() as int, 0);
    let all = all_pairs(mems, bands);
    assert forall|k: int| 0 <= k < p.superseded.len() implies mems[(
    #[trigger] p.superseded[k]).0].id != mems[x].id && mems[p.superseded[k].0].id != mems[y].id by {
        assert(q.superseded[k] == p.superseded[k]);
        assert(all.superseded[k] == q.superseded[k]);
    }
    let k = p.contradicting.len() as int;
    assert(q.contradicting[k] == older_first(mems, x, y));
    assert(all.contradicting[k] == q.contradicting[k]);
}

proof fn lemma_merged_pairs(mems: Seq<Mem>, bands: Seq<Vec<Band>>, a: int, b: int)
    requires
        0 <= a <= mems.len(),
        b <= mems.len(),
        a == mems.len() ==> b <= 0,
    ensures
        forall|k: int|
            0 <= k < pairs_up_to(mems, bands, a, b).superseded.len() ==> {
                let p = #[trigger] pairs_up_to(mems, bands, a, b).superseded[k];
                &&& 0 <= p.0 < mems.len()
                &&& 0 <= p.1 < mems.len()
                &&& p.0 != p.1
                &&& mems[p.0].subkind@ == mems[p.1].subkind@
                &&& mems[p.0].project_id == mems[p.1].project_id
                &&& !mems[p.0].pinned
                &&& mems[p.0].created_at <= mems[p.1].created_at
                &&& p.0 < p.1 ==> bands[p.0]@[p.1] == Band::Same
                &&& p.0 > p.1 ==> bands[p.1]@[p.0] == Band::Same
            },
        forall|k: int|
            0 <= k < pairs_up_to(mems, bands, a, b).contradicting.len() ==> {
                let p = #[trigger] pairs_up_to(mems, bands, a, b).contradicting[k];
                &&& 0 <= p.0 < mems.len()
                &&& 0 <= p.1 < mems.len()
                &&& p.0 != p.1
                &&& mems[p.0].subkind@ == mems[p.1].subkind@
                &&& mems[p.0].project_id == mems[p.1].project_id
                &&& negated(mems[p.0].body@) != negated(mems[p.1].body@)
                &&& mems[p.0].created_at <= mems[p.1].created_at
                &&& p.0 < p.1 ==> bands[p.0]@[p.1] == Band::Near
                &&& p.0 > p.1 ==> bands[p.1]@[p.0] == Band::Near
            },
    decreases a, b,
{
    if b > a + 1 {
        lemma_merged_pairs(mems, bands, a, b - 1);
        let p = pairs_up_to(mems, bands, a, b - 1);
        let q = pairs_up_to(mems, bands, a, b);
        assert forall|k: int| 0 <= k < q.superseded.len() implies {
            let p = #[trigger] q.superseded[k];
            &&& 0 <= p.0 < mems.len()
            &&& 0 <= p.1 < mems.len()
            &&& p.0 != p.1
            &&& mems[p.0].subkind@ == mems[p.1].subkind@
            &&& mems[p.0].project_id == mems[p.1].project_id
            &&& !mems[p.0].pinned
            &&& mems[p.0].created_at <= mems[p.1].created_at
            &&& p.0 < p.1 ==> bands[p.0]@[p.1] == Band::Same
            &&& p.0 > p.1 ==> bands[p.1]@[p.0] == Band::Same
        } by {
            if k < p.superseded.len() {
                assert(q.superseded[k] == p.superseded[k]);
            }
        }
        assert forall|k: int| 0 <= k < q.contradicting.len() implies {
            let p = #[trigger] q.contradicting[k];
            &&& 0 <= p.0 < mems.len()
            &&& 0 <= p.1 < mems.len()
            &&& p.0 != p.1
            &&& mems[p.0].subkind@ == mems[p.1].subkind@
            &&& mems[p.0].project_id == mems[p.1].project_id
            &&& negated(mems[p.0].body@) != negated(mems[p.1].body@)
            &&& mems[p.0].created_at <= mems[p.1].created_at
            &&& p.0 < p.1 ==> bands[p.0]@[p.1] == Band::Near
            &&& p.0 > p.1 ==> bands[p.1]@[p.0] == Band::Near
        } by {
            if k < p.contradicting.len() {
                assert(q.contradicting[k] == p.contradicting[k]);
            }
        }
    } else if a > 0 {
        lemma_merged_pairs(mems, bands, a - 1, mems.len() as int);
    }
}

/// A memory is superseded only by another of its type and project that is the same
/// statement and not older, and never where it is pinned.
pub proof fn only_repetitions_are_superseded(mems: Seq<Mem>, bands: Seq<Vec<Band>>, k: int)
    requires
        0 <= k < supersessions(mems, bands).len(),
    ensures
        exists|a: int, b: int|
            #![trigger mems[a], mems[b]]
            {
                &&& 0 <= a < mems.len()
                &&& 0 <= b < mems.len()
                &&& a != b
                &&& supersessions(mems, bands)[k] == (mems[a].id, mems[b].id)
                &&& mems[a].subkind@ == mems[b].subkind@
                &&& mems[a].project_id == mems[b].project_id
                &&& !mems[a].pinned
                &&& mems[a].created_at <= mems[b].created_at
                &&& a < b ==> bands[a]@[b] == Band::Same
                &&& a > b ==> bands[b]@[a] == Band::Same
            },
{
    lemma_merged_pairs(mems, bands, mems.len() as int, 0);
    let p = all_pairs(mems, bands).superseded[k];
    assert(supersessions(mems, bands)[k] == (mems[p.0].id, mems[p.1].id));
}

/// What is reported as a contradiction are two memories of one type and project, much
/// alike and not the same statement, one negated and one not, the older first.
pub proof fn reported_pairs_are_near_opposites(mems: Seq<Mem>, bands: Seq<Vec<Band>>, k: int)
    requires
        0 <= k < all_pairs(mems, bands).contradicting.len(),
    ensures
        ({
            let p = all_pairs(mems, bands).contradicting[k];
            &&& 0 <= p.0 < mems.len()
            &&& 0 <= p.1 < mems.len()
            &&& p.0 != p.1
            &&& mems[p.0].subkind@ == mems[p.1].subkind@
            &&& mems[p.0].project_id == mems[p.1].project_id
            &&& negated(mems[p.0].body@) != negated(mems[p.1].body@)
            &&& mems[p.0].created_at <= mems[p.1].created_at
            &&& p.0 < p.1 ==> bands[p.0]@[p.1] == Band::Near
            &&& p.0 > p.1 ==> bands[p.1]@[p.0] == Band::Near
        }),
{
    lemma_merged_pairs(mems, bands, mems.len() as int, 0);
}

/// Memories that the comparison left alone are those that no supersession names.
pub proof fn survivors_are_the_rest(mems: Seq<Mem>, superseded: Seq<(int, int)>, m: int)
    requires
        0 <= m < mems.len(),
    ensures
        survives(mems, superseded)(m) <==> forall|k: int|
            0 <= k < superseded.len() ==> mems[(#[trigger] superseded[k]).0].id != mems[m].id,
{
}

proof fn lemma_apart(
    mems: Seq<Mem>,
    bands: Seq<Vec<Band>>,
    live: spec_fn(int) -> bool,
    a: int,
    b: int,
)
    requires
        connected(mems, bands, live, a, b),
        a != b,
    ensures
        exists|x: int|
            0 <= x < mems.len() && x != a && #[trigger] live(x) && mems[x].project_id
                == mems[a].project_id && (if x < a {
                bands[x]@[a] != Band::Apart
            } else {
                bands[a]@[x] != Band::Apart
            }),
{
    let r = |x: int, y: int| x == y || (x != a && y != a);
    if !(exists|x: int|
        0 <= x < mems.len() && x != a && #[trigger] live(x) && mems[x].project_id
            == mems[a].project_id && (if x < a {
            bands[x]@[a] != Band::Apart
        } else {
            bands[a]@[x] != Band::Apart
        })) {
        assert forall|x: int, y: int| #[trigger] linked(mems, bands, live, x, y) implies r(x, y) by {
            if x == a {
                assert(live(y));
            }
            if y == a {
                assert(live(x));
            }
        }
        assert(respects_links(r, mems, bands, live));
        assert(r(a, b));
    }
}

/// Two memories of one project that are alike are in one cluster; and a memory shares a
/// cluster only where some live memory of its own project is alike to it.
pub proof fn clusters_join_the_alike(
    mems: Seq<Mem>,
    bands: Seq<Vec<Band>>,
    live: spec_fn(int) -> bool,
    lead: int,
    a: int,
    b: int,
)
    requires
        0 <= a < b < mems.len(),
        live(a),
        live(b),
    ensures
        mems[a].project_id == mems[b].project_id && bands[a]@[b] != Band::Apart ==> (cluster_of(
            mems,
            bands,
            live,
            lead,
        ).contains(a) <==> cluster_of(mems, bands, live, lead).contains(b)),
        cluster_of(mems, bands, live, a).contains(a),
        cluster_of(mems, bands, live, a).contains(b) ==> exists|x: int|
            0 <= x < mems.len() && x != a && #[trigger] live(x) && mems[x].project_id
                == mems[a].project_id && (if x < a {
                bands[x]@[a] != Band::Apart
            } else {
                bands[a]@[x] != Band::Apart
            }),
{
    let all = indices(mems.len() as int);
    let p = in_cluster_of(mems, bands, live, lead);
    let c = cluster_of(mems, bands, live, lead);
    crate::consolidate::connection_is_least(mems, bands, live);
    assert(all[a] == a && all[b] == b);
    crate::laws::order::keeping_loses_nothing(all, p, a);
    crate::laws::order::keeping_loses_nothing(all, p, b);
    let conn = |x: int, y: int| connected(mems, bands, live, x, y);
    if mems[a].project_id == mems[b].project_id && bands[a]@[b] != Band::Apart {
        assert(linked(mems, bands, live, a, b));
        assert(conn(a, b) && conn(b, a));
        if connected(mems, bands, live, lead, a) {
            assert(conn(lead, a));
            assert(conn(lead, b));
        }
        if connected(mems, bands, live, lead, b) {
            assert(conn(lead, b));
            assert(conn(lead, a));
        }
    }
    let q = in_cluster_of(mems, bands, live, a);
    crate::laws::order::keeping_loses_nothing(all, q, a);
    crate::laws::order::keeping_loses_nothing(all, q, b);
    assert(conn(a, a));
    if cluster_of(mems, bands, live, a).contains(b) {
        lemma_apart(mems, bands, live, a, b);
    }
}

proof fn lemma_led(
    mems: Seq<Mem>,
    bands: Seq<Vec<Band>>,
    live: spec_fn(int) -> bool,
    n: int,
    a: int,
)
    requires
        0 <= a < n,
        leads(mems, bands, live, a),
    ensures
        clusters_up_to(mems, bands, live, n).contains(cluster_of(mems, bands, live, a)),
    decreases n,
{
    let r = clusters_up_to(mems, bands, live, n);
    let c = cluster_of(mems, bands, live, a);
    if a == n - 1 {
        assert(r[r.len() - 1] == c);
    } else {
        lemma_led(mems, bands, live, n - 1, a);
        let q = clusters_up_to(mems, bands, live, n - 1);
        let k = choose|k: int| 0 <= k < q.len() && q[k] == c;
        assert(r[k] == c);
    }
}

proof fn lemma_has_lead(
    mems: Seq<Mem>,
    bands: Seq<Vec<Band>>,
    live: spec_fn(int) -> bool,
    a: int,
) -> (lead: int)
    requires
        0 <= a < mems.len(),
        live(a),
    ensures
        0 <= lead <= a,
        leads(mems, bands, live, lead),
        connected(mems, bands, live, lead, a),
    decreases a,
{
    crate::consolidate::connection_is_least(mems, bands, live);
    let conn = |x: int, y: int| connected(mems, bands, live, x, y);
    assert(conn(a, a));
    if leads(mems, bands, live, a) {
        a
    } else {
        let b = choose|b: int| 0 <= b < a && live(b) && #[trigger] connected(mems, bands, live, b, a);
        let lead = lemma_has_lead(mems, bands, live, b);
        assert(conn(lead, b) && conn(b, a));
        assert(conn(lead, a));
        lead
    }
}

/// Every live memory is in a cluster.
pub proof fn every_live_memory_is_in_a_cluster(
    mems: Seq<Mem>,
    bands: Seq<Vec<Band>>,
    live: spec_fn(int) -> bool,
    a: int,
)
    requires
        0 <= a < mems.len(),
        live(a),
    ensures
        exists|k: int|
            0 <= k < clusters(mems, bands, live).len() && (#[trigger] clusters(
                mems,
                bands,
                live,
            )[k]).contains(a),
{
    let lead = lemma_has_lead(mems, bands, live, a);
    lemma_led(mems, bands, live, mems.len() as int, lead);
    let c = cluster_of(mems, bands, live, lead);
    let all = indices(mems.len() as int);
    assert(all[a] == a);
    crate::laws::order::keeping_loses_nothing(all, in_cluster_of(mems, bands, live, lead), a);
    let r = clusters(mems, bands, live);
    let k = choose|k: int| 0 <= k < r.len() && r[k] == c;
    assert(r[k].contains(a));
}

proof fn lemma_leaders(
    mems: Seq<Mem>,
    bands: Seq<Vec<Band>>,
    live: spec_fn(int) -> bool,
    n: int,
) -> (at: Seq<int>)
    requires
        0 <= n,
    ensures
        at.len() == clusters_up_to(mems, bands, live, n).len(),
        forall|k: int|
            0 <= k < at.len() ==> 0 <= #[trigger] at[k] < n && leads(mems, bands, live, at[k])
                && clusters_up_to(mems, bands, live, n)[k] == cluster_of(mems, bands, live, at[k]),
        forall|j: int, k: int|
            #![trigger at[j], at[k]]
            0 <= j < k < at.len() ==> at[j] < at[k],
    decreases n,
{
    if n <= 0 {
        Seq::empty()
    } else {
        let before = lemma_leaders(mems, bands, live, n - 1);
        if leads(mems, bands, live, n - 1) {
            before.push(n - 1)
        } else {
            before
        }
    }
}

/// Clusters hold live memories only, each its leader, and no memory is in two.
pub proof fn no_memory_is_in_two_clusters(
    mems: Seq<Mem>,
    bands: Seq<Vec<Band>>,
    live: spec_fn(int) -> bool,
    j: int,
    k: int,
    a: int,
)
    requires
        0 <= j < clusters(mems, bands, live).len(),
        0 <= k < clusters(mems, bands, live).len(),
    ensures
        clusters(mems, bands, live)[j].len() > 0,
        clusters(mems, bands, live)[j].contains(a) ==> 0 <= a < mems.len() && live(a),
        clusters(mems, bands, live)[j].contains(a) && clusters(mems, bands, live)[k].contains(a)
            ==> j == k,
{
    let at = lemma_leaders(mems, bands, live, mems.len() as int);
    let all = indices(mems.len() as int);
    let (p, q) = (at[j], at[k]);
    crate::consolidate::connection_is_least(mems, bands, live);
    let conn = |x: int, y: int| connected(mems, bands, live, x, y);
    assert(conn(p, p));
    assert(all[p] == p);
    crate::laws::order::keeping_loses_nothing(all, in_cluster_of(mems, bands, live, p), p);
    crate::laws::order::keeping_loses_nothing(all, in_cluster_of(mems, bands, live, p), a);
    crate::laws::order::keeping_loses_nothing(all, in_cluster_of(mems, bands, live, q), a);
    assert(clusters(mems, bands, live)[j].contains(p));
    if clusters(mems, bands, live)[j].contains(a) {
        let i = choose|i: int| 0 <= i < all.len() && all[i] == a;
        assert(all[i] == i);
    }
    if clusters(mems, bands, live)[j].contains(a) && clusters(mems, bands, live)[k].contains(a) {
        assert(conn(p, a) && conn(q, a));
        assert(conn(a, q) && conn(a, p));
        assert(conn(p, q) && conn(q, p));
        if p < q {
            assert(!connected(mems, bands, live, p, q));
        } else if q < p {
            assert(!connected(mems, bands, live, q, p));
        }
        if j < k {
            assert(at[j] < at[k]);
        } else if k < j {
            assert(at[k] < at[j]);
        }
    }
}

/// A cluster is distilled from five members on, and where less than half of them are
/// summarized already.
pub proof fn five_make_a_summary(mems: Seq<Mem>, summarized: Seq<i64>, c: Seq<int>)
    ensures
        is_due_for_summary(mems, summarized)(c) <==> c.len() >= 5 && 2 * covered(
            mems,
            c,
            summarized,
        ) < c.len(),
{
}

/// How many members are summarized grows by one with each that is.
pub proof fn covered_members_are_counted(
    mems: Seq<Mem>,
    c: Seq<int>,
    summarized: Seq<i64>,
    m: int,
)
    ensures
        covered(mems, Seq::empty(), summarized) == 0,
        summarized.contains(mems[m].id) ==> covered(mems, c.push(m), summarized) == covered(
            mems,
            c,
            summarized,
        ) + 1,
        !summarized.contains(mems[m].id) ==> covered(mems, c.push(m), summarized) == covered(
            mems,
            c,
            summarized,
        ),
{
    assert(c.push(m).drop_last() =~= c);
}

/// A summary is a memory of type summary whose body lists the titles of its members,
/// each on a line of its own behind a dash, and which is marked as distilled.
pub proof fn a_summary_lists_its_members(
    node: NewNode,
    mems: Seq<Mem>,
    cluster: Seq<int>,
    stop: Seq<Seq<char>>,
)
    requires
        is_summary(node, mems, cluster, stop),
    ensures
        node.kind == Some(Kind::Memory),
        node.subkind is Some && node.subkind->0@ == "summary"@,
        node.body is Some && node.body->0@ == join(
            Seq::new(cluster.len(), |i: int| "- "@ + mems[cluster[i]].title@),
            "\n"@,
        ),
        node.title is Some && node.title->0@ == "Distilled: "@ + theme_of(
            theme_words(mems, cluster, stop),
        ),
        node.project_id == mems[cluster[0]].project_id,
        node.meta is Some && node.meta->0.distilled == Some(true),
{
}

/// A theme names the three most frequent words, or as many as there are; none is more
/// frequent than one that comes before it, or than one that is named.
pub proof fn a_theme_is_the_most_frequent_words(words: Seq<Seq<char>>) -> (named: Seq<Seq<char>>)
    requires
        words.len() <= u64::MAX,
    ensures
        words.len() == 0 ==> theme_of(words) == "related memories"@,
        words.len() > 0 ==> theme_of(words) == join(named, ", "@) && named.len() > 0,
        named.len() <= 3,
        forall|i: int| 0 <= i < named.len() ==> words.contains(#[trigger] named[i]),
        forall|i: int, w: Seq<char>|
            #![trigger named[i], words.contains(w)]
            0 <= i < named.len() && words.contains(w) && !named.contains(w) ==> count_where(
                words,
                |x: Seq<char>| x == w,
            ) <= count_where(words, |x: Seq<char>| x == named[i]),
{
    let names = first_seen(words);
    let keys = crate::consolidate::frequency_keys(words, names);
    let o = ranking(keys);
    ranking_is_sorted(keys, keys.len() as int);
    let order = first_n(o, 3);
    let named = Seq::new(order.len(), |i: int| names[order[i]]);
    lemma_first_seen(words);
    lemma_counts_small(words);
    assert forall|i: int| 0 <= i < named.len() implies words.contains(#[trigger] named[i]) by {
        assert(order[i] == o[i]);
        assert(names.contains(names[o[i]]));
    }
    assert forall|i: int, w: Seq<char>|
        #![trigger named[i], words.contains(w)]
        0 <= i < named.len() && words.contains(w) && !named.contains(w) implies count_where(
        words,
        |x: Seq<char>| x == w,
    ) <= count_where(words, |x: Seq<char>| x == named[i]) by {
        assert(names.contains(w));
        let j = choose|j: int| 0 <= j < names.len() && names[j] == w;
        crate::order::lemma_ranking_has(o, keys, j);
        let k = choose|k: int| 0 <= k < o.len() && o[k] == j;
        if k < named.len() {
            assert(named[k] == w);
        }
        assert(order[i] == o[i]);
        assert(keys[o[i]].less(keys[o[k]]) || keys[o[i]] == keys[o[k]]);
        let f = |x: Seq<char>| x == w;
        let g = |x: Seq<char>| x == named[i];
        assert(f =~= crate::consolidate::is_word(w));
        assert(g =~= crate::consolidate::is_word(named[i]));
        lemma_count_small(words, f);
        lemma_count_small(words, g);
    }
    named
}

proof fn lemma_count_small(words: Seq<Seq<char>>, p: spec_fn(Seq<char>) -> bool)
    ensures
        count_where(words, p) <= words.len(),
    decreases words.len(),
{
    if words.len() > 0 {
        lemma_count_small(words.drop_last(), p);
    }
}

proof fn lemma_counts_small(words: Seq<Seq<char>>)
    ensures
        forall|p: spec_fn(Seq<char>) -> bool| #[trigger] count_where(words, p) <= words.len(),
{
    assert forall|p: spec_fn(Seq<char>) -> bool| #[trigger]
        count_where(words, p) <= words.len() by {
        lemma_count_small(words, p);
    }
}

proof fn lemma_first_seen(s: Seq<Seq<char>>)
    ensures
        forall|w: Seq<char>| #[trigger] first_seen(s).contains(w) <==> s.contains(w),
        s.len() > 0 ==> first_seen(s).len() > 0,
    decreases s.len(),
{
    if s.len() > 0 {
        let t = s.drop_last();
        lemma_first_seen(t);
        let r = first_seen(s);
        let q = first_seen(t);
        assert forall|w: Seq<char>| #[trigger] r.contains(w) <==> s.contains(w) by {
            assert(q.contains(w) <==> t.contains(w));
            if s.contains(w) {
                let i = choose|i: int| 0 <= i < s.len() && s[i] == w;
                if i < t.len() {
                    assert(t[i] == w);
                    let k = choose|k: int| 0 <= k < q.len() && q[k] == w;
                    assert(r[k] == w);
                } else if !q.contains(w) {
                    assert(r[r.len() - 1] == w);
                }
            }
            if r.contains(w) {
                let k = choose|k: int| 0 <= k < r.len() && r[k] == w;
                if k < q.len() {
                    assert(q[k] == w);
                    let i = choose|i: int| 0 <= i < t.len() && t[i] == w;
                    assert(s[i] == w);
                } else {
                    assert(s[s.len() - 1] == w);
                }
            }
        }
        assert(s[0] == s[0]);
        assert(s.contains(s[0]));
        assert(r.contains(s[0]));
    }
}

/// A memory is idle where it is live and unpinned, and was neither written nor used in
/// the last ninety days.
pub proof fn idle_means_ninety_days(n: Node, now: int)
    ensures
        is_idle(n, now) <==> n.kind == Kind::Memory && n.deleted_at is None && n.superseded_by
            is None && !n.pinned && now - n.created_at > 7_776_000 && (n.last_accessed is Some
            ==> now - n.last_accessed->0 > 7_776_000),
{
}

/// What is archived is what is idle and faded, and not superseded in the same run; and
/// all of that is.
pub proof fn the_idle_and_faded_are_archived(
    nodes: Seq<Node>,
    faded: Seq<bool>,
    superseded: Seq<(i64, i64)>,
    now: int,
    n: int,
    id: i64,
)
    requires
        0 <= n <= nodes.len(),
    ensures
        archived_ids(nodes, faded, superseded, false, now, n).contains(id) <==> exists|i: int|
            0 <= i < n && (#[trigger] nodes[i]).id == id && is_idle(nodes[i], now) && faded[i]
                && forall|k: int|
                0 <= k < superseded.len() ==> (#[trigger] superseded[k]).0 != id,
    decreases n,
{
    if n > 0 {
        the_idle_and_faded_are_archived(nodes, faded, superseded, now, n - 1, id);
        let before = archived_ids(nodes, faded, superseded, false, now, n - 1);
        let after = archived_ids(nodes, faded, superseded, false, now, n);
        let last = nodes[n - 1];
        let named = is_superseded(superseded, last.id);
        if before.contains(id) {
            let k = choose|k: int| 0 <= k < before.len() && before[k] == id;
            assert(after[k] == id);
        }
        if after.contains(id) && !before.contains(id) {
            let k = choose|k: int| 0 <= k < after.len() && after[k] == id;
            assert(k == before.len());
            assert(nodes[n - 1].id == id);
        }
        if last.id == id && is_idle(last, now) && faded[n - 1] && !named {
            assert(after[before.len() as int] == id);
        }
    }
}

/// A consolidation touches what it names and nothing else: a superseded memory points
/// at its successor, an archived one is deleted now and marked as archived, and of
/// neither is anything else changed.
pub proof fn a_plan_touches_what_it_names(
    n: Node,
    superseded: Seq<(i64, i64)>,
    archive: Seq<i64>,
    now: i64,
)
    ensures
        ({
            let r = settled(n, superseded, archive, now);
            &&& r.id == n.id && r.uid == n.uid && r.kind == n.kind && r.subkind == n.subkind
            &&& r.title == n.title && r.body == n.body && r.tags_text == n.tags_text
            &&& r.project_id == n.project_id && r.pinned == n.pinned
            &&& r.created_at == n.created_at && r.updated_at == n.updated_at
            &&& r.content_hash == n.content_hash
            &&& archive.contains(n.id) ==> r.deleted_at == Some(now) && r.meta.archived == Some(
                1i64,
            )
            &&& !archive.contains(n.id) ==> r.deleted_at == n.deleted_at && r.meta == n.meta
            &&& r.meta.expires_at == n.meta.expires_at && r.meta.valid_to == n.meta.valid_to
                && r.meta.resolves_when == n.meta.resolves_when && r.meta.fires_when
                == n.meta.fires_when
            &&& (forall|k: int|
                0 <= k < superseded.len() ==> (#[trigger] superseded[k]).0 != n.id)
                ==> r.superseded_by == n.superseded_by
            &&& (exists|k: int| 0 <= k < superseded.len() && (#[trigger] superseded[k]).0 == n.id)
                ==> r.superseded_by is Some && superseded.contains((n.id, r.superseded_by->0))
        }),
{
    lemma_winner(superseded, n.id);
}

proof fn lemma_winner(superseded: Seq<(i64, i64)>, id: i64)
    ensures
        (forall|k: int| 0 <= k < superseded.len() ==> (#[trigger] superseded[k]).0 != id)
            ==> winner(superseded, id) is None,
        (exists|k: int| 0 <= k < superseded.len() && (#[trigger] superseded[k]).0 == id)
            ==> winner(superseded, id) is Some && superseded.contains(
            (id, winner(superseded, id)->0),
        ),
    decreases superseded.len(),
{
    if superseded.len() > 0 {
        let t = superseded.drop_last();
        lemma_winner(t, id);
        if superseded.last().0 == id {
            assert(superseded[superseded.len() - 1] == (id, superseded.last().1));
        } else {
            if exists|k: int| 0 <= k < superseded.len() && (#[trigger] superseded[k]).0 == id {
                let k = choose|k: int| 0 <= k < superseded.len() && (#[trigger] superseded[k]).0
                    == id;
                assert(t[k].0 == id);
                let j = choose|j: int| 0 <= j < t.len() && t[j] == (id, winner(t, id)->0);
                assert(superseded[j] == (id, winner(t, id)->0));
            }
            if forall|k: int| 0 <= k < superseded.len() ==> (#[trigger] superseded[k]).0 != id {
                assert forall|k: int| 0 <= k < t.len() implies (#[trigger] t[k]).0 != id by {
                    assert(t[k] == superseded[k]);
                }
            }
        }
    }
}

/// The edge of a supersession leads from the memory that stays to the one that goes.
pub proof fn a_supersession_is_an_edge(superseded: Seq<(i64, i64)>, k: int)
    requires
        0 <= k < superseded.len(),
    ensures
        supersession_edges(superseded).len() == superseded.len(),
        supersession_edges(superseded)[k].src == superseded[k].1,
        supersession_edges(superseded)[k].dst == superseded[k].0,
        supersession_edges(superseded)[k].rel == Rel::Supersedes,
{
}

/// The automatic consolidation is due a week after the last one, and only where it is
/// set to weekly.
pub proof fn consolidation_is_weekly(cadence: Seq<char>, last: i64, text: Seq<char>, now: int)
    requires
        signed(text) == Some(last as int),
    ensures
        is_due("weekly"@, Some(text), now) <==> now >= last + 7 * 86_400,
        is_due("weekly"@, None, now) <==> now >= 7 * 86_400,
        cadence != "weekly"@ ==> !is_due(cadence, Some(text), now),
{
}

} // verus!
