//! Consolidation of the memories: four passes, none destructive.
//!
//! 1. Near-duplicates of one type and scope: the older one is superseded, never
//!    deleted.
//! 2. Contradictions, much alike but one of them negated: reported, never resolved.
//! 3. Clusters of related memories: distilled into a summary.
//! 4. Decayed and idle memories: archived, which can be undone.
//!
//! How alike two memories are is a band: the caller measures the similarity of
//! their embeddings and names the band it falls into.

pub mod store;

use vstd::prelude::*;
use vstd::utf8::*;

use crate::memory::{blake3_hash, gist_of};
#[allow(unused_imports)]
use crate::memory::{blake3_of, gist};
use crate::model::{short_uid, Kind, Meta, NewNode, Node};
#[allow(unused_imports)]
use crate::model::{short_form, tail_chars};
use crate::order::{rank, Key};
#[allow(unused_imports)]
use crate::order::{as_ints, is_ranking, ranking};
#[allow(unused_imports)]
use crate::seqs::{count_where, first_n, kept, lemma_kept};
use crate::sets::{distinct, push_all};
#[allow(unused_imports)]
use crate::sets::first_seen;
use crate::text::{has, joined, parse_signed, same};
#[allow(unused_imports)]
use crate::text::{
    all_ascii, contains, join, lemma_texts_empty, lemma_texts_push, lowercase, signed, texts,
};

verus! {

/// Fewest members of a cluster that is distilled.
pub const CLUSTER_MIN: usize = 5;

/// Days without use after which a decayed memory is archived.
pub const ARCHIVE_IDLE_DAYS: i64 = 90;

/// Seconds between two automatic consolidations.
pub const WEEK_SECONDS: i64 = 604_800;

/// How alike two memories are, by the cosine of their embeddings.
#[derive(Debug, Clone, Copy, PartialEq, Eq, Structural)]
pub enum Band {
    /// Below 0.80.
    Apart,
    /// From 0.80: close enough to cluster.
    Related,
    /// From 0.85: close enough to contradict each other.
    Near,
    /// From 0.92: the same statement.
    Same,
}

/// A live memory that has an embedding.
#[derive(Debug)]
pub struct Mem {
    pub id: i64,
    pub uid: String,
    pub title: String,
    pub body: String,
    pub subkind: String,
    pub project_id: Option<i64>,
    pub created_at: i64,
    pub pinned: bool,
}

/// What a consolidation did, or would do.
#[derive(Debug)]
pub struct Report {
    pub superseded: usize,
    /// Pairs that need a decision by a person, the older memory first, each as its
    /// short id and title.
    pub contradictions: Vec<(String, String)>,
    pub distilled: usize,
    pub archived: usize,
}

impl Default for Report {
    fn default() -> (r: Report)
        ensures
            r.superseded == 0,
            r.contradictions@.len() == 0,
            r.distilled == 0,
            r.archived == 0,
    {
        Report { superseded: 0, contradictions: Vec::new(), distilled: 0, archived: 0 }
    }
}

impl Report {
    /// Nothing to do, nothing to report.
    pub open spec fn empty(self) -> bool {
        &&& self.superseded == 0
        &&& self.contradictions@.len() == 0
        &&& self.distilled == 0
        &&& self.archived == 0
    }

    /// Whether there is nothing to do and nothing to report.
    pub fn is_empty(&self) -> (r: bool)
        ensures
            r == self.empty(),
    {
        self.superseded == 0 && self.contradictions.len() == 0 && self.distilled == 0
            && self.archived == 0
    }
}

// ---------------------------------------------------------------------
// Near-duplicates and contradictions
// ---------------------------------------------------------------------

/// Words that turn a statement round.
pub const NEGATIONS: [&'static str; 17] = [
    "not",
    "never",
    "don't",
    "dont",
    "doesn't",
    "doesnt",
    "isn't",
    "isnt",
    "won't",
    "wont",
    "no longer",
    "avoid",
    "instead",
    "deprecated",
    "wrong",
    "refuting",
    "refuted",
];

/// Whether a text holds one of the negating words.
pub open spec fn negated(text: Seq<char>) -> bool {
    exists|k: int| 0 <= k < 17 && contains(lowercase(text), #[trigger] NEGATIONS@[k]@)
}

fn is_negated(text: &str) -> (r: bool)
    ensures
        r == negated(text@),
{
    let lower = text.to_lowercase();
    let mut k: usize = 0;
    while k < 17
        invariant
            k <= 17,
            lower@ == lowercase(text@),
            forall|i: int| 0 <= i < k ==> !contains(lowercase(text@), #[trigger] NEGATIONS@[i]@),
        decreases 17 - k,
    {
        if has(lower.as_str(), NEGATIONS[k]) {
            assert(contains(lowercase(text@), NEGATIONS@[k as int]@));
            return true;
        }
        k += 1;
    }
    false
}

/// Whether one of two texts is negated and the other is not.
pub fn negation_mismatch(a: &str, b: &str) -> (r: bool)
    ensures
        r == (negated(a@) != negated(b@)),
{
    is_negated(a) != is_negated(b)
}

/// How alike the memories `a` and `b` are, `a` before `b`.
pub open spec fn band(bands: Seq<Vec<Band>>, a: int, b: int) -> Band {
    bands[a]@[b]
}

/// Whether there is a band for each pair of `n` memories.
pub open spec fn is_square(bands: Seq<Vec<Band>>, n: int) -> bool {
    bands.len() == n && forall|i: int| 0 <= i < n ==> (#[trigger] bands[i])@.len() == n
}

/// Of one type and one scope.
pub open spec fn same_bucket(a: Mem, b: Mem) -> bool {
    a.subkind@ == b.subkind@ && a.project_id == b.project_id
}

fn in_same_bucket(a: &Mem, b: &Mem) -> (r: bool)
    ensures
        r == same_bucket(*a, *b),
{
    same_project(a, b) && same(a.subkind.as_str(), b.subkind.as_str())
}

fn same_project(a: &Mem, b: &Mem) -> (r: bool)
    ensures
        r == (a.project_id == b.project_id),
{
    match (a.project_id, b.project_id) {
        (Some(x), Some(y)) => x == y,
        (None, None) => true,
        _ => false,
    }
}

/// What the comparison of pairs has found: which memory is superseded by which,
/// and which pairs contradict each other, by index.
pub ghost struct Pairs {
    pub superseded: Seq<(int, int)>,
    pub contradicting: Seq<(int, int)>,
}

/// Whether the memory `m` is among the superseded ones.
pub open spec fn is_gone(mems: Seq<Mem>, superseded: Seq<(int, int)>, m: int) -> bool {
    exists|k: int|
        0 <= k < superseded.len() && mems[(#[trigger] superseded[k]).0].id == mems[m].id
}

/// The older of two memories, the first where they are of one age.
pub open spec fn older_first(mems: Seq<Mem>, a: int, b: int) -> (int, int) {
    if mems[a].created_at <= mems[b].created_at {
        (a, b)
    } else {
        (b, a)
    }
}

/// The pair `a`, `b` compared, after what was found before.
pub open spec fn compared(mems: Seq<Mem>, bands: Seq<Vec<Band>>, p: Pairs, a: int, b: int) -> Pairs {
    if !same_bucket(mems[a], mems[b]) || is_gone(mems, p.superseded, a) || is_gone(
        mems,
        p.superseded,
        b,
    ) {
        p
    } else if band(bands, a, b) == Band::Same {
        let pair = older_first(mems, a, b);
        if mems[pair.0].pinned {
            p
        } else {
            Pairs { superseded: p.superseded.push(pair), ..p }
        }
    } else if band(bands, a, b) == Band::Near && negated(mems[a].body@) != negated(mems[b].body@) {
        Pairs { contradicting: p.contradicting.push(older_first(mems, a, b)), ..p }
    } else {
        p
    }
}

/// The pairs found once every pair with a first memory before `a` is compared,
/// and those of `a` with a second memory before `b`.
pub open spec fn pairs_up_to(mems: Seq<Mem>, bands: Seq<Vec<Band>>, a: int, b: int) -> Pairs
    decreases a, b,
{
    if b > a + 1 && a >= 0 {
        compared(mems, bands, pairs_up_to(mems, bands, a, b - 1), a, b - 1)
    } else if a > 0 {
        pairs_up_to(mems, bands, a - 1, mems.len() as int)
    } else {
        Pairs { superseded: Seq::empty(), contradicting: Seq::empty() }
    }
}

/// The pairs that the comparison of all memories finds.
pub open spec fn all_pairs(mems: Seq<Mem>, bands: Seq<Vec<Band>>) -> Pairs {
    pairs_up_to(mems, bands, mems.len() as int, 0)
}

/// Pairs of indices as pairs of integers.
pub open spec fn pairs_of(v: Seq<(usize, usize)>) -> Seq<(int, int)> {
    Seq::new(v.len(), |i: int| (v[i].0 as int, v[i].1 as int))
}

proof fn lemma_pairs_push(v: Seq<(usize, usize)>, x: (usize, usize))
    ensures
        pairs_of(v.push(x)) == pairs_of(v).push((x.0 as int, x.1 as int)),
{
    assert(pairs_of(v.push(x)) =~= pairs_of(v).push((x.0 as int, x.1 as int)));
}

/// Whether every index is below `n`.
pub open spec fn indices_below(v: Seq<(int, int)>, n: int) -> bool {
    forall|k: int|
        0 <= k < v.len() ==> 0 <= (#[trigger] v[k]).0 < n && 0 <= v[k].1 < n
}

fn gone(mems: &Vec<Mem>, superseded: &Vec<(usize, usize)>, m: usize) -> (r: bool)
    requires
        m < mems@.len(),
        indices_below(pairs_of(superseded@), mems@.len() as int),
    ensures
        r == is_gone(mems@, pairs_of(superseded@), m as int),
{
    let ghost all = pairs_of(superseded@);
    let mut k: usize = 0;
    while k < superseded.len()
        invariant
            m < mems@.len(),
            k <= superseded@.len(),
            all == pairs_of(superseded@),
            indices_below(all, mems@.len() as int),
            forall|i: int| 0 <= i < k ==> mems@[(#[trigger] all[i]).0].id != mems@[m as int].id,
        decreases superseded@.len() - k,
    {
        assert(all[k as int] == (superseded@[k as int].0 as int, superseded@[k as int].1 as int));
        if mems[superseded[k].0].id == mems[m].id {
            return true;
        }
        k += 1;
    }
    false
}

/// Compares the memories pair by pair, within one type and scope. A memory that
/// is superseded is compared no more.
fn compare_pairs(mems: &Vec<Mem>, bands: &Vec<Vec<Band>>) -> (r: (
    Vec<(usize, usize)>,
    Vec<(usize, usize)>,
))
    requires
        is_square(bands@, mems@.len() as int),
    ensures
        pairs_of(r.0@) == all_pairs(mems@, bands@).superseded,
        pairs_of(r.1@) == all_pairs(mems@, bands@).contradicting,
        indices_below(pairs_of(r.0@), mems@.len() as int),
        indices_below(pairs_of(r.1@), mems@.len() as int),
{
    let n: usize = mems.len();
    let mut superseded: Vec<(usize, usize)> = Vec::new();
    let mut contradicting: Vec<(usize, usize)> = Vec::new();
    let mut a: usize = 0;
    assert(pairs_of(superseded@) =~= Seq::empty());
    assert(pairs_of(contradicting@) =~= Seq::empty());
    while a < n
        invariant
            a <= n,
            n == mems@.len(),
            is_square(bands@, n as int),
            pairs_of(superseded@) == pairs_up_to(mems@, bands@, a as int, 0).superseded,
            pairs_of(contradicting@) == pairs_up_to(mems@, bands@, a as int, 0).contradicting,
            indices_below(pairs_of(superseded@), n as int),
            indices_below(pairs_of(contradicting@), n as int),
        decreases n - a,
    {
        let mut b: usize = a + 1;
        assert(pairs_up_to(mems@, bands@, a as int, a + 1) == pairs_up_to(
            mems@,
            bands@,
            a as int,
            0,
        ));
        while b < n
            invariant
                a < b <= n,
                n == mems@.len(),
                is_square(bands@, n as int),
                pairs_of(superseded@) == pairs_up_to(mems@, bands@, a as int, b as int).superseded,
                pairs_of(contradicting@) == pairs_up_to(
                    mems@,
                    bands@,
                    a as int,
                    b as int,
                ).contradicting,
                indices_below(pairs_of(superseded@), n as int),
                indices_below(pairs_of(contradicting@), n as int),
            decreases n - b,
        {
            let ghost p = pairs_up_to(mems@, bands@, a as int, b as int);
            assert(pairs_up_to(mems@, bands@, a as int, b + 1) == compared(
                mems@,
                bands@,
                p,
                a as int,
                b as int,
            ));
            if in_same_bucket(&mems[a], &mems[b]) && !gone(mems, &superseded, a) && !gone(
                mems,
                &superseded,
                b,
            ) {
                assert(bands@[a as int]@.len() == n);
                let likeness = bands[a][b];
                let pair = if mems[a].created_at <= mems[b].created_at {
                    (a, b)
                } else {
                    (b, a)
                };
                if likeness == Band::Same {
                    if !mems[pair.0].pinned {
                        proof {
                            lemma_pairs_push(superseded@, pair);
                        }
                        superseded.push(pair);
                    }
                } else if likeness == Band::Near && negation_mismatch(
                    mems[a].body.as_str(),
                    mems[b].body.as_str(),
                ) {
                    proof {
                        lemma_pairs_push(contradicting@, pair);
                    }
                    contradicting.push(pair);
                }
            }
            b += 1;
        }
        assert(pairs_up_to(mems@, bands@, a + 1, 0) == pairs_up_to(
            mems@,
            bands@,
            a as int,
            n as int,
        ));
        a += 1;
    }
    (superseded, contradicting)
}

// ---------------------------------------------------------------------
// Clusters
// ---------------------------------------------------------------------

/// Whether two live memories, the first before the second, belong together: one
/// scope, and alike enough.
pub open spec fn linked(
    mems: Seq<Mem>,
    bands: Seq<Vec<Band>>,
    live: spec_fn(int) -> bool,
    a: int,
    b: int,
) -> bool {
    &&& 0 <= a < b < mems.len()
    &&& live(a)
    &&& live(b)
    &&& mems[a].project_id == mems[b].project_id
    &&& band(bands, a, b) != Band::Apart
}

/// An equivalence under which linked memories are equivalent.
pub open spec fn respects_links(
    r: spec_fn(int, int) -> bool,
    mems: Seq<Mem>,
    bands: Seq<Vec<Band>>,
    live: spec_fn(int) -> bool,
) -> bool {
    &&& forall|x: int| #[trigger] r(x, x)
    &&& forall|x: int, y: int| #[trigger] r(x, y) ==> r(y, x)
    &&& forall|x: int, y: int, z: int| #[trigger] r(x, y) && #[trigger] r(y, z) ==> r(x, z)
    &&& forall|a: int, b: int| #[trigger] linked(mems, bands, live, a, b) ==> r(a, b)
}

/// Whether links lead from one memory to another: every equivalence that respects
/// the links relates the two.
pub open spec fn connected(
    mems: Seq<Mem>,
    bands: Seq<Vec<Band>>,
    live: spec_fn(int) -> bool,
    a: int,
    b: int,
) -> bool {
    forall|r: spec_fn(int, int) -> bool| #[trigger]
        respects_links(r, mems, bands, live) ==> r(a, b)
}

/// The numbers below `n`.
pub open spec fn indices(n: int) -> Seq<int> {
    Seq::new(n as nat, |i: int| i)
}

/// The memories in the cluster of `a`.
pub open spec fn in_cluster_of(
    mems: Seq<Mem>,
    bands: Seq<Vec<Band>>,
    live: spec_fn(int) -> bool,
    a: int,
) -> spec_fn(int) -> bool {
    |b: int| live(b) && connected(mems, bands, live, a, b)
}

/// The cluster of `a`: every live memory that links lead to, in order.
pub open spec fn cluster_of(
    mems: Seq<Mem>,
    bands: Seq<Vec<Band>>,
    live: spec_fn(int) -> bool,
    a: int,
) -> Seq<int> {
    kept(indices(mems.len() as int), in_cluster_of(mems, bands, live, a))
}

/// Whether `a` is live and comes first in its cluster.
pub open spec fn leads(mems: Seq<Mem>, bands: Seq<Vec<Band>>, live: spec_fn(int) -> bool, a: int) -> bool {
    live(a) && forall|b: int|
        0 <= b < a && live(b) ==> !#[trigger] connected(mems, bands, live, b, a)
}

/// The clusters that a memory before `n` leads, in order.
pub open spec fn clusters_up_to(
    mems: Seq<Mem>,
    bands: Seq<Vec<Band>>,
    live: spec_fn(int) -> bool,
    n: int,
) -> Seq<Seq<int>>
    decreases n,
{
    if n <= 0 {
        Seq::empty()
    } else if leads(mems, bands, live, n - 1) {
        clusters_up_to(mems, bands, live, n - 1).push(cluster_of(mems, bands, live, n - 1))
    } else {
        clusters_up_to(mems, bands, live, n - 1)
    }
}

/// The clusters of the live memories: single-link, per scope, each memory in one.
pub open spec fn clusters(mems: Seq<Mem>, bands: Seq<Vec<Band>>, live: spec_fn(int) -> bool) -> Seq<
    Seq<int>,
> {
    clusters_up_to(mems, bands, live, mems.len() as int)
}

/// Which memories are live, by a list of flags.
pub open spec fn flagged(live: Seq<bool>) -> spec_fn(int) -> bool {
    |i: int| 0 <= i < live.len() && live[i]
}

/// Equal labels mean that links lead from one to the other.
spec fn labels_sound(
    labels: Seq<usize>,
    mems: Seq<Mem>,
    bands: Seq<Vec<Band>>,
    live: spec_fn(int) -> bool,
) -> bool {
    forall|r: spec_fn(int, int) -> bool, i: int, j: int|
        #![trigger respects_links(r, mems, bands, live), labels[i], labels[j]]
        respects_links(r, mems, bands, live) && 0 <= i < labels.len() && 0 <= j < labels.len()
            && labels[i] == labels[j] ==> r(i, j)
}

/// Every `from` turned into `to`.
spec fn relabelled(labels: Seq<usize>, from: usize, to: usize) -> Seq<usize> {
    Seq::new(
        labels.len(),
        |i: int|
            if labels[i] == from {
                to
            } else {
                labels[i]
            },
    )
}

fn relabel(labels: &mut Vec<usize>, from: usize, to: usize)
    ensures
        final(labels)@ == relabelled(old(labels)@, from, to),
{
    let ghost before = labels@;
    let mut i: usize = 0;
    while i < labels.len()
        invariant
            i <= labels@.len(),
            labels@.len() == before.len(),
            forall|k: int| 0 <= k < i ==> labels@[k] == relabelled(before, from, to)[k],
            forall|k: int| i <= k < labels@.len() ==> labels@[k] == before[k],
        decreases labels@.len() - i,
    {
        if labels[i] == from {
            labels.set(i, to);
        }
        i += 1;
    }
    assert(labels@ =~= relabelled(before, from, to));
}

proof fn lemma_relabel_sound(
    labels: Seq<usize>,
    mems: Seq<Mem>,
    bands: Seq<Vec<Band>>,
    live: spec_fn(int) -> bool,
    a: int,
    b: int,
)
    requires
        labels.len() == mems.len(),
        labels_sound(labels, mems, bands, live),
        linked(mems, bands, live, a, b),
    ensures
        labels_sound(relabelled(labels, labels[a], labels[b]), mems, bands, live),
{
    let new = relabelled(labels, labels[a], labels[b]);
    assert forall|r: spec_fn(int, int) -> bool, i: int, j: int|
        #![trigger respects_links(r, mems, bands, live), new[i], new[j]]
        respects_links(r, mems, bands, live) && 0 <= i < new.len() && 0 <= j < new.len() && new[i]
            == new[j] implies r(i, j) by {
        assert(r(a, b));
        if labels[i] == labels[j] {
            assert(r(i, j));
        } else if labels[i] == labels[a] {
            assert(labels[j] == labels[b]);
            assert(r(i, a));
            assert(r(b, j));
            assert(r(i, b));
        } else {
            assert(labels[j] == labels[a]);
            assert(labels[i] == labels[b]);
            assert(r(i, b));
            assert(r(b, a));
            assert(r(a, j));
            assert(r(i, a));
        }
    }
}

proof fn lemma_labels_are_connection(
    labels: Seq<usize>,
    mems: Seq<Mem>,
    bands: Seq<Vec<Band>>,
    live: spec_fn(int) -> bool,
    a: int,
    b: int,
)
    requires
        labels.len() == mems.len(),
        labels_sound(labels, mems, bands, live),
        forall|x: int, y: int| #[trigger]
            linked(mems, bands, live, x, y) ==> labels[x] == labels[y],
        0 <= a < mems.len(),
        0 <= b < mems.len(),
    ensures
        connected(mems, bands, live, a, b) == (labels[a] == labels[b]),
{
    if labels[a] == labels[b] {
        assert forall|r: spec_fn(int, int) -> bool| #[trigger]
            respects_links(r, mems, bands, live) implies r(a, b) by {
            assert(labels[a] == labels[b]);
        }
    } else {
        let r = |x: int, y: int| labels[x] == labels[y];
        assert(respects_links(r, mems, bands, live)) by {
            assert forall|x: int| #[trigger] r(x, x) by {}
            assert forall|x: int, y: int| #[trigger] r(x, y) implies r(y, x) by {}
            assert forall|x: int, y: int| #[trigger]
                linked(mems, bands, live, x, y) implies r(x, y) by {}
        }
        assert(!r(a, b));
    }
}

/// Labels under which two memories are alike exactly where links lead from one to
/// the other.
fn link_labels(mems: &Vec<Mem>, bands: &Vec<Vec<Band>>, live: &Vec<bool>) -> (labels: Vec<usize>)
    requires
        is_square(bands@, mems@.len() as int),
        live@.len() == mems@.len(),
    ensures
        labels@.len() == mems@.len(),
        forall|a: int, b: int|
            #![trigger labels@[a], labels@[b]]
            0 <= a < mems@.len() && 0 <= b < mems@.len() ==> connected(
                mems@,
                bands@,
                flagged(live@),
                a,
                b,
            ) == (labels@[a] == labels@[b]),
{
    let n: usize = mems.len();
    let ghost on = flagged(live@);
    let mut labels: Vec<usize> = Vec::new();
    let mut i: usize = 0;
    while i < n
        invariant
            i <= n,
            labels@.len() == i,
            forall|k: int| 0 <= k < i ==> labels@[k] == k,
        decreases n - i,
    {
        labels.push(i);
        i += 1;
    }
    assert(labels_sound(labels@, mems@, bands@, on)) by {
        assert forall|r: spec_fn(int, int) -> bool, i: int, j: int|
            #![trigger respects_links(r, mems@, bands@, on), labels@[i], labels@[j]]
            respects_links(r, mems@, bands@, on) && 0 <= i < n && 0 <= j < n && labels@[i]
                == labels@[j] implies r(i, j) by {
            assert(r(i, i));
        }
    }
    let mut a: usize = 0;
    while a < n
        invariant
            a <= n,
            n == mems@.len(),
            is_square(bands@, n as int),
            live@.len() == n,
            labels@.len() == n,
            on == flagged(live@),
            labels_sound(labels@, mems@, bands@, on),
            forall|x: int, y: int|
                x < a && #[trigger] linked(mems@, bands@, on, x, y) ==> labels@[x] == labels@[y],
        decreases n - a,
    {
        let mut b: usize = a + 1;
        while b < n
            invariant
                a < b <= n,
                n == mems@.len(),
                is_square(bands@, n as int),
                live@.len() == n,
                labels@.len() == n,
                on == flagged(live@),
                labels_sound(labels@, mems@, bands@, on),
                forall|x: int, y: int|
                    (x < a || (x == a && y < b)) && #[trigger] linked(mems@, bands@, on, x, y)
                        ==> labels@[x] == labels@[y],
            decreases n - b,
        {
            assert(bands@[a as int]@.len() == n);
            if live[a] && live[b] && same_project(&mems[a], &mems[b]) && bands[a][b]
                != Band::Apart {
                assert(linked(mems@, bands@, on, a as int, b as int));
                let (la, lb) = (labels[a], labels[b]);
                if la != lb {
                    let ghost before = labels@;
                    proof {
                        lemma_relabel_sound(labels@, mems@, bands@, on, a as int, b as int);
                    }
                    relabel(&mut labels, la, lb);
                    assert forall|x: int, y: int|
                        (x < a || (x == a && y < b + 1)) && #[trigger] linked(
                            mems@,
                            bands@,
                            on,
                            x,
                            y,
                        ) implies labels@[x] == labels@[y] by {
                        if x < a || y < b {
                            assert(before[x] == before[y]);
                        }
                    }
                }
            }
            b += 1;
        }
        a += 1;
    }
    assert forall|a: int, b: int|
        #![trigger labels@[a], labels@[b]]
        0 <= a < mems@.len() && 0 <= b < mems@.len() implies connected(mems@, bands@, on, a, b) == (
    labels@[a] == labels@[b]) by {
        lemma_labels_are_connection(labels@, mems@, bands@, on, a, b);
    }
    labels
}

/// Lists of indices as lists of integers.
pub open spec fn index_lists(v: Seq<Vec<usize>>) -> Seq<Seq<int>> {
    Seq::new(v.len(), |i: int| as_ints(v[i]@))
}

fn members(mems: &Vec<Mem>, bands: &Vec<Vec<Band>>, live: &Vec<bool>, labels: &Vec<usize>, a: usize) -> (r:
    Vec<usize>)
    requires
        a < mems@.len(),
        live@.len() == mems@.len(),
        labels@.len() == mems@.len(),
        forall|a: int, b: int|
            #![trigger labels@[a], labels@[b]]
            0 <= a < mems@.len() && 0 <= b < mems@.len() ==> connected(
                mems@,
                bands@,
                flagged(live@),
                a,
                b,
            ) == (labels@[a] == labels@[b]),
    ensures
        as_ints(r@) == cluster_of(mems@, bands@, flagged(live@), a as int),
{
    let n: usize = mems.len();
    let ghost p = in_cluster_of(mems@, bands@, flagged(live@), a as int);
    let ghost all = indices(n as int);
    let mut out: Vec<usize> = Vec::new();
    let mut b: usize = 0;
    assert(as_ints(out@) =~= kept(all.take(0), p));
    while b < n
        invariant
            a < n,
            b <= n,
            n == mems@.len(),
            live@.len() == n,
            labels@.len() == n,
            all == indices(n as int),
            p == in_cluster_of(mems@, bands@, flagged(live@), a as int),
            as_ints(out@) == kept(all.take(b as int), p),
            forall|a: int, b: int|
                #![trigger labels@[a], labels@[b]]
                0 <= a < mems@.len() && 0 <= b < mems@.len() ==> connected(
                    mems@,
                    bands@,
                    flagged(live@),
                    a,
                    b,
                ) == (labels@[a] == labels@[b]),
        decreases n - b,
    {
        assert(all.take(b + 1).drop_last() =~= all.take(b as int));
        assert(all.take(b + 1).last() == b);
        assert(connected(mems@, bands@, flagged(live@), a as int, b as int) == (labels@[a as int]
            == labels@[b as int]));
        if live[b] && labels[b] == labels[a] {
            let ghost before = out@;
            out.push(b);
            assert(as_ints(out@) =~= as_ints(before).push(b as int));
        }
        b += 1;
    }
    assert(all.take(n as int) =~= all);
    out
}

/// Single-link clusters of the live memories, per scope.
pub fn single_link(mems: &Vec<Mem>, bands: &Vec<Vec<Band>>, live: &Vec<bool>) -> (r: Vec<Vec<usize>>)
    requires
        is_square(bands@, mems@.len() as int),
        live@.len() == mems@.len(),
    ensures
        index_lists(r@) == clusters(mems@, bands@, flagged(live@)),
{
    let n: usize = mems.len();
    let labels = link_labels(mems, bands, live);
    let ghost on = flagged(live@);
    let mut out: Vec<Vec<usize>> = Vec::new();
    let mut a: usize = 0;
    assert(index_lists(out@) =~= clusters_up_to(mems@, bands@, on, 0));
    while a < n
        invariant
            a <= n,
            n == mems@.len(),
            live@.len() == n,
            labels@.len() == n,
            on == flagged(live@),
            index_lists(out@) == clusters_up_to(mems@, bands@, on, a as int),
            forall|a: int, b: int|
                #![trigger labels@[a], labels@[b]]
                0 <= a < mems@.len() && 0 <= b < mems@.len() ==> connected(
                    mems@,
                    bands@,
                    flagged(live@),
                    a,
                    b,
                ) == (labels@[a] == labels@[b]),
        decreases n - a,
    {
        let mut first = live[a];
        let mut b: usize = 0;
        while first && b < a
            invariant
                b <= a < n,
                n == mems@.len(),
                live@.len() == n,
                labels@.len() == n,
                on == flagged(live@),
                first ==> live@[a as int] && forall|c: int|
                    0 <= c < b && on(c) ==> !#[trigger] connected(mems@, bands@, on, c, a as int),
                !first ==> !leads(mems@, bands@, on, a as int),
                forall|a: int, b: int|
                    #![trigger labels@[a], labels@[b]]
                    0 <= a < mems@.len() && 0 <= b < mems@.len() ==> connected(
                        mems@,
                        bands@,
                        flagged(live@),
                        a,
                        b,
                    ) == (labels@[a] == labels@[b]),
            decreases
                a - b,
                if first {
                    1int
                } else {
                    0
                },
        {
            assert(connected(mems@, bands@, on, b as int, a as int) == (labels@[b as int]
                == labels@[a as int]));
            if live[b] && labels[b] == labels[a] {
                assert(on(b as int));
                first = false;
            } else {
                b += 1;
            }
        }
        if first {
            assert(leads(mems@, bands@, on, a as int));
            let cluster = members(mems, bands, live, &labels, a);
            let ghost before = out@;
            out.push(cluster);
            assert(index_lists(out@) =~= index_lists(before).push(
                cluster_of(mems@, bands@, on, a as int),
            ));
        }
        a += 1;
    }
    out
}

// ---------------------------------------------------------------------
// Distillation
// ---------------------------------------------------------------------

/// The meaningful words of the titles of `cluster`, in order.
pub open spec fn theme_words(
    mems: Seq<Mem>,
    cluster: Seq<int>,
    stop: Seq<Seq<char>>,
) -> Seq<Seq<char>>
    decreases cluster.len(),
{
    if cluster.len() == 0 {
        Seq::empty()
    } else {
        theme_words(mems, cluster.drop_last(), stop) + gist(mems[cluster.last()].title@, stop)
    }
}

/// Being the word `t`.
pub open spec fn is_word(t: Seq<char>) -> spec_fn(Seq<char>) -> bool {
    |x: Seq<char>| x == t
}

/// The keys that put the more frequent of `names` first.
pub open spec fn frequency_keys(words: Seq<Seq<char>>, names: Seq<Seq<char>>) -> Seq<Key> {
    Seq::new(
        names.len(),
        |i: int|
            Key {
                first: (-(count_where(words, is_word(names[i])) as int)) as i128,
                second: 0,
                third: 0,
            },
    )
}

/// The theme of some words: the three most frequent, the earlier first where two
/// are equally frequent.
pub open spec fn theme_of(words: Seq<Seq<char>>) -> Seq<char> {
    let names = first_seen(words);
    let order = first_n(ranking(frequency_keys(words, names)), 3);
    if order.len() == 0 {
        "related memories"@
    } else {
        join(Seq::new(order.len(), |i: int| names[order[i]]), ", "@)
    }
}

fn collect_words(mems: &Vec<Mem>, cluster: &Vec<usize>, stop: &Vec<String>) -> (r: Vec<String>)
    requires
        forall|i: int| 0 <= i < cluster@.len() ==> #[trigger] cluster@[i] < mems@.len(),
    ensures
        texts(r@) == theme_words(mems@, as_ints(cluster@), texts(stop@)),
{
    broadcast use {lemma_texts_push, lemma_texts_empty};

    let ghost all = as_ints(cluster@);
    let mut out: Vec<String> = Vec::new();
    let mut i: usize = 0;
    assert(texts(out@) =~= theme_words(mems@, all.take(0), texts(stop@)));
    while i < cluster.len()
        invariant
            i <= cluster@.len(),
            forall|i: int| 0 <= i < cluster@.len() ==> #[trigger] cluster@[i] < mems@.len(),
            all == as_ints(cluster@),
            texts(out@) == theme_words(mems@, all.take(i as int), texts(stop@)),
        decreases cluster@.len() - i,
    {
        let words = gist_of(mems[cluster[i]].title.as_str(), stop);
        push_all(&mut out, &words);
        assert(all.take(i + 1).drop_last() =~= all.take(i as int));
        assert(all.take(i + 1).last() == cluster@[i as int]);
        i += 1;
    }
    assert(all.take(all.len() as int) =~= all);
    out
}

fn count_word(words: &Vec<String>, name: &str) -> (r: usize)
    ensures
        r == count_where(texts(words@), is_word(name@)),
{
    let ghost ws = texts(words@);
    let mut n: usize = 0;
    let mut i: usize = 0;
    while i < words.len()
        invariant
            i <= words@.len(),
            n <= i,
            ws == texts(words@),
            n == count_where(ws.take(i as int), is_word(name@)),
        decreases words@.len() - i,
    {
        assert(ws.take(i + 1).drop_last() =~= ws.take(i as int));
        assert(ws.take(i + 1).last() == words@[i as int]@);
        if same(words[i].as_str(), name) {
            n += 1;
        }
        i += 1;
    }
    assert(ws.take(ws.len() as int) =~= ws);
    n
}

/// What the members of a cluster have in common, by the words of their titles.
pub fn theme(mems: &Vec<Mem>, cluster: &Vec<usize>, stop: &Vec<String>) -> (r: String)
    requires
        forall|i: int| 0 <= i < cluster@.len() ==> #[trigger] cluster@[i] < mems@.len(),
    ensures
        r@ == theme_of(theme_words(mems@, as_ints(cluster@), texts(stop@))),
{
    broadcast use {lemma_texts_push, lemma_texts_empty};

    let words = collect_words(mems, cluster, stop);
    let names = distinct(&words);
    let ghost ws = texts(words@);
    let ghost ns = texts(names@);
    let mut keys: Vec<Key> = Vec::new();
    let mut i: usize = 0;
    while i < names.len()
        invariant
            i <= names@.len(),
            ws == texts(words@),
            ns == texts(names@),
            keys@.len() == i,
            forall|k: int| 0 <= k < i ==> #[trigger] keys@[k] == frequency_keys(ws, ns)[k],
        decreases names@.len() - i,
    {
        let n: usize = count_word(&words, names[i].as_str());
        keys.push(Key::of(-(n as i128)));
        i += 1;
    }
    assert(keys@ =~= frequency_keys(ws, ns));
    let order = rank(&keys);
    let ghost want = first_n(ranking(frequency_keys(ws, ns)), 3);
    let k: usize = if order.len() <= 3 {
        order.len()
    } else {
        3
    };
    assert(want =~= as_ints(order@).take(k as int));
    if k == 0 {
        return "related memories".to_owned();
    }
    let mut picked: Vec<String> = Vec::new();
    let mut j: usize = 0;
    let ghost full = Seq::new(want.len(), |i: int| ns[want[i]]);
    while j < k
        invariant
            j <= k <= order@.len(),
            keys@.len() == names@.len(),
            ns == texts(names@),
            is_ranking(as_ints(order@), keys@, keys@.len() as int),
            want == as_ints(order@).take(k as int),
            full == Seq::new(want.len(), |i: int| ns[want[i]]),
            texts(picked@) == full.take(j as int),
        decreases k - j,
    {
        assert(as_ints(order@)[j as int] == order@[j as int]);
        assert(0 <= as_ints(order@)[j as int] < keys@.len());
        let ghost had = texts(picked@);
        let name = names[order[j]].as_str().to_owned();
        assert(name@ == ns[want[j as int]]);
        picked.push(name);
        assert(texts(picked@) =~= had.push(name@));
        assert(full.take(j + 1) =~= full.take(j as int).push(name@));
        j += 1;
    }
    assert(full.take(k as int) =~= full);
    joined(&picked, ", ")
}

/// The lines of a summary: a dash and the title of each member.
pub open spec fn summary_lines(mems: Seq<Mem>, cluster: Seq<int>) -> Seq<Seq<char>> {
    Seq::new(cluster.len(), |i: int| "- "@ + mems[cluster[i]].title@)
}

/// Metadata that says nothing but that the memory was distilled.
pub open spec fn marks_distilled(m: Meta) -> bool {
    &&& m.distilled == Some(true)
    &&& m.expires_at is None
    &&& m.resolves_when is None
    &&& m.confidence is None
    &&& m.valid_from is None
    &&& m.valid_to is None
    &&& m.fires_when is None
    &&& m.anchors is None
    &&& m.archived is None
    &&& m.mtime is None
    &&& m.size is None
}

/// Whether `node` is the summary of a cluster.
pub open spec fn is_summary(
    node: NewNode,
    mems: Seq<Mem>,
    cluster: Seq<int>,
    stop: Seq<Seq<char>>,
) -> bool {
    let body = join(summary_lines(mems, cluster), "\n"@);
    &&& node.kind == Some(Kind::Memory)
    &&& node.subkind is Some && node.subkind->0@ == "summary"@
    &&& node.title is Some && node.title->0@ == "Distilled: "@ + theme_of(
        theme_words(mems, cluster, stop),
    )
    &&& node.body is Some && node.body->0@ == body
    &&& node.project_id == mems[cluster[0]].project_id
    &&& node.content_hash is Some && node.content_hash->0@ == blake3_of(encode_utf8(body))
    &&& node.collection_id is None
    &&& node.parent_id is None
    &&& node.path is None
    &&& node.span_start is None
    &&& node.span_end is None
    &&& node.lang is None
    &&& node.tags@.len() == 0
    &&& node.meta is Some && marks_distilled(node.meta->0)
}

/// The summary of a cluster.
pub fn distil(mems: &Vec<Mem>, cluster: &Vec<usize>, stop: &Vec<String>) -> (r: NewNode)
    requires
        cluster@.len() > 0,
        forall|i: int| 0 <= i < cluster@.len() ==> #[trigger] cluster@[i] < mems@.len(),
    ensures
        is_summary(r, mems@, as_ints(cluster@), texts(stop@)),
{
    broadcast use {lemma_texts_push, lemma_texts_empty};

    let ghost all = as_ints(cluster@);
    let ghost want = summary_lines(mems@, all);
    let mut title = "Distilled: ".to_owned();
    title.append(theme(mems, cluster, stop).as_str());
    let mut rows: Vec<String> = Vec::new();
    let mut i: usize = 0;
    while i < cluster.len()
        invariant
            i <= cluster@.len(),
            forall|i: int| 0 <= i < cluster@.len() ==> #[trigger] cluster@[i] < mems@.len(),
            all == as_ints(cluster@),
            want == summary_lines(mems@, all),
            texts(rows@) == want.take(i as int),
        decreases cluster@.len() - i,
    {
        let mut row = "- ".to_owned();
        row.append(mems[cluster[i]].title.as_str());
        assert(all[i as int] == cluster@[i as int]);
        assert(row@ == want[i as int]);
        let ghost had = texts(rows@);
        rows.push(row);
        assert(texts(rows@) =~= had.push(row@));
        assert(want.take(i + 1) =~= want.take(i as int).push(row@));
        i += 1;
    }
    assert(want.take(want.len() as int) =~= want);
    let body = joined(&rows, "\n");
    let mut node = NewNode::new(Kind::Memory);
    node.content_hash = Some(blake3_hash(body.as_str()));
    node.subkind = Some("summary".to_owned());
    node.title = Some(title);
    node.body = Some(body);
    assert(all[0] == cluster@[0]);
    node.project_id = mems[cluster[0]].project_id;
    let mut meta = Meta::empty();
    meta.distilled = Some(true);
    node.meta = Some(meta);
    node
}

// ---------------------------------------------------------------------
// Archival and the whole pass
// ---------------------------------------------------------------------

/// Whether a memory may be archived at `now`: live, not pinned, and neither
/// written nor used within the idle time.
pub open spec fn is_idle(n: Node, now: int) -> bool {
    let cutoff = now - ARCHIVE_IDLE_DAYS * 86_400;
    &&& n.live_memory()
    &&& !n.pinned
    &&& n.created_at < cutoff
    &&& match n.last_accessed {
        Some(t) => t < cutoff,
        None => true,
    }
}

/// Whether a memory may be archived at `now`.
pub fn may_archive(n: &Node, now: i64) -> (r: bool)
    ensures
        r == is_idle(*n, now as int),
{
    let cutoff: i128 = now as i128 - 7_776_000;
    n.is_live_memory() && !n.pinned && (n.created_at as i128) < cutoff && (match n.last_accessed {
        Some(t) => (t as i128) < cutoff,
        None => true,
    })
}

/// Whether a summary already covers at least half of the members.
pub open spec fn is_covered(mems: Seq<Mem>, cluster: Seq<int>, summarized: Seq<i64>) -> bool {
    covered(mems, cluster, summarized) * 2 >= cluster.len()
}

/// How many members of a cluster are among the summarized memories.
pub open spec fn covered(mems: Seq<Mem>, cluster: Seq<int>, summarized: Seq<i64>) -> nat
    decreases cluster.len(),
{
    if cluster.len() == 0 {
        0
    } else {
        covered(mems, cluster.drop_last(), summarized) + if summarized.contains(
            mems[cluster.last()].id,
        ) {
            1nat
        } else {
            0
        }
    }
}

fn holds(ids: &Vec<i64>, id: i64) -> (r: bool)
    ensures
        r == ids@.contains(id),
{
    let mut i: usize = 0;
    while i < ids.len()
        invariant
            i <= ids@.len(),
            forall|k: int| 0 <= k < i ==> ids@[k] != id,
        decreases ids@.len() - i,
    {
        if ids[i] == id {
            return true;
        }
        i += 1;
    }
    false
}

/// Whether a summary already covers at least half of the members.
pub fn has_summary(mems: &Vec<Mem>, cluster: &Vec<usize>, summarized: &Vec<i64>) -> (r: bool)
    requires
        forall|i: int| 0 <= i < cluster@.len() ==> #[trigger] cluster@[i] < mems@.len(),
    ensures
        r == is_covered(mems@, as_ints(cluster@), summarized@),
{
    let ghost all = as_ints(cluster@);
    let mut n: usize = 0;
    let mut i: usize = 0;
    while i < cluster.len()
        invariant
            i <= cluster@.len(),
            n <= i,
            all == as_ints(cluster@),
            forall|i: int| 0 <= i < cluster@.len() ==> #[trigger] cluster@[i] < mems@.len(),
            n == covered(mems@, all.take(i as int), summarized@),
        decreases cluster@.len() - i,
    {
        assert(all.take(i + 1).drop_last() =~= all.take(i as int));
        assert(all.take(i + 1).last() == cluster@[i as int]);
        if holds(summarized, mems[cluster[i]].id) {
            n += 1;
        }
        i += 1;
    }
    assert(all.take(all.len() as int) =~= all);
    n >= cluster.len() - n
}

/// Clusters that are distilled: large enough, and not summarized yet.
pub open spec fn is_due_for_summary(mems: Seq<Mem>, summarized: Seq<i64>) -> spec_fn(
    Seq<int>,
) -> bool {
    |c: Seq<int>| c.len() >= CLUSTER_MIN && !is_covered(mems, c, summarized)
}

/// A summary to be stored, and the memories it summarizes.
#[derive(Debug)]
pub struct Distilled {
    pub node: NewNode,
    pub members: Vec<i64>,
}

/// What a consolidation writes.
#[derive(Debug)]
pub struct Plan {
    pub report: Report,
    /// Memories that are superseded, each with the one that supersedes it.
    pub supersede: Vec<(i64, i64)>,
    pub summaries: Vec<Distilled>,
    /// Memories to be archived.
    pub archive: Vec<i64>,
}

/// The ids of pairs of memories.
pub open spec fn pair_ids(mems: Seq<Mem>, pairs: Seq<(int, int)>) -> Seq<(i64, i64)> {
    Seq::new(pairs.len(), |i: int| (mems[pairs[i].0].id, mems[pairs[i].1].id))
}

/// The ids of the members of a cluster.
pub open spec fn member_ids(mems: Seq<Mem>, cluster: Seq<int>) -> Seq<i64> {
    Seq::new(cluster.len(), |i: int| mems[cluster[i]].id)
}

/// How a memory is named in a report: its short id and its title.
pub open spec fn label(m: Mem) -> Seq<char> {
    short_form(Kind::Memory, m.uid@) + " "@ + m.title@
}

/// Whether the report names the pairs.
pub open spec fn are_labels(
    v: Seq<(String, String)>,
    mems: Seq<Mem>,
    pairs: Seq<(int, int)>,
) -> bool {
    v.len() == pairs.len() && forall|i: int|
        0 <= i < v.len() ==> (#[trigger] v[i]).0@ == label(mems[pairs[i].0]) && v[i].1@ == label(
            mems[pairs[i].1],
        )
}

/// Whether the summaries are those of the clusters.
pub open spec fn are_summaries(
    v: Seq<Distilled>,
    mems: Seq<Mem>,
    due: Seq<Seq<int>>,
    stop: Seq<Seq<char>>,
) -> bool {
    v.len() == due.len() && forall|i: int|
        0 <= i < v.len() ==> is_summary((#[trigger] v[i]).node, mems, due[i], stop)
            && v[i].members@ == member_ids(mems, due[i])
}

/// Memories that the comparison left alone.
pub open spec fn survives(mems: Seq<Mem>, superseded: Seq<(int, int)>) -> spec_fn(int) -> bool {
    |m: int| 0 <= m < mems.len() && !is_gone(mems, superseded, m)
}

/// The ids of the first `n` nodes that are archived: idle, faded, and not
/// superseded by this very pass. A trial run writes nothing, so it still sees
/// those that it would have superseded.
pub open spec fn archived_ids(
    nodes: Seq<Node>,
    faded: Seq<bool>,
    superseded: Seq<(i64, i64)>,
    dry_run: bool,
    now: int,
    n: int,
) -> Seq<i64>
    decreases n,
{
    if n <= 0 {
        Seq::empty()
    } else {
        let before = archived_ids(nodes, faded, superseded, dry_run, now, n - 1);
        if is_idle(nodes[n - 1], now) && faded[n - 1] && (dry_run || !is_superseded(
            superseded,
            nodes[n - 1].id,
        )) {
            before.push(nodes[n - 1].id)
        } else {
            before
        }
    }
}

/// Whether the memory `id` is superseded in this pass.
pub open spec fn is_superseded(superseded: Seq<(i64, i64)>, id: i64) -> bool {
    exists|k: int| 0 <= k < superseded.len() && (#[trigger] superseded[k]).0 == id
}

fn superseded_here(superseded: &Vec<(i64, i64)>, id: i64) -> (r: bool)
    ensures
        r == is_superseded(superseded@, id),
{
    let mut i: usize = 0;
    while i < superseded.len()
        invariant
            i <= superseded@.len(),
            forall|k: int| 0 <= k < i ==> (#[trigger] superseded@[k]).0 != id,
        decreases superseded@.len() - i,
    {
        if superseded[i].0 == id {
            return true;
        }
        i += 1;
    }
    false
}

fn labelled(m: &Mem) -> (r: String)
    ensures
        r@ == label(*m),
{
    let mut out = short_uid(Kind::Memory, m.uid.as_str());
    out.append(" ");
    out.append(m.title.as_str());
    out
}

fn ids_of_pairs(mems: &Vec<Mem>, pairs: &Vec<(usize, usize)>) -> (r: Vec<(i64, i64)>)
    requires
        indices_below(pairs_of(pairs@), mems@.len() as int),
    ensures
        r@ == pair_ids(mems@, pairs_of(pairs@)),
{
    let ghost all = pairs_of(pairs@);
    let mut out: Vec<(i64, i64)> = Vec::new();
    let mut i: usize = 0;
    while i < pairs.len()
        invariant
            i <= pairs@.len(),
            all == pairs_of(pairs@),
            indices_below(all, mems@.len() as int),
            out@.len() == i,
            forall|k: int| 0 <= k < i ==> #[trigger] out@[k] == pair_ids(mems@, all)[k],
        decreases pairs@.len() - i,
    {
        assert(all[i as int] == (pairs@[i as int].0 as int, pairs@[i as int].1 as int));
        out.push((mems[pairs[i].0].id, mems[pairs[i].1].id));
        i += 1;
    }
    assert(out@ =~= pair_ids(mems@, all));
    out
}

fn labels_of_pairs(mems: &Vec<Mem>, pairs: &Vec<(usize, usize)>) -> (r: Vec<(String, String)>)
    requires
        indices_below(pairs_of(pairs@), mems@.len() as int),
    ensures
        are_labels(r@, mems@, pairs_of(pairs@)),
{
    let ghost all = pairs_of(pairs@);
    let mut out: Vec<(String, String)> = Vec::new();
    let mut i: usize = 0;
    while i < pairs.len()
        invariant
            i <= pairs@.len(),
            all == pairs_of(pairs@),
            indices_below(all, mems@.len() as int),
            out@.len() == i,
            forall|k: int|
                0 <= k < i ==> (#[trigger] out@[k]).0@ == label(mems@[all[k].0]) && out@[k].1@
                    == label(mems@[all[k].1]),
        decreases pairs@.len() - i,
    {
        assert(all[i as int] == (pairs@[i as int].0 as int, pairs@[i as int].1 as int));
        out.push((labelled(&mems[pairs[i].0]), labelled(&mems[pairs[i].1])));
        i += 1;
    }
    out
}

fn survivors(mems: &Vec<Mem>, superseded: &Vec<(usize, usize)>) -> (r: Vec<bool>)
    requires
        indices_below(pairs_of(superseded@), mems@.len() as int),
    ensures
        r@.len() == mems@.len(),
        flagged(r@) == survives(mems@, pairs_of(superseded@)),
{
    let ghost all = pairs_of(superseded@);
    let mut out: Vec<bool> = Vec::new();
    let mut i: usize = 0;
    while i < mems.len()
        invariant
            i <= mems@.len(),
            all == pairs_of(superseded@),
            indices_below(all, mems@.len() as int),
            out@.len() == i,
            forall|k: int| 0 <= k < i ==> #[trigger] out@[k] == !is_gone(mems@, all, k),
        decreases mems@.len() - i,
    {
        out.push(!gone(mems, superseded, i));
        i += 1;
    }
    assert(flagged(out@) =~= survives(mems@, all));
    out
}

fn ids_of(mems: &Vec<Mem>, cluster: &Vec<usize>) -> (r: Vec<i64>)
    requires
        forall|i: int| 0 <= i < cluster@.len() ==> #[trigger] cluster@[i] < mems@.len(),
    ensures
        r@ == member_ids(mems@, as_ints(cluster@)),
{
    let mut out: Vec<i64> = Vec::new();
    let mut i: usize = 0;
    while i < cluster.len()
        invariant
            i <= cluster@.len(),
            forall|i: int| 0 <= i < cluster@.len() ==> #[trigger] cluster@[i] < mems@.len(),
            out@.len() == i,
            forall|k: int|
                0 <= k < i ==> #[trigger] out@[k] == member_ids(mems@, as_ints(cluster@))[k],
        decreases cluster@.len() - i,
    {
        out.push(mems[cluster[i]].id);
        i += 1;
    }
    assert(out@ =~= member_ids(mems@, as_ints(cluster@)));
    out
}

/// Every member of a cluster is the index of a memory.
proof fn lemma_cluster_bounds(
    mems: Seq<Mem>,
    bands: Seq<Vec<Band>>,
    live: spec_fn(int) -> bool,
    n: int,
)
    requires
        n <= mems.len(),
    ensures
        forall|i: int, j: int|
            #![trigger clusters_up_to(mems, bands, live, n)[i][j]]
            0 <= i < clusters_up_to(mems, bands, live, n).len() && 0 <= j < clusters_up_to(
                mems,
                bands,
                live,
                n,
            )[i].len() ==> 0 <= clusters_up_to(mems, bands, live, n)[i][j] < mems.len(),
    decreases n,
{
    if n > 0 {
        lemma_cluster_bounds(mems, bands, live, n - 1);
        let c = cluster_of(mems, bands, live, n - 1);
        let all = indices(mems.len() as int);
        lemma_kept(all, in_cluster_of(mems, bands, live, n - 1));
        let before = clusters_up_to(mems, bands, live, n - 1);
        let now = clusters_up_to(mems, bands, live, n);
        assert forall|i: int, j: int|
            #![trigger now[i][j]]
            0 <= i < now.len() && 0 <= j < now[i].len() implies 0 <= now[i][j] < mems.len() by {
            if i < before.len() {
                assert(now[i] == before[i]);
                assert(0 <= before[i][j] < mems.len());
            } else {
                assert(now[i] == c);
                assert(all.contains(c[j]));
                let k = choose|k: int| 0 <= k < all.len() && all[k] == c[j];
                assert(all[k] == k);
            }
        }
    }
}

fn distil_all(
    mems: &Vec<Mem>,
    groups: &Vec<Vec<usize>>,
    summarized: &Vec<i64>,
    stop: &Vec<String>,
) -> (r: Vec<Distilled>)
    requires
        forall|i: int, j: int|
            #![trigger groups@[i]@[j]]
            0 <= i < groups@.len() && 0 <= j < groups@[i]@.len() ==> groups@[i]@[j] < mems@.len(),
    ensures
        are_summaries(
            r@,
            mems@,
            kept(index_lists(groups@), is_due_for_summary(mems@, summarized@)),
            texts(stop@),
        ),
{
    let ghost all = index_lists(groups@);
    let ghost p = is_due_for_summary(mems@, summarized@);
    let mut out: Vec<Distilled> = Vec::new();
    let mut i: usize = 0;
    assert(kept(all.take(0), p).len() == 0);
    while i < groups.len()
        invariant
            i <= groups@.len(),
            all == index_lists(groups@),
            p == is_due_for_summary(mems@, summarized@),
            forall|i: int, j: int|
                #![trigger groups@[i]@[j]]
                0 <= i < groups@.len() && 0 <= j < groups@[i]@.len() ==> groups@[i]@[j]
                    < mems@.len(),
            are_summaries(out@, mems@, kept(all.take(i as int), p), texts(stop@)),
        decreases groups@.len() - i,
    {
        assert(all.take(i + 1).drop_last() =~= all.take(i as int));
        assert(all.take(i + 1).last() == as_ints(groups@[i as int]@));
        let group = &groups[i];
        assert(forall|j: int| 0 <= j < group@.len() ==> #[trigger] group@[j] == groups@[i as int]@[j]);
        if group.len() >= CLUSTER_MIN && !has_summary(mems, group, summarized) {
            let ghost before = out@;
            let ghost due = kept(all.take(i as int), p);
            let made = Distilled { node: distil(mems, group, stop), members: ids_of(mems, group) };
            out.push(made);
            assert(kept(all.take(i + 1), p) == due.push(as_ints(group@)));
            assert forall|k: int| 0 <= k < out@.len() implies is_summary(
                (#[trigger] out@[k]).node,
                mems@,
                due.push(as_ints(group@))[k],
                texts(stop@),
            ) && out@[k].members@ == member_ids(mems@, due.push(as_ints(group@))[k]) by {
                if k < before.len() {
                    assert(out@[k] == before[k]);
                }
            }
        }
        i += 1;
    }
    assert(all.take(all.len() as int) =~= all);
    out
}

fn archive_all(
    nodes: &Vec<Node>,
    faded: &Vec<bool>,
    superseded: &Vec<(i64, i64)>,
    dry_run: bool,
    now: i64,
) -> (r: Vec<i64>)
    requires
        faded@.len() == nodes@.len(),
    ensures
        r@ == archived_ids(nodes@, faded@, superseded@, dry_run, now as int, nodes@.len() as int),
{
    let mut out: Vec<i64> = Vec::new();
    let mut i: usize = 0;
    while i < nodes.len()
        invariant
            i <= nodes@.len(),
            faded@.len() == nodes@.len(),
            out@ == archived_ids(nodes@, faded@, superseded@, dry_run, now as int, i as int),
        decreases nodes@.len() - i,
    {
        if may_archive(&nodes[i], now) && faded[i] && (dry_run || !superseded_here(
            superseded,
            nodes[i].id,
        )) {
            out.push(nodes[i].id);
        }
        i += 1;
    }
    out
}

/// The supersessions that the comparison of all pairs finds: the older id, and the
/// newer.
pub open spec fn supersessions(mems: Seq<Mem>, bands: Seq<Vec<Band>>) -> Seq<(i64, i64)> {
    pair_ids(mems, all_pairs(mems, bands).superseded)
}

/// The clusters of what is not superseded that no summary covers.
pub open spec fn uncovered_clusters(
    mems: Seq<Mem>,
    bands: Seq<Vec<Band>>,
    summarized: Seq<i64>,
) -> Seq<Seq<int>> {
    kept(
        clusters(mems, bands, survives(mems, all_pairs(mems, bands).superseded)),
        is_due_for_summary(mems, summarized),
    )
}

/// Runs the four passes. `summarized` holds the ids that live summaries cover, and
/// `faded[i]` says whether the strength of `nodes[i]` has decayed below the
/// archive threshold. A dry run reports, and plans no change.
pub fn consolidate(
    mems: &Vec<Mem>,
    bands: &Vec<Vec<Band>>,
    summarized: &Vec<i64>,
    stop: &Vec<String>,
    nodes: &Vec<Node>,
    faded: &Vec<bool>,
    now: i64,
    dry_run: bool,
) -> (r: Plan)
    requires
        is_square(bands@, mems@.len() as int),
        faded@.len() == nodes@.len(),
        forall|i: int| 0 <= i < mems@.len() ==> all_ascii(
            tail_chars((#[trigger] mems@[i]).uid@, 6),
        ),
    ensures
        r.report.superseded == supersessions(mems@, bands@).len(),
        are_labels(r.report.contradictions@, mems@, all_pairs(mems@, bands@).contradicting),
        r.report.distilled == uncovered_clusters(mems@, bands@, summarized@).len(),
        r.report.archived == archived_ids(
            nodes@,
            faded@,
            supersessions(mems@, bands@),
            dry_run,
            now as int,
            nodes@.len() as int,
        ).len(),
        dry_run ==> r.supersede@.len() == 0 && r.summaries@.len() == 0 && r.archive@.len() == 0,
        !dry_run ==> {
            &&& r.supersede@ == supersessions(mems@, bands@)
            &&& are_summaries(
                r.summaries@,
                mems@,
                uncovered_clusters(mems@, bands@, summarized@),
                texts(stop@),
            )
            &&& r.archive@ == archived_ids(
                nodes@,
                faded@,
                supersessions(mems@, bands@),
                dry_run,
                now as int,
                nodes@.len() as int,
            )
        },
{
    let (superseded, contradicting) = compare_pairs(mems, bands);
    let supersede = ids_of_pairs(mems, &superseded);
    let contradictions = labels_of_pairs(mems, &contradicting);
    let live = survivors(mems, &superseded);
    let groups = single_link(mems, bands, &live);
    proof {
        lemma_cluster_bounds(mems@, bands@, flagged(live@), mems@.len() as int);
        let all = index_lists(groups@);
        assert forall|i: int, j: int|
            #![trigger groups@[i]@[j]]
            0 <= i < groups@.len() && 0 <= j < groups@[i]@.len() implies groups@[i]@[j]
            < mems@.len() by {
            assert(all[i][j] == groups@[i]@[j]);
        }
    }
    let summaries = distil_all(mems, &groups, summarized, stop);
    let archive = archive_all(nodes, faded, &supersede, dry_run, now);
    let report = Report {
        superseded: supersede.len(),
        contradictions,
        distilled: summaries.len(),
        archived: archive.len(),
    };
    if dry_run {
        Plan { report, supersede: Vec::new(), summaries: Vec::new(), archive: Vec::new() }
    } else {
        Plan { report, supersede, summaries, archive }
    }
}

/// Whether the automatic consolidation is due: weekly, counted from the last one,
/// and at once where none is on record.
pub open spec fn is_due(cadence: Seq<char>, last: Option<Seq<char>>, now: int) -> bool {
    let at = match last {
        Some(s) => match signed(s) {
            Some(t) => t,
            None => 0,
        },
        None => 0,
    };
    cadence == "weekly"@ && now - at >= WEEK_SECONDS
}

/// Whether the automatic consolidation is due.
pub fn auto_due(cadence: &str, last: Option<&str>, now: i64) -> (r: bool)
    ensures
        r == is_due(
            cadence@,
            match last {
                Some(s) => Some(s@),
                None => None,
            },
            now as int,
        ),
{
    let at: i64 = match last {
        Some(s) => match parse_signed(s) {
            Some(t) => t,
            None => 0,
        },
        None => 0,
    };
    same(cadence, "weekly") && now as i128 - at as i128 >= WEEK_SECONDS as i128
}

// ---------------------------------------------------------------------
// Laws
// ---------------------------------------------------------------------

/// Whether a list of supersessions keeps the rules: the loser is not pinned, is
/// not younger than the winner, is of its type and scope, and loses once.
pub open spec fn is_fair(mems: Seq<Mem>, superseded: Seq<(int, int)>) -> bool {
    &&& forall|k: int|
        0 <= k < superseded.len() ==> {
            let p = #[trigger] superseded[k];
            &&& 0 <= p.0 < mems.len()
            &&& 0 <= p.1 < mems.len()
            &&& p.0 != p.1
            &&& !mems[p.0].pinned
            &&& mems[p.0].created_at <= mems[p.1].created_at
            &&& same_bucket(mems[p.0], mems[p.1])
        }
    &&& forall|j: int, k: int|
        #![trigger superseded[j], superseded[k]]
        0 <= j < k < superseded.len() ==> mems[superseded[j].0].id != mems[superseded[k].0].id
}

proof fn lemma_pairs_fair(mems: Seq<Mem>, bands: Seq<Vec<Band>>, a: int, b: int)
    requires
        0 <= a <= mems.len(),
        b <= mems.len(),
        a == mems.len() ==> b <= 0,
    ensures
        is_fair(mems, pairs_up_to(mems, bands, a, b).superseded),
    decreases a, b,
{
    if b > a + 1 {
        lemma_pairs_fair(mems, bands, a, b - 1);
        let p = pairs_up_to(mems, bands, a, b - 1);
        let q = compared(mems, bands, p, a, b - 1);
        if q.superseded.len() > p.superseded.len() {
            let pair = older_first(mems, a, b - 1);
            assert(q.superseded == p.superseded.push(pair));
            assert(!is_gone(mems, p.superseded, pair.0));
            assert forall|j: int, k: int|
                #![trigger q.superseded[j], q.superseded[k]]
                0 <= j < k < q.superseded.len() implies mems[q.superseded[j].0].id
                != mems[q.superseded[k].0].id by {
                assert(q.superseded[j] == p.superseded[j]);
                if k < p.superseded.len() {
                    assert(q.superseded[k] == p.superseded[k]);
                }
            }
        }
    } else if a > 0 {
        lemma_pairs_fair(mems, bands, a - 1, mems.len() as int);
    }
}

/// A merge never loses a pinned memory, never lets an older memory win, never
/// crosses types or scopes, and supersedes a memory once.
pub proof fn merges_are_fair(mems: Seq<Mem>, bands: Seq<Vec<Band>>)
    ensures
        is_fair(mems, all_pairs(mems, bands).superseded),
{
    lemma_pairs_fair(mems, bands, mems.len() as int, 0);
}

/// Whether a pair is one that a person has to decide about: of one type and scope,
/// much alike but not the same statement, exactly one of them negated, and the first
/// not younger than the second.
pub open spec fn is_open_question(mems: Seq<Mem>, bands: Seq<Vec<Band>>, p: (int, int)) -> bool {
    &&& same_bucket(mems[p.0], mems[p.1])
    &&& if p.0 < p.1 {
        band(bands, p.0, p.1) == Band::Near
    } else {
        band(bands, p.1, p.0) == Band::Near
    }
    &&& negated(mems[p.0].body@) != negated(mems[p.1].body@)
    &&& mems[p.0].created_at <= mems[p.1].created_at
}

proof fn lemma_contradictions_open(mems: Seq<Mem>, bands: Seq<Vec<Band>>, a: int, b: int)
    requires
        0 <= a <= mems.len(),
        b <= mems.len(),
        a == mems.len() ==> b <= 0,
    ensures
        forall|k: int|
            0 <= k < pairs_up_to(mems, bands, a, b).contradicting.len() ==> is_open_question(
                mems,
                bands,
                #[trigger] pairs_up_to(mems, bands, a, b).contradicting[k],
            ),
    decreases a, b,
{
    if b > a + 1 {
        lemma_contradictions_open(mems, bands, a, b - 1);
        let p = pairs_up_to(mems, bands, a, b - 1);
        let q = pairs_up_to(mems, bands, a, b);
        assert forall|k: int| 0 <= k < q.contradicting.len() implies is_open_question(
            mems,
            bands,
            #[trigger] q.contradicting[k],
        ) by {
            if k < p.contradicting.len() {
                assert(q.contradicting[k] == p.contradicting[k]);
            } else {
                assert(q.contradicting[k] == older_first(mems, a, b - 1));
            }
        }
    } else if a > 0 {
        lemma_contradictions_open(mems, bands, a - 1, mems.len() as int);
        assert(pairs_up_to(mems, bands, a, b) == pairs_up_to(
            mems,
            bands,
            a - 1,
            mems.len() as int,
        ));
    }
}

/// Two memories are reported as contradicting each other only where they are of
/// one type and scope, much alike but not the same statement, and exactly one of
/// them is negated; and the older is reported first.
pub proof fn contradictions_are_near_opposites(mems: Seq<Mem>, bands: Seq<Vec<Band>>, k: int)
    requires
        0 <= k < all_pairs(mems, bands).contradicting.len(),
    ensures
        is_open_question(mems, bands, all_pairs(mems, bands).contradicting[k]),
{
    lemma_contradictions_open(mems, bands, mems.len() as int, 0);
}

proof fn lemma_all_covered(mems: Seq<Mem>, cluster: Seq<int>, summarized: Seq<i64>)
    requires
        forall|i: int| 0 <= i < cluster.len() ==> summarized.contains(mems[#[trigger] cluster[i]].id),
    ensures
        covered(mems, cluster, summarized) == cluster.len(),
    decreases cluster.len(),
{
    if cluster.len() > 0 {
        let t = cluster.drop_last();
        assert forall|i: int| 0 <= i < t.len() implies summarized.contains(mems[#[trigger] t[i]].id) by {
            assert(t[i] == cluster[i]);
        }
        lemma_all_covered(mems, t, summarized);
        assert(summarized.contains(mems[cluster[cluster.len() - 1]].id));
    }
}

/// A cluster is distilled once: when a summary covers its members, it is not
/// distilled again.
pub proof fn distilled_once(mems: Seq<Mem>, cluster: Seq<int>, summarized: Seq<i64>)
    requires
        forall|i: int| 0 <= i < cluster.len() ==> summarized.contains(mems[#[trigger] cluster[i]].id),
    ensures
        !is_due_for_summary(mems, summarized)(cluster),
{
    lemma_all_covered(mems, cluster, summarized);
}

/// Connection is an equivalence that respects the links, and the smallest one.
pub proof fn connection_is_least(
    mems: Seq<Mem>,
    bands: Seq<Vec<Band>>,
    live: spec_fn(int) -> bool,
)
    ensures
        respects_links(|a: int, b: int| connected(mems, bands, live, a, b), mems, bands, live),
        forall|r: spec_fn(int, int) -> bool, a: int, b: int|
            #![trigger respects_links(r, mems, bands, live), connected(mems, bands, live, a, b)]
            respects_links(r, mems, bands, live) && connected(mems, bands, live, a, b) ==> r(a, b),
{
    let c = |a: int, b: int| connected(mems, bands, live, a, b);
    assert forall|x: int| #[trigger] c(x, x) by {}
    assert forall|x: int, y: int| #[trigger] c(x, y) implies c(y, x) by {
        assert forall|r: spec_fn(int, int) -> bool| #[trigger]
            respects_links(r, mems, bands, live) implies r(y, x) by {
            assert(r(x, y));
        }
    }
    assert forall|x: int, y: int, z: int| #[trigger] c(x, y) && #[trigger] c(y, z) implies c(x, z) by {
        assert forall|r: spec_fn(int, int) -> bool| #[trigger]
            respects_links(r, mems, bands, live) implies r(x, z) by {
            assert(r(x, y));
            assert(r(y, z));
        }
    }
    assert forall|a: int, b: int| #[trigger] linked(mems, bands, live, a, b) implies c(a, b) by {
        assert forall|r: spec_fn(int, int) -> bool| #[trigger]
            respects_links(r, mems, bands, live) implies r(a, b) by {}
    }
}

proof fn lemma_archived_idle(
    nodes: Seq<Node>,
    faded: Seq<bool>,
    superseded: Seq<(i64, i64)>,
    dry_run: bool,
    now: int,
    n: int,
)
    requires
        0 <= n <= nodes.len(),
    ensures
        forall|k: int|
            0 <= k < archived_ids(nodes, faded, superseded, dry_run, now, n).len() ==> exists|i: int|
                0 <= i < n && #[trigger] is_idle(nodes[i], now) && faded[i] && nodes[i].id
                    == #[trigger] archived_ids(nodes, faded, superseded, dry_run, now, n)[k],
    decreases n,
{
    if n > 0 {
        lemma_archived_idle(nodes, faded, superseded, dry_run, now, n - 1);
        let before = archived_ids(nodes, faded, superseded, dry_run, now, n - 1);
        let after = archived_ids(nodes, faded, superseded, dry_run, now, n);
        assert forall|k: int| 0 <= k < after.len() implies exists|i: int|
            0 <= i < n && #[trigger] is_idle(nodes[i], now) && faded[i] && nodes[i].id
                == #[trigger] after[k] by {
            if k < before.len() {
                assert(after[k] == before[k]);
                let i = choose|i: int|
                    0 <= i < n - 1 && #[trigger] is_idle(nodes[i], now) && faded[i] && nodes[i].id
                        == before[k];
                assert(is_idle(nodes[i], now));
            } else {
                assert(is_idle(nodes[n - 1], now));
            }
        }
    }
}

/// Only memories that are live, unpinned, faded, and neither written nor used for
/// the idle time are archived.
pub proof fn only_idle_memories_are_archived(
    nodes: Seq<Node>,
    faded: Seq<bool>,
    superseded: Seq<(i64, i64)>,
    dry_run: bool,
    now: int,
    id: i64,
)
    requires
        archived_ids(nodes, faded, superseded, dry_run, now, nodes.len() as int).contains(id),
    ensures
        exists|i: int|
            0 <= i < nodes.len() && nodes[i].id == id && #[trigger] is_idle(nodes[i], now)
                && faded[i],
{
    lemma_archived_idle(nodes, faded, superseded, dry_run, now, nodes.len() as int);
}

// ---------------------------------------------------------------------
// Laws of the clusters
// ---------------------------------------------------------------------

proof fn lemma_one_project(
    mems: Seq<Mem>,
    bands: Seq<Vec<Band>>,
    live: spec_fn(int) -> bool,
    a: int,
    b: int,
)
    requires
        connected(mems, bands, live, a, b),
    ensures
        mems[a].project_id == mems[b].project_id,
{
    let r = |x: int, y: int| mems[x].project_id == mems[y].project_id;
    assert forall|x: int, y: int| #[trigger] linked(mems, bands, live, x, y) implies r(x, y) by {}
    assert(respects_links(r, mems, bands, live));
}

proof fn lemma_cluster_member(
    mems: Seq<Mem>,
    bands: Seq<Vec<Band>>,
    live: spec_fn(int) -> bool,
    n: int,
    k: int,
) -> (lead: int)
    requires
        0 <= k < clusters_up_to(mems, bands, live, n).len(),
    ensures
        0 <= lead < n,
        leads(mems, bands, live, lead),
        clusters_up_to(mems, bands, live, n)[k] == cluster_of(mems, bands, live, lead),
    decreases n,
{
    let before = clusters_up_to(mems, bands, live, n - 1);
    if leads(mems, bands, live, n - 1) && k == before.len() {
        n - 1
    } else {
        lemma_cluster_member(mems, bands, live, n - 1, k)
    }
}

/// The memories of a cluster are live and of one project: distillation is per project.
pub proof fn clusters_are_of_one_project(
    mems: Seq<Mem>,
    bands: Seq<Vec<Band>>,
    live: spec_fn(int) -> bool,
    k: int,
    i: int,
    j: int,
)
    requires
        0 <= k < clusters(mems, bands, live).len(),
        0 <= i < clusters(mems, bands, live)[k].len(),
        0 <= j < clusters(mems, bands, live)[k].len(),
    ensures
        ({
            let c = clusters(mems, bands, live)[k];
            &&& 0 <= c[i] < mems.len()
            &&& live(c[i])
            &&& mems[c[i]].project_id == mems[c[j]].project_id
        }),
{
    let c = clusters(mems, bands, live)[k];
    let lead = lemma_cluster_member(mems, bands, live, mems.len() as int, k);
    let p = in_cluster_of(mems, bands, live, lead);
    let all = indices(mems.len() as int);
    crate::seqs::lemma_kept(all, p);
    assert(p(c[i]) && p(c[j]));
    assert(all.contains(c[i]));
    lemma_one_project(mems, bands, live, lead, c[i]);
    lemma_one_project(mems, bands, live, lead, c[j]);
}

/// A summary is of the project of every memory it summarizes.
pub proof fn a_summary_is_of_its_members_project(
    node: NewNode,
    mems: Seq<Mem>,
    bands: Seq<Vec<Band>>,
    live: spec_fn(int) -> bool,
    stop: Seq<Seq<char>>,
    k: int,
    i: int,
)
    requires
        0 <= k < clusters(mems, bands, live).len(),
        is_summary(node, mems, clusters(mems, bands, live)[k], stop),
        0 <= i < clusters(mems, bands, live)[k].len(),
    ensures
        node.project_id == mems[clusters(mems, bands, live)[k][i]].project_id,
{
    clusters_are_of_one_project(mems, bands, live, k, 0, i);
}

} // verus!
