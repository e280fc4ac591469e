//! Stable ordering by integer keys.

use vstd::prelude::*;
#[allow(unused_imports)]
use vstd::set_lib::*;

#[allow(unused_imports)]
use crate::seqs::{count_where, first_n, kept};

verus! {

/// A sort key, smaller first, its components compared from left to right.
#[derive(Debug, Clone, Copy, PartialEq, Eq, Structural)]
pub struct Key {
    pub first: i128,
    pub second: i128,
    pub third: i128,
}

impl Key {
    /// Whether this key sorts before another.
    pub open spec fn less(self, other: Key) -> bool {
        ||| self.first < other.first
        ||| self.first == other.first && self.second < other.second
        ||| self.first == other.first && self.second == other.second && self.third < other.third
    }

    fn is_less(self, other: Key) -> (r: bool)
        ensures
            r == self.less(other),
    {
        self.first < other.first || (self.first == other.first && (self.second < other.second || (
        self.second == other.second && self.third < other.third)))
    }

    /// A key of one component.
    pub fn of(first: i128) -> (r: Key)
        ensures
            r == (Key { first, second: 0, third: 0 }),
    {
        Key { first, second: 0, third: 0 }
    }
}

/// `x` seen from the other end: the larger `x`, the smaller this.
pub open spec fn flipped(x: int) -> int {
    -1 - x
}

/// `x` seen from the other end.
pub fn flip(x: i64) -> (r: i128)
    ensures
        r == flipped(x as int),
{
    -1 - (x as i128)
}

/// `x` put behind the last index of `s` whose key is not larger.
pub open spec fn place(s: Seq<int>, keys: Seq<Key>, x: int) -> Seq<int>
    decreases s.len(),
{
    if s.len() > 0 && keys[x].less(keys[s.last()]) {
        place(s.drop_last(), keys, x).push(s.last())
    } else {
        s.push(x)
    }
}

/// The indices of the first `n` keys by ascending key, equal keys in their
/// given order.
pub open spec fn ranked(keys: Seq<Key>, n: int) -> Seq<int>
    decreases n,
{
    if n <= 0 {
        Seq::empty()
    } else {
        place(ranked(keys, n - 1), keys, n - 1)
    }
}

/// The indices of the keys by ascending key, equal keys in their given order.
pub open spec fn ranking(keys: Seq<Key>) -> Seq<int> {
    ranked(keys, keys.len() as int)
}

/// The indices of a vector as integers.
pub open spec fn as_ints(v: Seq<usize>) -> Seq<int> {
    Seq::new(v.len(), |i: int| v[i] as int)
}

proof fn lemma_place_at(s: Seq<int>, keys: Seq<Key>, x: int, p: int)
    requires
        0 <= p <= s.len(),
        forall|i: int| p <= i < s.len() ==> keys[x].less(#[trigger] keys[s[i]]),
        p > 0 ==> !keys[x].less(keys[s[p - 1]]),
    ensures
        place(s, keys, x) == s.take(p).push(x) + s.skip(p),
    decreases s.len(),
{
    if s.len() > 0 && keys[x].less(keys[s.last()]) {
        assert(p < s.len()) by {
            if p == s.len() {
                assert(s[p - 1] == s.last());
            }
        }
        let t = s.drop_last();
        assert forall|i: int| p <= i < t.len() implies keys[x].less(#[trigger] keys[t[i]]) by {
            assert(t[i] == s[i]);
        }
        if p > 0 {
            assert(t[p - 1] == s[p - 1]);
        }
        lemma_place_at(t, keys, x, p);
        assert(place(s, keys, x) =~= s.take(p).push(x) + s.skip(p));
    } else {
        assert(p == s.len()) by {
            if p < s.len() {
                assert(keys[x].less(keys[s[s.len() - 1]]));
            }
        }
        assert(place(s, keys, x) =~= s.take(p).push(x) + s.skip(p));
    }
}

/// What a ranking is: every index once, no index behind one with a larger key,
/// and of two equal keys the earlier one first.
pub open spec fn is_ranking(r: Seq<int>, keys: Seq<Key>, n: int) -> bool {
    &&& r.len() == n
    &&& r.no_duplicates()
    &&& forall|i: int| 0 <= i < r.len() ==> 0 <= #[trigger] r[i] < n
    &&& forall|i: int, j: int|
        #![trigger r[i], r[j]]
        0 <= i < j < r.len() ==> keys[r[i]].less(keys[r[j]]) || (keys[r[i]] == keys[r[j]] && r[i]
            < r[j])
}

proof fn lemma_place_ranks(s: Seq<int>, keys: Seq<Key>, n: int)
    requires
        0 <= n,
        is_ranking(s, keys, n),
    ensures
        is_ranking(place(s, keys, n), keys, n + 1),
{
    let p = boundary(s, keys, n);
    lemma_boundary(s, keys, n);
    lemma_place_at(s, keys, n, p);
    let r = place(s, keys, n);
    assert forall|i: int| 0 <= i < r.len() implies 0 <= #[trigger] r[i] < n + 1 by {
        if i < p {
            assert(r[i] == s[i]);
        } else if i > p {
            assert(r[i] == s[i - 1]);
        }
    }
    assert forall|i: int, j: int|
        #![trigger r[i], r[j]]
        0 <= i < j < r.len() implies (keys[r[i]].less(keys[r[j]]) || (keys[r[i]] == keys[r[j]]
        && r[i] < r[j])) && r[i] != r[j] by {
        let a = if i < p { i } else { i - 1 };
        let b = if j < p { j } else { j - 1 };
        if i != p {
            assert(r[i] == s[a]);
        }
        if j != p {
            assert(r[j] == s[b]);
        }
        if i == p {
            assert(keys[n].less(keys[s[b]]));
        } else if j == p {
            assert(!keys[n].less(keys[s[p - 1]]));
            if a < p - 1 {
                assert(keys[s[a]].less(keys[s[p - 1]]) || keys[s[a]] == keys[s[p - 1]]);
            }
        }
    }
}

/// Where the index of a new key goes.
spec fn boundary(s: Seq<int>, keys: Seq<Key>, x: int) -> int
    decreases s.len(),
{
    if s.len() > 0 && keys[x].less(keys[s.last()]) {
        boundary(s.drop_last(), keys, x)
    } else {
        s.len() as int
    }
}

proof fn lemma_boundary(s: Seq<int>, keys: Seq<Key>, x: int)
    ensures
        0 <= boundary(s, keys, x) <= s.len(),
        forall|i: int|
            boundary(s, keys, x) <= i < s.len() ==> keys[x].less(#[trigger] keys[s[i]]),
        boundary(s, keys, x) > 0 ==> !keys[x].less(keys[s[boundary(s, keys, x) - 1]]),
    decreases s.len(),
{
    if s.len() > 0 && keys[x].less(keys[s.last()]) {
        let t = s.drop_last();
        lemma_boundary(t, keys, x);
        assert forall|i: int| boundary(s, keys, x) <= i < s.len() implies keys[x].less(
            #[trigger] keys[s[i]],
        ) by {
            if i < t.len() {
                assert(t[i] == s[i]);
            }
        }
    }
}

/// A ranking lists every index once, in the order of the keys, equal keys in
/// their given order.
pub proof fn ranking_is_sorted(keys: Seq<Key>, n: int)
    requires
        0 <= n <= keys.len(),
    ensures
        is_ranking(ranked(keys, n), keys, n),
    decreases n,
{
    if n > 0 {
        ranking_is_sorted(keys, n - 1);
        lemma_place_ranks(ranked(keys, n - 1), keys, n - 1);
    }
}

/// The indices of `keys` by ascending key, equal keys in their given order.
pub fn rank(keys: &Vec<Key>) -> (r: Vec<usize>)
    ensures
        as_ints(r@) == ranking(keys@),
        is_ranking(as_ints(r@), keys@, keys@.len() as int),
{
    let mut out: Vec<usize> = Vec::new();
    let mut n: usize = 0;
    assert(as_ints(out@) =~= ranked(keys@, 0));
    while n < keys.len()
        invariant
            n <= keys@.len(),
            as_ints(out@) == ranked(keys@, n as int),
            out@.len() == n,
            forall|i: int| 0 <= i < out@.len() ==> #[trigger] out@[i] < n,
        decreases keys@.len() - n,
    {
        let ghost s = as_ints(out@);
        let mut p: usize = out.len();
        while p > 0 && keys[n].is_less(keys[out[p - 1]])
            invariant
                n < keys@.len(),
                p <= out@.len(),
                s == as_ints(out@),
                forall|i: int| 0 <= i < out@.len() ==> #[trigger] out@[i] < n,
                forall|i: int| p <= i < s.len() ==> keys@[n as int].less(#[trigger] keys@[s[i]]),
            decreases p,
        {
            assert(s[p - 1] == out@[p - 1]);
            p -= 1;
        }
        proof {
            if p > 0 {
                assert(s[p - 1] == out@[p - 1]);
            }
            lemma_place_at(s, keys@, n as int, p as int);
        }
        out.insert(p, n);
        assert(as_ints(out@) =~= s.take(p as int).push(n as int) + s.skip(p as int));
        assert forall|i: int| 0 <= i < out@.len() implies #[trigger] out@[i] < n + 1 by {
            assert(as_ints(out@)[i] == out@[i]);
            if i < p {
                assert(as_ints(out@)[i] == s[i]);
            } else if i > p {
                assert(as_ints(out@)[i] == s[i - 1]);
            }
        }
        n += 1;
    }
    proof {
        ranking_is_sorted(keys@, keys@.len() as int);
    }
    out
}

/// A ranking holds every index.
pub proof fn lemma_ranking_has(r: Seq<int>, keys: Seq<Key>, i: int)
    requires
        is_ranking(r, keys, keys.len() as int),
        0 <= i < keys.len(),
    ensures
        r.contains(i),
{
    let n = keys.len() as int;
    let s = r.to_set();
    let all = set_int_range(0, n);
    r.unique_seq_to_set();
    vstd::seq_lib::seq_to_set_is_finite(r);
    lemma_int_range(0, n);
    assert(s.subset_of(all));
    lemma_subset_equality(s, all);
    assert(s.contains(i));
}

/// Indices that a list of flags marks.
pub open spec fn marked(keep: Seq<bool>) -> spec_fn(int) -> bool {
    |i: int| 0 <= i < keep.len() && keep[i]
}

proof fn lemma_place_counts(s: Seq<int>, keys: Seq<Key>, x: int, p: spec_fn(int) -> bool)
    ensures
        kept(place(s, keys, x), p).len() == kept(s, p).len() + (if p(x) {
            1int
        } else {
            0
        }),
    decreases s.len(),
{
    let r = place(s, keys, x);
    if s.len() > 0 && keys[x].less(keys[s.last()]) {
        lemma_place_counts(s.drop_last(), keys, x, p);
        assert(r.drop_last() =~= place(s.drop_last(), keys, x));
    } else {
        assert(r.drop_last() =~= s);
    }
}

/// As many indices satisfy `p` in a ranking as among the keys.
pub proof fn lemma_ranking_counts(keys: Seq<Key>, p: spec_fn(int) -> bool, n: int)
    requires
        0 <= n <= keys.len(),
    ensures
        kept(ranked(keys, n), p).len() == count_where(Seq::new(n as nat, |i: int| i), p),
    decreases n,
{
    let all = Seq::new(n as nat, |i: int| i);
    if n > 0 {
        lemma_ranking_counts(keys, p, n - 1);
        lemma_place_counts(ranked(keys, n - 1), keys, n - 1, p);
        assert(all.drop_last() =~= Seq::new((n - 1) as nat, |i: int| i));
    }
}

/// The marked indices by ascending key, equal keys in their given order.
pub fn rank_where(keys: &Vec<Key>, keep: &Vec<bool>) -> (r: Vec<usize>)
    requires
        keep@.len() == keys@.len(),
    ensures
        as_ints(r@) == kept(ranking(keys@), marked(keep@)),
        forall|i: int| 0 <= i < r@.len() ==> #[trigger] r@[i] < keys@.len(),
{
    let order = rank(keys);
    let ghost all = as_ints(order@);
    let ghost p = marked(keep@);
    let mut out: Vec<usize> = Vec::new();
    let mut i: usize = 0;
    assert(as_ints(out@) =~= kept(all.take(0), p));
    while i < order.len()
        invariant
            i <= order@.len(),
            keep@.len() == keys@.len(),
            all == as_ints(order@),
            p == marked(keep@),
            is_ranking(all, keys@, keys@.len() as int),
            as_ints(out@) == kept(all.take(i as int), p),
            forall|i: int| 0 <= i < out@.len() ==> #[trigger] out@[i] < keys@.len(),
        decreases order@.len() - i,
    {
        assert(all.take(i + 1).drop_last() =~= all.take(i as int));
        assert(all.take(i + 1).last() == order@[i as int]);
        assert(0 <= all[i as int] < keys@.len());
        if keep[order[i]] {
            let ghost before = as_ints(out@);
            out.push(order[i]);
            assert(as_ints(out@) =~= before.push(order@[i as int] as int));
        }
        i += 1;
    }
    assert(all.take(all.len() as int) =~= all);
    out
}

/// The rows at the given places.
pub open spec fn picked<T>(rows: Seq<T>, order: Seq<int>) -> Seq<T> {
    Seq::new(order.len(), |i: int| rows[order[i]])
}

/// What the references of a list point at.
pub open spec fn deref_all<T>(v: Seq<&T>) -> Seq<T> {
    Seq::new(v.len(), |i: int| *v[i])
}

/// The first `limit` of the rows at the given places.
pub fn pick<'a, T>(rows: &'a Vec<T>, order: &Vec<usize>, limit: usize) -> (r: Vec<&'a T>)
    requires
        forall|i: int| 0 <= i < order@.len() ==> #[trigger] order@[i] < rows@.len(),
    ensures
        deref_all(r@) == first_n(picked(rows@, as_ints(order@)), limit as int),
{
    let ghost want = picked(rows@, as_ints(order@));
    let mut out: Vec<&'a T> = Vec::new();
    let mut i: usize = 0;
    assert(deref_all(out@) =~= want.take(0));
    while i < order.len() && i < limit
        invariant
            i <= order@.len(),
            i <= limit,
            want == picked(rows@, as_ints(order@)),
            forall|i: int| 0 <= i < order@.len() ==> #[trigger] order@[i] < rows@.len(),
            deref_all(out@) == want.take(i as int),
        decreases order@.len() - i,
    {
        let ghost before = deref_all(out@);
        let row = &rows[order[i]];
        out.push(row);
        assert(deref_all(out@) =~= before.push(*row));
        assert(want.take(i + 1) =~= want.take(i as int).push(*row));
        i += 1;
    }
    assert(want.take(want.len() as int) =~= want);
    out
}

} // verus!
