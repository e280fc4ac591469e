//! Ranked selections: what is picked, and in which order.

use vstd::prelude::*;

#[allow(unused_imports)]
use crate::order::{lemma_ranking_has, ranking, ranking_is_sorted, Key};
#[allow(unused_imports)]
use crate::seqs::{count_where, first_n, kept, lemma_kept, lemma_kept_all};

verus! {

/// What is kept stands in its order: two elements that are kept stood in that order
/// before.
pub proof fn kept_in_order<T>(s: Seq<T>, p: spec_fn(T) -> bool, i: int, j: int) -> (r: (int, int))
    requires
        0 <= i < j < kept(s, p).len(),
    ensures
        0 <= r.0 < r.1 < s.len(),
        s[r.0] == kept(s, p)[i],
        s[r.1] == kept(s, p)[j],
    decreases s.len(),
{
    let t = s.drop_last();
    let q = kept(t, p);
    if p(s.last()) && j == q.len() {
        lemma_kept(t, p);
        let a = choose|a: int| 0 <= a < t.len() && t[a] == q[i];
        (a, s.len() - 1)
    } else {
        kept_in_order(t, p, i, j)
    }
}

/// A ranked selection holds exactly the places that are asked for, each once, and the
/// lower key comes first; of equal keys the earlier place.
pub proof fn selection_is_exact_and_sorted(keys: Seq<Key>, p: spec_fn(int) -> bool)
    ensures
        ({
            let r = kept(ranking(keys), p);
            &&& forall|k: int| 0 <= k < r.len() ==> 0 <= #[trigger] r[k] < keys.len() && p(r[k])
            &&& forall|i: int|
                #![trigger r.contains(i)]
                0 <= i < keys.len() ==> (r.contains(i) <==> p(i))
            &&& forall|a: int, b: int|
                #![trigger r[a], r[b]]
                0 <= a < b < r.len() ==> keys[r[a]].less(keys[r[b]]) || (keys[r[a]] == keys[r[b]]
                    && r[a] < r[b])
        }),
{
    let o = ranking(keys);
    let r = kept(o, p);
    ranking_is_sorted(keys, keys.len() as int);
    lemma_kept(o, p);
    assert forall|k: int| 0 <= k < r.len() implies 0 <= #[trigger] r[k] < keys.len() && p(r[k]) by {
        assert(o.contains(r[k]));
    }
    assert forall|i: int|
        #![trigger r.contains(i)]
        0 <= i < keys.len() implies (r.contains(i) <==> p(i)) by {
        if p(i) {
            lemma_ranking_has(o, keys, i);
            let k = choose|k: int| 0 <= k < o.len() && o[k] == i;
            lemma_kept_all(o, p, k);
        }
        if r.contains(i) {
            let k = choose|k: int| 0 <= k < r.len() && r[k] == i;
            assert(p(r[k]));
        }
    }
    assert forall|a: int, b: int|
        #![trigger r[a], r[b]]
        0 <= a < b < r.len() implies keys[r[a]].less(keys[r[b]]) || (keys[r[a]] == keys[r[b]]
        && r[a] < r[b]) by {
        let (x, y) = kept_in_order(o, p, a, b);
        assert(o[x] == r[a] && o[y] == r[b]);
    }
}

/// The lower key is the one with the lower first part; where those are equal, the lower
/// second; and last the lower third.
pub proof fn keys_compare_part_by_part(a: Key, b: Key)
    ensures
        a.first < b.first ==> a.less(b) && !b.less(a),
        a.first == b.first && a.second < b.second ==> a.less(b) && !b.less(a),
        a.first == b.first && a.second == b.second && a.third < b.third ==> a.less(b) && !b.less(a),
        a == b ==> !a.less(b),
        a.less(b) ==> a.first <= b.first,
{
}

/// What is kept is what satisfies the test, no more and no less, and as often.
pub proof fn keeping_loses_nothing<T>(s: Seq<T>, p: spec_fn(T) -> bool, x: T)
    ensures
        kept(s, p).contains(x) <==> s.contains(x) && p(x),
        kept(s, p).len() == count_where(s, p),
    decreases s.len(),
{
    lemma_kept(s, p);
    if kept(s, p).contains(x) {
        let k = choose|k: int| 0 <= k < kept(s, p).len() && kept(s, p)[k] == x;
        assert(p(kept(s, p)[k]));
    }
    if s.contains(x) && p(x) {
        let i = choose|i: int| 0 <= i < s.len() && s[i] == x;
        lemma_kept_all(s, p, i);
    }
    if s.len() > 0 {
        keeping_loses_nothing(s.drop_last(), p, x);
    }
}

/// At most `n` are taken, from the front, and all where there are no more.
pub proof fn the_first_are_taken<T>(s: Seq<T>, n: int)
    requires
        0 <= n,
    ensures
        first_n(s, n).len() <= n,
        first_n(s, n).len() <= s.len(),
        first_n(s, n).len() == n || first_n(s, n) == s,
        forall|i: int| 0 <= i < first_n(s, n).len() ==> #[trigger] first_n(s, n)[i] == s[i],
{
}

} // verus!
