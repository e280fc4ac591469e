//! Sets of strings, kept as lists without repetitions.

use vstd::prelude::*;
use vstd::set_lib::*;

use crate::text::same;
#[allow(unused_imports)]
use crate::text::{lemma_texts_empty, lemma_texts_push, texts};

verus! {

/// The set of the strings in a list.
pub open spec fn set_of(v: Seq<String>) -> Set<Seq<char>> {
    texts(v).to_set()
}

/// Whether a list holds each of its strings once.
pub open spec fn is_set(v: Seq<String>) -> bool {
    texts(v).no_duplicates()
}

/// A list that is a set has as many elements as the set.
pub proof fn lemma_set_len(v: Seq<String>)
    requires
        is_set(v),
    ensures
        set_of(v).finite(),
        set_of(v).len() == v.len(),
{
    texts(v).unique_seq_to_set();
    vstd::seq_lib::seq_to_set_is_finite(texts(v));
}

/// Whether `s` is among the strings of `v`.
pub fn is_member(v: &Vec<String>, s: &str) -> (r: bool)
    ensures
        r == texts(v@).contains(s@),
        r == set_of(v@).contains(s@),
{
    let mut i: usize = 0;
    while i < v.len()
        invariant
            i <= v@.len(),
            forall|k: int| 0 <= k < i ==> texts(v@)[k] != s@,
        decreases v@.len() - i,
    {
        if same(v[i].as_str(), s) {
            assert(texts(v@)[i as int] == s@);
            return true;
        }
        i += 1;
    }
    false
}

/// The elements of `s`, each once, in the order of their first appearance.
pub open spec fn first_seen(s: Seq<Seq<char>>) -> Seq<Seq<char>>
    decreases s.len(),
{
    if s.len() == 0 {
        Seq::empty()
    } else if first_seen(s.drop_last()).contains(s.last()) {
        first_seen(s.drop_last())
    } else {
        first_seen(s.drop_last()).push(s.last())
    }
}

/// The strings of `v`, each once, in the order of their first appearance.
pub fn distinct(v: &Vec<String>) -> (r: Vec<String>)
    ensures
        texts(r@) == first_seen(texts(v@)),
        is_set(r@),
        set_of(r@) == set_of(v@),
{
    broadcast use {lemma_texts_push, lemma_texts_empty};
    let mut out: Vec<String> = Vec::new();
    let mut i: usize = 0;
    assert(texts(out@) =~= first_seen(texts(v@).take(0)));
    assert(texts(v@).take(0).to_set() =~= texts(out@).to_set());
    while i < v.len()
        invariant
            i <= v@.len(),
            texts(out@).no_duplicates(),
            texts(out@) == first_seen(texts(v@).take(i as int)),
            texts(out@).to_set() == texts(v@).take(i as int).to_set(),
        decreases v@.len() - i,
    {
        let ghost all = texts(v@);
        let ghost w = v@[i as int]@;
        assert(all.take(i + 1) =~= all.take(i as int).push(w));
        assert(all.take(i + 1).drop_last() =~= all.take(i as int));
        proof {
            lemma_to_set_push(all.take(i as int), w);
            lemma_to_set_push(texts(out@), w);
        }
        if !is_member(&out, v[i].as_str()) {
            let ghost before = texts(out@);
            let s = v[i].clone();
            out.push(s);
            assert(texts(out@) =~= before.push(w));
            assert forall|x: int, y: int|
                0 <= x < y < texts(out@).len() implies texts(out@)[x] != texts(out@)[y] by {
                assert(before.contains(before.push(w)[x]));
            }
        } else {
            assert(texts(out@).to_set().insert(w) =~= texts(out@).to_set());
        }
        i += 1;
    }
    assert(texts(v@).take(v@.len() as int) =~= texts(v@));
    out
}

proof fn lemma_to_set_push(s: Seq<Seq<char>>, w: Seq<char>)
    ensures
        s.push(w).to_set() == s.to_set().insert(w),
{
    assert forall|x: Seq<char>| s.push(w).to_set().contains(x) == s.to_set().insert(w).contains(
        x,
    ) by {
        if s.contains(x) {
            let k = choose|k: int| 0 <= k < s.len() && s[k] == x;
            assert(s.push(w)[k] == x);
        }
        if x == w {
            assert(s.push(w)[s.len() as int] == x);
        }
        if s.push(w).contains(x) {
            let k = choose|k: int| 0 <= k < s.push(w).len() && s.push(w)[k] == x;
            if k < s.len() {
                assert(s[k] == x);
            }
        }
    }
    assert(s.push(w).to_set() =~= s.to_set().insert(w));
}

/// How many strings two sets have in common.
pub fn common(a: &Vec<String>, b: &Vec<String>) -> (r: usize)
    requires
        is_set(a@),
        is_set(b@),
    ensures
        r == set_of(a@).intersect(set_of(b@)).len(),
        r <= a@.len(),
        r <= b@.len(),
{
    let mut n: usize = 0;
    let mut i: usize = 0;
    let ghost ta = texts(a@);
    let ghost sb = set_of(b@);
    let ghost mut seen: Set<Seq<char>> = Set::empty();
    while i < a.len()
        invariant
            i <= a@.len(),
            ta == texts(a@),
            sb == set_of(b@),
            ta.no_duplicates(),
            n <= i,
            seen.finite(),
            seen.len() == n,
            forall|x: Seq<char>|
                seen.contains(x) <==> (sb.contains(x) && exists|k: int|
                    0 <= k < i && #[trigger] ta[k] == x),
        decreases a@.len() - i,
    {
        let ghost w = ta[i as int];
        if is_member(b, a[i].as_str()) {
            proof {
                assert(!seen.contains(w));
                seen = seen.insert(w);
            }
            n += 1;
        }
        i += 1;
    }
    proof {
        assert(seen =~= set_of(a@).intersect(sb)) by {
            assert forall|x: Seq<char>| seen.contains(x) == set_of(a@).intersect(sb).contains(x) by {
                if set_of(a@).contains(x) {
                    let k = choose|k: int| 0 <= k < ta.len() && ta[k] == x;
                    assert(ta[k] == x);
                }
            }
        }
        lemma_set_len(b@);
        lemma_len_subset(seen, sb);
    }
    n
}

/// How many strings two sets hold together.
pub fn united(a: &Vec<String>, b: &Vec<String>) -> (r: u128)
    requires
        is_set(a@),
        is_set(b@),
    ensures
        r == set_of(a@).union(set_of(b@)).len(),
        r <= a@.len() + b@.len(),
{
    let c = common(a, b);
    proof {
        lemma_set_len(a@);
        lemma_set_len(b@);
        lemma_set_intersect_union_lens(set_of(a@), set_of(b@));
        assert(set_of(a@) + set_of(b@) == set_of(a@).union(set_of(b@)));
    }
    a.len() as u128 + b.len() as u128 - c as u128
}

/// Whether every string of `a` is in `b`.
pub fn is_subset(a: &Vec<String>, b: &Vec<String>) -> (r: bool)
    ensures
        r == set_of(a@).subset_of(set_of(b@)),
{
    let mut i: usize = 0;
    while i < a.len()
        invariant
            i <= a@.len(),
            forall|k: int| 0 <= k < i ==> set_of(b@).contains(#[trigger] texts(a@)[k]),
        decreases a@.len() - i,
    {
        if !is_member(b, a[i].as_str()) {
            assert(texts(a@)[i as int] == a@[i as int]@);
            assert(set_of(a@).contains(a@[i as int]@));
            return false;
        }
        i += 1;
    }
    assert forall|x: Seq<char>| set_of(a@).contains(x) implies set_of(b@).contains(x) by {
        let k = choose|k: int| 0 <= k < texts(a@).len() && texts(a@)[k] == x;
        assert(set_of(b@).contains(texts(a@)[k]));
    }
    true
}

/// Appends the strings of `more`.
pub fn push_all(v: &mut Vec<String>, more: &Vec<String>)
    ensures
        texts(final(v)@) == texts(old(v)@) + texts(more@),
{
    let ghost before = texts(v@);
    let ghost all = texts(more@);
    let mut i: usize = 0;
    assert(before + all.take(0) =~= before);
    while i < more.len()
        invariant
            i <= more@.len(),
            all == texts(more@),
            texts(v@) == before + all.take(i as int),
        decreases more@.len() - i,
    {
        let ghost had = texts(v@);
        let s = more[i].as_str().to_owned();
        v.push(s);
        assert(texts(v@) =~= had.push(s@));
        assert(before + all.take(i + 1) =~= had.push(s@));
        i += 1;
    }
    assert(all.take(all.len() as int) =~= all);
}

} // verus!
