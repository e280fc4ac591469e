//! Wildcard matching, with the characters that are wildcards given.

use vstd::prelude::*;

use crate::text::chars_of;

verus! {

/// Wildcard matching of a whole text: `many` stands for any run of characters, the
/// empty run among them, `one` for exactly one character, and every other character
/// for itself.
pub open spec fn wild(p: Seq<char>, t: Seq<char>, many: char, one: char) -> bool
    decreases p.len(),
{
    if p.len() == 0 {
        t.len() == 0
    } else if p[0] == many {
        exists|k: int| 0 <= k <= t.len() && wild(p.skip(1), #[trigger] t.skip(k), many, one)
    } else {
        t.len() > 0 && (p[0] == one || p[0] == t[0]) && wild(p.skip(1), t.skip(1), many, one)
    }
}

/// A pattern with the characters that are wildcards in it.
ghost struct Wild {
    p: Seq<char>,
    many: char,
    one: char,
}

/// `wild` of the rests of a pattern and a text.
spec fn rest(w: Wild, t: Seq<char>, i: int, j: int) -> bool {
    wild(w.p.skip(i), t.skip(j), w.many, w.one)
}

/// `rest` for some text position at or behind `from`.
spec fn rest_from(w: Wild, t: Seq<char>, i: int, from: int) -> bool {
    exists|k: int| from <= k <= t.len() && #[trigger] rest(w, t, i, k)
}

proof fn lemma_step_literal(w: Wild, t: Seq<char>, i: int, j: int)
    requires
        0 <= i < w.p.len(),
        0 <= j <= t.len(),
        w.p[i] != w.many,
    ensures
        rest(w, t, i, j) == (j < t.len() && (w.p[i] == w.one || w.p[i] == t[j]) && rest(
            w,
            t,
            i + 1,
            j + 1,
        )),
{
    assert(w.p.skip(i)[0] == w.p[i]);
    assert(w.p.skip(i).skip(1) =~= w.p.skip(i + 1));
    if j < t.len() {
        assert(t.skip(j)[0] == t[j]);
        assert(t.skip(j).skip(1) =~= t.skip(j + 1));
    }
}

proof fn lemma_step_star(w: Wild, t: Seq<char>, i: int, j: int)
    requires
        0 <= i < w.p.len(),
        0 <= j <= t.len(),
        w.p[i] == w.many,
    ensures
        rest(w, t, i, j) == rest_from(w, t, i + 1, j),
{
    let q = w.p.skip(i);
    let u = t.skip(j);
    assert(q[0] == w.p[i]);
    assert(q.skip(1) =~= w.p.skip(i + 1));
    if rest(w, t, i, j) {
        let k = choose|k: int| 0 <= k <= u.len() && wild(q.skip(1), #[trigger] u.skip(k), w.many, w.one);
        assert(u.skip(k) =~= t.skip(j + k));
        assert(rest(w, t, i + 1, j + k));
    }
    if rest_from(w, t, i + 1, j) {
        let k = choose|k: int| j <= k <= t.len() && #[trigger] rest(w, t, i + 1, k);
        assert(u.skip(k - j) =~= t.skip(k));
    }
}

proof fn lemma_pattern_end(w: Wild, t: Seq<char>, j: int)
    requires
        0 <= j <= t.len(),
    ensures
        rest(w, t, w.p.len() as int, j) == (j == t.len()),
{
}

/// A stretch of the pattern without a run eats as many characters of the text.
proof fn lemma_block(w: Wild, t: Seq<char>, i: int, j: int, len: int)
    requires
        0 <= i,
        0 <= len,
        i + len <= w.p.len(),
        0 <= j <= t.len(),
        forall|k: int| i <= k < i + len ==> #[trigger] w.p[k] != w.many,
        rest(w, t, i, j),
    ensures
        j + len <= t.len(),
        rest(w, t, i + len, j + len),
    decreases len,
{
    if len > 0 {
        lemma_step_literal(w, t, i, j);
        lemma_block(w, t, i + 1, j + 1, len - 1);
    }
}

/// At the end of the text, what is left of the pattern must be runs.
proof fn lemma_text_end(w: Wild, t: Seq<char>, i: int)
    requires
        0 <= i < w.p.len(),
    ensures
        rest(w, t, i, t.len() as int) == (w.p[i] == w.many && rest(w, t, i + 1, t.len() as int)),
{
    if w.p[i] == w.many {
        lemma_step_star(w, t, i, t.len() as int);
    } else {
        lemma_step_literal(w, t, i, t.len() as int);
    }
}

/// Whether `pattern` matches the whole of `text`.
pub fn wild_match(pattern: &str, text: &str, many: char, one: char) -> (r: bool)
    ensures
        r == wild(pattern@, text@, many, one),
{
    let p = chars_of(pattern);
    let t = chars_of(text);
    let ghost w = Wild { p: p@, many, one };
    let m: usize = p.len();
    let n: usize = t.len();
    let mut pi: usize = 0;
    let mut ti: usize = 0;
    let mut star: Option<usize> = None;
    let mut star_ti: usize = 0;
    assert(p@.skip(0) =~= p@);
    assert(t@.skip(0) =~= t@);
    while ti < n
        invariant
            w == (Wild { p: p@, many, one }),
            m == p@.len(),
            n == t@.len(),
            pi <= m,
            ti <= n,
            star_ti <= ti,
            rest(w, t@, 0, 0) == wild(pattern@, text@, many, one),
            match star {
                None => rest(w, t@, 0, 0) == rest(w, t@, pi as int, ti as int),
                Some(sp) => {
                    &&& sp < pi
                    &&& p@[sp as int] == many
                    &&& ti - star_ti == pi - sp - 1
                    &&& forall|k: int| sp < k < pi ==> #[trigger] p@[k] != many
                    &&& rest(w, t@, 0, 0) == rest_from(w, t@, sp + 1, star_ti as int)
                    &&& rest(w, t@, sp + 1, star_ti as int) == rest(w, t@, pi as int, ti as int)
                },
            },
        decreases
            (match star {
                None => n + 1,
                Some(_) => n - star_ti,
            }),
            n - ti,
            m - pi,
    {
        if pi < m && p[pi] == many {
            proof {
                lemma_step_star(w, t@, pi as int, ti as int);
                if let Some(sp) = star {
                    if rest_from(w, t@, sp + 1, star_ti as int) {
                        let k = choose|k: int|
                            star_ti <= k <= t@.len() && #[trigger] rest(w, t@, sp + 1, k);
                        let len = pi - sp - 1;
                        lemma_block(w, t@, sp + 1, k, len);
                        lemma_step_star(w, t@, pi as int, k + len);
                        let k2 = choose|k2: int|
                            k + len <= k2 <= t@.len() && #[trigger] rest(w, t@, pi + 1, k2);
                        assert(rest(w, t@, pi + 1, k2));
                    }
                }
            }
            star = Some(pi);
            star_ti = ti;
            pi += 1;
        } else if pi < m && (p[pi] == one || p[pi] == t[ti]) {
            proof {
                lemma_step_literal(w, t@, pi as int, ti as int);
            }
            pi += 1;
            ti += 1;
        } else {
            proof {
                if pi < m {
                    lemma_step_literal(w, t@, pi as int, ti as int);
                } else {
                    lemma_pattern_end(w, t@, ti as int);
                }
            }
            match star {
                None => {
                    return false;
                },
                Some(sp) => {
                    proof {
                        if rest_from(w, t@, sp + 1, star_ti as int) {
                            let k = choose|k: int|
                                star_ti <= k <= t@.len() && #[trigger] rest(w, t@, sp + 1, k);
                            assert(k != star_ti);
                        }
                    }
                    pi = sp + 1;
                    star_ti += 1;
                    ti = star_ti;
                },
            }
        }
    }
    proof {
        if let Some(sp) = star {
            if rest_from(w, t@, sp + 1, star_ti as int) {
                let k = choose|k: int|
                    star_ti <= k <= t@.len() && #[trigger] rest(w, t@, sp + 1, k);
                lemma_block(w, t@, sp + 1, k, pi - sp - 1);
            }
        }
    }
    while pi < m && p[pi] == many
        invariant
            w == (Wild { p: p@, many, one }),
            m == p@.len(),
            n == t@.len(),
            pi <= m,
            rest(w, t@, 0, 0) == rest(w, t@, pi as int, n as int),
        decreases m - pi,
    {
        proof {
            lemma_text_end(w, t@, pi as int);
        }
        pi += 1;
    }
    proof {
        if pi < m {
            lemma_text_end(w, t@, pi as int);
        } else {
            lemma_pattern_end(w, t@, n as int);
        }
    }
    pi == m
}

} // verus!
