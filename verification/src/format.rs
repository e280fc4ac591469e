//! Agent-format output: one token-lean line per hit, and the full record.

use std::collections::HashMap;

use vstd::prelude::*;

use crate::calendar::{civil_from_days, floor_div};
#[allow(unused_imports)]
use crate::calendar::{date_is_unique, is_date_of};
#[allow(unused_imports)]
use crate::json::opt_view;
use crate::memory::tokens;
#[allow(unused_imports)]
use crate::memory::token_seq;
use crate::grounding::Grounding;
use crate::model::{short_uid, Edge, Kind, MemoryConfidence, Node};
#[allow(unused_imports)]
use crate::model::short_form;
#[allow(unused_imports)]
use crate::seqs::{first_n, first_where, lemma_first_where_is, lemma_first_where_none};
#[allow(unused_imports)]
use crate::sets::first_seen;
use crate::sets::{distinct, is_member};
use crate::text::{
    byte_len, chars_of, decimal_of, decimal_of_u64, joined, matches_at, padded, same,
    split_fields,
    string_of, to_ascii_lower, trimmed, trimmed_start, without_prefix, Delim,
};
#[allow(unused_imports)]
use crate::text::{
    any_alnum, ascii_lower, decimal, is_alnum, is_space, join, occurs_at, pad_left, starts_with, texts, trim,
    trim_start, utf8_len, words,
};
#[allow(unused_imports)]
use vstd::string::*;

verus! {

// ---------------------------------------------------------------------
// Dates
// ---------------------------------------------------------------------

/// Seconds of a day.
pub const DAY_SECONDS: i64 = 86_400;

/// Year, month and day of the day `z` days after 1970-01-01.
pub open spec fn date_of(z: int) -> (int, int, int) {
    choose|t: (int, int, int)| is_date_of(z, t.0, t.1, t.2)
}

proof fn lemma_date_of(z: int, y: int, m: int, d: int)
    requires
        is_date_of(z, y, m, d),
    ensures
        date_of(z) == (y, m, d),
{
    let t = (y, m, d);
    assert(is_date_of(z, t.0, t.1, t.2));
    let u = date_of(z);
    date_is_unique(y, m, d, u.0, u.1, u.2);
}

/// A number in two digits at least.
pub open spec fn two_digits(n: int) -> Seq<char> {
    pad_left(decimal(n), 2, '0')
}

/// A year in four characters at least, zeros behind a minus sign.
pub open spec fn year_digits(y: int) -> Seq<char> {
    if y < 0 {
        seq!['-'] + pad_left(decimal(-y), 3, '0')
    } else {
        pad_left(decimal(y), 4, '0')
    }
}

/// `MM-DD` of a Unix time, in UTC.
pub open spec fn month_day_text(unix: int) -> Seq<char> {
    let t = date_of(unix / 86_400);
    two_digits(t.1) + seq!['-'] + two_digits(t.2)
}

/// `YYYY-MM-DD` of a Unix time, in UTC.
pub open spec fn full_date_text(unix: int) -> Seq<char> {
    let t = date_of(unix / 86_400);
    year_digits(t.0) + seq!['-'] + two_digits(t.1) + seq!['-'] + two_digits(t.2)
}

fn push_two_digits(out: &mut String, n: u32)
    ensures
        final(out)@ == old(out)@ + two_digits(n as int),
{
    let s = padded(decimal_of_u64(n as u64), 2, '0');
    out.append(s.as_str());
}

fn push_year(out: &mut String, y: i64)
    requires
        y > i64::MIN,
    ensures
        final(out)@ == old(out)@ + year_digits(y as int),
{
    if y < 0 {
        out.push('-');
        let s = padded(decimal_of(-y), 3, '0');
        out.append(s.as_str());
        assert(out@ =~= old(out)@ + year_digits(y as int));
    } else {
        let s = padded(decimal_of(y), 4, '0');
        out.append(s.as_str());
    }
}

/// `MM-DD` of a Unix time, in UTC.
pub fn month_day(unix: i64) -> (r: String)
    ensures
        r@ == month_day_text(unix as int),
{
    let z: i64 = floor_div(unix, DAY_SECONDS);
    let (y, m, d) = civil_from_days(z);
    proof {
        lemma_date_of(z as int, y as int, m as int, d as int);
    }
    let mut out = String::new();
    push_two_digits(&mut out, m);
    out.push('-');
    push_two_digits(&mut out, d);
    assert(out@ =~= month_day_text(unix as int));
    out
}

/// `YYYY-MM-DD` of a Unix time, in UTC.
pub fn full_date(unix: i64) -> (r: String)
    ensures
        r@ == full_date_text(unix as int),
{
    let z: i64 = floor_div(unix, DAY_SECONDS);
    let (y, m, d) = civil_from_days(z);
    proof {
        lemma_date_of(z as int, y as int, m as int, d as int);
        crate::calendar::lemma_year_near_day(z as int, y as int, m as int, d as int);
    }
    let mut out = String::new();
    push_year(&mut out, y);
    out.push('-');
    push_two_digits(&mut out, m);
    out.push('-');
    push_two_digits(&mut out, d);
    assert(out@ =~= full_date_text(unix as int));
    out
}

// ---------------------------------------------------------------------
// Flat and short text
// ---------------------------------------------------------------------

/// The words of `s` with one space between each two.
pub open spec fn collapsed(s: Seq<char>) -> Seq<char> {
    join(words(s), seq![' '])
}

/// The words of `s` with one space between each two.
pub fn collapse_ws(s: &str) -> (r: String)
    ensures
        r@ == collapsed(s@),
{
    let parts = split_fields(s, Delim::Space);
    proof {
        reveal_strlit(" ");
        assert(" "@ =~= seq![' ']);
    }
    joined(&parts, " ")
}

/// `s`, or its first `max` characters and an ellipsis where it is longer.
pub open spec fn truncated(s: Seq<char>, max: int) -> Seq<char> {
    if s.len() <= max {
        s
    } else {
        s.take(max).push('…')
    }
}

/// `s`, or its first `max` characters and an ellipsis where it is longer.
pub fn truncate_chars(s: &str, max: usize) -> (r: String)
    ensures
        r@ == truncated(s@, max as int),
{
    let v = chars_of(s);
    if v.len() <= max {
        assert(v@.subrange(0, v@.len() as int) =~= v@);
        return string_of(&v, 0, v.len());
    }
    let mut out = string_of(&v, 0, max);
    out.push('…');
    assert(out@ =~= truncated(s@, max as int));
    out
}

// ---------------------------------------------------------------------
// Windows around a match
// ---------------------------------------------------------------------

/// Characters of lead-in kept before a match when the window is shifted.
pub const MATCH_LEAD_CHARS: usize = 32;

/// Shortest query token worth centring on.
pub const MIN_MATCH_TOKEN: usize = 3;

/// Prefix length that stands for a stem.
pub const STEM_PREFIX: usize = 5;

/// How far into a text a window is looked for.
pub const MATCH_SCAN_CHARS: usize = 20_000;

/// Whether a token bears content: it has a letter or a digit, the search does
/// not ignore it, and it is long enough.
pub open spec fn bears_content(t: Seq<char>, stop: Seq<Seq<char>>) -> bool {
    &&& any_alnum(t)
    &&& !stop.contains(t)
    &&& t.len() >= MIN_MATCH_TOKEN
}

/// The stems of content-bearing tokens, in order.
pub open spec fn stems_of(t: Seq<Seq<char>>, stop: Seq<Seq<char>>) -> Seq<Seq<char>>
    decreases t.len(),
{
    if t.len() == 0 {
        Seq::empty()
    } else {
        let rest = stems_of(t.drop_last(), stop);
        if bears_content(t.last(), stop) {
            rest.push(first_n(t.last(), STEM_PREFIX as int))
        } else {
            rest
        }
    }
}

/// Whether a string has a letter or a digit.
pub fn has_alnum(s: &str) -> (r: bool)
    ensures
        r == any_alnum(s@),
{
    let v = chars_of(s);
    let mut i: usize = 0;
    while i < v.len()
        invariant
            i <= v@.len(),
            v@ == s@,
            forall|k: int| 0 <= k < i ==> !is_alnum(#[trigger] v@[k]),
        decreases v@.len() - i,
    {
        if v[i].is_alphanumeric() {
            assert(is_alnum(s@[i as int]));
            return true;
        }
        i += 1;
    }
    false
}

/// Content-bearing query stems. `stop` lists the words that the search ignores.
pub fn query_stems(query: &str, stop: &Vec<String>) -> (r: Vec<String>)
    ensures
        texts(r@) == stems_of(token_seq(query@), texts(stop@)),
{
    let toks = tokens(query);
    let ghost all = texts(toks@);
    let mut out: Vec<String> = Vec::new();
    let mut i: usize = 0;
    assert(all.take(0) =~= Seq::empty());
    assert(texts(out@) =~= Seq::empty());
    while i < toks.len()
        invariant
            i <= toks@.len(),
            all == texts(toks@),
            texts(out@) == stems_of(all.take(i as int), texts(stop@)),
        decreases toks@.len() - i,
    {
        assert(all.take(i + 1).drop_last() =~= all.take(i as int));
        assert(all.take(i + 1).last() == toks@[i as int]@);
        let ghost before = texts(out@);
        let t = toks[i].as_str();
        let v = chars_of(t);
        if has_alnum(t) && !is_member(stop, t) && v.len() >= MIN_MATCH_TOKEN {
            let n: usize = if v.len() <= STEM_PREFIX {
                v.len()
            } else {
                STEM_PREFIX
            };
            let stem = string_of(&v, 0, n);
            out.push(stem);
            assert(stem@ =~= first_n(toks@[i as int]@, STEM_PREFIX as int));
            assert(texts(out@) =~= before.push(stem@));
        }
        i += 1;
    }
    assert(all.take(toks@.len() as int) =~= all);
    out
}

/// The first `limit` characters of `text`, ASCII capitals made small: position
/// by position the same as the text.
pub open spec fn lowered(text: Seq<char>, limit: int) -> Seq<char> {
    let t = first_n(text, limit);
    Seq::new(t.len(), |i: int| ascii_lower(t[i]))
}

/// The first `limit` characters of `text`, ASCII capitals made small.
pub fn lower_chars(text: &str, limit: usize) -> (r: Vec<char>)
    ensures
        r@ == lowered(text@, limit as int),
{
    let v = chars_of(text);
    let n: usize = if v.len() <= limit {
        v.len()
    } else {
        limit
    };
    let mut out: Vec<char> = Vec::new();
    let mut i: usize = 0;
    while i < n
        invariant
            i <= n <= v@.len(),
            v@ == text@,
            n == first_n(text@, limit as int).len(),
            out@ == lowered(text@, limit as int).take(i as int),
        decreases n - i,
    {
        out.push(to_ascii_lower(v[i]));
        assert(first_n(text@, limit as int)[i as int] == v@[i as int]);
        assert(out@ =~= lowered(text@, limit as int).take(i + 1));
        i += 1;
    }
    assert(out@ =~= lowered(text@, limit as int));
    out
}

/// Whether `occ` lists the positions of `needle` in `hay`, in order. Nothing is
/// at no position.
pub open spec fn lists_occurrences(occ: Seq<usize>, hay: Seq<char>, needle: Seq<char>) -> bool {
    &&& forall|i: int, j: int|
        #![trigger occ[i], occ[j]]
        0 <= i < j < occ.len() ==> occ[i] < occ[j]
    &&& forall|k: int|
        0 <= k < occ.len() ==> needle.len() > 0 && occurs_at(hay, needle, #[trigger] occ[k] as int)
    &&& forall|at: int|
        #![trigger occurs_at(hay, needle, at)]
        needle.len() > 0 && occurs_at(hay, needle, at) ==> exists|k: int|
            0 <= k < occ.len() && #[trigger] occ[k] == at
}

/// Every position of `needle` in `hay`.
pub fn occurrences(hay: &Vec<char>, needle: &Vec<char>) -> (r: Vec<usize>)
    ensures
        lists_occurrences(r@, hay@, needle@),
{
    let mut out: Vec<usize> = Vec::new();
    if needle.len() == 0 || needle.len() > hay.len() {
        return out;
    }
    let last: usize = hay.len() - needle.len();
    let mut i: usize = 0;
    while i <= last
        invariant
            last + needle@.len() == hay@.len(),
            needle@.len() > 0,
            i <= last + 1,
            last < usize::MAX,
            forall|a: int, b: int|
                #![trigger out@[a], out@[b]]
                0 <= a < b < out@.len() ==> out@[a] < out@[b],
            forall|k: int|
                0 <= k < out@.len() ==> #[trigger] out@[k] < i && occurs_at(
                    hay@,
                    needle@,
                    out@[k] as int,
                ),
            forall|at: int|
                #![trigger occurs_at(hay@, needle@, at)]
                0 <= at < i && occurs_at(hay@, needle@, at) ==> exists|k: int|
                    0 <= k < out@.len() && #[trigger] out@[k] == at,
        decreases last + 1 - i,
    {
        let ghost before = out@;
        if matches_at(hay, needle, i) {
            out.push(i);
            assert forall|at: int|
                #![trigger occurs_at(hay@, needle@, at)]
                0 <= at < i + 1 && occurs_at(hay@, needle@, at) implies exists|k: int|
                0 <= k < out@.len() && #[trigger] out@[k] == at by {
                if at < i {
                    let k = choose|k: int| 0 <= k < before.len() && #[trigger] before[k] == at;
                    assert(out@[k] == at);
                } else {
                    assert(out@[before.len() as int] == at);
                }
            }
        }
        i += 1;
    }
    out
}

/// Whether one of the positions in `occ` places a match of `needle_len`
/// characters wholly inside `[start, end)`.
pub fn covers(occ: &Vec<usize>, needle_len: usize, start: usize, end: usize) -> (r: bool)
    requires
        forall|i: int, j: int|
            #![trigger occ@[i], occ@[j]]
            0 <= i < j < occ@.len() ==> occ@[i] < occ@[j],
    ensures
        r == exists|k: int|
            0 <= k < occ@.len() && start <= #[trigger] occ@[k] && occ@[k] + needle_len <= end,
{
    if needle_len > end {
        return false;
    }
    let last: usize = end - needle_len;
    let mut lo: usize = 0;
    let mut hi: usize = occ.len();
    while lo < hi
        invariant
            forall|i: int, j: int|
                #![trigger occ@[i], occ@[j]]
                0 <= i < j < occ@.len() ==> occ@[i] < occ@[j],
            lo <= hi <= occ@.len(),
            forall|k: int| 0 <= k < lo ==> #[trigger] occ@[k] < start,
            forall|k: int| hi <= k < occ@.len() ==> #[trigger] occ@[k] >= start,
        decreases hi - lo,
    {
        let mid: usize = lo + (hi - lo) / 2;
        if occ[mid] < start {
            lo = mid + 1;
        } else {
            hi = mid;
        }
    }
    lo < occ.len() && occ[lo] <= last
}

/// Whether the window `[s, e)` of `lc` wholly holds `stem`.
pub open spec fn in_window(lc: Seq<char>, stem: Seq<char>, s: int, e: int) -> bool {
    stem.len() > 0 && exists|at: int|
        s <= at && at + stem.len() <= e && #[trigger] occurs_at(lc, stem, at)
}

/// Where a window of `w` characters from `s` ends.
pub open spec fn window_end(lc: Seq<char>, s: int, w: int) -> int {
    if s + w <= lc.len() {
        s + w
    } else {
        lc.len() as int
    }
}

/// How many of the stems the window of `w` characters from `s` holds.
pub open spec fn hits(lc: Seq<char>, stems: Seq<Seq<char>>, s: int, w: int) -> nat
    decreases stems.len(),
{
    if stems.len() == 0 {
        0
    } else {
        hits(lc, stems.drop_last(), s, w) + if in_window(
            lc,
            stems.last(),
            s,
            window_end(lc, s, w),
        ) {
            1nat
        } else {
            0
        }
    }
}

/// How many distinct stems the window of `w` characters from `s` holds.
pub open spec fn window_score(lc: Seq<char>, stems: Seq<Seq<char>>, s: int, w: int) -> nat {
    hits(lc, first_seen(stems), s, w)
}

/// `at` moved back by the lead-in, not below 0.
pub open spec fn led_in(at: int) -> int {
    if at >= MATCH_LEAD_CHARS {
        at - MATCH_LEAD_CHARS
    } else {
        0
    }
}

/// Whether `b` is the start of the window that holds the most distinct stems, of all
/// windows of `w` characters; the earliest of several.
pub open spec fn is_best(lc: Seq<char>, stems: Seq<Seq<char>>, w: int, b: int) -> bool {
    &&& 0 <= b <= lc.len()
    &&& forall|s: int|
        0 <= s <= lc.len() ==> #[trigger] window_score(lc, stems, s, w) < window_score(
            lc,
            stems,
            b,
            w,
        ) || (window_score(lc, stems, s, w) == window_score(lc, stems, b, w) && b <= s)
}

/// The start of the window that holds the most distinct stems.
pub open spec fn best_start(lc: Seq<char>, stems: Seq<Seq<char>>, w: int) -> int {
    choose|b: int| is_best(lc, stems, w, b)
}

/// There is one best window.
pub proof fn best_is_unique(lc: Seq<char>, stems: Seq<Seq<char>>, w: int, a: int, b: int)
    requires
        is_best(lc, stems, w, a),
        is_best(lc, stems, w, b),
    ensures
        a == b,
{
    assert(window_score(lc, stems, a, w) == window_score(lc, stems, b, w));
}

/// Whether one of the stems stands at `at` and ends by `e`.
pub open spec fn begins_at(lc: Seq<char>, stems: Seq<Seq<char>>, at: int, e: int) -> bool {
    exists|i: int|
        0 <= i < stems.len() && (#[trigger] stems[i]).len() > 0 && at + stems[i].len() <= e
            && occurs_at(lc, stems[i], at)
}

/// Where the first stem of the window `[s, e)` begins; `e` where it holds none.
pub open spec fn first_match(lc: Seq<char>, stems: Seq<Seq<char>>, s: int, e: int) -> int
    decreases e - s,
{
    if s >= e {
        e
    } else if begins_at(lc, stems, s, e) {
        s
    } else {
        first_match(lc, stems, s + 1, e)
    }
}

/// The position behind the first whitespace of `text` at or after `p` and before
/// `at`; `b` where there is none.
pub open spec fn word_start(text: Seq<char>, p: int, at: int, b: int) -> int
    decreases at - p,
{
    if p >= at {
        b
    } else if is_space(text[p]) {
        p + 1
    } else {
        word_start(text, p + 1, at, b)
    }
}

/// Where the window from `b` is shown from: no further ahead of its first match than
/// the lead-in, and from a word on, where one begins before the match.
pub open spec fn shown_from(
    text: Seq<char>,
    lc: Seq<char>,
    stems: Seq<Seq<char>>,
    w: int,
    b: int,
) -> int {
    let at = first_match(lc, stems, b, window_end(lc, b, w));
    let from = if led_in(at) > b {
        led_in(at)
    } else {
        b
    };
    word_start(text, from, at, from)
}

/// The window of `w` characters over `text` with the most distinct stems, or nothing
/// where that is the head of the text.
pub open spec fn window_of(text: Seq<char>, stems: Seq<Seq<char>>, w: int) -> Option<Seq<char>> {
    let lc = lowered(text, MATCH_SCAN_CHARS as int);
    let b = best_start(lc, stems, w);
    if stems.len() == 0 || w == 0 || b == 0 {
        None
    } else {
        Some(seq!['…'] + first_n(text.skip(shown_from(text, lc, stems, w, b)), w))
    }
}

/// How many stems the window `[s, e)` holds.
fn count_hits(
    lc: &Vec<char>,
    needles: &Vec<Vec<char>>,
    index: &Vec<Vec<usize>>,
    s: usize,
    w: usize,
    Ghost(stems): Ghost<Seq<Seq<char>>>,
) -> (r: usize)
    requires
        needles@.len() == index@.len() == stems.len(),
        forall|i: int| 0 <= i < stems.len() ==> #[trigger] needles@[i]@ == stems[i],
        forall|i: int|
            0 <= i < stems.len() ==> lists_occurrences(#[trigger] index@[i]@, lc@, stems[i]),
        s <= lc@.len(),
    ensures
        r == hits(lc@, stems, s as int, w as int),
{
    let end: usize = if w <= lc.len() - s {
        s + w
    } else {
        lc.len()
    };
    let mut n: usize = 0;
    let mut i: usize = 0;
    assert(stems.take(0) =~= Seq::empty());
    while i < index.len()
        invariant
            i <= index@.len(),
            n <= i,
            needles@.len() == index@.len() == stems.len(),
            forall|i: int| 0 <= i < stems.len() ==> #[trigger] needles@[i]@ == stems[i],
            forall|i: int|
                0 <= i < stems.len() ==> lists_occurrences(#[trigger] index@[i]@, lc@, stems[i]),
            end == window_end(lc@, s as int, w as int),
            n == hits(lc@, stems.take(i as int), s as int, w as int),
        decreases index@.len() - i,
    {
        let ghost stem = stems[i as int];
        assert(stems.take(i + 1).drop_last() =~= stems.take(i as int));
        assert(stems.take(i + 1).last() == stem);
        assert(lists_occurrences(index@[i as int]@, lc@, stem));
        assert(needles@[i as int]@ == stem);
        let hit = covers(&index[i], needles[i].len(), s, end);
        proof {
            let occ = index@[i as int]@;
            if hit {
                let k = choose|k: int|
                    0 <= k < occ.len() && s <= #[trigger] occ[k] && occ[k] + stem.len() <= end;
                assert(occurs_at(lc@, stem, occ[k] as int));
            }
            if in_window(lc@, stem, s as int, end as int) {
                let at = choose|at: int|
                    s <= at && at + stem.len() <= end && #[trigger] occurs_at(lc@, stem, at);
                let k = choose|k: int| 0 <= k < occ.len() && #[trigger] occ[k] == at;
                assert(occ[k] == at);
            }
        }
        if hit {
            n += 1;
        }
        i += 1;
    }
    assert(stems.take(index@.len() as int) =~= stems);
    n
}

/// Whether the window from `b` holds more of the stems than the one from `s`, or as
/// many and begins no later.
spec fn seen_best(lc: Seq<char>, stems: Seq<Seq<char>>, w: int, b: int, s: int) -> bool {
    hits(lc, stems, s, w) < hits(lc, stems, b, w) || (hits(lc, stems, s, w) == hits(lc, stems, b, w)
        && b <= s)
}

/// Whether a window from `s` is worth trying: the head, or a window that ends with a
/// stem.
spec fn is_tried(lc: Seq<char>, stems: Seq<Seq<char>>, w: int, s: int) -> bool {
    s == 0 || exists|i: int, at: int|
        0 <= i < stems.len() && stems[i].len() > 0 && #[trigger] occurs_at(lc, stems[i], at) && s
            == at + stems[i].len() - w
}

/// A window that neither is the head nor ends with a stem holds no more than the one
/// a character before it.
proof fn lemma_step_back(lc: Seq<char>, stems: Seq<Seq<char>>, w: int, s: int)
    requires
        0 < s <= lc.len(),
        0 <= w,
        forall|i: int, at: int|
            0 <= i < stems.len() && stems[i].len() > 0 && #[trigger] occurs_at(lc, stems[i], at)
                ==> s != at + stems[i].len() - w,
    ensures
        hits(lc, stems, s, w) <= hits(lc, stems, s - 1, w),
    decreases stems.len(),
{
    if stems.len() > 0 {
        let head = stems.drop_last();
        assert forall|i: int, at: int|
            0 <= i < head.len() && head[i].len() > 0 && #[trigger] occurs_at(
                lc,
                head[i],
                at,
            ) implies s != at + head[i].len() - w by {
            assert(head[i] == stems[i]);
            assert(occurs_at(lc, stems[i], at));
        }
        lemma_step_back(lc, head, w, s);
        let stem = stems.last();
        let (e, d) = (window_end(lc, s, w), window_end(lc, s - 1, w));
        if in_window(lc, stem, s, e) {
            let at = choose|at: int|
                s <= at && at + stem.len() <= e && #[trigger] occurs_at(lc, stem, at);
            assert(occurs_at(lc, stems[stems.len() - 1], at));
            assert(at + stem.len() <= d);
            assert(in_window(lc, stem, s - 1, d));
        }
    }
}

/// Some window that is tried begins no later and holds no less.
proof fn lemma_tried(lc: Seq<char>, stems: Seq<Seq<char>>, w: int, s: int) -> (c: int)
    requires
        0 <= s <= lc.len(),
        0 <= w,
    ensures
        0 <= c <= s,
        is_tried(lc, stems, w, c),
        hits(lc, stems, s, w) <= hits(lc, stems, c, w),
    decreases s,
{
    if is_tried(lc, stems, w, s) {
        s
    } else {
        lemma_step_back(lc, stems, w, s);
        lemma_tried(lc, stems, w, s - 1)
    }
}

/// Stems, each with its positions in a text.
struct Index {
    needles: Vec<Vec<char>>,
    places: Vec<Vec<usize>>,
}

impl Index {
    spec fn is_of(self, lc: Seq<char>, stems: Seq<Seq<char>>) -> bool {
        &&& self.needles@.len() == self.places@.len() == stems.len()
        &&& forall|i: int| 0 <= i < stems.len() ==> #[trigger] self.needles@[i]@ == stems[i]
        &&& forall|i: int|
            0 <= i < stems.len() ==> lists_occurrences(#[trigger] self.places@[i]@, lc, stems[i])
    }

    fn new(lc: &Vec<char>, stems: &Vec<String>) -> (r: Index)
        ensures
            r.is_of(lc@, texts(stems@)),
    {
        let ghost ss = texts(stems@);
        let mut needles: Vec<Vec<char>> = Vec::new();
        let mut places: Vec<Vec<usize>> = Vec::new();
        let mut i: usize = 0;
        while i < stems.len()
            invariant
                i <= stems@.len(),
                ss == texts(stems@),
                needles@.len() == i,
                places@.len() == i,
                forall|k: int| 0 <= k < i ==> #[trigger] needles@[k]@ == ss[k],
                forall|k: int| 0 <= k < i ==> lists_occurrences(#[trigger] places@[k]@, lc@, ss[k]),
            decreases stems@.len() - i,
        {
            let needle = chars_of(stems[i].as_str());
            let occ = occurrences(lc, &needle);
            assert(ss[i as int] == needle@);
            needles.push(needle);
            places.push(occ);
            i += 1;
        }
        Index { needles, places }
    }
}

/// The start of the window that holds the most of the stems, the earliest of several.
fn find_best(lc: &Vec<char>, index: &Index, w: usize, Ghost(ss): Ghost<Seq<Seq<char>>>) -> (r:
    usize)
    requires
        index.is_of(lc@, ss),
    ensures
        r <= lc@.len(),
        forall|s: int| 0 <= s <= lc@.len() ==> #[trigger] seen_best(lc@, ss, w as int, r as int, s),
{
    let total: usize = lc.len();
    let mut best: usize = 0;
    let mut score: usize = count_hits(lc, &index.needles, &index.places, 0, w, Ghost(ss));
    let mut i: usize = 0;
    while i < index.places.len()
        invariant
            i <= index.places@.len(),
            total == lc@.len(),
            index.is_of(lc@, ss),
            best <= lc@.len(),
            score == hits(lc@, ss, best as int, w as int),
            seen_best(lc@, ss, w as int, best as int, 0),
            forall|k: int, j: int|
                #![trigger index.places@[k]@[j]]
                0 <= k < i && 0 <= j < index.places@[k]@.len() && index.places@[k]@[j] + ss[k].len()
                    > w ==> seen_best(
                    lc@,
                    ss,
                    w as int,
                    best as int,
                    index.places@[k]@[j] + ss[k].len() - w,
                ),
        decreases index.places@.len() - i,
    {
        let len: usize = index.needles[i].len();
        let mut j: usize = 0;
        assert(index.needles@[i as int]@ == ss[i as int]);
        while j < index.places[i].len()
            invariant
                i < index.places@.len(),
                j <= index.places@[i as int]@.len(),
                total == lc@.len(),
                index.is_of(lc@, ss),
                len == ss[i as int].len(),
                best <= lc@.len(),
                score == hits(lc@, ss, best as int, w as int),
                seen_best(lc@, ss, w as int, best as int, 0),
                forall|k: int, j: int|
                    #![trigger index.places@[k]@[j]]
                    0 <= k < i && 0 <= j < index.places@[k]@.len() && index.places@[k]@[j]
                        + ss[k].len() > w ==> seen_best(
                        lc@,
                        ss,
                        w as int,
                        best as int,
                        index.places@[k]@[j] + ss[k].len() - w,
                    ),
                forall|h: int|
                    0 <= h < j && #[trigger] index.places@[i as int]@[h] + len > w ==> seen_best(
                        lc@,
                        ss,
                        w as int,
                        best as int,
                        index.places@[i as int]@[h] + len - w,
                    ),
            decreases index.places@[i as int]@.len() - j,
        {
            let at: usize = index.places[i][j];
            proof {
                assert(lists_occurrences(index.places@[i as int]@, lc@, ss[i as int]));
                assert(occurs_at(lc@, ss[i as int], at as int));
                assert(at + len <= total);
            }
            if at + len > w {
                let s: usize = at + len - w;
                let n = count_hits(lc, &index.needles, &index.places, s, w, Ghost(ss));
                if n > score || (n == score && s < best) {
                    best = s;
                    score = n;
                }
            }
            j += 1;
        }
        i += 1;
    }
    proof {
        assert forall|s: int| 0 <= s <= lc@.len() implies #[trigger] seen_best(
            lc@,
            ss,
            w as int,
            best as int,
            s,
        ) by {
            let c = lemma_tried(lc@, ss, w as int, s);
            if c != 0 {
                let (k, at) = choose|k: int, at: int|
                    0 <= k < ss.len() && ss[k].len() > 0 && #[trigger] occurs_at(lc@, ss[k], at)
                        && c == at + ss[k].len() - w;
                assert(lists_occurrences(index.places@[k]@, lc@, ss[k]));
                let j = choose|j: int|
                    0 <= j < index.places@[k]@.len() && #[trigger] index.places@[k]@[j] == at;
                assert(index.places@[k]@[j] == at);
            }
        }
    }
    best
}

fn any_begins(
    lc: &Vec<char>,
    index: &Index,
    at: usize,
    e: usize,
    Ghost(ss): Ghost<Seq<Seq<char>>>,
) -> (r: bool)
    requires
        index.is_of(lc@, ss),
        at <= e <= lc@.len(),
    ensures
        r == begins_at(lc@, ss, at as int, e as int),
{
    let mut i: usize = 0;
    while i < index.needles.len()
        invariant
            i <= index.needles@.len(),
            index.is_of(lc@, ss),
            at <= e <= lc@.len(),
            forall|k: int|
                0 <= k < i ==> !((#[trigger] ss[k]).len() > 0 && at + ss[k].len() <= e && occurs_at(
                    lc@,
                    ss[k],
                    at as int,
                )),
        decreases index.needles@.len() - i,
    {
        let needle = &index.needles[i];
        assert(index.needles@[i as int]@ == ss[i as int]);
        if needle.len() > 0 && needle.len() <= e - at && matches_at(lc, needle, at) {
            return true;
        }
        i += 1;
    }
    false
}

/// The window over `text` that holds the most distinct query stems, where that is
/// not the head of the text.
pub fn match_window(text: &str, stems: &Vec<String>, snippet_chars: usize) -> (r: Option<String>)
    ensures
        opt_view(r) == window_of(text@, texts(stems@), snippet_chars as int),
{
    if stems.len() == 0 || snippet_chars == 0 {
        return None;
    }
    let w: usize = snippet_chars;
    let each = distinct(stems);
    let ghost all = texts(stems@);
    let ghost ss = texts(each@);
    let lc = lower_chars(text, MATCH_SCAN_CHARS);
    let index = Index::new(&lc, &each);
    let best = find_best(&lc, &index, w, Ghost(ss));
    proof {
        assert forall|s: int| 0 <= s <= lc@.len() implies #[trigger] window_score(
            lc@,
            all,
            s,
            w as int,
        ) < window_score(lc@, all, best as int, w as int) || (window_score(lc@, all, s, w as int)
            == window_score(lc@, all, best as int, w as int) && best <= s) by {
            assert(seen_best(lc@, ss, w as int, best as int, s));
        }
        assert(is_best(lc@, all, w as int, best as int));
        best_is_unique(lc@, all, w as int, best as int, best_start(lc@, all, w as int));
    }
    if best == 0 {
        return None;
    }
    let end: usize = if w <= lc.len() - best {
        best + w
    } else {
        lc.len()
    };
    let mut at: usize = best;
    proof {
        lemma_first_match_distinct(lc@, all, best as int, end as int);
    }
    while at < end && !any_begins(&lc, &index, at, end, Ghost(ss))
        invariant
            best <= at <= end <= lc@.len(),
            index.is_of(lc@, ss),
            first_match(lc@, ss, best as int, end as int) == first_match(
                lc@,
                ss,
                at as int,
                end as int,
            ),
        decreases end - at,
    {
        at += 1;
    }
    let led: usize = if at >= MATCH_LEAD_CHARS {
        at - MATCH_LEAD_CHARS
    } else {
        0
    };
    let from: usize = if led > best {
        led
    } else {
        best
    };
    let v = chars_of(text);
    let mut p: usize = from;
    while p < at && !v[p].is_whitespace()
        invariant
            from <= p <= at <= lc@.len() <= v@.len(),
            v@ == text@,
            word_start(text@, from as int, at as int, from as int) == word_start(
                text@,
                p as int,
                at as int,
                from as int,
            ),
        decreases at - p,
    {
        p += 1;
    }
    let start: usize = if p < at {
        p + 1
    } else {
        from
    };
    let stop: usize = if w <= v.len() - start {
        start + w
    } else {
        v.len()
    };
    let window = string_of(&v, start, stop);
    let mut out = String::new();
    out.push('…');
    out.append(window.as_str());
    assert(start == shown_from(text@, lc@, all, w as int, best as int));
    assert(window@ =~= first_n(text@.skip(start as int), w as int));
    assert(out@ =~= seq!['…'] + window@);
    Some(out)
}

/// Leaving out repetitions changes neither which stems there are nor where they
/// begin.
proof fn lemma_first_match_distinct(lc: Seq<char>, stems: Seq<Seq<char>>, s: int, e: int)
    ensures
        first_match(lc, first_seen(stems), s, e) == first_match(lc, stems, s, e),
    decreases e - s,
{
    if s < e {
        let each = first_seen(stems);
        lemma_first_seen_same(stems);
        if begins_at(lc, stems, s, e) {
            let i = choose|i: int|
                0 <= i < stems.len() && (#[trigger] stems[i]).len() > 0 && s + stems[i].len() <= e
                    && occurs_at(lc, stems[i], s);
            assert(each.contains(stems[i]));
            let j = choose|j: int| 0 <= j < each.len() && each[j] == stems[i];
            assert(each[j].len() > 0);
        }
        if begins_at(lc, each, s, e) {
            let i = choose|i: int|
                0 <= i < each.len() && (#[trigger] each[i]).len() > 0 && s + each[i].len() <= e
                    && occurs_at(lc, each[i], s);
            assert(stems.contains(each[i]));
            let j = choose|j: int| 0 <= j < stems.len() && stems[j] == each[i];
            assert(stems[j].len() > 0);
        }
        lemma_first_match_distinct(lc, stems, s + 1, e);
    }
}

proof fn lemma_first_seen_same(stems: Seq<Seq<char>>)
    ensures
        forall|i: int| 0 <= i < stems.len() ==> first_seen(stems).contains(#[trigger] stems[i]),
        forall|i: int|
            0 <= i < first_seen(stems).len() ==> stems.contains(#[trigger] first_seen(stems)[i]),
    decreases stems.len(),
{
    if stems.len() > 0 {
        let head = stems.drop_last();
        let (b, a) = (first_seen(head), first_seen(stems));
        lemma_first_seen_same(head);
        assert forall|i: int| 0 <= i < stems.len() implies a.contains(#[trigger] stems[i]) by {
            if i < head.len() {
                assert(b.contains(head[i]));
                let k = choose|k: int| 0 <= k < b.len() && b[k] == head[i];
                assert(a[k] == head[i]);
            } else if !b.contains(stems.last()) {
                assert(a[a.len() - 1] == stems.last());
            }
        }
        assert forall|i: int| 0 <= i < a.len() implies stems.contains(#[trigger] a[i]) by {
            if i < b.len() {
                assert(head.contains(b[i]));
                let k = choose|k: int| 0 <= k < head.len() && head[k] == b[i];
                assert(stems[k] == b[i]);
            } else {
                assert(stems[stems.len() - 1] == a[i]);
            }
        }
    }
}

/// Stepping forward to a word never passes the match that the window was led in
/// to.
pub proof fn word_start_is_before_match(text: Seq<char>, from: int, at: int)
    requires
        from <= at,
    ensures
        from <= word_start(text, from, at, from) <= at,
{
    lemma_word_start(text, from, at, from);
}

proof fn lemma_word_start(text: Seq<char>, p: int, at: int, b: int)
    requires
        b <= p <= at,
    ensures
        b <= word_start(text, p, at, b) <= at,
    decreases at - p,
{
    if p < at && !is_space(text[p]) {
        lemma_word_start(text, p + 1, at, b);
    }
}

proof fn lemma_first_match(lc: Seq<char>, stems: Seq<Seq<char>>, s: int, e: int)
    requires
        s <= e,
    ensures
        s <= first_match(lc, stems, s, e) <= e,
        forall|at: int|
            s <= at < first_match(lc, stems, s, e) ==> !#[trigger] begins_at(lc, stems, at, e),
    decreases e - s,
{
    if s < e && !begins_at(lc, stems, s, e) {
        lemma_first_match(lc, stems, s + 1, e);
    }
}

/// A window that begins later, but not behind the first match, holds what the first
/// one holds.
proof fn lemma_hits_kept(
    lc: Seq<char>,
    stems: Seq<Seq<char>>,
    all: Seq<Seq<char>>,
    w: int,
    b: int,
    t: int,
)
    requires
        0 <= w,
        0 <= b <= t <= first_match(lc, all, b, window_end(lc, b, w)),
        b <= lc.len(),
        forall|i: int| 0 <= i < stems.len() ==> all.contains(#[trigger] stems[i]),
    ensures
        hits(lc, stems, b, w) <= hits(lc, stems, t, w),
    decreases stems.len(),
{
    if stems.len() > 0 {
        let head = stems.drop_last();
        assert forall|i: int| 0 <= i < head.len() implies all.contains(#[trigger] head[i]) by {
            assert(head[i] == stems[i]);
        }
        lemma_hits_kept(lc, head, all, w, b, t);
        let stem = stems.last();
        let (e, d) = (window_end(lc, b, w), window_end(lc, t, w));
        lemma_first_match(lc, all, b, e);
        if in_window(lc, stem, b, e) {
            let at = choose|at: int|
                b <= at && at + stem.len() <= e && #[trigger] occurs_at(lc, stem, at);
            assert(all.contains(stems[stems.len() - 1]));
            let i = choose|i: int| 0 <= i < all.len() && all[i] == stem;
            assert(all[i].len() > 0);
            assert(begins_at(lc, all, at, e));
            assert(t <= at);
            assert(in_window(lc, stem, t, d));
        }
    }
}

/// What is shown holds as many distinct stems as any window of its size.
pub proof fn the_densest_window_is_shown(
    text: Seq<char>,
    stems: Seq<Seq<char>>,
    w: int,
    b: int,
    s: int,
)
    requires
        0 <= w,
        is_best(lowered(text, MATCH_SCAN_CHARS as int), stems, w, b),
        0 <= s <= lowered(text, MATCH_SCAN_CHARS as int).len(),
    ensures
        ({
            let lc = lowered(text, MATCH_SCAN_CHARS as int);
            window_score(lc, stems, s, w) <= window_score(
                lc,
                stems,
                shown_from(text, lc, stems, w, b),
                w,
            )
        }),
{
    let lc = lowered(text, MATCH_SCAN_CHARS as int);
    let e = window_end(lc, b, w);
    let at = first_match(lc, stems, b, e);
    lemma_first_match(lc, stems, b, e);
    let from = if led_in(at) > b {
        led_in(at)
    } else {
        b
    };
    lemma_word_start(text, from, at, from);
    lemma_first_seen_same(stems);
    lemma_hits_kept(lc, first_seen(stems), stems, w, b, shown_from(text, lc, stems, w, b));
    assert(window_score(lc, stems, s, w) <= window_score(lc, stems, b, w));
}

/// A shifted window is no longer than asked for, its ellipsis aside.
pub proof fn window_is_bounded(text: Seq<char>, stems: Seq<Seq<char>>, w: int)
    requires
        0 <= w,
        window_of(text, stems, w) is Some,
    ensures
        (window_of(text, stems, w)->0).len() <= w + 1,
{
}

// ---------------------------------------------------------------------
// Lines
// ---------------------------------------------------------------------

/// `s` without trailing ellipses.
pub open spec fn without_ellipsis(s: Seq<char>) -> Seq<char>
    decreases s.len(),
{
    if s.len() > 0 && s.last() == '…' {
        without_ellipsis(s.drop_last())
    } else {
        s
    }
}

/// The part of a text that a line shows: the window around the match where
/// there is one, else the head.
pub open spec fn excerpt(text: Seq<char>, stems: Seq<Seq<char>>, w: int) -> Seq<char> {
    match window_of(text, stems, w) {
        Some(t) => t,
        None => truncated(text, w),
    }
}

/// The subkind of a node, or its kind.
pub open spec fn tag_of(node: Node) -> Seq<char> {
    match node.subkind {
        Some(s) => s@,
        None => node.kind.name(),
    }
}

/// The title of a node as lines show it.
pub open spec fn shown_title(node: Node) -> Seq<char> {
    match node.title {
        Some(t) => t@,
        None => "(untitled)"@,
    }
}

/// How often a node was used, where it was.
pub open spec fn uses_text(node: Node) -> Seq<char> {
    if node.access_count > 0 {
        " ↑"@ + decimal(node.access_count as int)
    } else {
        Seq::empty()
    }
}

/// The project of a node as lines show it.
pub open spec fn project_text(project: Option<Seq<char>>) -> Seq<char> {
    match project {
        Some(p) => " pr:"@ + p,
        None => Seq::empty(),
    }
}

/// The word that marks an author's doubt.
pub open spec fn doubt_text(node: Node) -> Seq<char> {
    if node.confidence_spec() == Some(MemoryConfidence::Unsure) {
        " unsure"@
    } else {
        Seq::empty()
    }
}

/// When a node was last changed, where it was.
pub open spec fn updated_text(node: Node) -> Seq<char> {
    if node.updated_at != node.created_at {
        " updated "@ + full_date_text(node.updated_at as int)
    } else {
        Seq::empty()
    }
}

/// What a line says before the excerpt.
pub open spec fn line_head(node: Node, project: Option<Seq<char>>) -> Seq<char> {
    short_form(node.kind, node.uid@) + " ["@ + tag_of(node) + project_text(project) + " "@
        + month_day_text(node.created_at as int) + uses_text(node) + doubt_text(node) + "] "@
        + shown_title(node)
}

/// What a line says after the title: nothing that the title already covers.
pub open spec fn line_tail(node: Node, stems: Seq<Seq<char>>, w: int) -> Seq<char> {
    match node.body {
        Some(body) => {
            let title = shown_title(node);
            let flat = collapsed(body@);
            let covered = without_ellipsis(title);
            if starts_with(flat, covered) {
                let rest = trim_start(flat.skip(covered.len() as int));
                if rest.len() == 0 {
                    Seq::empty()
                } else {
                    " — "@ + excerpt(rest, stems, w)
                }
            } else if utf8_len(flat) > utf8_len(title) {
                " — "@ + excerpt(flat, stems, w)
            } else {
                Seq::empty()
            }
        },
        None => Seq::empty(),
    }
}

/// One line for a node.
pub open spec fn line_text(
    node: Node,
    project: Option<Seq<char>>,
    stems: Seq<Seq<char>>,
    w: int,
) -> Seq<char> {
    line_head(node, project) + line_tail(node, stems, w)
}

/// The view of an optional string slice.
pub open spec fn opt_str(s: Option<&str>) -> Option<Seq<char>> {
    match s {
        Some(t) => Some(t@),
        None => None,
    }
}

/// The stems of a query, where there is one.
pub open spec fn query_stems_of(query: Option<Seq<char>>, stop: Seq<Seq<char>>) -> Seq<Seq<char>> {
    match query {
        Some(q) => stems_of(token_seq(q), stop),
        None => Seq::empty(),
    }
}

fn tag_part(node: &Node) -> (r: String)
    ensures
        r@ == tag_of(*node),
{
    match &node.subkind {
        Some(s) => s.clone(),
        None => node.kind.as_str().to_owned(),
    }
}

fn project_part(project: Option<&str>) -> (r: String)
    ensures
        r@ == project_text(opt_str(project)),
{
    match project {
        Some(p) => {
            let mut out = " pr:".to_owned();
            out.append(p);
            out
        },
        None => String::new(),
    }
}

fn uses_part(node: &Node) -> (r: String)
    ensures
        r@ == uses_text(*node),
{
    if node.access_count > 0 {
        let mut out = " ↑".to_owned();
        out.append(decimal_of(node.access_count).as_str());
        out
    } else {
        String::new()
    }
}

fn doubt_part(node: &Node) -> (r: String)
    ensures
        r@ == doubt_text(*node),
{
    match node.confidence() {
        Some(MemoryConfidence::Unsure) => " unsure".to_owned(),
        _ => String::new(),
    }
}

fn updated_part(node: &Node) -> (r: String)
    ensures
        r@ == updated_text(*node),
{
    if node.updated_at != node.created_at {
        let mut out = " updated ".to_owned();
        out.append(full_date(node.updated_at).as_str());
        out
    } else {
        String::new()
    }
}

fn head_part(node: &Node, project: Option<&str>, title: &str) -> (r: String)
    requires
        title@ == shown_title(*node),
    ensures
        r@ == line_head(*node, opt_str(project)),
{
    let mut line = short_uid(node.kind, node.uid.as_str());
    line.append(" [");
    line.append(tag_part(node).as_str());
    line.append(project_part(project).as_str());
    line.append(" ");
    line.append(month_day(node.created_at).as_str());
    line.append(uses_part(node).as_str());
    line.append(doubt_part(node).as_str());
    line.append("] ");
    line.append(title);
    line
}

fn strip_ellipsis(s: &str) -> (r: String)
    ensures
        r@ == without_ellipsis(s@),
{
    let v = chars_of(s);
    let mut n: usize = v.len();
    assert(v@.take(n as int) =~= v@);
    while n > 0 && v[n - 1] == '…'
        invariant
            n <= v@.len(),
            without_ellipsis(v@) == without_ellipsis(v@.take(n as int)),
        decreases n,
    {
        assert(v@.take(n as int).drop_last() =~= v@.take(n - 1));
        n -= 1;
    }
    proof {
        if n > 0 {
            assert(v@.take(n as int).last() == v@[n - 1]);
        }
        assert(v@.subrange(0, n as int) =~= v@.take(n as int));
    }
    string_of(&v, 0, n)
}

fn push_excerpt(out: &mut String, text: &str, stems: &Vec<String>, w: usize)
    ensures
        final(out)@ == old(out)@ + " — "@ + excerpt(text@, texts(stems@), w as int),
{
    out.append(" — ");
    match match_window(text, stems, w) {
        Some(t) => {
            out.append(t.as_str());
        },
        None => {
            let t = truncate_chars(text, w);
            out.append(t.as_str());
        },
    }
}

/// One line for a node, its excerpt the head of the body.
pub fn agent_line(node: &Node, project: Option<&str>, snippet_chars: usize) -> (r: String)
    ensures
        r@ == line_text(*node, opt_str(project), Seq::empty(), snippet_chars as int),
{
    let none: Vec<String> = Vec::new();
    agent_line_for_query(node, project, snippet_chars, None, &none)
}

/// One line for a node, its excerpt centred on what matched the query. `stop`
/// lists the words that the search ignores.
pub fn agent_line_for_query(
    node: &Node,
    project: Option<&str>,
    snippet_chars: usize,
    query: Option<&str>,
    stop: &Vec<String>,
) -> (r: String)
    ensures
        r@ == line_text(
            *node,
            opt_str(project),
            query_stems_of(opt_str(query), texts(stop@)),
            snippet_chars as int,
        ),
{
    let stems = match query {
        Some(q) => query_stems(q, stop),
        None => {
            let none: Vec<String> = Vec::new();
            assert(texts(none@) =~= Seq::empty());
            none
        },
    };
    let title = match &node.title {
        Some(t) => t.as_str(),
        None => "(untitled)",
    };
    let mut line = head_part(node, project, title);
    let ghost head = line@;
    if let Some(body) = &node.body {
        let flat = collapse_ws(body.as_str());
        let covered = strip_ellipsis(title);
        match without_prefix(flat.as_str(), covered.as_str()) {
            Some(after) => {
                let rest = trimmed_start(after.as_str());
                if !rest.as_str().is_empty() {
                    push_excerpt(&mut line, rest.as_str(), &stems, snippet_chars);
                }
            },
            None => {
                if byte_len(flat.as_str()) > byte_len(title) {
                    push_excerpt(&mut line, flat.as_str(), &stems, snippet_chars);
                }
            },
        }
    }
    assert(line@ =~= head + line_tail(*node, texts(stems@), snippet_chars as int));
    line
}

/// A query without content changes nothing: the line is the plain one.
pub proof fn empty_query_changes_nothing(
    node: Node,
    project: Option<Seq<char>>,
    query: Seq<char>,
    stop: Seq<Seq<char>>,
    w: int,
)
    requires
        query_stems_of(Some(query), stop).len() == 0,
    ensures
        line_text(node, project, query_stems_of(Some(query), stop), w) == line_text(
            node,
            project,
            Seq::empty(),
            w,
        ),
{
    assert(query_stems_of(Some(query), stop) =~= Seq::empty());
}

// ---------------------------------------------------------------------
// The full record
// ---------------------------------------------------------------------

/// The node with the given id.
pub open spec fn with_id(id: i64) -> spec_fn(Node) -> bool {
    |n: Node| n.id == id
}

/// The other end of an edge of `id`.
pub open spec fn other_end(e: Edge, id: i64) -> i64 {
    if e.src == id {
        e.dst
    } else {
        e.src
    }
}

/// The line of one edge: an arrow, the relation, and the other node; nothing
/// where that node cannot be had.
pub open spec fn edge_line(e: Edge, id: i64, others: Seq<Node>) -> Seq<char> {
    match first_where(others, with_id(other_end(e, id))) {
        Some(i) => "\n"@ + (if e.src == id {
            "→"@
        } else {
            "←"@
        }) + " "@ + e.rel.name() + " "@ + short_form(others[i].kind, others[i].uid@) + " "@
            + others[i].title_or_empty(),
        None => Seq::empty(),
    }
}

/// The lines of all edges, in order.
pub open spec fn edge_lines(edges: Seq<Edge>, id: i64, others: Seq<Node>) -> Seq<char>
    decreases edges.len(),
{
    if edges.len() == 0 {
        Seq::empty()
    } else {
        edge_lines(edges.drop_last(), id, others) + edge_line(edges.last(), id, others)
    }
}

/// The first line of a record.
pub open spec fn record_head(node: Node, project: Option<Seq<char>>) -> Seq<char> {
    short_form(node.kind, node.uid@) + " "@ + tag_of(node) + project_text(project) + " created "@
        + full_date_text(node.created_at as int) + updated_text(node) + uses_text(node)
}

/// Title and body, the body left out where the title already says it all.
pub open spec fn record_text(node: Node) -> Seq<char> {
    (match node.title {
        Some(t) => "\n"@ + t@,
        None => Seq::empty(),
    }) + (match node.body {
        Some(b) => if opt_view(node.title) == Some(trim(b@)) {
            Seq::empty()
        } else {
            "\n"@ + b@
        },
        None => Seq::empty(),
    }) + (if node.tags_text@.len() > 0 {
        "\ntags: "@ + node.tags_text@
    } else {
        Seq::empty()
    })
}

/// What a memory's record says of the author's confidence and of a grounding
/// that failed.
pub open spec fn record_notes(node: Node, g: Grounding) -> Seq<char> {
    if node.kind == Kind::Memory {
        (match node.confidence_spec() {
            Some(c) => "\nconfidence: "@ + c.name()
                + " (author-declared; not a ranking signal)"@,
            None => Seq::empty(),
        }) + (match g {
            Grounding::Stale { kind, label } => "\n! grounding stale: "@ + kind.name() + " "@
                + label@
                + " is no longer indexed (the note may still be right; nothing has revisited it since)"@,
            _ => Seq::empty(),
        })
    } else {
        Seq::empty()
    }
}

/// The name of a node's project.
pub open spec fn project_name_of(node: Node, projects: Map<i64, String>) -> Option<Seq<char>> {
    match node.project_id {
        Some(id) => if projects.dom().contains(id) {
            Some(projects[id]@)
        } else {
            None
        },
        None => None,
    }
}

fn find_node(others: &Vec<Node>, id: i64) -> (r: Option<usize>)
    ensures
        match r {
            Some(i) => i < others@.len() && first_where(others@, with_id(id)) == Some(i as int),
            None => first_where(others@, with_id(id)) is None,
        },
{
    let ghost p = with_id(id);
    let mut i: usize = 0;
    while i < others.len()
        invariant
            i <= others@.len(),
            p == with_id(id),
            forall|k: int| 0 <= k < i ==> !p(#[trigger] others@[k]),
        decreases others@.len() - i,
    {
        if others[i].id == id {
            proof {
                lemma_first_where_is(others@, p, i as int);
            }
            return Some(i);
        }
        i += 1;
    }
    proof {
        lemma_first_where_none(others@, p);
    }
    None
}

fn push_edge(out: &mut String, e: &Edge, id: i64, others: &Vec<Node>)
    ensures
        final(out)@ == old(out)@ + edge_line(*e, id, others@),
{
    let outward = e.src == id;
    let other_id: i64 = if outward {
        e.dst
    } else {
        e.src
    };
    match find_node(others, other_id) {
        Some(i) => {
            let other = &others[i];
            out.append("\n");
            out.append(if outward {
                "→"
            } else {
                "←"
            });
            out.append(" ");
            out.append(e.rel.as_str());
            out.append(" ");
            out.append(short_uid(other.kind, other.uid.as_str()).as_str());
            out.append(" ");
            match &other.title {
                Some(t) => {
                    out.append(t.as_str());
                },
                None => {},
            }
            assert(out@ =~= old(out)@ + edge_line(*e, id, others@));
        },
        None => {
            assert(out@ =~= old(out)@ + edge_line(*e, id, others@));
        },
    }
}

fn header_part(node: &Node, project: Option<&str>) -> (r: String)
    ensures
        r@ == record_head(*node, opt_str(project)),
{
    let mut out = short_uid(node.kind, node.uid.as_str());
    out.append(" ");
    out.append(tag_part(node).as_str());
    out.append(project_part(project).as_str());
    out.append(" created ");
    out.append(full_date(node.created_at).as_str());
    out.append(updated_part(node).as_str());
    out.append(uses_part(node).as_str());
    out
}

fn push_text(out: &mut String, node: &Node)
    ensures
        final(out)@ == old(out)@ + record_text(*node),
{
    if let Some(t) = &node.title {
        out.append("\n");
        out.append(t.as_str());
    }
    if let Some(b) = &node.body {
        let bare = trimmed(b.as_str());
        let said = match &node.title {
            Some(t) => same(t.as_str(), bare.as_str()),
            None => false,
        };
        if !said {
            out.append("\n");
            out.append(b.as_str());
        }
    }
    if !node.tags_text.as_str().is_empty() {
        out.append("\ntags: ");
        out.append(node.tags_text.as_str());
    }
    assert(out@ =~= old(out)@ + record_text(*node));
}

fn push_notes(out: &mut String, node: &Node, g: &Grounding)
    ensures
        final(out)@ == old(out)@ + record_notes(*node, *g),
{
    if node.kind == Kind::Memory {
        if let Some(c) = node.confidence() {
            out.append("\nconfidence: ");
            out.append(c.as_str());
            out.append(" (author-declared; not a ranking signal)");
        }
        if let Grounding::Stale { kind, label } = g {
            out.append("\n! grounding stale: ");
            out.append(kind.as_str());
            out.append(" ");
            out.append(label.as_str());
            out.append(
                " is no longer indexed (the note may still be right; nothing has revisited it since)",
            );
        }
    }
    assert(out@ =~= old(out)@ + record_notes(*node, *g));
}

/// The full record of a node: header, title, body, tags, edges, and notes.
/// `edges` are the node's edges, `others` the nodes at their other ends, `g` the
/// node's grounding.
pub fn full_record(
    node: &Node,
    projects: &HashMap<i64, String>,
    edges: &Vec<Edge>,
    others: &Vec<Node>,
    g: &Grounding,
) -> (r: String)
    ensures
        r@ == record_head(*node, project_name_of(*node, projects@)) + record_text(*node)
            + edge_lines(edges@, node.id, others@) + record_notes(*node, *g),
{
    broadcast use vstd::std_specs::hash::group_hash_axioms;

    let project = match node.project_id {
        Some(id) => match projects.get(&id) {
            Some(p) => Some(p.as_str()),
            None => None,
        },
        None => None,
    };
    let mut out = header_part(node, project);
    push_text(&mut out, node);
    let ghost base = out@;
    let mut i: usize = 0;
    assert(edges@.take(0) =~= Seq::empty());
    assert(out@ =~= base + edge_lines(edges@.take(0), node.id, others@));
    while i < edges.len()
        invariant
            i <= edges@.len(),
            out@ == base + edge_lines(edges@.take(i as int), node.id, others@),
        decreases edges@.len() - i,
    {
        assert(edges@.take(i + 1).drop_last() =~= edges@.take(i as int));
        assert(edges@.take(i + 1).last() == edges@[i as int]);
        push_edge(&mut out, &edges[i], node.id, others);
        assert(out@ =~= base + edge_lines(edges@.take(i + 1), node.id, others@));
        i += 1;
    }
    assert(edges@.take(edges@.len() as int) =~= edges@);
    push_notes(&mut out, node, g);
    out
}

} // verus!
