//! Laws of texts, numbers, dates, patterns and paths.

use vstd::prelude::*;

#[allow(unused_imports)]
use crate::calendar::{
    date_is_unique, day_number, days_before_month, days_in_month, is_date_of, is_leap,
    leaps_through, valid_date,
};
#[allow(unused_imports)]
use crate::format::{
    collapsed, date_of, full_date_text, month_day_text, truncated, two_digits, without_ellipsis,
    year_digits,
};
#[allow(unused_imports)]
use crate::paths::{below, extension, file_name, file_stem, last_dot, not_dot};
#[allow(unused_imports)]
use crate::seqs::kept;
#[allow(unused_imports)]
use crate::text::{
    all_digits, all_lower, contains, decimal, decimal_nat, ends_with, fields, find_in, is_digit,
    is_space, join, lemma_decimal_digits, lemma_fields, lemma_nonempty_concat, lemma_split_append,
    lemma_split_at, lemma_split_len, lines, nonempty, occurs_at, pad_left, pad_right, replaced,
    signed, split, starts_with, trim, trim_end, trim_start, trim_suffixes, unseparated, unsigned,
    without_eol, words, Delim,
};
#[allow(unused_imports)]
use crate::wild::wild;
#[allow(unused_imports)]
use vstd::string::*;

verus! {

// ---------------------------------------------------------------------
// Blanks, parts and joins
// ---------------------------------------------------------------------

/// Blank are the space, the controls from the tab to the carriage return, and the
/// separators of Unicode; letters and digits are not.
pub proof fn what_is_blank(c: char)
    ensures
        c == ' ' || c == '\t' || c == '\n' || c == '\r' ==> is_space(c),
        '!' <= c <= '~' ==> !is_space(c),
        is_space(c) && (c as u32) < 0x80 ==> c == ' ' || 9 <= (c as u32) <= 13,
{
}

proof fn lemma_trim_start(s: Seq<char>) -> (i: int)
    ensures
        0 <= i <= s.len(),
        trim_start(s) == s.skip(i),
        forall|k: int| 0 <= k < i ==> is_space(#[trigger] s[k]),
        i < s.len() ==> !is_space(s[i]),
    decreases s.len(),
{
    if s.len() > 0 && is_space(s[0]) {
        let t = s.skip(1);
        let i = lemma_trim_start(t);
        assert(t.skip(i) =~= s.skip(i + 1));
        assert forall|k: int| 0 <= k < i + 1 implies is_space(#[trigger] s[k]) by {
            if k > 0 {
                assert(s[k] == t[k - 1]);
            }
        }
        i + 1
    } else {
        assert(s.skip(0) =~= s);
        0
    }
}

proof fn lemma_trim_end(s: Seq<char>) -> (j: int)
    ensures
        0 <= j <= s.len(),
        trim_end(s) == s.take(j),
        forall|k: int| j <= k < s.len() ==> is_space(#[trigger] s[k]),
        j > 0 ==> !is_space(s[j - 1]),
    decreases s.len(),
{
    if s.len() > 0 && is_space(s.last()) {
        let t = s.drop_last();
        let j = lemma_trim_end(t);
        assert(t.take(j) =~= s.take(j));
        assert forall|k: int| j <= k < s.len() implies is_space(#[trigger] s[k]) by {
            if k < s.len() - 1 {
                assert(s[k] == t[k]);
            }
        }
        j
    } else {
        assert(s.take(s.len() as int) =~= s);
        s.len() as int
    }
}

/// Trimming takes the blanks off both ends and nothing else: what is left is a stretch
/// of the text that neither begins nor ends with a blank, and what is gone is blank. The
/// result says where the stretch begins and ends.
pub proof fn trimming_takes_blanks_off(s: Seq<char>) -> (r: (int, int))
    ensures
        0 <= r.0 <= r.1 <= s.len(),
        trim(s) == s.subrange(r.0, r.1),
        forall|k: int| 0 <= k < r.0 || r.1 <= k < s.len() ==> is_space(#[trigger] s[k]),
        r.0 < r.1 ==> !is_space(s[r.0]) && !is_space(s[r.1 - 1]),
        trim_start(s) == s.skip(r.0),
{
    let i = lemma_trim_start(s);
    let t = s.skip(i);
    let j = lemma_trim_end(t);
    assert(t.take(j) =~= s.subrange(i, i + j));
    assert forall|k: int| 0 <= k < i || i + j <= k < s.len() implies is_space(#[trigger] s[k]) by {
        if k >= i + j {
            assert(s[k] == t[k - i]);
        }
    }
    (i, i + j)
}

/// Trimming one end takes the blanks off that end alone.
pub proof fn trimming_the_end(s: Seq<char>) -> (j: int)
    ensures
        0 <= j <= s.len(),
        trim_end(s) == s.take(j),
        forall|k: int| j <= k < s.len() ==> is_space(#[trigger] s[k]),
        j > 0 ==> !is_space(s[j - 1]),
{
    lemma_trim_end(s)
}

/// Where a text is split: at one character, at blanks, at blanks and quotes, or at what
/// cannot stand in a token.
pub proof fn where_texts_are_split(c: char, x: char)
    ensures
        Delim::Char(x).holds(c) <==> c == x,
        Delim::Space.holds(c) <==> is_space(c),
        Delim::SpaceOrQuote.holds(c) <==> is_space(c) || c == '"' || c == '\'',
        ('a' <= c <= 'z' || 'A' <= c <= 'Z' || '0' <= c <= '9' || c == '_' || c == '-' || c == '.')
            ==> !Delim::NonToken.holds(c),
        c == ' ' || c == ',' || c == '/' || c == ':' || c == '(' || c == '"' || c == '\''
            ==> Delim::NonToken.holds(c),
{
}

/// Splitting at a character undoes joining with it: the parts hold no such character, and
/// with it between them they are the text again.
pub proof fn splitting_undoes_joining(s: Seq<char>, c: char)
    ensures
        split(s, Delim::Char(c)).len() > 0,
        forall|i: int, k: int|
            #![trigger split(s, Delim::Char(c))[i][k]]
            0 <= i < split(s, Delim::Char(c)).len() && 0 <= k < split(s, Delim::Char(c))[i].len()
                ==> split(s, Delim::Char(c))[i][k] != c,
        join(split(s, Delim::Char(c)), seq![c]) == s,
    decreases s.len(),
{
    let d = Delim::Char(c);
    let p = split(s, d);
    if s.len() > 0 {
        let t = s.drop_last();
        splitting_undoes_joining(t, c);
        let q = split(t, d);
        if s.last() == c {
            assert(p.drop_last() =~= q);
            assert(p.len() >= 2);
            assert(join(p, seq![c]) =~= join(q, seq![c]) + seq![c] + Seq::<char>::empty());
            assert(join(p, seq![c]) =~= s);
        } else {
            assert(p.drop_last() =~= q.drop_last());
            if q.len() == 1 {
                assert(join(q, seq![c]) == q[0]);
                assert(p.len() == 1);
                assert(join(p, seq![c]) == p[0]);
                assert(p[0] == q.last().push(s.last()));
                assert(t == q[0]);
            } else {
                assert(p.last() == q.last().push(s.last()));
                assert(join(q, seq![c]) == join(q.drop_last(), seq![c]) + seq![c] + q.last());
                assert(join(p, seq![c]) == join(p.drop_last(), seq![c]) + seq![c] + p.last());
                let head = join(q.drop_last(), seq![c]) + seq![c];
                assert(head + p.last() =~= (head + q.last()).push(s.last()));
                assert(t == head + q.last());
            }
            assert(s =~= t.push(s.last()));
            assert(join(p, seq![c]) =~= s);
            assert forall|i: int, k: int|
                #![trigger p[i][k]]
                0 <= i < p.len() && 0 <= k < p[i].len() implies p[i][k] != c by {
                if i < p.len() - 1 {
                    assert(p[i] == q[i]);
                    assert(q[i][k] != c);
                } else if k < q.last().len() {
                    assert(q[q.len() - 1][k] != c);
                }
            }
        }
    } else {
        assert(p =~= seq![Seq::<char>::empty()]);
        assert(join(p, seq![c]) == p[0]);
    }
}

/// Parts are joined in order with the separator between them.
pub proof fn joining_puts_separators_between(p: Seq<Seq<char>>, x: Seq<char>, sep: Seq<char>)
    ensures
        join(Seq::empty(), sep).len() == 0,
        join(seq![x], sep) == x,
        p.len() > 0 ==> join(p.push(x), sep) == join(p, sep) + sep + x,
{
    assert(p.push(x).drop_last() =~= p);
}

/// The words of a text are what stands between its blanks: a word behind a blank is the
/// last of the words, and none of them is empty or holds a blank.
pub proof fn words_stand_between_blanks(a: Seq<char>, c: char, w: Seq<char>)
    requires
        is_space(c),
        forall|k: int| 0 <= k < w.len() ==> !is_space(#[trigger] w[k]),
    ensures
        w.len() > 0 ==> words(w) == seq![w] && words(a + seq![c] + w) == words(a).push(w),
        words(a.push(c)) == words(a),
        forall|i: int|
            0 <= i < words(a).len() ==> (#[trigger] words(a)[i]).len() > 0 && forall|k: int|
                0 <= k < words(a)[i].len() ==> !is_space(#[trigger] words(a)[i][k]),
{
    let d = Delim::Space;
    lemma_split_at(a, c, w, d);
    lemma_nonempty_concat(split(a, d), split(w, d));
    lemma_unsplit(w, d);
    assert(seq![w].drop_last() =~= Seq::<Seq<char>>::empty());
    if w.len() > 0 {
        assert(nonempty(seq![w]) =~= seq![w]) by {
            assert(nonempty(Seq::<Seq<char>>::empty()) =~= Seq::<Seq<char>>::empty());
        }
        assert(words(a + seq![c] + w) =~= words(a).push(w));
    }
    let e = Seq::<char>::empty();
    lemma_split_at(a, c, e, d);
    lemma_nonempty_concat(split(a, d), split(e, d));
    assert(a + seq![c] + e =~= a.push(c));
    assert(split(e, d) =~= seq![e]);
    assert(seq![e].drop_last() =~= Seq::<Seq<char>>::empty());
    assert(nonempty(Seq::<Seq<char>>::empty()) =~= Seq::<Seq<char>>::empty());
    assert(nonempty(seq![e]) =~= Seq::<Seq<char>>::empty());
    assert(words(a.push(c)) =~= words(a));
    lemma_fields(a, d);
    assert forall|i: int| 0 <= i < words(a).len() implies (#[trigger] words(a)[i]).len() > 0
        && forall|k: int|
        0 <= k < words(a)[i].len() ==> !is_space(#[trigger] words(a)[i][k]) by {
        assert(unseparated(fields(a, d)[i], d));
        assert forall|k: int| 0 <= k < words(a)[i].len() implies !is_space(
            #[trigger] words(a)[i][k],
        ) by {
            assert(!d.holds(fields(a, d)[i][k]));
        }
    }
}

proof fn lemma_unsplit(w: Seq<char>, d: Delim)
    requires
        unseparated(w, d),
    ensures
        split(w, d) == seq![w],
{
    let e = Seq::<char>::empty();
    lemma_split_append(e, w, d);
    assert(e + w =~= w);
    assert(split(e, d) =~= seq![e]);
    assert(split(w, d) =~= seq![w]);
}

/// A line ends at its line feed, and a carriage return before it is no part of it; what
/// follows the last line feed is a line where it is not empty.
pub proof fn lines_end_at_line_feeds(s: Seq<char>, t: Seq<char>)
    requires
        s.len() == 0 || s.last() == '\n',
        forall|k: int| 0 <= k < t.len() ==> #[trigger] t[k] != '\n',
    ensures
        t.len() > 0 ==> lines(s + t) == lines(s).push(t),
        t.len() == 0 || t.last() != '\r' ==> lines(s + t + seq!['\n']) == lines(s).push(t),
        t.len() > 0 && t.last() == '\r' ==> lines(s + t + seq!['\n']) == lines(s).push(
            t.drop_last(),
        ),
        lines(Seq::empty()).len() == 0,
{
    let d = Delim::Char('\n');
    let e = Seq::<char>::empty();
    let p = split(s, d);
    lemma_split_len(s, d);
    assert(p.last().len() == 0) by {
        if s.len() > 0 {
            lemma_split_at(s.drop_last(), '\n', e, d);
            assert(s.drop_last() + seq!['\n'] + e =~= s);
        }
    }
    lemma_split_append(s, t, d);
    let q = split(s + t, d);
    assert(p.last() + t =~= t);
    assert(q == p.drop_last().push(t));
    lemma_split_at(s + t, '\n', e, d);
    let n = s + t + seq!['\n'];
    assert(n + e =~= n);
    assert(split(e, d) =~= seq![e]);
    let r = split(n, d);
    assert(r =~= q.push(e));
    if t.len() > 0 {
        assert(lines(s + t) =~= lines(s).push(t));
    }
    if t.len() == 0 || t.last() != '\r' {
        assert(lines(n) =~= lines(s).push(t));
    } else {
        assert(lines(n) =~= lines(s).push(t.drop_last()));
    }
    assert(lines(e) =~= Seq::<Seq<char>>::empty());
}

// ---------------------------------------------------------------------
// Searching and replacing
// ---------------------------------------------------------------------

/// A text starts with each of its beginnings and ends with each of its ends, and with
/// nothing else.
pub proof fn beginnings_and_ends(a: Seq<char>, b: Seq<char>, x: Seq<char>)
    ensures
        starts_with(a + b, a),
        ends_with(a + b, b),
        starts_with(a, x) ==> x.len() <= a.len() && a.take(x.len() as int) == x,
        ends_with(a, x) ==> x.len() <= a.len() && a.skip(a.len() - x.len()) == x,
{
    assert((a + b).subrange(0, a.len() as int) =~= a);
    assert((a + b).subrange(a.len() as int, (a + b).len() as int) =~= b);
    if starts_with(a, x) {
        assert(a.take(x.len() as int) =~= a.subrange(0, x.len() as int));
    }
    if ends_with(a, x) {
        assert(a.skip(a.len() - x.len()) =~= a.subrange(a.len() - x.len(), a.len() as int));
    }
}

/// The search gives the first place, from the given one on, where the text stands; and
/// none where it stands nowhere.
pub proof fn the_first_occurrence_is_found(hay: Seq<char>, needle: Seq<char>, from: int)
    requires
        0 <= from,
    ensures
        find_in(hay, needle, from) matches Some(k) ==> from <= k && k + needle.len() <= hay.len()
            && hay.subrange(k, k + needle.len()) == needle && forall|j: int|
            from <= j < k ==> #[trigger] hay.subrange(j, j + needle.len()) != needle,
        find_in(hay, needle, from) is None ==> forall|j: int|
            from <= j && j + needle.len() <= hay.len() ==> #[trigger] hay.subrange(
                j,
                j + needle.len(),
            ) != needle,
    decreases hay.len() + 1 - from,
{
    if from <= hay.len() && !occurs_at(hay, needle, from) {
        the_first_occurrence_is_found(hay, needle, from + 1);
    }
}

/// A text holds another where it stands somewhere in it.
pub proof fn a_text_holds_its_parts(a: Seq<char>, b: Seq<char>, c: Seq<char>)
    ensures
        contains(a + b + c, b),
{
    let s = a + b + c;
    assert(s.subrange(a.len() as int, a.len() as int + b.len()) =~= b);
    assert(occurs_at(s, b, a.len() as int));
}

/// Every occurrence of the character is replaced, and nothing else.
pub proof fn one_character_is_replaced(s: Seq<char>, from: char, to: char, i: int)
    requires
        0 <= i < s.len(),
    ensures
        replaced(s, from, to).len() == s.len(),
        s[i] == from ==> replaced(s, from, to)[i] == to,
        s[i] != from ==> replaced(s, from, to)[i] == s[i],
{
}

/// A suffix is taken off as often as it is there.
pub proof fn suffixes_are_taken_off(s: Seq<char>, x: Seq<char>)
    requires
        x.len() > 0,
    ensures
        trim_suffixes(s + x, x) == trim_suffixes(s, x),
        !ends_with(s, x) ==> trim_suffixes(s, x) == s,
{
    beginnings_and_ends(s, x, x);
    assert((s + x).take((s + x).len() - x.len()) =~= s);
}

/// Small letters stand for capitals, one for one; nothing else changes.
pub proof fn capitals_become_small(s: Seq<char>, i: int)
    requires
        0 <= i < s.len(),
    ensures
        all_lower(s).len() == s.len(),
        'A' <= s[i] <= 'Z' ==> all_lower(s)[i] as u32 == s[i] as u32 + 32,
        !('A' <= s[i] <= 'Z') ==> all_lower(s)[i] == s[i],
{
}

/// Line ends are taken off the end of a text, and nothing else.
pub proof fn line_ends_are_taken_off(s: Seq<char>)
    ensures
        without_eol(s.push('\n')) == without_eol(s),
        without_eol(s.push('\r')) == without_eol(s),
        s.len() == 0 || (s.last() != '\n' && s.last() != '\r') ==> without_eol(s) == s,
{
    assert(s.push('\n').drop_last() =~= s);
    assert(s.push('\r').drop_last() =~= s);
}

/// Padding on the left puts as many fillers in front as are missing.
pub proof fn padding_fills_the_front(s: Seq<char>, width: nat, fill: char)
    ensures
        pad_left(s, width, fill).len() == if s.len() >= width {
            s.len()
        } else {
            width
        },
        pad_left(s, width, fill).skip(pad_left(s, width, fill).len() - s.len()) == s,
        forall|i: int|
            0 <= i < pad_left(s, width, fill).len() - s.len() ==> #[trigger] pad_left(
                s,
                width,
                fill,
            )[i] == fill,
    decreases width - s.len(),
{
    let r = pad_left(s, width, fill);
    if s.len() >= width {
        assert(r.skip(0) =~= s);
    } else {
        let t = seq![fill] + s;
        padding_fills_the_front(t, width, fill);
        let k = r.len() - t.len();
        assert(r.skip(k) == t);
        assert(r[k] == r.skip(k)[0]);
        assert(r.skip(k + 1) =~= r.skip(k).skip(1));
        assert(t.skip(1) =~= s);
        assert forall|i: int| 0 <= i < r.len() - s.len() implies #[trigger] r[i] == fill by {
            if i < k {
            } else {
                assert(i == k);
            }
        }
    }
}

/// Padding on the right puts as many fillers behind as are missing.
pub proof fn padding_fills_the_back(s: Seq<char>, width: nat, fill: char)
    ensures
        pad_right(s, width, fill).len() == if s.len() >= width {
            s.len()
        } else {
            width
        },
        pad_right(s, width, fill).take(s.len() as int) == s,
        forall|i: int|
            s.len() <= i < pad_right(s, width, fill).len() ==> #[trigger] pad_right(
                s,
                width,
                fill,
            )[i] == fill,
    decreases width - s.len(),
{
    let r = pad_right(s, width, fill);
    let n = s.len() as int;
    if s.len() >= width {
        assert(r.take(n) =~= s);
    } else {
        let t = s.push(fill);
        padding_fills_the_back(t, width, fill);
        assert(r.take(n) =~= r.take(n + 1).take(n));
        assert(t.take(n) =~= s);
        assert(r[n] == r.take(n + 1)[n]);
    }
}

/// A text that is too long is cut, and an ellipsis says so.
pub proof fn a_long_text_is_cut(s: Seq<char>, max: int)
    requires
        0 <= max,
    ensures
        s.len() <= max ==> truncated(s, max) == s,
        s.len() > max ==> truncated(s, max).len() == max + 1 && truncated(s, max).take(max)
            == s.take(max) && truncated(s, max)[max] == '…',
{
    if s.len() > max {
        assert(truncated(s, max).take(max) =~= s.take(max));
    }
}

/// On one line a text is its words with one space between them.
pub proof fn on_one_line_words_have_one_space(s: Seq<char>)
    ensures
        collapsed(s) == join(words(s), " "@),
{
    reveal_strlit(" ");
    assert(" "@ =~= seq![' ']);
}

/// Ellipses are taken off the end of a title, and nothing else.
pub proof fn ellipses_are_taken_off(s: Seq<char>)
    ensures
        without_ellipsis(s.push('…')) == without_ellipsis(s),
        s.len() == 0 || s.last() != '…' ==> without_ellipsis(s) == s,
{
    assert(s.push('…').drop_last() =~= s);
}

// ---------------------------------------------------------------------
// Numbers
// ---------------------------------------------------------------------

/// Numbers are written in decimal, the highest digit first, without leading zeros.
pub proof fn numbers_are_written_in_decimal(n: nat, d: nat)
    requires
        d < 10,
    ensures
        decimal_nat(d).len() == 1,
        decimal_nat(d)[0] as u32 == 48 + d,
        n > 0 ==> decimal_nat(10 * n + d) == decimal_nat(n) + decimal_nat(d),
        decimal(n as int) == decimal_nat(n),
        n > 0 ==> decimal(-(n as int)) == seq!['-'] + decimal_nat(n),
{
    if n > 0 {
        let m = 10 * n + d;
        assert(m / 10 == n && m % 10 == d);
        assert(decimal_nat(m) =~= decimal_nat(n) + decimal_nat(d));
    }
}

/// A number is read from its digits, with a `+` before them or without, where it is not
/// too large; from anything else nothing is read.
pub proof fn numbers_are_read_from_digits(s: Seq<char>, max: int)
    ensures
        s.len() == 0 ==> unsigned(s, max) is None && signed(s) is None,
        (exists|i: int| 1 <= i < s.len() && !('0' <= #[trigger] s[i] <= '9')) ==> unsigned(s, max)
            is None && signed(s) is None,
        s.len() > 0 && !('0' <= s[0] <= '9') && s[0] != '+' ==> unsigned(s, max) is None,
        s.len() > 0 && !('0' <= s[0] <= '9') && s[0] != '+' && s[0] != '-' ==> signed(s) is None,
        s.len() == 1 && !('0' <= s[0] <= '9') ==> unsigned(s, max) is None && signed(s) is None,
{
    if s.len() > 0 {
        let t = s.skip(1);
        if exists|i: int| 1 <= i < s.len() && !('0' <= #[trigger] s[i] <= '9') {
            let i = choose|i: int| 1 <= i < s.len() && !('0' <= #[trigger] s[i] <= '9');
            assert(t[i - 1] == s[i]);
            assert(!is_digit(t[i - 1]));
            assert(!all_digits(t));
            assert(!is_digit(s[i]));
            assert(!all_digits(s));
        }
        if !('0' <= s[0] <= '9') {
            assert(!is_digit(s[0]));
            assert(!all_digits(s));
        }
    }
}

/// What was written is read back: a number that is not too large, signed or not.
pub proof fn numbers_read_back(n: nat, max: int)
    ensures
        n <= max ==> unsigned(decimal_nat(n), max) == Some(n),
        n > max ==> unsigned(decimal_nat(n), max) is None,
        n <= max ==> unsigned(seq!['+'] + decimal_nat(n), max) == Some(n),
        n <= i64::MAX ==> signed(decimal_nat(n)) == Some(n as int),
        0 < n <= i64::MAX + 1 ==> signed(seq!['-'] + decimal_nat(n)) == Some(-(n as int)),
{
    lemma_decimal_digits(n);
    let s = decimal_nat(n);
    assert(is_digit(s[0]));
    assert((seq!['+'] + s).skip(1) =~= s);
    assert((seq!['-'] + s).skip(1) =~= s);
}

// ---------------------------------------------------------------------
// Dates
// ---------------------------------------------------------------------

/// Every fourth year is a leap year, but for the hundreds that are no four hundreds; the
/// months have the days they have.
pub proof fn years_and_months(y: int, m: int)
    requires
        1 <= m <= 12,
    ensures
        is_leap(y) <==> (y % 4 == 0 && y % 100 != 0) || y % 400 == 0,
        m == 1 || m == 3 || m == 5 || m == 7 || m == 8 || m == 10 || m == 12 ==> days_in_month(y, m)
            == 31,
        m == 4 || m == 6 || m == 9 || m == 11 ==> days_in_month(y, m) == 30,
        m == 2 && is_leap(y) ==> days_in_month(y, m) == 29,
        m == 2 && !is_leap(y) ==> days_in_month(y, m) == 28,
{
}

/// The days are counted from the first of January 1970, and each day follows the one
/// before it: within a month, into the next month, into the next year.
pub proof fn days_follow_each_other(y: int, m: int, d: int)
    requires
        1 <= m <= 12,
    ensures
        day_number(1970, 1, 1) == 0,
        day_number(y, m, d + 1) == day_number(y, m, d) + 1,
        m < 12 ==> day_number(y, m + 1, 1) == day_number(y, m, days_in_month(y, m)) + 1,
        day_number(y + 1, 1, 1) == day_number(y, 12, 31) + 1,
{
    assert(days_before_month(1970, 1) == 0);
    assert(days_before_month(y + 1, 1) == 0);
    assert(days_before_month(y, 1) == 0);
    assert(days_before_month(y, 2) == 31);
    assert(days_before_month(y, 3) == 31 + days_in_month(y, 2));
    assert(days_before_month(y, 4) == 62 + days_in_month(y, 2));
    assert(days_before_month(y, 5) == 92 + days_in_month(y, 2));
    assert(days_before_month(y, 6) == 123 + days_in_month(y, 2));
    assert(days_before_month(y, 7) == 153 + days_in_month(y, 2));
    assert(days_before_month(y, 8) == 184 + days_in_month(y, 2));
    assert(days_before_month(y, 9) == 215 + days_in_month(y, 2));
    assert(days_before_month(y, 10) == 245 + days_in_month(y, 2));
    assert(days_before_month(y, 11) == 276 + days_in_month(y, 2));
    assert(days_before_month(y, 12) == 306 + days_in_month(y, 2));
    assert(leaps_through(y) - leaps_through(y - 1) == if is_leap(y) {
        1int
    } else {
        0
    });
    if m < 12 {
        assert(days_before_month(y, m + 1) == days_before_month(y, m) + days_in_month(y, m));
    }
}

/// A time is shown by the date of its day: month and day with two digits each, the year
/// with four in front.
pub proof fn a_time_is_shown_by_its_date(y: int, m: int, d: int, s: int)
    requires
        valid_date(y, m, d),
        0 <= y <= 9999,
        0 <= s < 86_400,
    ensures
        ({
            let t = month_day_text(day_number(y, m, d) * 86_400 + s);
            &&& t.len() == 5
            &&& t[0] as u32 == 48 + m / 10
            &&& t[1] as u32 == 48 + m % 10
            &&& t[2] == '-'
            &&& t[3] as u32 == 48 + d / 10
            &&& t[4] as u32 == 48 + d % 10
        }),
        ({
            let t = full_date_text(day_number(y, m, d) * 86_400 + s);
            &&& t.len() == 10
            &&& t[0] as u32 == 48 + y / 1000
            &&& t[1] as u32 == 48 + (y / 100) % 10
            &&& t[2] as u32 == 48 + (y / 10) % 10
            &&& t[3] as u32 == 48 + y % 10
            &&& t[4] == '-'
            &&& t.skip(5) == month_day_text(day_number(y, m, d) * 86_400 + s)
        }),
{
    let z = day_number(y, m, d);
    let unix = z * 86_400 + s;
    assert(unix / 86_400 == z) by (nonlinear_arith)
        requires
            unix == z * 86_400 + s,
            0 <= s < 86_400,
    ;
    let w: (int, int, int) = (y, m, d);
    assert(is_date_of(z, w.0, w.1, w.2));
    let t = date_of(z);
    date_is_unique(y, m, d, t.0, t.1, t.2);
    assert(t == (y, m, d));
    assert(d <= 31);
    lemma_two_digits(m);
    lemma_two_digits(d);
    lemma_four_digits(y);
    let full = full_date_text(unix);
    assert(full.skip(5) =~= month_day_text(unix));
}

proof fn lemma_two_digits(n: int)
    requires
        0 <= n <= 99,
    ensures
        two_digits(n).len() == 2,
        two_digits(n)[0] as u32 == 48 + n / 10,
        two_digits(n)[1] as u32 == 48 + n % 10,
{
    if n < 10 {
        numbers_are_written_in_decimal(0, n as nat);
    } else {
        numbers_are_written_in_decimal(n as nat / 10, n as nat % 10);
        numbers_are_written_in_decimal(0, n as nat / 10);
    }
    padding_fills_the_front(decimal(n), 2, '0');
    let r = two_digits(n);
    let s = decimal(n);
    let k = r.len() - s.len();
    assert(r[k] == r.skip(k)[0]);
    assert(r[1] == r.skip(k)[1 - k]);
}

proof fn lemma_four_digits(y: int)
    requires
        0 <= y <= 9999,
    ensures
        year_digits(y).len() == 4,
        year_digits(y)[0] as u32 == 48 + y / 1000,
        year_digits(y)[1] as u32 == 48 + (y / 100) % 10,
        year_digits(y)[2] as u32 == 48 + (y / 10) % 10,
        year_digits(y)[3] as u32 == 48 + y % 10,
{
    let n = y as nat;
    let s = decimal(y);
    numbers_are_written_in_decimal(n / 10, n % 10);
    numbers_are_written_in_decimal(n / 100, (n / 10) % 10);
    numbers_are_written_in_decimal(n / 1000, (n / 100) % 10);
    numbers_are_written_in_decimal(0, n / 1000);
    assert(n == 10 * (n / 10) + n % 10);
    assert(n / 10 == 10 * (n / 100) + (n / 10) % 10);
    assert(n / 100 == 10 * (n / 1000) + (n / 100) % 10);
    padding_fills_the_front(s, 4, '0');
    let r = year_digits(y);
    let k = r.len() - s.len();
    assert(r.skip(k) == s);
    if n < 10 {
        assert(k == 3);
        assert(r[3] == r.skip(k)[0]);
    } else if n < 100 {
        assert(k == 2);
        assert(r[2] == r.skip(k)[0]);
        assert(r[3] == r.skip(k)[1]);
    } else if n < 1000 {
        assert(k == 1);
        assert(r[1] == r.skip(k)[0]);
        assert(r[2] == r.skip(k)[1]);
        assert(r[3] == r.skip(k)[2]);
    } else {
        assert(k == 0);
        assert(r.skip(0) =~= r);
    }
}

// ---------------------------------------------------------------------
// Patterns and paths
// ---------------------------------------------------------------------

/// A pattern matches a text: the empty one the empty text, one character itself, the
/// joker for one any character, the joker for many any stretch.
pub proof fn patterns_match_character_by_character(
    p: Seq<char>,
    t: Seq<char>,
    c: char,
    x: char,
    many: char,
    one: char,
)
    requires
        many != one,
    ensures
        wild(Seq::empty(), t, many, one) <==> t.len() == 0,
        c != many && c != one ==> (wild(seq![c] + p, seq![x] + t, many, one) <==> c == x && wild(
            p,
            t,
            many,
            one,
        )),
        wild(seq![one] + p, seq![x] + t, many, one) <==> wild(p, t, many, one),
        c != many ==> !wild(seq![c] + p, Seq::empty(), many, one),
        wild(seq![many] + p, t, many, one) <==> exists|k: int|
            0 <= k <= t.len() && wild(p, #[trigger] t.skip(k), many, one),
{
    assert((seq![c] + p).skip(1) =~= p);
    assert((seq![one] + p).skip(1) =~= p);
    assert((seq![many] + p).skip(1) =~= p);
    assert((seq![x] + t).skip(1) =~= t);
}

/// The name of a file is what stands behind the last slash of its path.
pub proof fn a_file_is_named_behind_the_last_slash(dir: Seq<char>, name: Seq<char>)
    requires
        name.len() > 0,
        forall|k: int| 0 <= k < name.len() ==> #[trigger] name[k] != '/',
        name != "."@,
        name != ".."@,
    ensures
        file_name(name) == Some(name),
        file_name(dir + "/"@ + name) == Some(name),
{
    reveal_strlit("/");
    let d = Delim::Char('/');
    assert("/"@ =~= seq!['/']);
    lemma_split_at(dir, '/', name, d);
    lemma_nonempty_concat(split(dir, d), split(name, d));
    lemma_unsplit(name, d);
    assert(seq![name].drop_last() =~= Seq::<Seq<char>>::empty());
    assert(nonempty(seq![name]) =~= seq![name]) by {
        assert(nonempty(Seq::<Seq<char>>::empty()) =~= Seq::<Seq<char>>::empty());
    }
    let f = fields(dir + "/"@ + name, d);
    assert(f =~= fields(dir, d).push(name));
    assert(f.drop_last() =~= fields(dir, d));
    assert(kept(f, not_dot()) =~= kept(fields(dir, d), not_dot()).push(name));
    let g = fields(name, d);
    assert(g =~= seq![name]);
    assert(kept(Seq::<Seq<char>>::empty(), not_dot()) =~= Seq::<Seq<char>>::empty());
    assert(kept(g, not_dot()) =~= seq![name]);
}

proof fn lemma_last_dot(a: Seq<char>, e: Seq<char>)
    requires
        forall|k: int| 0 <= k < e.len() ==> #[trigger] e[k] != '.',
    ensures
        last_dot(a + seq!['.'] + e) == a.len(),
    decreases e.len(),
{
    let s = a + seq!['.'] + e;
    if e.len() > 0 {
        let f = e.drop_last();
        assert forall|k: int| 0 <= k < f.len() implies #[trigger] f[k] != '.' by {
            assert(f[k] == e[k]);
        }
        assert(s.drop_last() =~= a + seq!['.'] + f);
        assert(s.last() == e[e.len() - 1]);
        lemma_last_dot(a, f);
    } else {
        assert(s.last() == '.');
    }
}

proof fn lemma_no_dot(e: Seq<char>)
    requires
        forall|k: int| 0 <= k < e.len() ==> #[trigger] e[k] != '.',
    ensures
        last_dot(e) == -1,
    decreases e.len(),
{
    if e.len() > 0 {
        let f = e.drop_last();
        assert(e[e.len() - 1] != '.');
        assert forall|k: int| 0 <= k < f.len() implies #[trigger] f[k] != '.' by {
            assert(f[k] == e[k]);
        }
        lemma_no_dot(f);
    }
}

/// The ending of a name is what stands behind its last dot, unless that is its first
/// character; a name without a dot has none.
pub proof fn an_ending_stands_behind_the_last_dot(a: Seq<char>, e: Seq<char>)
    requires
        forall|k: int| 0 <= k < e.len() ==> #[trigger] e[k] != '.',
    ensures
        a.len() > 0 ==> extension(a + seq!['.'] + e) == e,
        extension(seq!['.'] + e).len() == 0,
        extension(e).len() == 0,
        file_name(a + seq!['.'] + e) == Some(a + seq!['.'] + e) && a.len() > 0 ==> file_stem(
            a + seq!['.'] + e,
        ) == Some(a),
        file_name(e) == Some(e) ==> file_stem(e) == Some(e),
{
    lemma_last_dot(a, e);
    let none = Seq::<char>::empty();
    lemma_last_dot(none, e);
    assert(none + seq!['.'] + e =~= seq!['.'] + e);
    lemma_no_dot(e);
    let s = a + seq!['.'] + e;
    assert(s.skip(a.len() as int + 1) =~= e);
    assert(s.take(a.len() as int) =~= a);
}

/// A name is put below a directory with one slash between them.
pub proof fn one_slash_stands_between(dir: Seq<char>, name: Seq<char>)
    ensures
        dir.len() > 0 && dir.last() != '/' ==> below(dir, name) == dir + "/"@ + name,
        dir.len() == 0 || dir.last() == '/' ==> below(dir, name) == dir + name,
{
}

/// A date is one where its month is, and its day is one of the month's.
pub proof fn which_dates_there_are(y: int, m: int, d: int)
    ensures
        valid_date(y, m, d) <==> 1 <= m && m <= 12 && 1 <= d && d <= days_in_month(y, m),
        is_date_of(day_number(y, m, d), y, m, d) <==> valid_date(y, m, d),
{
}

} // verus!
