//! Strings as sequences of characters.
//!
//! Everything the library computes on text is stated over `Seq<char>`, the
//! view of `str` and `String`. This module holds that vocabulary.

use vstd::prelude::*;
use vstd::utf8::encode_utf8;
#[allow(unused_imports)]
use vstd::string::*;

verus! {

// ---------------------------------------------------------------------
// Characters
// ---------------------------------------------------------------------

/// The characters with Unicode's `White_Space` property.
pub open spec fn is_space(c: char) -> bool {
    let n = c as u32;
    ||| 0x9 <= n <= 0xD
    ||| n == 0x20
    ||| n == 0x85
    ||| n == 0xA0
    ||| n == 0x1680
    ||| 0x2000 <= n <= 0x200A
    ||| n == 0x2028
    ||| n == 0x2029
    ||| n == 0x202F
    ||| n == 0x205F
    ||| n == 0x3000
}

/// Specifies `char::is_whitespace`: it holds of exactly the characters with
/// the `White_Space` property, listed in [`is_space`].
pub assume_specification[ char::is_whitespace ](c: char) -> (r: bool)
    ensures
        r == is_space(c),
;

/// What `char::is_alphanumeric` answers of a character beyond ASCII.
pub uninterp spec fn unicode_alnum(c: char) -> bool;

/// ASCII letters and digits.
pub open spec fn is_ascii_alnum(c: char) -> bool {
    ('0' <= c && c <= '9') || ('a' <= c && c <= 'z') || ('A' <= c && c <= 'Z')
}

/// Letters and digits.
pub open spec fn is_alnum(c: char) -> bool {
    if (c as u32) < 0x80 {
        is_ascii_alnum(c)
    } else {
        unicode_alnum(c)
    }
}

/// Specifies `char::is_alphanumeric`: Unicode's tables decide, and among the
/// ASCII characters they pick the letters and the digits.
pub assume_specification[ char::is_alphanumeric ](c: char) -> (r: bool)
    ensures
        (c as u32) < 0x80 ==> r == is_ascii_alnum(c),
        (c as u32) >= 0x80 ==> r == unicode_alnum(c),
;

/// Specifies `String::push`: it appends one character.
pub assume_specification[ String::push ](s: &mut String, c: char)
    ensures
        final(s)@ == old(s)@.push(c),
;

/// The characters of `s`.
pub fn chars_of(s: &str) -> (r: Vec<char>)
    ensures
        r@ == s@,
{
    let mut v: Vec<char> = Vec::new();
    for c in it: s.chars()
        invariant
            v@ == s@.take(it.index()),
            it.seq() == s@,
    {
        v.push(c);
    }
    v
}

/// The string of `v[from..to]`.
pub fn string_of(v: &Vec<char>, from: usize, to: usize) -> (r: String)
    requires
        from <= to <= v@.len(),
    ensures
        r@ == v@.subrange(from as int, to as int),
{
    let mut s = String::new();
    let mut i: usize = from;
    while i < to
        invariant
            from <= i <= to <= v@.len(),
            s@ == v@.subrange(from as int, i as int),
        decreases to - i,
    {
        s.push(v[i]);
        i += 1;
    }
    s
}

/// Specifies `==` on `str`: two strings are equal when they hold the same
/// characters in the same order.
pub assume_specification[ <str as PartialEq<str>>::eq ](a: &str, b: &str) -> (r: bool)
    ensures
        r == (a@ == b@),
;

/// Whether two strings hold the same characters.
pub fn same(a: &str, b: &str) -> (r: bool)
    ensures
        r == (a@ == b@),
{
    a.eq(b)
}

/// Number of bytes of the UTF-8 encoding of `s`.
pub open spec fn utf8_len(s: Seq<char>) -> nat {
    encode_utf8(s).len()
}

/// Number of bytes of `s`.
pub fn byte_len(s: &str) -> (r: usize)
    ensures
        r == utf8_len(s@),
{
    s.as_bytes().len()
}

/// The views of a list of strings.
pub open spec fn texts(v: Seq<String>) -> Seq<Seq<char>> {
    Seq::new(v.len(), |i: int| v[i]@)
}

pub broadcast proof fn lemma_texts_push(v: Seq<String>, s: String)
    ensures
        #[trigger] texts(v.push(s)) == texts(v).push(s@),
{
    assert(texts(v.push(s)) =~= texts(v).push(s@));
}

pub broadcast proof fn lemma_texts_empty()
    ensures
        #[trigger] texts(Seq::<String>::empty()) == Seq::<Seq<char>>::empty(),
{
    assert(texts(Seq::<String>::empty()) =~= Seq::<Seq<char>>::empty());
}

// ---------------------------------------------------------------------
// Trimming
// ---------------------------------------------------------------------

/// `s` without its leading whitespace.
pub open spec fn trim_start(s: Seq<char>) -> Seq<char>
    decreases s.len(),
{
    if s.len() > 0 && is_space(s[0]) {
        trim_start(s.skip(1))
    } else {
        s
    }
}

/// `s` without its trailing whitespace.
pub open spec fn trim_end(s: Seq<char>) -> Seq<char>
    decreases s.len(),
{
    if s.len() > 0 && is_space(s.last()) {
        trim_end(s.drop_last())
    } else {
        s
    }
}

/// `s` without leading and trailing whitespace.
pub open spec fn trim(s: Seq<char>) -> Seq<char> {
    trim_end(trim_start(s))
}

proof fn lemma_trim_start_skip(s: Seq<char>, n: int)
    requires
        0 <= n <= s.len(),
        forall|i: int| 0 <= i < n ==> is_space(#[trigger] s[i]),
    ensures
        trim_start(s) == trim_start(s.skip(n)),
    decreases n,
{
    if n > 0 {
        assert(is_space(s[0]));
        let t = s.skip(1);
        assert forall|i: int| 0 <= i < n - 1 implies is_space(#[trigger] t[i]) by {
            assert(t[i] == s[i + 1]);
        }
        lemma_trim_start_skip(t, n - 1);
        assert(t.skip(n - 1) =~= s.skip(n));
    } else {
        assert(s.skip(0) =~= s);
    }
}

proof fn lemma_trim_end_take(s: Seq<char>, n: int)
    requires
        0 <= n <= s.len(),
        forall|i: int| n <= i < s.len() ==> is_space(#[trigger] s[i]),
    ensures
        trim_end(s) == trim_end(s.take(n)),
    decreases s.len() - n,
{
    if n < s.len() {
        assert(is_space(s[s.len() - 1]));
        let t = s.drop_last();
        assert forall|i: int| n <= i < t.len() implies is_space(#[trigger] t[i]) by {
            assert(t[i] == s[i]);
        }
        lemma_trim_end_take(t, n);
        assert(t.take(n) =~= s.take(n));
    } else {
        assert(s.take(n) =~= s);
    }
}

/// Position of the first character at or after `from` that is not whitespace,
/// or the end.
fn skip_spaces(v: &Vec<char>, from: usize) -> (r: usize)
    requires
        from <= v@.len(),
    ensures
        from <= r <= v@.len(),
        forall|i: int| from <= i < r ==> is_space(#[trigger] v@[i]),
        r < v@.len() ==> !is_space(v@[r as int]),
{
    let mut i: usize = from;
    while i < v.len() && v[i].is_whitespace()
        invariant
            from <= i <= v@.len(),
            forall|k: int| from <= k < i ==> is_space(#[trigger] v@[k]),
        decreases v@.len() - i,
    {
        i += 1;
    }
    i
}

/// Position just behind the last character before `to` and not before `from`
/// that is not whitespace, or `from`.
fn skip_spaces_back(v: &Vec<char>, from: usize, to: usize) -> (r: usize)
    requires
        from <= to <= v@.len(),
    ensures
        from <= r <= to,
        forall|i: int| r <= i < to ==> is_space(#[trigger] v@[i]),
        r > from ==> !is_space(v@[r - 1]),
{
    let mut i: usize = to;
    while i > from && v[i - 1].is_whitespace()
        invariant
            from <= i <= to <= v@.len(),
            forall|k: int| i <= k < to ==> is_space(#[trigger] v@[k]),
        decreases i,
    {
        i -= 1;
    }
    i
}

/// `str::trim`.
pub fn trimmed(s: &str) -> (r: String)
    ensures
        r@ == trim(s@),
{
    let v = chars_of(s);
    let a = skip_spaces(&v, 0);
    let b = skip_spaces_back(&v, a, v.len());
    proof {
        lemma_trim_bounds(v@, a as int, b as int);
    }
    string_of(&v, a, b)
}

/// Cutting the whitespace off both ends of `s` leaves `s[a..b]`.
proof fn lemma_trim_bounds(s: Seq<char>, a: int, b: int)
    requires
        0 <= a <= b <= s.len(),
        forall|i: int| 0 <= i < a ==> is_space(#[trigger] s[i]),
        a < s.len() ==> !is_space(s[a]),
        forall|i: int| b <= i < s.len() ==> is_space(#[trigger] s[i]),
        b > a ==> !is_space(s[b - 1]),
    ensures
        trim(s) == s.subrange(a, b),
{
    lemma_trim_start_skip(s, a);
    let t = s.skip(a);
    assert(trim_start(t) == t) by {
        if t.len() > 0 {
            assert(t[0] == s[a]);
        }
    }
    assert forall|i: int| b - a <= i < t.len() implies is_space(#[trigger] t[i]) by {
        assert(t[i] == s[i + a]);
    }
    lemma_trim_end_take(t, b - a);
    let u = t.take(b - a);
    assert(u =~= s.subrange(a, b));
    if u.len() > 0 {
        assert(u.last() == s[b - 1]);
    }
}

/// What trimming leaves is a stretch of the string.
pub proof fn lemma_trim_is_part(s: Seq<char>)
    ensures
        exists|a: int, b: int|
            0 <= a <= b <= s.len() && trim(s) == #[trigger] s.subrange(a, b),
{
    lemma_trim_start_is_part(s);
    let a = s.len() - trim_start(s).len();
    let t = trim_start(s);
    lemma_trim_end_is_part(t);
    let b = a + trim_end(t).len();
    assert(trim(s) =~= s.subrange(a as int, b as int));
}

proof fn lemma_trim_start_is_part(s: Seq<char>)
    ensures
        trim_start(s).len() <= s.len(),
        trim_start(s) == s.skip(s.len() - trim_start(s).len()),
    decreases s.len(),
{
    if s.len() > 0 && is_space(s[0]) {
        lemma_trim_start_is_part(s.skip(1));
        assert(trim_start(s) =~= s.skip(s.len() - trim_start(s).len()));
    } else {
        assert(s.skip(0) =~= s);
    }
}

proof fn lemma_trim_end_is_part(s: Seq<char>)
    ensures
        trim_end(s).len() <= s.len(),
        trim_end(s) == s.take(trim_end(s).len() as int),
    decreases s.len(),
{
    if s.len() > 0 && is_space(s.last()) {
        lemma_trim_end_is_part(s.drop_last());
        assert(trim_end(s) =~= s.take(trim_end(s).len() as int));
    } else {
        assert(s.take(s.len() as int) =~= s);
    }
}

/// `str::trim_end`.
pub fn trimmed_end(s: &str) -> (r: String)
    ensures
        r@ == trim_end(s@),
{
    let v = chars_of(s);
    let b = skip_spaces_back(&v, 0, v.len());
    proof {
        lemma_trim_end_take(v@, b as int);
        assert(v@.take(b as int) =~= v@.subrange(0, b as int));
        if b > 0 {
            assert(v@.take(b as int).last() == v@[b - 1]);
        }
    }
    string_of(&v, 0, b)
}

/// `str::trim_start`.
pub fn trimmed_start(s: &str) -> (r: String)
    ensures
        r@ == trim_start(s@),
{
    let v = chars_of(s);
    let a = skip_spaces(&v, 0);
    proof {
        lemma_trim_start_skip(v@, a as int);
        assert(v@.skip(a as int) =~= v@.subrange(a as int, v@.len() as int));
        if a < v@.len() {
            assert(v@.skip(a as int)[0] == v@[a as int]);
        }
    }
    string_of(&v, a, v.len())
}

// ---------------------------------------------------------------------
// Splitting and joining
// ---------------------------------------------------------------------

/// Which characters separate the pieces of a string.
#[derive(Clone, Copy)]
pub enum Delim {
    /// One character.
    Char(char),
    /// Whitespace.
    Space,
    /// Whitespace and both kinds of quotes.
    SpaceOrQuote,
    /// Everything but letters, digits, `_`, `-` and `.`.
    NonToken,
}

impl Delim {
    /// Whether `c` separates.
    pub open spec fn holds(self, c: char) -> bool {
        match self {
            Delim::Char(d) => c == d,
            Delim::Space => is_space(c),
            Delim::SpaceOrQuote => is_space(c) || c == '"' || c == '\'',
            Delim::NonToken => !is_alnum(c) && c != '_' && c != '-' && c != '.',
        }
    }

    fn test(self, c: char) -> (r: bool)
        ensures
            r == self.holds(c),
    {
        match self {
            Delim::Char(d) => c == d,
            Delim::Space => c.is_whitespace(),
            Delim::SpaceOrQuote => c.is_whitespace() || c == '"' || c == '\'',
            Delim::NonToken => !c.is_alphanumeric() && c != '_' && c != '-' && c != '.',
        }
    }
}

/// The pieces of `s` between separators, in order: one more than there are
/// separators, empty ones included.
pub open spec fn split(s: Seq<char>, d: Delim) -> Seq<Seq<char>>
    decreases s.len(),
{
    if s.len() == 0 {
        seq![Seq::empty()]
    } else {
        let r = split(s.drop_last(), d);
        if d.holds(s.last()) {
            r.push(Seq::empty())
        } else {
            r.drop_last().push(r.last().push(s.last()))
        }
    }
}

/// The pieces that are not empty, in order.
pub open spec fn nonempty(p: Seq<Seq<char>>) -> Seq<Seq<char>>
    decreases p.len(),
{
    if p.len() == 0 {
        Seq::empty()
    } else if p.last().len() > 0 {
        nonempty(p.drop_last()).push(p.last())
    } else {
        nonempty(p.drop_last())
    }
}

/// The nonempty pieces of `s` between separators.
pub open spec fn fields(s: Seq<char>, d: Delim) -> Seq<Seq<char>> {
    nonempty(split(s, d))
}

/// The whitespace-separated words of `s`.
pub open spec fn words(s: Seq<char>) -> Seq<Seq<char>> {
    fields(s, Delim::Space)
}

/// The pieces with `sep` between each two.
pub open spec fn join(p: Seq<Seq<char>>, sep: Seq<char>) -> Seq<char>
    decreases p.len(),
{
    if p.len() == 0 {
        Seq::empty()
    } else if p.len() == 1 {
        p[0]
    } else {
        join(p.drop_last(), sep) + sep + p.last()
    }
}

/// A string has at least one piece.
pub proof fn lemma_split_len(s: Seq<char>, d: Delim)
    ensures
        split(s, d).len() >= 1,
    decreases s.len(),
{
    if s.len() > 0 {
        lemma_split_len(s.drop_last(), d);
    }
}

proof fn lemma_nonempty_push(p: Seq<Seq<char>>, w: Seq<char>)
    ensures
        nonempty(p.push(w)) == if w.len() > 0 { nonempty(p).push(w) } else { nonempty(p) },
{
    assert(p.push(w).drop_last() =~= p);
}

/// All pieces of `s` between separators.
pub fn split_all(s: &str, d: Delim) -> (r: Vec<String>)
    ensures
        texts(r@) == split(s@, d),
{
    broadcast use {lemma_texts_push, lemma_texts_empty};
    let v = chars_of(s);
    let mut out: Vec<String> = Vec::new();
    let mut cur = String::new();
    let mut i: usize = 0;
    assert(texts(out@).push(cur@) =~= split(v@.take(0), d));
    while i < v.len()
        invariant
            0 <= i <= v@.len(),
            texts(out@).push(cur@) == split(v@.take(i as int), d),
        decreases v@.len() - i,
    {
        let c = v[i];
        let ghost before = split(v@.take(i as int), d);
        proof {
            assert(v@.take(i + 1).drop_last() =~= v@.take(i as int));
            assert(v@.take(i + 1).last() == c);
            assert(before.drop_last() =~= texts(out@));
            assert(before.last() == cur@);
        }
        if d.test(c) {
            out.push(cur);
            cur = String::new();
        } else {
            cur.push(c);
        }
        i += 1;
    }
    out.push(cur);
    assert(v@.take(v@.len() as int) =~= s@);
    out
}

/// The nonempty pieces of `s` between separators.
pub fn split_fields(s: &str, d: Delim) -> (r: Vec<String>)
    ensures
        texts(r@) == fields(s@, d),
{
    broadcast use {lemma_texts_push, lemma_texts_empty};
    let all = split_all(s, d);
    keep_nonempty(all)
}

/// The nonempty strings of `all`, in order.
fn keep_nonempty(all: Vec<String>) -> (r: Vec<String>)
    ensures
        texts(r@) == nonempty(texts(all@)),
{
    broadcast use {lemma_texts_push, lemma_texts_empty};
    let mut out: Vec<String> = Vec::new();
    let mut i: usize = 0;
    assert(texts(all@).take(0) =~= Seq::empty());
    while i < all.len()
        invariant
            0 <= i <= all@.len(),
            texts(out@) == nonempty(texts(all@).take(i as int)),
        decreases all@.len() - i,
    {
        proof {
            assert(texts(all@).take(i + 1) =~= texts(all@).take(i as int).push(all@[i as int]@));
            lemma_nonempty_push(texts(all@).take(i as int), all@[i as int]@);
        }
        let w = &all[i];
        if !w.as_str().is_empty() {
            out.push(w.clone());
        }
        i += 1;
    }
    assert(texts(all@).take(all@.len() as int) =~= texts(all@));
    out
}

/// The strings of `parts` with `sep` between each two.
pub fn joined(parts: &Vec<String>, sep: &str) -> (r: String)
    ensures
        r@ == join(texts(parts@), sep@),
{
    assert(texts(parts@).skip(0) =~= texts(parts@));
    joined_from(parts, 0, sep)
}

/// The strings of `parts[start..]` with `sep` between each two.
pub fn joined_from(parts: &Vec<String>, start: usize, sep: &str) -> (r: String)
    requires
        start <= parts@.len(),
    ensures
        r@ == join(texts(parts@).skip(start as int), sep@),
{
    let ghost all = texts(parts@).skip(start as int);
    let mut s = String::new();
    let mut i: usize = start;
    assert(all.take(0) =~= Seq::empty());
    while i < parts.len()
        invariant
            start <= i <= parts@.len(),
            all == texts(parts@).skip(start as int),
            s@ == join(all.take(i - start), sep@),
        decreases parts@.len() - i,
    {
        let ghost k = i - start;
        proof {
            assert(all.take(k + 1).drop_last() =~= all.take(k));
            assert(all.take(k + 1).last() == parts@[i as int]@);
        }
        if i > start {
            s.append(sep);
        }
        s.append(parts[i].as_str());
        proof {
            if k == 0 {
                assert(all.take(1)[0] == parts@[i as int]@);
                assert(s@ =~= parts@[i as int]@);
            }
        }
        i += 1;
    }
    assert(all.take(all.len() as int) =~= all);
    s
}

// ---------------------------------------------------------------------
// Lines
// ---------------------------------------------------------------------

/// `s` without one trailing carriage return.
pub open spec fn strip_cr(s: Seq<char>) -> Seq<char> {
    if s.len() > 0 && s.last() == '\r' {
        s.drop_last()
    } else {
        s
    }
}

/// The lines of `s`: pieces between line feeds, a carriage return before a
/// line feed belonging to the line's end, and nothing after a final line feed.
pub open spec fn lines(s: Seq<char>) -> Seq<Seq<char>> {
    let p = split(s, Delim::Char('\n'));
    let heads = Seq::new((p.len() - 1) as nat, |i: int| strip_cr(p[i]));
    if p.last().len() == 0 {
        heads
    } else {
        heads.push(p.last())
    }
}

/// `s` without one trailing carriage return.
pub fn without_cr(s: &str) -> (r: String)
    ensures
        r@ == strip_cr(s@),
{
    let v = chars_of(s);
    let n: usize = v.len();
    if n > 0 && v[n - 1] == '\r' {
        assert(v@.subrange(0, n - 1) =~= v@.drop_last());
        string_of(&v, 0, n - 1)
    } else {
        assert(v@.subrange(0, n as int) =~= v@);
        string_of(&v, 0, n)
    }
}

/// `str::lines`.
pub fn lines_of(s: &str) -> (r: Vec<String>)
    ensures
        texts(r@) == lines(s@),
{
    broadcast use {lemma_texts_push, lemma_texts_empty};
    let pieces = split_all(s, Delim::Char('\n'));
    let ghost p = split(s@, Delim::Char('\n'));
    proof {
        lemma_split_len(s@, Delim::Char('\n'));
        assert(pieces@.len() == p.len());
    }
    let n: usize = pieces.len();
    let mut out: Vec<String> = Vec::new();
    let mut i: usize = 0;
    while i < n - 1
        invariant
            1 <= n == pieces@.len(),
            0 <= i <= n - 1,
            p == texts(pieces@),
            texts(out@) == Seq::new(i as nat, |k: int| strip_cr(p[k])),
        decreases n - i,
    {
        assert(p[i as int] == pieces@[i as int]@);
        let ghost before = texts(out@);
        let line = without_cr(pieces[i].as_str());
        out.push(line);
        assert(texts(out@) == before.push(strip_cr(p[i as int])));
        assert(texts(out@) =~= Seq::new((i + 1) as nat, |k: int| strip_cr(p[k])));
        i += 1;
    }
    assert(p.last() == pieces@[n - 1]@);
    if !pieces[n - 1].as_str().is_empty() {
        out.push(pieces[n - 1].clone());
    }
    out
}

// ---------------------------------------------------------------------
// Searching
// ---------------------------------------------------------------------

/// Whether `needle` stands in `hay` at position `i`.
pub open spec fn occurs_at(hay: Seq<char>, needle: Seq<char>, i: int) -> bool {
    0 <= i && i + needle.len() <= hay.len() && hay.subrange(i, i + needle.len()) == needle
}

/// Whether `hay` holds `needle`.
pub open spec fn contains(hay: Seq<char>, needle: Seq<char>) -> bool {
    exists|i: int| occurs_at(hay, needle, i)
}

/// Whether `s` begins with `prefix`.
pub open spec fn starts_with(s: Seq<char>, prefix: Seq<char>) -> bool {
    occurs_at(s, prefix, 0)
}

/// Whether `s` ends with `suffix`.
pub open spec fn ends_with(s: Seq<char>, suffix: Seq<char>) -> bool {
    occurs_at(s, suffix, s.len() - suffix.len())
}

/// Whether `needle` stands in `hay` at position `i`.
pub fn matches_at(hay: &Vec<char>, needle: &Vec<char>, i: usize) -> (r: bool)
    requires
        i <= hay@.len(),
    ensures
        r == occurs_at(hay@, needle@, i as int),
{
    let n: usize = needle.len();
    let m: usize = hay.len();
    if n > m - i {
        return false;
    }
    let mut k: usize = 0;
    while k < n
        invariant
            n == needle@.len(),
            k <= n,
            i + n <= m == hay@.len(),
            forall|j: int| 0 <= j < k ==> hay@[i + j] == #[trigger] needle@[j],
        decreases n - k,
    {
        if hay[i + k] != needle[k] {
            assert(hay@.subrange(i as int, i + n)[k as int] != needle@[k as int]);
            return false;
        }
        k += 1;
    }
    assert(hay@.subrange(i as int, i + n) =~= needle@);
    true
}

/// First position of `needle` in `hay`, at or after `from`.
pub fn find_from(hay: &Vec<char>, needle: &Vec<char>, from: usize) -> (r: Option<usize>)
    requires
        from <= hay@.len(),
    ensures
        match r {
            Some(i) => from <= i && occurs_at(hay@, needle@, i as int) && forall|k: int|
                from <= k < i ==> !occurs_at(hay@, needle@, k),
            None => forall|k: int| from <= k ==> !occurs_at(hay@, needle@, k),
        },
{
    let mut i: usize = from;
    loop
        invariant
            from <= i <= hay@.len(),
            forall|k: int| from <= k < i ==> !occurs_at(hay@, needle@, k),
        decreases hay@.len() - i,
    {
        if matches_at(hay, needle, i) {
            return Some(i);
        }
        if i >= hay.len() {
            return None;
        }
        i += 1;
    }
}

/// The first position of `needle` in `hay`, at or after `from`.
pub open spec fn find_in(hay: Seq<char>, needle: Seq<char>, from: int) -> Option<int>
    decreases hay.len() + 1 - from,
{
    if from < 0 || from > hay.len() {
        None
    } else if occurs_at(hay, needle, from) {
        Some(from)
    } else {
        find_in(hay, needle, from + 1)
    }
}

/// The first position of `needle` in `hay`, at or after `from`.
pub fn position(hay: &Vec<char>, needle: &str, from: usize) -> (r: Option<usize>)
    requires
        from <= hay@.len(),
    ensures
        match r {
            Some(i) => from <= i && i + needle@.len() <= hay@.len() && find_in(
                hay@,
                needle@,
                from as int,
            ) == Some(i as int),
            None => find_in(hay@, needle@, from as int) is None,
        },
{
    let n = chars_of(needle);
    let mut i: usize = from;
    loop
        invariant
            from <= i <= hay@.len(),
            n@ == needle@,
            find_in(hay@, needle@, i as int) == find_in(hay@, needle@, from as int),
        decreases hay@.len() - i,
    {
        if matches_at(hay, &n, i) {
            return Some(i);
        }
        if i >= hay.len() {
            assert(find_in(hay@, needle@, i + 1) is None);
            return None;
        }
        i += 1;
    }
}

/// `s` without any `suffix` at its end, however often it stands there.
pub open spec fn trim_suffixes(s: Seq<char>, suffix: Seq<char>) -> Seq<char>
    decreases s.len(),
{
    if suffix.len() > 0 && ends_with(s, suffix) {
        trim_suffixes(s.take(s.len() - suffix.len()), suffix)
    } else {
        s
    }
}

/// `str::trim_end_matches` of a string.
pub fn without_suffixes(s: &str, suffix: &str) -> (r: String)
    requires
        suffix@.len() > 0,
    ensures
        r@ == trim_suffixes(s@, suffix@),
{
    let mut cur = s.to_owned();
    loop
        invariant
            suffix@.len() > 0,
            trim_suffixes(cur@, suffix@) == trim_suffixes(s@, suffix@),
        decreases cur@.len(),
    {
        match without_suffix(cur.as_str(), suffix) {
            Some(t) => {
                cur = t;
            },
            None => {
                return cur;
            },
        }
    }
}

/// `s` with every `from` turned into `to`.
pub open spec fn replaced(s: Seq<char>, from: char, to: char) -> Seq<char> {
    Seq::new(
        s.len(),
        |i: int|
            if s[i] == from {
                to
            } else {
                s[i]
            },
    )
}

/// `str::replace` of a character by a character.
pub fn replace_char(s: &str, from: char, to: char) -> (r: String)
    ensures
        r@ == replaced(s@, from, to),
{
    let mut v = chars_of(s);
    let ghost want = replaced(s@, from, to);
    let mut i: usize = 0;
    while i < v.len()
        invariant
            i <= v@.len(),
            v@.len() == s@.len(),
            want == replaced(s@, from, to),
            forall|k: int| 0 <= k < i ==> v@[k] == want[k],
            forall|k: int| i <= k < v@.len() ==> v@[k] == s@[k],
        decreases v@.len() - i,
    {
        if v[i] == from {
            v.set(i, to);
        }
        i += 1;
    }
    assert(v@.subrange(0, v@.len() as int) =~= want);
    string_of(&v, 0, v.len())
}

/// `str::contains` of a string.
pub fn has(hay: &str, needle: &str) -> (r: bool)
    ensures
        r == contains(hay@, needle@),
{
    let h = chars_of(hay);
    let n = chars_of(needle);
    match find_from(&h, &n, 0) {
        Some(_) => true,
        None => false,
    }
}

/// `str::strip_prefix`.
pub fn without_prefix(s: &str, prefix: &str) -> (r: Option<String>)
    ensures
        match r {
            Some(t) => starts_with(s@, prefix@) && t@ == s@.skip(prefix@.len() as int),
            None => !starts_with(s@, prefix@),
        },
{
    let v = chars_of(s);
    let p = chars_of(prefix);
    if matches_at(&v, &p, 0) {
        assert(v@.subrange(p@.len() as int, v@.len() as int) =~= v@.skip(p@.len() as int));
        Some(string_of(&v, p.len(), v.len()))
    } else {
        None
    }
}

/// `str::strip_suffix`.
pub fn without_suffix(s: &str, suffix: &str) -> (r: Option<String>)
    ensures
        match r {
            Some(t) => ends_with(s@, suffix@) && t@ == s@.take(s@.len() - suffix@.len()),
            None => !ends_with(s@, suffix@),
        },
{
    let v = chars_of(s);
    let p = chars_of(suffix);
    if p.len() <= v.len() && matches_at(&v, &p, v.len() - p.len()) {
        assert(v@.subrange(0, v@.len() - p@.len()) =~= v@.take(v@.len() - p@.len()));
        Some(string_of(&v, 0, v.len() - p.len()))
    } else {
        None
    }
}

// ---------------------------------------------------------------------
// Case
// ---------------------------------------------------------------------

/// What `str::to_lowercase` makes of a string.
pub uninterp spec fn lowercase(s: Seq<char>) -> Seq<char>;

/// `c` with an ASCII capital turned into the small letter.
pub open spec fn ascii_lower(c: char) -> char {
    if 'A' <= c && c <= 'Z' {
        ((c as u32) + 0x20) as char
    } else {
        c
    }
}

/// Whether every character is ASCII.
pub open spec fn all_ascii(s: Seq<char>) -> bool {
    forall|i: int| 0 <= i < s.len() ==> (#[trigger] s[i] as u32) < 0x80
}

/// Whether a text has a letter or a digit.
pub open spec fn any_alnum(s: Seq<char>) -> bool {
    exists|i: int| 0 <= i < s.len() && is_alnum(#[trigger] s[i])
}

/// Punctuation that a token may begin or end with.
pub open spec fn is_edge(c: char) -> bool {
    c == '.' || c == '-' || c == '_'
}

/// What holds of every text `s` and its lower case `r`. On ASCII text each capital
/// becomes its small letter. No character is dropped, each becoming one or more.
/// The lower case of letters and digits has letters or digits. A full stop, hyphen
/// or underscore at the end stays, and leaves the text before it as it would be alone.
pub open spec fn is_lower_case(s: Seq<char>, r: Seq<char>) -> bool {
    &&& all_ascii(s) ==> r == all_lower(s)
    &&& s.len() > 0 ==> r.len() > 0
    &&& any_alnum(s) ==> any_alnum(r)
    &&& s.len() > 0 && is_edge(s.last()) ==> r == lowercase(s.drop_last()).push(s.last())
}

/// Specifies `str::to_lowercase`: Unicode's tables decide, and [`is_lower_case`] says
/// what holds of them. A character maps to one or more characters, whatever stands
/// around it, but for the capital sigma, which takes another form at the end of a
/// word; punctuation behind the word leaves that end where it is.
pub assume_specification[ str::to_lowercase ](s: &str) -> (r: String)
    ensures
        r@ == lowercase(s@),
        is_lower_case(s@, r@),
;

/// `char::to_ascii_lowercase`.
pub fn to_ascii_lower(c: char) -> (r: char)
    ensures
        r == ascii_lower(c),
{
    if 'A' <= c && c <= 'Z' {
        let n: u8 = c as u8;
        (n + 0x20) as char
    } else {
        c
    }
}

/// `s` with every ASCII capital turned into the small letter.
pub open spec fn all_lower(s: Seq<char>) -> Seq<char> {
    Seq::new(s.len(), |i: int| ascii_lower(s[i]))
}

/// `str::to_ascii_lowercase`.
pub fn lower_of(s: &str) -> (r: String)
    ensures
        r@ == all_lower(s@),
{
    let v = chars_of(s);
    let mut out = String::new();
    let mut i: usize = 0;
    while i < v.len()
        invariant
            i <= v@.len(),
            v@ == s@,
            out@ == all_lower(s@).take(i as int),
        decreases v@.len() - i,
    {
        out.push(to_ascii_lower(v[i]));
        assert(out@ =~= all_lower(s@).take(i + 1));
        i += 1;
    }
    assert(out@ =~= all_lower(s@));
    out
}

// ---------------------------------------------------------------------
// Numbers
// ---------------------------------------------------------------------

/// The character of a decimal digit.
pub open spec fn digit(d: int) -> char {
    (('0' as u32) + d) as char
}

/// `n` in decimal.
pub open spec fn decimal_nat(n: nat) -> Seq<char>
    decreases n,
{
    if n < 10 {
        seq![digit(n as int)]
    } else {
        decimal_nat(n / 10).push(digit((n % 10) as int))
    }
}

/// `n` in decimal, with a minus sign in front of a negative one.
pub open spec fn decimal(n: int) -> Seq<char> {
    if n < 0 {
        seq!['-'] + decimal_nat((-n) as nat)
    } else {
        decimal_nat(n as nat)
    }
}

/// `s` with `fill` in front, at least `width` characters long.
pub open spec fn pad_left(s: Seq<char>, width: nat, fill: char) -> Seq<char>
    decreases width - s.len(),
{
    if s.len() >= width {
        s
    } else {
        pad_left(seq![fill] + s, width, fill)
    }
}

/// `s` with `fill` behind, at least `width` characters long.
pub open spec fn pad_right(s: Seq<char>, width: nat, fill: char) -> Seq<char>
    decreases width - s.len(),
{
    if s.len() >= width {
        s
    } else {
        pad_right(s.push(fill), width, fill)
    }
}

/// `s` with `fill` in front, at least `width` characters long.
pub fn padded(s: String, width: usize, fill: char) -> (r: String)
    ensures
        r@ == pad_left(s@, width as nat, fill),
{
    let mut cur = s;
    let ghost want = pad_left(s@, width as nat, fill);
    let mut n: usize = cur.as_str().unicode_len();
    while n < width
        invariant
            n == cur@.len(),
            pad_left(cur@, width as nat, fill) == want,
        decreases width - n,
    {
        let mut next = String::new();
        next.push(fill);
        next.append(cur.as_str());
        assert(next@ =~= seq![fill] + cur@);
        cur = next;
        n += 1;
    }
    cur
}

/// Appends `n` in decimal.
fn push_digits(s: &mut String, n: u64)
    ensures
        final(s)@ == old(s)@ + decimal_nat(n as nat),
    decreases n,
{
    if n >= 10 {
        push_digits(s, n / 10);
    }
    let d: u8 = (n % 10) as u8;
    s.push((48 + d) as char);
    proof {
        assert((48 + d) as char == digit((n % 10) as int));
    }
}

/// `s`, filled up to `width` characters behind it.
pub fn padded_right(s: &str, width: usize, fill: char) -> (r: String)
    ensures
        r@ == pad_right(s@, width as nat, fill),
{
    let mut v = chars_of(s);
    while v.len() < width
        invariant
            pad_right(v@, width as nat, fill) == pad_right(s@, width as nat, fill),
        decreases width - v@.len(),
    {
        v.push(fill);
    }
    assert(v@.subrange(0, v@.len() as int) =~= v@);
    string_of(&v, 0, v.len())
}

/// `n` in decimal.
pub fn decimal_of_u64(n: u64) -> (r: String)
    ensures
        r@ == decimal_nat(n as nat),
{
    let mut s = String::new();
    push_digits(&mut s, n);
    assert(s@ =~= decimal_nat(n as nat));
    s
}

/// `n` in decimal.
pub fn decimal_of(n: i64) -> (r: String)
    ensures
        r@ == decimal(n as int),
{
    let mut s = String::new();
    if n < 0 {
        s.push('-');
        let m: u64 = if n == i64::MIN {
            0x8000_0000_0000_0000
        } else {
            (-n) as u64
        };
        push_digits(&mut s, m);
        assert(m as int == -(n as int));
        assert(s@ =~= decimal(n as int));
    } else {
        push_digits(&mut s, n as u64);
        assert(s@ =~= decimal(n as int));
    }
    s
}

// ---------------------------------------------------------------------
// Byte offsets
// ---------------------------------------------------------------------

/// Number of bytes of one character.
pub open spec fn char_width(c: char) -> nat {
    let n = c as u32;
    if n < 0x80 {
        1
    } else if n < 0x800 {
        2
    } else if n < 0x10000 {
        3
    } else {
        4
    }
}

proof fn lemma_encode_concat(a: Seq<char>, b: Seq<char>)
    ensures
        encode_utf8(a + b) == encode_utf8(a) + encode_utf8(b),
    decreases a.len(),
{
    if a.len() == 0 {
        assert(a + b =~= b);
        assert(encode_utf8(a) + encode_utf8(b) =~= encode_utf8(b));
    } else {
        assert((a + b).drop_first() =~= a.drop_first() + b);
        lemma_encode_concat(a.drop_first(), b);
        assert((a + b)[0] == a[0]);
        assert(encode_utf8(a + b) =~= encode_utf8(a) + encode_utf8(b));
    }
}

/// The bytes of a string are those of its parts.
pub proof fn lemma_utf8_len_concat(a: Seq<char>, b: Seq<char>)
    ensures
        utf8_len(a + b) == utf8_len(a) + utf8_len(b),
{
    lemma_encode_concat(a, b);
}

/// A string with one more character is longer by that character's bytes.
pub proof fn lemma_utf8_len_push(s: Seq<char>, c: char)
    ensures
        utf8_len(s.push(c)) == utf8_len(s) + char_width(c),
{
    let one = seq![c];
    assert(s.push(c) =~= s + one);
    lemma_encode_concat(s, one);
    assert(one.drop_first() =~= Seq::empty());
    assert(one[0] == c);
    reveal_with_fuel(encode_utf8, 2);
    assert(encode_utf8(one) =~= vstd::utf8::encode_scalar(c as u32));
}

/// No prefix of a string has more bytes than the string.
pub proof fn lemma_utf8_len_take(s: Seq<char>, n: int)
    requires
        0 <= n <= s.len(),
    ensures
        utf8_len(s.take(n)) <= utf8_len(s),
{
    assert(s.take(n) + s.skip(n) =~= s);
    lemma_encode_concat(s.take(n), s.skip(n));
}

/// Number of bytes of one character.
pub fn width_of(c: char) -> (r: usize)
    ensures
        r == char_width(c),
{
    let n: u32 = c as u32;
    if n < 0x80 {
        1
    } else if n < 0x800 {
        2
    } else if n < 0x10000 {
        3
    } else {
        4
    }
}

/// `s` without trailing line feeds and carriage returns.
pub open spec fn without_eol(s: Seq<char>) -> Seq<char>
    decreases s.len(),
{
    if s.len() > 0 && (s.last() == '\n' || s.last() == '\r') {
        without_eol(s.drop_last())
    } else {
        s
    }
}

/// `s` without trailing line feeds and carriage returns.
pub fn strip_eol(s: &str) -> (r: String)
    ensures
        r@ == without_eol(s@),
{
    let v = chars_of(s);
    let mut n: usize = v.len();
    assert(v@.take(n as int) =~= v@);
    while n > 0 && (v[n - 1] == '\n' || v[n - 1] == '\r')
        invariant
            n <= v@.len(),
            without_eol(v@) == without_eol(v@.take(n as int)),
        decreases n,
    {
        assert(v@.take(n as int).drop_last() =~= v@.take(n - 1));
        n -= 1;
    }
    proof {
        if n > 0 {
            assert(v@.take(n as int).last() == v@[n - 1]);
        }
        assert(v@.subrange(0, n as int) =~= v@.take(n as int));
    }
    string_of(&v, 0, n)
}

// ---------------------------------------------------------------------
// Reading numbers
// ---------------------------------------------------------------------

/// ASCII digits.
pub open spec fn is_digit(c: char) -> bool {
    '0' <= c && c <= '9'
}

/// Whether every character is an ASCII digit.
pub open spec fn all_digits(s: Seq<char>) -> bool {
    forall|i: int| 0 <= i < s.len() ==> is_digit(#[trigger] s[i])
}

/// The number that a string of digits writes.
pub open spec fn digits_value(s: Seq<char>) -> nat
    decreases s.len(),
{
    if s.len() == 0 {
        0
    } else {
        (10 * digits_value(s.drop_last()) + ((s.last() as u32) - ('0' as u32))) as nat
    }
}

/// The number that a nonempty string of digits writes, up to `max`.
pub open spec fn digits_of(s: Seq<char>, max: int) -> Option<nat> {
    if s.len() > 0 && all_digits(s) && digits_value(s) <= max {
        Some(digits_value(s))
    } else {
        None
    }
}

/// The number that a string writes, as `str::parse` reads an unsigned integer of
/// at most `max`: digits, a plus sign allowed in front.
pub open spec fn unsigned(s: Seq<char>, max: int) -> Option<nat> {
    digits_of(
        if s.len() > 0 && s[0] == '+' {
            s.skip(1)
        } else {
            s
        },
        max,
    )
}

/// The number that a string writes, as `str::parse` reads an `i64`: digits, a
/// sign allowed in front.
pub open spec fn signed(s: Seq<char>) -> Option<int> {
    if s.len() > 0 && s[0] == '-' {
        match digits_of(s.skip(1), i64::MAX + 1) {
            Some(n) => Some(-(n as int)),
            None => None,
        }
    } else {
        match unsigned(s, i64::MAX as int) {
            Some(n) => Some(n as int),
            None => None,
        }
    }
}

/// A string of digits writes no less than its beginnings do.
pub proof fn lemma_digits_value_grows(d: Seq<char>, k: int)
    requires
        0 <= k <= d.len(),
    ensures
        all_digits(d) ==> digits_value(d.take(k)) <= digits_value(d),
    decreases d.len() - k,
{
    if k < d.len() {
        assert(d.take(k + 1).drop_last() =~= d.take(k));
        assert(d.take(k + 1).last() == d[k]);
        lemma_digits_value_grows(d, k + 1);
    } else {
        assert(d.take(k) =~= d);
    }
}

/// The number that `v[a..b]`, a string of digits, writes, up to `max`.
pub fn parse_digits(v: &Vec<char>, a: usize, b: usize, max: u64) -> (r: Option<u64>)
    requires
        a <= b <= v@.len(),
    ensures
        match r {
            Some(n) => digits_of(v@.subrange(a as int, b as int), max as int) == Some(n as nat),
            None => digits_of(v@.subrange(a as int, b as int), max as int) is None,
        },
{
    let ghost d = v@.subrange(a as int, b as int);
    if a == b {
        return None;
    }
    let mut n: u64 = 0;
    let mut i: usize = a;
    while i < b
        invariant
            a <= i <= b <= v@.len(),
            d == v@.subrange(a as int, b as int),
            n <= max,
            n == digits_value(d.take(i - a)),
            all_digits(d.take(i - a)),
        decreases b - i,
    {
        let ghost k = i - a;
        assert(d[k] == v@[i as int]);
        assert(d.take(k + 1).drop_last() =~= d.take(k));
        assert(d.take(k + 1).last() == v@[i as int]);
        let c = v[i];
        if !('0' <= c && c <= '9') {
            assert(!is_digit(d[k]));
            return None;
        }
        let digit: u64 = (c as u32 - 48) as u64;
        if digit > max || n > (max - digit) / 10 {
            proof {
                lemma_digits_value_grows(d, k + 1);
            }
            return None;
        }
        assert forall|j: int| 0 <= j < k + 1 implies is_digit(#[trigger] d.take(k + 1)[j]) by {
            if j < k {
                assert(d.take(k + 1)[j] == d.take(k)[j]);
            }
        }
        n = n * 10 + digit;
        i += 1;
    }
    assert(d.take(d.len() as int) =~= d);
    Some(n)
}

/// The number that `v[a..b]` writes, a plus sign allowed in front, up to `max`.
pub fn parse_range(v: &Vec<char>, a: usize, b: usize, max: u64) -> (r: Option<u64>)
    requires
        a <= b <= v@.len(),
    ensures
        match r {
            Some(n) => unsigned(v@.subrange(a as int, b as int), max as int) == Some(n as nat),
            None => unsigned(v@.subrange(a as int, b as int), max as int) is None,
        },
{
    let ghost s = v@.subrange(a as int, b as int);
    if a < b && v[a] == '+' {
        assert(s.skip(1) =~= v@.subrange(a + 1, b as int));
        parse_digits(v, a + 1, b, max)
    } else {
        parse_digits(v, a, b, max)
    }
}

/// The digits that write a number read back as that number.
pub proof fn lemma_decimal_digits(n: nat)
    ensures
        decimal_nat(n).len() > 0,
        all_digits(decimal_nat(n)),
        digits_value(decimal_nat(n)) == n,
        decimal_nat(n)[0] != '+',
    decreases n,
{
    let s = decimal_nat(n);
    if n < 10 {
        assert(s.drop_last() =~= Seq::empty());
        assert(digits_value(s.drop_last()) == 0);
    } else {
        lemma_decimal_digits(n / 10);
        assert(s.drop_last() =~= decimal_nat(n / 10));
        assert(s[0] == decimal_nat(n / 10)[0]);
        assert forall|i: int| 0 <= i < s.len() implies is_digit(#[trigger] s[i]) by {
            if i < s.len() - 1 {
                assert(s[i] == decimal_nat(n / 10)[i]);
            }
        }
    }
}

/// Reads an unsigned integer of at most `max`.
pub fn parse_unsigned(s: &str, max: u64) -> (r: Option<u64>)
    ensures
        match r {
            Some(n) => unsigned(s@, max as int) == Some(n as nat) && n <= max,
            None => unsigned(s@, max as int) is None,
        },
{
    let v = chars_of(s);
    assert(v@.subrange(0, v@.len() as int) =~= v@);
    parse_range(&v, 0, v.len(), max)
}

/// Reads a signed integer.
pub fn parse_signed(s: &str) -> (r: Option<i64>)
    ensures
        match r {
            Some(n) => signed(s@) == Some(n as int),
            None => signed(s@) is None,
        },
{
    let v = chars_of(s);
    let n: usize = v.len();
    assert(v@.subrange(0, n as int) =~= v@);
    if n > 0 && v[0] == '-' {
        assert(v@.subrange(1, n as int) =~= v@.skip(1));
        match parse_digits(&v, 1, n, 0x8000_0000_0000_0000) {
            Some(m) => {
                if m == 0x8000_0000_0000_0000 {
                    Some(i64::MIN)
                } else {
                    Some(-(m as i64))
                }
            },
            None => None,
        }
    } else {
        match parse_range(&v, 0, n, 0x7FFF_FFFF_FFFF_FFFF) {
            Some(m) => Some(m as i64),
            None => None,
        }
    }
}

/// Trimming the start makes a text no longer in bytes.
pub proof fn lemma_trim_start_shorter(s: Seq<char>)
    ensures
        utf8_len(trim_start(s)) <= utf8_len(s),
    decreases s.len(),
{
    if s.len() > 0 && is_space(s[0]) {
        lemma_trim_start_shorter(s.skip(1));
        assert(s =~= seq![s[0]] + s.skip(1));
        lemma_utf8_len_concat(seq![s[0]], s.skip(1));
    }
}

/// Whether a text holds no separator.
pub open spec fn unseparated(s: Seq<char>, d: Delim) -> bool {
    forall|i: int| 0 <= i < s.len() ==> !d.holds(#[trigger] s[i])
}

/// Splitting a text without separators behind another one lengthens the last part.
pub proof fn lemma_split_append(a: Seq<char>, b: Seq<char>, d: Delim)
    requires
        unseparated(b, d),
    ensures
        split(a + b, d).len() > 0,
        split(a, d).len() > 0,
        split(a + b, d) == split(a, d).drop_last().push(split(a, d).last() + b),
    decreases b.len(),
{
    lemma_split_len(a, d);
    if b.len() == 0 {
        assert(a + b =~= a);
        assert(split(a, d).last() + b =~= split(a, d).last());
        assert(split(a, d).drop_last().push(split(a, d).last()) =~= split(a, d));
    } else {
        let c = b.drop_last();
        assert forall|i: int| 0 <= i < c.len() implies !d.holds(#[trigger] c[i]) by {
            assert(c[i] == b[i]);
        }
        lemma_split_append(a, c, d);
        assert((a + b).drop_last() =~= a + c);
        assert((a + b).last() == b.last());
        assert(!d.holds(b[b.len() - 1]));
        let r = split(a + c, d);
        assert(r.drop_last() =~= split(a, d).drop_last());
        assert(r.last() == split(a, d).last() + c);
        assert((split(a, d).last() + c).push(b.last()) =~= split(a, d).last() + b);
    }
}

/// Every field is nonempty and holds no separator.
pub proof fn lemma_fields(s: Seq<char>, d: Delim)
    ensures
        forall|i: int|
            0 <= i < fields(s, d).len() ==> (#[trigger] fields(s, d)[i]).len() > 0 && unseparated(
                fields(s, d)[i],
                d,
            ),
{
    lemma_split_unseparated(s, d);
    lemma_nonempty_parts(split(s, d), d);
}

proof fn lemma_split_unseparated(s: Seq<char>, d: Delim)
    ensures
        split(s, d).len() > 0,
        forall|i: int| 0 <= i < split(s, d).len() ==> unseparated(#[trigger] split(s, d)[i], d),
    decreases s.len(),
{
    if s.len() > 0 {
        let t = s.drop_last();
        lemma_split_unseparated(t, d);
        let r = split(t, d);
        let q = split(s, d);
        assert forall|i: int| 0 <= i < q.len() implies unseparated(#[trigger] q[i], d) by {
            if i < r.len() - 1 {
                assert(q[i] == r[i]);
            } else if d.holds(s.last()) {
                if i == r.len() - 1 {
                    assert(q[i] == r[i]);
                } else {
                    assert(q[i].len() == 0);
                }
            } else {
                assert(q[i] == r.last().push(s.last()));
                assert(unseparated(r[r.len() - 1], d));
                assert forall|k: int| 0 <= k < q[i].len() implies !d.holds(#[trigger] q[i][k]) by {
                    if k < r.last().len() {
                        assert(q[i][k] == r[r.len() - 1][k]);
                    }
                }
            }
        }
    }
}

proof fn lemma_nonempty_parts(p: Seq<Seq<char>>, d: Delim)
    requires
        forall|i: int| 0 <= i < p.len() ==> unseparated(#[trigger] p[i], d),
    ensures
        forall|i: int|
            0 <= i < nonempty(p).len() ==> (#[trigger] nonempty(p)[i]).len() > 0 && unseparated(
                nonempty(p)[i],
                d,
            ),
    decreases p.len(),
{
    if p.len() > 0 {
        let t = p.drop_last();
        assert forall|i: int| 0 <= i < t.len() implies unseparated(#[trigger] t[i], d) by {
            assert(t[i] == p[i]);
        }
        lemma_nonempty_parts(t, d);
        assert(unseparated(p[p.len() - 1], d));
        let q = nonempty(t);
        let r = nonempty(p);
        assert forall|i: int| 0 <= i < r.len() implies (#[trigger] r[i]).len() > 0 && unseparated(
            r[i],
            d,
        ) by {
            if i < q.len() {
                assert(r[i] == q[i]);
            }
        }
    }
}

/// A separator splits a text in two, each split for itself.
pub proof fn lemma_split_at(a: Seq<char>, c: char, b: Seq<char>, d: Delim)
    requires
        d.holds(c),
    ensures
        split(a + seq![c] + b, d) == split(a, d) + split(b, d),
    decreases b.len(),
{
    let s = a + seq![c] + b;
    if b.len() == 0 {
        assert(s.drop_last() =~= a);
        assert(split(b, d) =~= seq![Seq::empty()]);
        assert(split(s, d) =~= split(a, d) + split(b, d));
    } else {
        let t = b.drop_last();
        lemma_split_at(a, c, t, d);
        lemma_split_len(t, d);
        assert(s.drop_last() =~= a + seq![c] + t);
        assert(s.last() == b.last());
        let p = split(a, d);
        let q = split(t, d);
        assert((p + q).last() == q.last());
        assert((p + q).drop_last() =~= p + q.drop_last());
        assert(split(s, d) =~= p + split(b, d));
    }
}

/// Leaving out empty pieces goes piece by piece.
pub proof fn lemma_nonempty_concat(p: Seq<Seq<char>>, q: Seq<Seq<char>>)
    ensures
        nonempty(p + q) == nonempty(p) + nonempty(q),
    decreases q.len(),
{
    if q.len() == 0 {
        assert(p + q =~= p);
        assert(nonempty(p) + nonempty(q) =~= nonempty(p));
    } else {
        lemma_nonempty_concat(p, q.drop_last());
        assert((p + q).drop_last() =~= p + q.drop_last());
        assert(nonempty(p + q) =~= nonempty(p) + nonempty(q));
    }
}

/// A character that does not separate stands in a field.
pub proof fn lemma_char_in_field(s: Seq<char>, i: int, d: Delim)
    requires
        0 <= i < s.len(),
        !d.holds(s[i]),
    ensures
        exists|k: int| 0 <= k < fields(s, d).len() && (#[trigger] fields(s, d)[k]).contains(s[i]),
{
    lemma_char_in_piece(s, i, d);
    let p = split(s, d);
    let k = choose|k: int| 0 <= k < p.len() && (#[trigger] p[k]).contains(s[i]);
    assert(p =~= p.take(k + 1) + p.skip(k + 1));
    lemma_nonempty_concat(p.take(k + 1), p.skip(k + 1));
    assert(p.take(k + 1).last() == p[k]);
    let head = nonempty(p.take(k + 1));
    assert(head.last() == p[k]);
    assert(fields(s, d)[head.len() - 1] == p[k]);
}

proof fn lemma_char_in_piece(s: Seq<char>, i: int, d: Delim)
    requires
        0 <= i < s.len(),
        !d.holds(s[i]),
    ensures
        exists|k: int| 0 <= k < split(s, d).len() && (#[trigger] split(s, d)[k]).contains(s[i]),
    decreases s.len(),
{
    let t = s.drop_last();
    lemma_split_len(t, d);
    let r = split(t, d);
    let p = split(s, d);
    if i == s.len() - 1 {
        let w = p[p.len() - 1];
        assert(w == r.last().push(s.last()));
        assert(w[w.len() - 1] == s[i]);
        assert(p[p.len() - 1].contains(s[i]));
    } else {
        assert(t[i] == s[i]);
        lemma_char_in_piece(t, i, d);
        let k = choose|k: int| 0 <= k < r.len() && (#[trigger] r[k]).contains(s[i]);
        let j = choose|j: int| 0 <= j < r[k].len() && r[k][j] == s[i];
        assert(p[k][j] == s[i]);
        assert(p[k].contains(s[i]));
    }
}

/// Words joined by blanks are split into those words again.
pub proof fn lemma_words_of_join(w: Seq<Seq<char>>)
    requires
        forall|i: int|
            0 <= i < w.len() ==> (#[trigger] w[i]).len() > 0 && unseparated(w[i], Delim::Space),
    ensures
        words(join(w, " "@)) == w,
    decreases w.len(),
{
    let d = Delim::Space;
    reveal_strlit(" ");
    if w.len() == 0 {
        let s = join(w, " "@);
        assert(split(s, d) =~= seq![Seq::empty()]);
        assert(split(s, d).drop_last() =~= Seq::<Seq<char>>::empty());
        assert(nonempty(split(s, d).drop_last()) =~= Seq::<Seq<char>>::empty());
        assert(words(s) =~= w);
    } else if w.len() == 1 {
        let e = Seq::<char>::empty();
        lemma_split_append(e, w[0], d);
        assert(e + w[0] =~= w[0]);
        assert(split(e, d) =~= seq![e]);
        let p = split(w[0], d);
        assert(p =~= seq![w[0]]);
        assert(p.drop_last() =~= Seq::<Seq<char>>::empty());
        assert(nonempty(p.drop_last()) =~= Seq::<Seq<char>>::empty());
        assert(nonempty(p) =~= seq![w[0]]);
        assert(w =~= seq![w[0]]);
    } else {
        let t = w.drop_last();
        assert forall|i: int| 0 <= i < t.len() implies (#[trigger] t[i]).len() > 0 && unseparated(
            t[i],
            d,
        ) by {
            assert(t[i] == w[i]);
        }
        lemma_words_of_join(t);
        let a = join(t, " "@);
        let b = a + " "@;
        let last = w[w.len() - 1];
        assert(b =~= a.push(' '));
        assert(b.drop_last() =~= a);
        assert(is_space(' '));
        let r = split(a, d);
        assert(split(b, d) == r.push(Seq::empty()));
        lemma_split_append(b, last, d);
        assert(join(w, " "@) == b + last);
        let q = split(b + last, d);
        assert(r.push(Seq::empty()).drop_last() =~= r);
        assert(Seq::<char>::empty() + last =~= last);
        assert(q == r.push(last));
        assert(q.drop_last() =~= r);
        assert(nonempty(q) == nonempty(r).push(last));
        assert(w =~= t.push(last));
    }
}

} // verus!
