//! Memory capture: typed thoughts with tags and duplicate detection.

use vstd::prelude::*;
use vstd::utf8::encode_utf8;

use crate::audit::{record_for_kind, Mutation};
#[allow(unused_imports)]
use crate::audit::{is_entry, text_of};
use crate::format::{collapse_ws, truncate_chars};
#[allow(unused_imports)]
use crate::format::{collapsed, truncated};
#[allow(unused_imports)]
use crate::json::opt_view;
#[allow(unused_imports)]
use crate::grounding::newest_keys;
use crate::model::{Actor, Kind, MemoryType, MutationOp, NewNode, Node, Scope};
use crate::order::{flip, pick, rank, rank_where, Key};
#[allow(unused_imports)]
use crate::order::{
    as_ints, deref_all, flipped, is_ranking, lemma_ranking_has, marked, picked, ranking,
    ranking_is_sorted,
};
#[allow(unused_imports)]
use crate::revision::keeps;
use crate::revision::{snapshot, Row};
use crate::seqs::{copy_bytes, same_bytes};
#[allow(unused_imports)]
use crate::seqs::{
    first_n, first_where, kept, lemma_first_where, lemma_first_where_is, lemma_first_where_none,
    lemma_kept_all,
};
use crate::sets::{common, distinct, is_member, is_subset, united};
#[allow(unused_imports)]
use crate::sets::{is_set, lemma_set_len, set_of};
use crate::text::{
    byte_len, chars_of, joined, lines_of, parse_digits, same, split_all, split_fields, string_of,
    trimmed, Delim,
};
#[allow(unused_imports)]
use crate::text::{
    all_ascii, all_digits, all_lower, any_alnum, contains, digits_value, fields, is_alnum, is_digit,
    is_edge, is_lower_case, join, lemma_char_in_field, lemma_fields, lemma_nonempty_concat,
    lemma_split_append, lemma_split_at, lemma_texts_empty, lemma_texts_push, lines, lowercase,
    nonempty, split, texts, trim, unseparated, utf8_len, words,
};
#[allow(unused_imports)]
use vstd::string::*;

verus! {

// ---------------------------------------------------------------------
// Tokens and the content hash
// ---------------------------------------------------------------------

/// Identifier-friendly tokens: maximal runs of letters, digits, `_`, `-` and
/// `.`, in lower case.
pub open spec fn token_seq(text: Seq<char>) -> Seq<Seq<char>> {
    let f = fields(text, Delim::NonToken);
    Seq::new(f.len(), |i: int| lowercase(f[i]))
}

/// Identifier-friendly tokens: `snake_case`, `kebab-case` and `file.rs` stay
/// whole. No token is empty, and each is the lower case of its word.
pub fn tokens(text: &str) -> (r: Vec<String>)
    ensures
        texts(r@) == token_seq(text@),
        forall|i: int| 0 <= i < r@.len() ==> (#[trigger] r@[i])@.len() > 0,
        forall|i: int|
            0 <= i < r@.len() ==> is_lower_case(
                fields(text@, Delim::NonToken)[i],
                (#[trigger] r@[i])@,
            ),
{
    let parts = split_fields(text, Delim::NonToken);
    proof {
        lemma_fields(text@, Delim::NonToken);
    }
    let mut out: Vec<String> = Vec::new();
    let mut i: usize = 0;
    assert(texts(out@) =~= token_seq(text@).take(0));
    while i < parts.len()
        invariant
            i <= parts@.len(),
            texts(parts@) == fields(text@, Delim::NonToken),
            texts(out@) == token_seq(text@).take(i as int),
            out@.len() == i,
            forall|k: int|
                0 <= k < parts@.len() ==> (#[trigger] fields(text@, Delim::NonToken)[k]).len() > 0,
            forall|k: int| 0 <= k < i ==> (#[trigger] out@[k])@.len() > 0,
            forall|k: int|
                0 <= k < i ==> is_lower_case(
                    fields(text@, Delim::NonToken)[k],
                    (#[trigger] out@[k])@,
                ),
        decreases parts@.len() - i,
    {
        let ghost before = texts(out@);
        assert(texts(parts@)[i as int] == parts@[i as int]@);
        let t = parts[i].as_str().to_lowercase();
        out.push(t);
        assert(texts(out@) =~= before.push(t@));
        assert(token_seq(text@).take(i + 1) =~= before.push(t@));
        i += 1;
    }
    assert(token_seq(text@).take(parts@.len() as int) =~= token_seq(text@));
    out
}

/// A blank keeps words apart: the tokens of two texts with a blank between them are
/// those of the first, then those of the second.
pub proof fn tokens_of_joined_texts(a: Seq<char>, b: Seq<char>)
    ensures
        token_seq(a + seq![' '] + b) == token_seq(a) + token_seq(b),
{
    let d = Delim::NonToken;
    lemma_split_at(a, ' ', b, d);
    lemma_nonempty_concat(split(a, d), split(b, d));
    assert(token_seq(a + seq![' '] + b) =~= token_seq(a) + token_seq(b));
}

/// What `blake3::hash` makes of some bytes.
pub uninterp spec fn blake3_of(bytes: Seq<u8>) -> Seq<u8>;

/// Hashes the bytes of a string with `blake3::hash`; the digest is 32 bytes
/// long.
#[verifier::external_body]
pub(crate) fn blake3_hash(text: &str) -> (r: Vec<u8>)
    ensures
        r@ == blake3_of(encode_utf8(text@)),
        r@.len() == 32,
{
    blake3::hash(text.as_bytes()).as_bytes().to_vec()
}

/// The text that a content hash is taken of: the tokens, one space apart.
pub open spec fn normalized(text: Seq<char>) -> Seq<char> {
    join(token_seq(text), seq![' '])
}

/// The hash by which exact duplicates are found.
pub open spec fn content_hash_of(text: Seq<char>) -> Seq<u8> {
    blake3_of(encode_utf8(normalized(text)))
}

/// Hash of the text with case, whitespace and punctuation normalized, so that
/// formatting does not defeat exact-duplicate detection.
pub fn content_hash(text: &str) -> (r: Vec<u8>)
    ensures
        r@ == content_hash_of(text@),
{
    let parts = tokens(text);
    proof {
        reveal_strlit(" ");
        assert(" "@ =~= seq![' ']);
    }
    let flat = joined(&parts, " ");
    blake3_hash(flat.as_str())
}

/// Formatting does not count: texts with the same tokens have the same hash.
pub proof fn hash_ignores_formatting(a: Seq<char>, b: Seq<char>)
    requires
        token_seq(a) == token_seq(b),
    ensures
        content_hash_of(a) == content_hash_of(b),
{
}

// ---------------------------------------------------------------------
// Tags, triggers, titles
// ---------------------------------------------------------------------

/// Characters that HTML gives a meaning.
pub open spec fn is_markup(c: char) -> bool {
    c == '<' || c == '>' || c == '&' || c == '"' || c == '\''
}

/// `s` without the characters that HTML gives a meaning.
pub open spec fn without_markup(s: Seq<char>) -> Seq<char>
    decreases s.len(),
{
    if s.len() == 0 {
        s
    } else if is_markup(s.last()) {
        without_markup(s.drop_last())
    } else {
        without_markup(s.drop_last()).push(s.last())
    }
}

/// A tag as it is stored.
pub open spec fn clean_tag(s: Seq<char>) -> Seq<char> {
    trim(without_markup(s))
}

/// The tags as they are stored, those that reduce to nothing left out.
pub open spec fn clean_tags(tags: Seq<Seq<char>>) -> Seq<Seq<char>> {
    nonempty(Seq::new(tags.len(), |i: int| clean_tag(tags[i])))
}

fn strip_markup(s: &str) -> (r: String)
    ensures
        r@ == without_markup(s@),
{
    let v = chars_of(s);
    let mut out = String::new();
    let mut i: usize = 0;
    assert(v@.take(0) =~= Seq::empty());
    while i < v.len()
        invariant
            i <= v@.len(),
            out@ == without_markup(v@.take(i as int)),
        decreases v@.len() - i,
    {
        assert(v@.take(i + 1).drop_last() =~= v@.take(i as int));
        let c = v[i];
        if !(c == '<' || c == '>' || c == '&' || c == '"' || c == '\'') {
            out.push(c);
        }
        i += 1;
    }
    assert(v@.take(v@.len() as int) =~= v@);
    out
}

/// Strips markup characters and surrounding whitespace from tags and drops
/// those with nothing left.
pub fn sanitize_tags(tags: Vec<String>) -> (r: Vec<String>)
    ensures
        texts(r@) == clean_tags(texts(tags@)),
{
    broadcast use {lemma_texts_push, lemma_texts_empty};
    let ghost cleaned = Seq::new(tags@.len(), |i: int| clean_tag(texts(tags@)[i]));
    let mut out: Vec<String> = Vec::new();
    let mut i: usize = 0;
    assert(cleaned.take(0) =~= Seq::empty());
    while i < tags.len()
        invariant
            i <= tags@.len(),
            cleaned == Seq::new(tags@.len(), |i: int| clean_tag(texts(tags@)[i])),
            texts(out@) == nonempty(cleaned.take(i as int)),
        decreases tags@.len() - i,
    {
        let ghost before = texts(out@);
        let bare = strip_markup(tags[i].as_str());
        let t = trimmed(bare.as_str());
        assert(t@ == cleaned[i as int]);
        assert(cleaned.take(i + 1).drop_last() =~= cleaned.take(i as int));
        assert(cleaned.take(i + 1).last() == t@);
        if !t.as_str().is_empty() {
            out.push(t);
            assert(texts(out@) =~= before.push(t@));
        }
        i += 1;
    }
    assert(cleaned.take(tags@.len() as int) =~= cleaned);
    out
}

proof fn lemma_without_markup(s: Seq<char>)
    ensures
        forall|i: int| 0 <= i < without_markup(s).len() ==> !is_markup(#[trigger] without_markup(s)[i]),
    decreases s.len(),
{
    if s.len() > 0 {
        let q = without_markup(s.drop_last());
        let r = without_markup(s);
        lemma_without_markup(s.drop_last());
        assert forall|i: int| 0 <= i < r.len() implies !is_markup(#[trigger] r[i]) by {
            if i < q.len() {
                assert(r[i] == q[i]);
            }
        }
    }
}

proof fn lemma_nonempty_member(p: Seq<Seq<char>>, k: int)
    requires
        0 <= k < nonempty(p).len(),
    ensures
        nonempty(p)[k].len() > 0,
        p.contains(nonempty(p)[k]),
    decreases p.len(),
{
    let q = p.drop_last();
    if p.last().len() > 0 && k == nonempty(q).len() {
        assert(p[p.len() - 1] == nonempty(p)[k]);
    } else {
        lemma_nonempty_member(q, k);
        assert(nonempty(p)[k] == nonempty(q)[k]);
        let j = choose|j: int| 0 <= j < q.len() && q[j] == nonempty(q)[k];
        assert(p[j] == nonempty(p)[k]);
    }
}

/// No stored tag is empty or carries a character that HTML gives a meaning.
pub proof fn tags_carry_no_markup(tags: Seq<Seq<char>>, k: int)
    requires
        0 <= k < clean_tags(tags).len(),
    ensures
        clean_tags(tags)[k].len() > 0,
        forall|i: int|
            0 <= i < clean_tags(tags)[k].len() ==> !is_markup(#[trigger] clean_tags(tags)[k][i]),
{
    let cleaned = Seq::new(tags.len(), |i: int| clean_tag(tags[i]));
    lemma_nonempty_member(cleaned, k);
    let j = choose|j: int| 0 <= j < cleaned.len() && cleaned[j] == clean_tags(tags)[k];
    let bare = without_markup(tags[j]);
    lemma_without_markup(tags[j]);
    crate::text::lemma_trim_is_part(bare);
    let (a, b) = choose|a: int, b: int|
        0 <= a <= b <= bare.len() && trim(bare) == #[trigger] bare.subrange(a, b);
    assert forall|i: int| 0 <= i < clean_tags(tags)[k].len() implies !is_markup(
        #[trigger] clean_tags(tags)[k][i],
    ) by {
        assert(clean_tags(tags)[k][i] == bare[a + i]);
    }
}

/// Most trigger phrases a memory may declare.
pub const MAX_TRIGGERS: usize = 8;

/// Most words a trigger phrase may have.
pub const MAX_TRIGGER_WORDS: usize = 6;

/// A trigger phrase as it is stored: one space between words, in lower case.
pub open spec fn clean_trigger(p: Seq<char>) -> Seq<char> {
    lowercase(collapsed(p))
}

/// Whether a phrase may be stored.
pub open spec fn trigger_kept(p: Seq<char>) -> bool {
    p.len() > 0 && words(p).len() <= MAX_TRIGGER_WORDS
}

/// The phrases that may be stored, in order.
pub open spec fn kept_triggers(phrases: Seq<Seq<char>>) -> Seq<Seq<char>>
    decreases phrases.len(),
{
    if phrases.len() == 0 {
        Seq::empty()
    } else {
        let rest = kept_triggers(phrases.drop_last());
        let p = clean_trigger(phrases.last());
        if trigger_kept(p) {
            rest.push(p)
        } else {
            rest
        }
    }
}

/// Normalizes trigger phrases, drops empty and oversized ones, and keeps the
/// first eight.
pub fn sanitize_fires_when(phrases: Vec<String>) -> (r: Vec<String>)
    ensures
        texts(r@) == first_n(kept_triggers(texts(phrases@)), MAX_TRIGGERS as int),
{
    let mut out: Vec<String> = Vec::new();
    let mut i: usize = 0;
    assert(texts(phrases@).take(0) =~= Seq::empty());
    assert(texts(out@) =~= Seq::empty());
    while i < phrases.len()
        invariant
            i <= phrases@.len(),
            texts(out@) == kept_triggers(texts(phrases@).take(i as int)),
        decreases phrases@.len() - i,
    {
        let ghost all = texts(phrases@);
        assert(all.take(i + 1).drop_last() =~= all.take(i as int));
        assert(all.take(i + 1).last() == phrases@[i as int]@);
        let ghost before = texts(out@);
        let flat = collapse_ws(phrases[i].as_str());
        let p = flat.as_str().to_lowercase();
        let n: usize = split_fields(p.as_str(), Delim::Space).len();
        if !p.as_str().is_empty() && n <= MAX_TRIGGER_WORDS {
            out.push(p);
            assert(texts(out@) =~= before.push(p@));
        }
        i += 1;
    }
    assert(texts(phrases@).take(phrases@.len() as int) =~= texts(phrases@));
    let ghost kept = texts(out@);
    if out.len() > MAX_TRIGGERS {
        out.truncate(MAX_TRIGGERS);
        assert(texts(out@) =~= kept.take(MAX_TRIGGERS as int));
    }
    out
}

/// The first line of `text`, or nothing.
pub open spec fn first_line(text: Seq<char>) -> Seq<char> {
    let l = lines(text);
    if l.len() > 0 {
        l[0]
    } else {
        Seq::empty()
    }
}

/// Most characters of a derived title.
pub const TITLE_CHARS: usize = 80;

/// The title that a text gets: its first line, trimmed and cut to 80
/// characters.
pub open spec fn title_of(text: Seq<char>) -> Seq<char> {
    truncated(trim(first_line(text)), TITLE_CHARS as int)
}

/// The title that a text gets.
pub fn derive_title(text: &str) -> (r: String)
    ensures
        r@ == title_of(text@),
{
    let all = lines_of(text);
    let first = if all.len() > 0 {
        assert(texts(all@)[0] == all@[0]@);
        trimmed(all[0].as_str())
    } else {
        trimmed("")
    };
    proof {
        reveal_strlit("");
        assert(""@ =~= Seq::<char>::empty());
    }
    truncate_chars(first.as_str(), TITLE_CHARS)
}

// ---------------------------------------------------------------------
// Expiry
// ---------------------------------------------------------------------

/// How many digits `s` begins with.
pub open spec fn digit_run(s: Seq<char>) -> int
    decreases s.len(),
{
    if s.len() > 0 && is_digit(s[0]) {
        1 + digit_run(s.skip(1))
    } else {
        0
    }
}

/// Seconds of a unit: hours, days, weeks.
pub open spec fn unit_seconds(unit: Seq<char>) -> Option<int> {
    if unit == "h"@ || unit == "hr"@ || unit == "hrs"@ || unit == "hour"@ || unit == "hours"@ {
        Some(3_600)
    } else if unit == "d"@ || unit == "day"@ || unit == "days"@ {
        Some(86_400)
    } else if unit == "w"@ || unit == "wk"@ || unit == "wks"@ || unit == "week"@ || unit
        == "weeks"@ {
        Some(604_800)
    } else {
        None
    }
}

/// The Unix time that a relative expiry means: a positive whole number directly
/// followed by a unit, the product and the sum small enough for an `i64`.
pub open spec fn expiry_of(spec_text: Seq<char>, now: int) -> Option<int> {
    let s = lowercase(trim(spec_text));
    let k = digit_run(s);
    let n = digits_value(s.take(k));
    match unit_seconds(s.skip(k)) {
        Some(secs) => if n > 0 && n * secs <= i64::MAX && n * secs + now <= i64::MAX {
            Some(n * secs + now)
        } else {
            None
        },
        None => None,
    }
}

proof fn lemma_digit_run(s: Seq<char>, k: int)
    requires
        0 <= k <= s.len(),
        forall|i: int| 0 <= i < k ==> is_digit(#[trigger] s[i]),
        k < s.len() ==> !is_digit(s[k]),
    ensures
        digit_run(s) == k,
    decreases k,
{
    if k > 0 {
        assert(is_digit(s[0]));
        let t = s.skip(1);
        assert forall|i: int| 0 <= i < k - 1 implies is_digit(#[trigger] t[i]) by {
            assert(t[i] == s[i + 1]);
        }
        if k < s.len() {
            assert(t[k - 1] == s[k]);
        }
        lemma_digit_run(t, k - 1);
    }
}

fn seconds_of_unit(unit: &str) -> (r: Option<i64>)
    ensures
        match r {
            Some(n) => unit_seconds(unit@) == Some(n as int) && 3_600 <= n <= 604_800,
            None => unit_seconds(unit@) is None,
        },
{
    if same(unit, "h") || same(unit, "hr") || same(unit, "hrs") || same(unit, "hour") || same(
        unit,
        "hours",
    ) {
        Some(3_600)
    } else if same(unit, "d") || same(unit, "day") || same(unit, "days") {
        Some(86_400)
    } else if same(unit, "w") || same(unit, "wk") || same(unit, "wks") || same(unit, "week")
        || same(unit, "weeks") {
        Some(604_800)
    } else {
        None
    }
}

/// Reads a relative expiry such as `90d` as an absolute Unix time. Nothing for
/// what does not parse, is zero, or does not fit.
pub fn parse_expires_in(spec_text: &str, now: i64) -> (r: Option<i64>)
    ensures
        match r {
            Some(t) => expiry_of(spec_text@, now as int) == Some(t as int),
            None => expiry_of(spec_text@, now as int) is None,
        },
{
    let s = trimmed(spec_text).as_str().to_lowercase();
    let v = chars_of(s.as_str());
    let mut k: usize = 0;
    while k < v.len() && '0' <= v[k] && v[k] <= '9'
        invariant
            k <= v@.len(),
            forall|i: int| 0 <= i < k ==> is_digit(#[trigger] v@[i]),
        decreases v@.len() - k,
    {
        k += 1;
    }
    proof {
        lemma_digit_run(v@, k as int);
        assert(v@.subrange(0, k as int) =~= v@.take(k as int));
        assert(v@.subrange(k as int, v@.len() as int) =~= v@.skip(k as int));
    }
    let unit = string_of(&v, k, v.len());
    let secs: i64 = match seconds_of_unit(unit.as_str()) {
        Some(n) => n,
        None => {
            return None;
        },
    };
    let n: i64 = match parse_digits(&v, 0, k, 0x7FFF_FFFF_FFFF_FFFF) {
        Some(n) => n as i64,
        None => {
            proof {
                let d = v@.take(k as int);
                assert(all_digits(d));
                if k > 0 {
                    let big = digits_value(d) as int;
                    assert(big * secs > i64::MAX) by (nonlinear_arith)
                        requires
                            big > i64::MAX,
                            secs >= 3_600,
                    ;
                } else {
                    assert(digits_value(d) == 0);
                }
            }
            return None;
        },
    };
    if n <= 0 {
        return None;
    }
    match n.checked_mul(secs) {
        Some(span) => {
            assert(span > 0) by (nonlinear_arith)
                requires
                    span == n * secs,
                    n > 0,
                    secs > 0,
            ;
            span.checked_add(now)
        },
        None => {
            assert(n * secs > 0) by (nonlinear_arith)
                requires
                    n > 0,
                    secs > 0,
            ;
            None
        },
    }
}

/// A relative expiry lies after now.
pub proof fn expiry_is_in_the_future(spec_text: Seq<char>, now: int)
    requires
        expiry_of(spec_text, now) is Some,
    ensures
        expiry_of(spec_text, now)->0 > now,
{
    let s = lowercase(trim(spec_text));
    let n = digits_value(s.take(digit_run(s)));
    let secs = unit_seconds(s.skip(digit_run(s)))->0;
    assert(n * secs > 0) by (nonlinear_arith)
        requires
            n > 0,
            secs > 0,
    ;
}

// ---------------------------------------------------------------------
// Duplicates and rewordings
// ---------------------------------------------------------------------

/// Most tokens a subset match may differ by and still count as the same fact.
pub const REWORD_SUBSET_SLACK: usize = 3;

/// `s` without leading punctuation.
pub open spec fn strip_front(s: Seq<char>) -> Seq<char>
    decreases s.len(),
{
    if s.len() > 0 && is_edge(s[0]) {
        strip_front(s.skip(1))
    } else {
        s
    }
}

/// `s` without trailing punctuation.
pub open spec fn strip_back(s: Seq<char>) -> Seq<char>
    decreases s.len(),
{
    if s.len() > 0 && is_edge(s.last()) {
        strip_back(s.drop_last())
    } else {
        s
    }
}

/// A token without leading and trailing punctuation.
pub open spec fn bare_token(s: Seq<char>) -> Seq<char> {
    strip_back(strip_front(s))
}

/// The tokens of a text.
pub open spec fn token_set(text: Seq<char>) -> Set<Seq<char>> {
    token_seq(text).to_set()
}

/// The tokens of a text without leading and trailing punctuation, in order.
pub open spec fn comparison_seq(text: Seq<char>) -> Seq<Seq<char>> {
    let t = token_seq(text);
    nonempty(Seq::new(t.len(), |i: int| bare_token(t[i])))
}

/// The tokens of a text without leading and trailing punctuation.
pub open spec fn comparison_set(text: Seq<char>) -> Set<Seq<char>> {
    comparison_seq(text).to_set()
}

/// Whether the token sets of two texts overlap by 85 in 100 or more.
pub open spec fn near_duplicate(a: Seq<char>, b: Seq<char>) -> bool {
    let sa = token_set(a);
    let sb = token_set(b);
    sa.len() > 0 && sb.len() > 0 && 20 * sa.intersect(sb).len() >= 17 * sa.union(sb).len()
}

/// Whether `text` is `existing` said again: the same words, the same words with
/// a few added or dropped, or a large overlap.
pub open spec fn reworded(text: Seq<char>, existing: Seq<char>) -> bool {
    let a = comparison_set(text);
    let b = comparison_set(existing);
    &&& a.len() > 0
    &&& b.len() > 0
    &&& {
        ||| a == b
        ||| a.subset_of(b) && b.len() - a.len() <= REWORD_SUBSET_SLACK
        ||| b.subset_of(a) && a.len() - b.len() <= REWORD_SUBSET_SLACK
        ||| near_duplicate(text, existing)
    }
}

/// Whether the words of a text are lowered as [`is_lower_case`] says.
spec fn lowers_words(text: Seq<char>) -> bool {
    let f = fields(text, Delim::NonToken);
    forall|i: int| 0 <= i < f.len() ==> is_lower_case(#[trigger] f[i], lowercase(f[i]))
}

/// Whether `a` is `b` with one punctuation mark behind it, such as a full stop.
pub open spec fn is_punctuated(a: Seq<char>, b: Seq<char>) -> bool {
    a.len() == b.len() + 1 && a.drop_last() == b && is_edge(a.last())
}

/// Whether two texts are the same but for one punctuation mark behind either.
pub open spec fn same_but_for_a_mark(a: Seq<char>, b: Seq<char>) -> bool {
    a == b || is_punctuated(a, b) || is_punctuated(b, a)
}

fn strip_token(s: &str) -> (r: String)
    ensures
        r@ == bare_token(s@),
{
    let v = chars_of(s);
    let n: usize = v.len();
    let mut a: usize = 0;
    assert(v@.skip(0) =~= v@);
    while a < n && (v[a] == '.' || v[a] == '-' || v[a] == '_')
        invariant
            a <= n == v@.len(),
            strip_front(v@) == strip_front(v@.skip(a as int)),
        decreases n - a,
    {
        assert(v@.skip(a as int).skip(1) =~= v@.skip(a + 1));
        a += 1;
    }
    let ghost t = v@.skip(a as int);
    let mut b: usize = n;
    assert(t.take(n - a) =~= t);
    while b > a && (v[b - 1] == '.' || v[b - 1] == '-' || v[b - 1] == '_')
        invariant
            a <= b <= n == v@.len(),
            t == v@.skip(a as int),
            strip_back(t) == strip_back(t.take(b - a)),
        decreases b,
    {
        assert(t.take(b - a).drop_last() =~= t.take(b - a - 1));
        assert(t.take(b - a).last() == v@[b - 1]);
        b -= 1;
    }
    proof {
        let u = t.take(b - a);
        assert(u =~= v@.subrange(a as int, b as int));
        if a < b {
            assert(u.last() == v@[b - 1]);
        }
        assert(strip_front(t) == t);
    }
    string_of(&v, a, b)
}

/// The tokens of `text` without leading and trailing punctuation, each once.
fn comparison_tokens(text: &str) -> (r: Vec<String>)
    ensures
        is_set(r@),
        set_of(r@) == comparison_set(text@),
        lowers_words(text@),
{
    let parts = tokens(text);
    assert(lowers_words(text@)) by {
        let f = fields(text@, Delim::NonToken);
        assert forall|i: int| 0 <= i < f.len() implies is_lower_case(
            #[trigger] f[i],
            lowercase(f[i]),
        ) by {
            assert(texts(parts@).len() == f.len());
            assert(texts(parts@)[i] == parts@[i]@);
            assert(token_seq(text@)[i] == lowercase(f[i]));
        }
    }
    let ghost bare = Seq::new(parts@.len(), |i: int| bare_token(token_seq(text@)[i]));
    let mut out: Vec<String> = Vec::new();
    let mut i: usize = 0;
    assert(bare.take(0) =~= Seq::empty());
    assert(texts(out@) =~= Seq::empty());
    while i < parts.len()
        invariant
            i <= parts@.len(),
            texts(parts@) == token_seq(text@),
            bare == Seq::new(parts@.len(), |i: int| bare_token(token_seq(text@)[i])),
            texts(out@) == nonempty(bare.take(i as int)),
        decreases parts@.len() - i,
    {
        let ghost before = texts(out@);
        let t = strip_token(parts[i].as_str());
        assert(texts(parts@)[i as int] == parts@[i as int]@);
        assert(bare.take(i + 1).drop_last() =~= bare.take(i as int));
        assert(bare.take(i + 1).last() == t@);
        if !t.as_str().is_empty() {
            out.push(t);
            assert(texts(out@) =~= before.push(t@));
        }
        i += 1;
    }
    assert(bare.take(parts@.len() as int) =~= bare);
    assert(bare =~= Seq::new(token_seq(text@).len(), |i: int| bare_token(token_seq(text@)[i])));
    distinct(&out)
}

/// Whether the token sets of two texts overlap by 85 in 100 or more.
pub fn is_near_duplicate(a: &str, b: &str) -> (r: bool)
    ensures
        r == near_duplicate(a@, b@),
{
    let sa = distinct(&tokens(a));
    let sb = distinct(&tokens(b));
    proof {
        lemma_set_len(sa@);
        lemma_set_len(sb@);
    }
    if sa.len() == 0 || sb.len() == 0 {
        return false;
    }
    let inter = common(&sa, &sb);
    let union = united(&sa, &sb);
    20 * (inter as u128) >= 17 * union
}

proof fn lemma_strip_front_push(s: Seq<char>, c: char)
    requires
        is_edge(c),
    ensures
        strip_front(s).len() > 0 ==> strip_front(s.push(c)) == strip_front(s).push(c),
        strip_front(s).len() == 0 ==> strip_front(s.push(c)).len() == 0,
    decreases s.len(),
{
    if s.len() == 0 {
        assert(s.push(c).skip(1).len() == 0);
        assert(strip_front(s.push(c).skip(1)).len() == 0);
    } else if is_edge(s[0]) {
        assert(s.push(c).skip(1) =~= s.skip(1).push(c));
        lemma_strip_front_push(s.skip(1), c);
    }
}

/// A mark behind a token does not change what is compared.
proof fn lemma_bare_push(s: Seq<char>, c: char)
    requires
        is_edge(c),
    ensures
        bare_token(s.push(c)) == bare_token(s),
{
    lemma_strip_front_push(s, c);
    let f = strip_front(s);
    if f.len() > 0 {
        assert(f.push(c).drop_last() =~= f);
    } else {
        assert(f =~= strip_front(s.push(c)));
    }
}

spec fn bare_all(f: Seq<Seq<char>>) -> Seq<Seq<char>> {
    Seq::new(f.len(), |i: int| bare_token(lowercase(f[i])))
}

/// Punctuation behind a text does not change the words that are compared.
proof fn lemma_punctuated(a: Seq<char>, b: Seq<char>)
    requires
        is_punctuated(a, b),
        lowers_words(a),
    ensures
        comparison_set(a) == comparison_set(b),
{
    let d = Delim::NonToken;
    let c = a.last();
    let mark = seq![c];
    assert(a =~= b + mark);
    assert(unseparated(mark, d));
    lemma_split_append(b, mark, d);
    let last = split(b, d).last();
    let head = split(b, d).drop_last();
    let word = last + mark;
    assert(word =~= last.push(c));
    assert(word.drop_last() =~= last);
    let base = nonempty(head);
    let fa = fields(a, d);
    let fb = fields(b, d);
    assert(split(a, d).drop_last() =~= head);
    assert(fa == base.push(word));
    assert(fa[base.len() as int] == word);
    assert(lowercase(word) == lowercase(last).push(c));
    lemma_bare_push(lowercase(last), c);
    assert(bare_all(fa).drop_last() =~= bare_all(base));
    assert(bare_all(fa).last() == bare_token(lowercase(last)));
    if last.len() > 0 {
        assert(fb == base.push(last));
        assert(bare_all(fb).drop_last() =~= bare_all(base));
        assert(bare_all(fb).last() == bare_token(lowercase(last)));
        assert(bare_all(fa) =~= bare_all(fb));
    } else {
        assert(fb == base);
        assert(all_ascii(word));
        assert(lowercase(word) == all_lower(word));
        assert(lowercase(word).len() == 1);
        assert(lowercase(last).len() == 0);
        assert(bare_token(lowercase(last)).len() == 0);
    }
    assert(nonempty(bare_all(fa)) == nonempty(bare_all(fb)));
    let ta = token_seq(a);
    let tb = token_seq(b);
    assert(Seq::new(ta.len(), |i: int| bare_token(ta[i])) =~= bare_all(fa));
    assert(Seq::new(tb.len(), |i: int| bare_token(tb[i])) =~= bare_all(fb));
}

proof fn lemma_strip_front_keeps(s: Seq<char>, i: int)
    requires
        0 <= i < s.len(),
        !is_edge(s[i]),
    ensures
        strip_front(s).contains(s[i]),
    decreases s.len(),
{
    if is_edge(s[0]) {
        assert(s.skip(1)[i - 1] == s[i]);
        lemma_strip_front_keeps(s.skip(1), i - 1);
    }
}

proof fn lemma_strip_back_keeps(s: Seq<char>, i: int)
    requires
        0 <= i < s.len(),
        !is_edge(s[i]),
    ensures
        strip_back(s).contains(s[i]),
    decreases s.len(),
{
    if is_edge(s.last()) {
        assert(s.drop_last()[i] == s[i]);
        lemma_strip_back_keeps(s.drop_last(), i);
    }
}

/// A token with a letter or a digit is compared.
proof fn lemma_bare_keeps(s: Seq<char>)
    requires
        any_alnum(s),
    ensures
        bare_token(s).len() > 0,
{
    let i = choose|i: int| 0 <= i < s.len() && is_alnum(#[trigger] s[i]);
    lemma_strip_front_keeps(s, i);
    let t = strip_front(s);
    let j = choose|j: int| 0 <= j < t.len() && t[j] == s[i];
    lemma_strip_back_keeps(t, j);
}

/// A text with a letter or a digit has a word to be compared.
proof fn lemma_has_words(text: Seq<char>)
    requires
        any_alnum(text),
        lowers_words(text),
    ensures
        comparison_set(text).len() > 0,
{
    let d = Delim::NonToken;
    let i = choose|i: int| 0 <= i < text.len() && is_alnum(#[trigger] text[i]);
    lemma_char_in_field(text, i, d);
    let f = fields(text, d);
    let k = choose|k: int| 0 <= k < f.len() && (#[trigger] f[k]).contains(text[i]);
    let j = choose|j: int| 0 <= j < f[k].len() && f[k][j] == text[i];
    assert(is_alnum(f[k][j]));
    lemma_bare_keeps(lowercase(f[k]));
    let t = token_seq(text);
    let bare = Seq::new(t.len(), |i: int| bare_token(t[i]));
    assert(bare =~= bare.take(k + 1) + bare.skip(k + 1));
    lemma_nonempty_concat(bare.take(k + 1), bare.skip(k + 1));
    assert(bare.take(k + 1).last() == bare[k]);
    let w = comparison_seq(text)[nonempty(bare.take(k + 1)).len() - 1];
    assert(comparison_set(text).contains(w));
    comparison_seq(text).lemma_cardinality_of_set();
    vstd::set_lib::lemma_set_empty_equivalency_len(comparison_set(text));
}

/// Whether `text` is `existing` said again. A text with a letter or a digit is itself
/// said again, however short, and a full stop, or another punctuation mark, added to
/// it or taken off never hides that.
pub fn is_reword(text: &str, existing: &str) -> (r: bool)
    ensures
        r == reworded(text@, existing@),
        same_but_for_a_mark(text@, existing@) ==> comparison_set(text@) == comparison_set(
            existing@,
        ) && r == (comparison_set(text@).len() > 0),
        same_but_for_a_mark(text@, existing@) && (any_alnum(text@) || any_alnum(existing@)) ==> r,
{
    let a = comparison_tokens(text);
    let b = comparison_tokens(existing);
    proof {
        if is_punctuated(text@, existing@) {
            lemma_punctuated(text@, existing@);
        }
        if is_punctuated(existing@, text@) {
            lemma_punctuated(existing@, text@);
        }
        if any_alnum(text@) {
            lemma_has_words(text@);
        }
        if any_alnum(existing@) {
            lemma_has_words(existing@);
        }
        lemma_set_len(a@);
        lemma_set_len(b@);
    }
    if a.len() == 0 || b.len() == 0 {
        return false;
    }
    if a.len() <= b.len() {
        if is_subset(&a, &b) && b.len() - a.len() <= REWORD_SUBSET_SLACK {
            return true;
        }
    } else if is_subset(&b, &a) && a.len() - b.len() <= REWORD_SUBSET_SLACK {
        return true;
    }
    proof {
        let sa = comparison_set(text@);
        let sb = comparison_set(existing@);
        if sa.subset_of(sb) {
            vstd::set_lib::lemma_len_subset(sa, sb);
        }
        if sb.subset_of(sa) {
            vstd::set_lib::lemma_len_subset(sb, sa);
            if sb.len() == sa.len() {
                vstd::set_lib::lemma_subset_equality(sb, sa);
            }
        }
    }
    is_near_duplicate(text, existing)
}

/// Saying something again is mutual.
pub proof fn reword_is_symmetric(a: Seq<char>, b: Seq<char>)
    ensures
        reworded(a, b) == reworded(b, a),
        near_duplicate(a, b) == near_duplicate(b, a),
{
    let sa = token_set(a);
    let sb = token_set(b);
    assert(sa.intersect(sb) =~= sb.intersect(sa));
    assert(sa.union(sb) =~= sb.union(sa));
}

/// A change of case, whitespace or trailing punctuation never hides a
/// rewording, however short the text.
pub proof fn formatting_is_a_reword(a: Seq<char>, b: Seq<char>)
    requires
        comparison_set(a) == comparison_set(b),
        comparison_set(a).len() > 0,
    ensures
        reworded(a, b),
{
}

/// A short substitution is another fact: where each text has a word that the
/// other lacks, only a large overlap makes them the same.
pub proof fn substitution_is_no_reword(a: Seq<char>, b: Seq<char>, x: Seq<char>, y: Seq<char>)
    requires
        comparison_set(a).contains(x),
        !comparison_set(b).contains(x),
        comparison_set(b).contains(y),
        !comparison_set(a).contains(y),
        !near_duplicate(a, b),
    ensures
        !reworded(a, b),
{
}

// ---------------------------------------------------------------------
// Remembering
// ---------------------------------------------------------------------

/// How many deliberate tombstones a rewording is looked for in.
pub const FORGOTTEN_SCAN_LIMIT: usize = 500;

/// A memory to be stored.
#[derive(Debug)]
pub struct Remember {
    pub text: String,
    pub mtype: MemoryType,
    pub tags: Vec<String>,
    pub project_id: Option<i64>,
    pub force: bool,
    pub actor: Actor,
}

/// What becomes of a memory to be stored.
#[derive(Debug)]
pub enum RememberOutcome {
    /// Store this node. `revived` says that it undoes a deliberate deletion,
    /// which the ledger then records.
    Created { node: NewNode, revived: bool },
    /// Refused: this live node says the same.
    Duplicate(Node),
    /// Refused: this node says the same and was deliberately forgotten.
    Forgotten(Node),
}

/// A live memory with the given content hash.
pub open spec fn is_exact(hash: Seq<u8>) -> spec_fn(Node) -> bool {
    |n: Node|
        n.kind == Kind::Memory && n.deleted_at is None && n.content_hash is Some
            && n.content_hash->0@ == hash
}

/// A tombstone that someone meant: a deleted memory that the decay pass did not
/// archive.
pub open spec fn is_deliberate(n: Node) -> bool {
    n.kind == Kind::Memory && n.deleted_at is Some && n.meta.archived != Some(1i64)
}

/// Sort keys that put the latest deletion first.
pub open spec fn deletion_keys(rows: Seq<Node>) -> Seq<Key> {
    Seq::new(
        rows.len(),
        |i: int|
            Key {
                first: flipped(
                    match rows[i].deleted_at {
                        Some(t) => t as int,
                        None => 0,
                    },
                ) as i128,
                second: 0,
                third: 0,
            },
    )
}

/// Whether the row at an index is a deliberate tombstone.
pub open spec fn deliberate_at(rows: Seq<Node>) -> spec_fn(int) -> bool {
    |i: int| is_deliberate(rows[i])
}

/// The deliberate tombstones, latest deletion first.
pub open spec fn tombstones(rows: Seq<Node>) -> Seq<int> {
    kept(ranking(deletion_keys(rows)), deliberate_at(rows))
}

/// Whether the row at an index has the given content hash.
pub open spec fn hash_at(rows: Seq<Node>, hash: Seq<u8>) -> spec_fn(int) -> bool {
    |i: int| rows[i].content_hash is Some && rows[i].content_hash->0@ == hash
}

/// Whether `text` says again what the row at an index says.
pub open spec fn reworded_at(rows: Seq<Node>, text: Seq<char>) -> spec_fn(int) -> bool {
    |i: int| reworded(text, rows[i].said())
}

/// The tombstone that refuses `text`: the latest with the same hash, else the
/// latest among the first 500 that it rewords.
pub open spec fn forgotten(rows: Seq<Node>, text: Seq<char>) -> Option<int> {
    let t = tombstones(rows);
    match first_where(t, hash_at(rows, content_hash_of(text))) {
        Some(k) => Some(t[k]),
        None => {
            let scan = first_n(t, FORGOTTEN_SCAN_LIMIT as int);
            match first_where(scan, reworded_at(rows, text)) {
                Some(k) => Some(scan[k]),
                None => None,
            }
        },
    }
}

/// Whether `text` nearly repeats what a node says.
pub open spec fn nearly_said(text: Seq<char>) -> spec_fn(Node) -> bool {
    |n: Node| near_duplicate(text, n.said())
}

/// What is decided about a text.
pub enum Verdict {
    Create { revived: bool },
    Duplicate(Node),
    Forgotten(Node),
}

/// An exact live copy refuses first, then a deliberate tombstone, then a live
/// near-duplicate. Forcing stores in any case, and says whether a deliberate
/// deletion is undone.
pub open spec fn verdict(
    text: Seq<char>,
    force: bool,
    live: Seq<Node>,
    deleted: Seq<Node>,
    similar: Seq<Node>,
) -> Verdict {
    let gone = forgotten(deleted, text);
    if force {
        Verdict::Create { revived: gone is Some }
    } else {
        match first_where(live, is_exact(content_hash_of(text))) {
            Some(i) => Verdict::Duplicate(live[i]),
            None => match gone {
                Some(i) => Verdict::Forgotten(deleted[i]),
                None => match first_where(similar, nearly_said(text)) {
                    Some(i) => Verdict::Duplicate(similar[i]),
                    None => Verdict::Create { revived: false },
                },
            },
        }
    }
}

/// The node that is stored for a memory.
pub open spec fn is_node_for(n: NewNode, args: Remember) -> bool {
    &&& n.kind == Some(Kind::Memory)
    &&& n.subkind is Some && n.subkind->0@ == args.mtype.name()
    &&& n.title is Some && n.title->0@ == title_of(args.text@)
    &&& n.body is Some && n.body->0@ == args.text@
    &&& texts(n.tags@) == clean_tags(texts(args.tags@))
    &&& n.project_id == args.project_id
    &&& n.content_hash is Some && n.content_hash->0@ == content_hash_of(args.text@)
    &&& n.collection_id is None
    &&& n.parent_id is None
    &&& n.path is None
    &&& n.span_start is None
    &&& n.span_end is None
    &&& n.lang is None
    &&& n.meta is None
}

/// First live memory with this content hash.
fn find_exact(live: &Vec<Node>, hash: &Vec<u8>) -> (r: Option<usize>)
    ensures
        match r {
            Some(i) => first_where(live@, is_exact(hash@)) == Some(i as int) && i < live@.len(),
            None => first_where(live@, is_exact(hash@)) is None,
        },
{
    let ghost p = is_exact(hash@);
    let mut i: usize = 0;
    while i < live.len()
        invariant
            i <= live@.len(),
            p == is_exact(hash@),
            forall|k: int| 0 <= k < i ==> !p(#[trigger] live@[k]),
        decreases live@.len() - i,
    {
        let n = &live[i];
        let hit = match &n.content_hash {
            Some(h) => n.kind == Kind::Memory && n.deleted_at.is_none() && same_bytes(h, hash),
            None => false,
        };
        if hit {
            proof {
                lemma_first_where_is(live@, p, i as int);
            }
            return Some(i);
        }
        i += 1;
    }
    proof {
        lemma_first_where_none(live@, p);
    }
    None
}

/// The deliberate tombstones, latest deletion first.
fn list_tombstones(rows: &Vec<Node>) -> (r: Vec<usize>)
    ensures
        as_ints(r@) == tombstones(rows@),
        forall|i: int| 0 <= i < r@.len() ==> #[trigger] r@[i] < rows@.len(),
{
    let mut keys: Vec<Key> = Vec::new();
    let mut i: usize = 0;
    while i < rows.len()
        invariant
            i <= rows@.len(),
            keys@ == deletion_keys(rows@).take(i as int),
        decreases rows@.len() - i,
    {
        let t: i64 = match rows[i].deleted_at {
            Some(t) => t,
            None => 0,
        };
        keys.push(Key::of(flip(t)));
        assert(keys@ =~= deletion_keys(rows@).take(i + 1));
        i += 1;
    }
    assert(keys@ =~= deletion_keys(rows@));
    let order = rank(&keys);
    let ghost o = as_ints(order@);
    let ghost p = deliberate_at(rows@);
    let mut out: Vec<usize> = Vec::new();
    let mut k: usize = 0;
    assert(o.take(0) =~= Seq::empty());
    assert(as_ints(out@) =~= Seq::empty());
    while k < order.len()
        invariant
            k <= order@.len(),
            o == as_ints(order@),
            p == deliberate_at(rows@),
            is_ranking(o, keys@, keys@.len() as int),
            keys@.len() == rows@.len(),
            as_ints(out@) == kept(o.take(k as int), p),
            forall|i: int| 0 <= i < out@.len() ==> #[trigger] out@[i] < rows@.len(),
        decreases order@.len() - k,
    {
        assert(o.take(k + 1).drop_last() =~= o.take(k as int));
        assert(o.take(k + 1).last() == order@[k as int]);
        assert(o[k as int] == order@[k as int]);
        let ghost before = as_ints(out@);
        let j: usize = order[k];
        let n = &rows[j];
        let archived = match n.meta.archived {
            Some(a) => a == 1,
            None => false,
        };
        if n.kind == Kind::Memory && n.deleted_at.is_some() && !archived {
            out.push(j);
            assert(as_ints(out@) =~= before.push(j as int));
        }
        k += 1;
    }
    assert(o.take(order@.len() as int) =~= o);
    out
}

/// The deliberately forgotten memory that `text` would bring back.
pub fn find_forgotten(rows: &Vec<Node>, text: &str) -> (r: Option<usize>)
    ensures
        match r {
            Some(i) => forgotten(rows@, text@) == Some(i as int) && i < rows@.len(),
            None => forgotten(rows@, text@) is None,
        },
{
    let hash = content_hash(text);
    let list = list_tombstones(rows);
    let ghost t = as_ints(list@);
    let ghost p = hash_at(rows@, hash@);
    let mut k: usize = 0;
    while k < list.len()
        invariant
            k <= list@.len(),
            t == as_ints(list@),
            t == tombstones(rows@),
            hash@ == content_hash_of(text@),
            p == hash_at(rows@, hash@),
            forall|i: int| 0 <= i < list@.len() ==> #[trigger] list@[i] < rows@.len(),
            forall|i: int| 0 <= i < k ==> !p(#[trigger] t[i]),
        decreases list@.len() - k,
    {
        assert(t[k as int] == list@[k as int]);
        let hit = match &rows[list[k]].content_hash {
            Some(h) => same_bytes(h, &hash),
            None => false,
        };
        if hit {
            proof {
                lemma_first_where_is(t, p, k as int);
            }
            return Some(list[k]);
        }
        k += 1;
    }
    proof {
        lemma_first_where_none(t, p);
    }
    let limit: usize = if list.len() <= FORGOTTEN_SCAN_LIMIT {
        list.len()
    } else {
        FORGOTTEN_SCAN_LIMIT
    };
    let ghost scan = first_n(t, FORGOTTEN_SCAN_LIMIT as int);
    let ghost q = reworded_at(rows@, text@);
    k = 0;
    while k < limit
        invariant
            k <= limit <= list@.len(),
            t == as_ints(list@),
            t == tombstones(rows@),
            first_where(t, hash_at(rows@, content_hash_of(text@))) is None,
            scan == first_n(t, FORGOTTEN_SCAN_LIMIT as int),
            limit == scan.len(),
            q == reworded_at(rows@, text@),
            forall|i: int| 0 <= i < list@.len() ==> #[trigger] list@[i] < rows@.len(),
            forall|i: int| 0 <= i < k ==> !q(#[trigger] scan[i]),
        decreases limit - k,
    {
        assert(scan[k as int] == list@[k as int]);
        let said = rows[list[k]].statement();
        if is_reword(text, said.as_str()) {
            proof {
                lemma_first_where_is(scan, q, k as int);
            }
            return Some(list[k]);
        }
        k += 1;
    }
    proof {
        lemma_first_where_none(scan, q);
    }
    None
}

/// First of the best matches that `text` nearly repeats.
fn find_near_duplicate(similar: &Vec<Node>, text: &str) -> (r: Option<usize>)
    ensures
        match r {
            Some(i) => first_where(similar@, nearly_said(text@)) == Some(i as int) && i
                < similar@.len(),
            None => first_where(similar@, nearly_said(text@)) is None,
        },
{
    let ghost p = nearly_said(text@);
    let mut i: usize = 0;
    while i < similar.len()
        invariant
            i <= similar@.len(),
            p == nearly_said(text@),
            forall|k: int| 0 <= k < i ==> !p(#[trigger] similar@[k]),
        decreases similar@.len() - i,
    {
        let said = similar[i].statement();
        if is_near_duplicate(text, said.as_str()) {
            proof {
                lemma_first_where_is(similar@, p, i as int);
            }
            return Some(i);
        }
        i += 1;
    }
    proof {
        lemma_first_where_none(similar@, p);
    }
    None
}

/// Decides about a memory to be stored, given the live memories, the deleted
/// ones, and the live ones that a search for the text ranks highest, in rank
/// order.
pub fn remember(
    args: Remember,
    live: Vec<Node>,
    deleted: Vec<Node>,
    similar: Vec<Node>,
) -> (r: RememberOutcome)
    ensures
        match verdict(args.text@, args.force, live@, deleted@, similar@) {
            Verdict::Create { revived } => match r {
                RememberOutcome::Created { node, revived: v } => v == revived && is_node_for(
                    node,
                    args,
                ),
                _ => false,
            },
            Verdict::Duplicate(n) => r == RememberOutcome::Duplicate(n),
            Verdict::Forgotten(n) => r == RememberOutcome::Forgotten(n),
        },
{
    let hash = content_hash(args.text.as_str());
    let mut revived = false;
    if !args.force {
        if let Some(i) = find_exact(&live, &hash) {
            let mut live = live;
            return RememberOutcome::Duplicate(live.remove(i));
        }
        if let Some(i) = find_forgotten(&deleted, args.text.as_str()) {
            let mut deleted = deleted;
            return RememberOutcome::Forgotten(deleted.remove(i));
        }
        if let Some(i) = find_near_duplicate(&similar, args.text.as_str()) {
            let mut similar = similar;
            return RememberOutcome::Duplicate(similar.remove(i));
        }
    } else {
        revived = find_forgotten(&deleted, args.text.as_str()).is_some();
    }
    let mut node = NewNode::new(Kind::Memory);
    node.subkind = Some(args.mtype.as_str().to_owned());
    node.title = Some(derive_title(args.text.as_str()));
    node.body = Some(args.text);
    node.tags = sanitize_tags(args.tags);
    node.project_id = args.project_id;
    node.content_hash = Some(hash);
    RememberOutcome::Created { node, revived }
}

/// Writes down, once the node of an outcome is stored under `id`, that it undid a
/// deliberate deletion. Ordinary storing leaves no entry.
pub fn record_revival(
    ledger: &mut Vec<Mutation>,
    outcome: &RememberOutcome,
    id: i64,
    actor: Actor,
    now: i64,
)
    ensures
        match *outcome {
            RememberOutcome::Created { node, revived: true } => {
                &&& final(ledger)@.len() == old(ledger)@.len() + 1
                &&& final(ledger)@.drop_last() == old(ledger)@
                &&& is_entry(
                    final(ledger)@.last(),
                    now,
                    id,
                    MutationOp::Restore,
                    actor,
                    Some("--force over a deliberate tombstone"@),
                    None,
                    hash_view(node.content_hash),
                )
            },
            _ => final(ledger)@ == old(ledger)@,
        },
{
    if let RememberOutcome::Created { node, revived: true } = outcome {
        let after = match &node.content_hash {
            Some(h) => Some(h),
            None => None,
        };
        record_for_kind(
            ledger,
            Kind::Memory,
            now,
            id,
            MutationOp::Restore,
            actor,
            Some("--force over a deliberate tombstone"),
            None,
            after,
        );
    }
}

/// What was deliberately forgotten stays forgotten unless forced: where no live
/// memory has the text's hash and a deliberate tombstone has it, storing is
/// refused.
pub proof fn forgotten_stays_forgotten(
    text: Seq<char>,
    live: Seq<Node>,
    deleted: Seq<Node>,
    similar: Seq<Node>,
    i: int,
)
    requires
        0 <= i < deleted.len(),
        is_deliberate(deleted[i]),
        deleted[i].content_hash is Some,
        deleted[i].content_hash->0@ == content_hash_of(text),
        first_where(live, is_exact(content_hash_of(text))) is None,
    ensures
        verdict(text, false, live, deleted, similar) is Forgotten,
{
    let keys = deletion_keys(deleted);
    let o = ranking(keys);
    ranking_is_sorted(keys, keys.len() as int);
    lemma_ranking_has(o, keys, i);
    let k = choose|k: int| 0 <= k < o.len() && o[k] == i;
    lemma_kept_all(o, deliberate_at(deleted), k);
    let t = tombstones(deleted);
    let j = choose|j: int| 0 <= j < t.len() && t[j] == i;
    let p = hash_at(deleted, content_hash_of(text));
    lemma_first_where(t, p);
    assert(p(t[j]));
}

/// Other words do not bring a fact back either: where no live memory has the text's
/// hash and the text rewords one of the latest deliberate tombstones, storing is
/// refused.
pub proof fn rewording_stays_forgotten(
    text: Seq<char>,
    live: Seq<Node>,
    deleted: Seq<Node>,
    similar: Seq<Node>,
    i: int,
)
    requires
        first_n(tombstones(deleted), FORGOTTEN_SCAN_LIMIT as int).contains(i),
        reworded(text, deleted[i].said()),
        first_where(live, is_exact(content_hash_of(text))) is None,
    ensures
        verdict(text, false, live, deleted, similar) is Forgotten,
{
    let scan = first_n(tombstones(deleted), FORGOTTEN_SCAN_LIMIT as int);
    let k = choose|k: int| 0 <= k < scan.len() && scan[k] == i;
    let p = reworded_at(deleted, text);
    lemma_first_where(scan, p);
    assert(p(scan[k]));
}

/// Forcing always stores.
pub proof fn force_always_stores(
    text: Seq<char>,
    live: Seq<Node>,
    deleted: Seq<Node>,
    similar: Seq<Node>,
)
    ensures
        verdict(text, true, live, deleted, similar) is Create,
{
}

/// A fact that was brought back is an ordinary duplicate: an exact live copy
/// decides whatever the tombstones say.
pub proof fn live_copy_decides(
    text: Seq<char>,
    live: Seq<Node>,
    deleted: Seq<Node>,
    similar: Seq<Node>,
)
    requires
        first_where(live, is_exact(content_hash_of(text))) is Some,
    ensures
        verdict(text, false, live, deleted, similar) is Duplicate,
{
}

// ---------------------------------------------------------------------
// Editing
// ---------------------------------------------------------------------

/// Changes to a memory; what is absent stays.
#[derive(Debug)]
pub struct Edit {
    pub text: Option<String>,
    pub title: Option<String>,
    pub mtype: Option<MemoryType>,
    pub tags: Option<Vec<String>>,
}

/// The fields of a node after an edit.
#[derive(Debug)]
pub struct Edited {
    pub title: Option<String>,
    pub body: Option<String>,
    pub subkind: Option<String>,
    pub tags_text: String,
    pub content_hash: Option<Vec<u8>>,
    pub updated_at: i64,
}

/// The view of an optional hash.
pub open spec fn hash_view(h: Option<Vec<u8>>) -> Option<Seq<u8>> {
    match h {
        Some(b) => Some(b@),
        None => None,
    }
}

/// Whether `r` is `node` edited: a new body refreshes the title, unless one is
/// given, and the content hash; without one, both stay.
pub open spec fn is_edited(r: Edited, node: Node, change: Edit) -> bool {
    &&& opt_view(r.body) == match change.text {
        Some(t) => Some(t@),
        None => opt_view(node.body),
    }
    &&& opt_view(r.title) == match change.title {
        Some(t) => Some(t@),
        None => match change.text {
            Some(t) => Some(title_of(t@)),
            None => opt_view(node.title),
        },
    }
    &&& opt_view(r.subkind) == match change.mtype {
        Some(t) => Some(t.name()),
        None => opt_view(node.subkind),
    }
    &&& r.tags_text@ == match change.tags {
        Some(t) => join(clean_tags(texts(t@)), seq![' ']),
        None => node.tags_text@,
    }
    &&& hash_view(r.content_hash) == match change.text {
        Some(t) => Some(content_hash_of(t@)),
        None => hash_view(node.content_hash),
    }
}

fn copied(s: &Option<String>) -> (r: Option<String>)
    ensures
        opt_view(r) == opt_view(*s),
{
    match s {
        Some(t) => Some(t.clone()),
        None => None,
    }
}

/// Applies changes to a node's fields. Of a memory, the wording before the edit is
/// kept, and the ledger gets the hashes of both.
pub fn edit(
    node: &Node,
    change: Edit,
    actor: Actor,
    reason: Option<&str>,
    revisions: &mut Vec<Row>,
    ledger: &mut Vec<Mutation>,
    now: i64,
) -> (r: Edited)
    ensures
        is_edited(r, *node, change),
        r.updated_at == now,
        node.kind != Kind::Memory ==> final(revisions)@ == old(revisions)@ && final(ledger)@ == old(
            ledger,
        )@,
        node.kind == Kind::Memory ==> {
            &&& final(revisions)@.len() == old(revisions)@.len() + 1
            &&& final(revisions)@.drop_last() == old(revisions)@
            &&& keeps(final(revisions)@.last(), *node, now)
            &&& final(ledger)@.len() == old(ledger)@.len() + 1
            &&& final(ledger)@.drop_last() == old(ledger)@
            &&& is_entry(
                final(ledger)@.last(),
                now,
                node.id,
                MutationOp::Edit,
                actor,
                text_of(reason),
                hash_view(node.content_hash),
                hash_view(r.content_hash),
            )
        },
{
    snapshot(revisions, node, now);
    let title = match change.title {
        Some(t) => Some(t),
        None => match &change.text {
            Some(t) => Some(derive_title(t.as_str())),
            None => copied(&node.title),
        },
    };
    let hash = match &change.text {
        Some(t) => Some(content_hash(t.as_str())),
        None => match &node.content_hash {
            Some(h) => Some(copy_bytes(h)),
            None => None,
        },
    };
    let body = match change.text {
        Some(t) => Some(t),
        None => copied(&node.body),
    };
    let subkind = match change.mtype {
        Some(t) => Some(t.as_str().to_owned()),
        None => copied(&node.subkind),
    };
    let tags_text = match change.tags {
        Some(t) => {
            proof {
                reveal_strlit(" ");
                assert(" "@ =~= seq![' ']);
            }
            joined(&sanitize_tags(t), " ")
        },
        None => node.tags_text.clone(),
    };
    let before = match &node.content_hash {
        Some(h) => Some(h),
        None => None,
    };
    let after = match &hash {
        Some(h) => Some(h),
        None => None,
    };
    record_for_kind(ledger, node.kind, now, node.id, MutationOp::Edit, actor, reason, before, after);
    Edited { title, body, subkind, tags_text, content_hash: hash, updated_at: now }
}

// ---------------------------------------------------------------------
// Meaningful words
// ---------------------------------------------------------------------

/// Words that say what a text is about: longer than three bytes, not ignored by the
/// search.
pub open spec fn is_meaningful(stop: Seq<Seq<char>>) -> spec_fn(Seq<char>) -> bool {
    |t: Seq<char>| utf8_len(t) > 3 && !stop.contains(t)
}

/// The words that say what a text is about, in order.
pub open spec fn gist(text: Seq<char>, stop: Seq<Seq<char>>) -> Seq<Seq<char>> {
    kept(token_seq(text), is_meaningful(stop))
}

/// The words that say what a text is about, in order.
pub fn gist_of(text: &str, stop: &Vec<String>) -> (r: Vec<String>)
    ensures
        texts(r@) == gist(text@, texts(stop@)),
{
    let ghost p = is_meaningful(texts(stop@));
    let words = tokens(text);
    let ghost ws = texts(words@);
    let mut out: Vec<String> = Vec::new();
    let mut k: usize = 0;
    assert(texts(out@) =~= kept(ws.take(0), p));
    while k < words.len()
        invariant
            k <= words@.len(),
            ws == texts(words@),
            p == is_meaningful(texts(stop@)),
            texts(out@) == kept(ws.take(k as int), p),
        decreases words@.len() - k,
    {
        assert(ws.take(k + 1).drop_last() =~= ws.take(k as int));
        assert(ws.take(k + 1).last() == words@[k as int]@);
        let word = words[k].as_str();
        if byte_len(word) > 3 && !is_member(stop, word) {
            let ghost had = texts(out@);
            out.push(word.to_owned());
            assert(texts(out@) =~= had.push(word@));
        }
        k += 1;
    }
    assert(ws.take(ws.len() as int) =~= ws);
    out
}

// ---------------------------------------------------------------------
// Listing
// ---------------------------------------------------------------------

/// Whether `part` stands in `all` from the `k`-th piece on.
pub open spec fn runs_from(all: Seq<Seq<char>>, part: Seq<Seq<char>>, k: int) -> bool {
    0 <= k && k + part.len() <= all.len() && all.subrange(k, k + part.len()) == part
}

/// Whether a node carries a tag: the words of the tag, as blanks part them, stand one
/// behind the other among the words of the node's tags.
pub open spec fn is_tagged(n: Node, tag: Seq<char>) -> bool {
    exists|k: int|
        #[trigger] runs_from(
            split(n.tags_text@, Delim::Char(' ')),
            split(tag, Delim::Char(' ')),
            k,
        )
}

fn stands_at(all: &Vec<String>, part: &Vec<String>, k: usize) -> (r: bool)
    requires
        k + part@.len() <= all@.len(),
    ensures
        r == runs_from(texts(all@), texts(part@), k as int),
{
    let ghost run = texts(all@).subrange(k as int, k + part@.len());
    let n: usize = all.len();
    let mut i: usize = 0;
    while i < part.len()
        invariant
            i <= part@.len(),
            k + part@.len() <= all@.len() == n,
            run == texts(all@).subrange(k as int, k + part@.len()),
            forall|j: int| 0 <= j < i ==> run[j] == #[trigger] texts(part@)[j],
        decreases part@.len() - i,
    {
        assert(run[i as int] == all@[k + i]@);
        assert(texts(part@)[i as int] == part@[i as int]@);
        if !same(all[k + i].as_str(), part[i].as_str()) {
            return false;
        }
        i += 1;
    }
    assert(run =~= texts(part@));
    true
}

fn has_tag(n: &Node, tag: &str) -> (r: bool)
    ensures
        r == is_tagged(*n, tag@),
{
    let all = split_all(n.tags_text.as_str(), Delim::Char(' '));
    let part = split_all(tag, Delim::Char(' '));
    if part.len() > all.len() {
        return false;
    }
    let mut k: usize = 0;
    while k <= all.len() - part.len()
        invariant
            part@.len() <= all@.len(),
            k <= all@.len() - part@.len() + 1,
            texts(all@) == split(n.tags_text@, Delim::Char(' ')),
            texts(part@) == split(tag@, Delim::Char(' ')),
            forall|j: int| 0 <= j < k ==> !#[trigger] runs_from(texts(all@), texts(part@), j),
        decreases all@.len() - part@.len() + 1 - k,
    {
        if stands_at(&all, &part, k) {
            return true;
        }
        k += 1;
    }
    false
}

proof fn lemma_join_runs(tags: Seq<Seq<char>>, i: int)
    requires
        0 <= i < tags.len(),
    ensures
        exists|k: int|
            #[trigger] runs_from(
                split(join(tags, " "@), Delim::Char(' ')),
                split(tags[i], Delim::Char(' ')),
                k,
            ),
    decreases tags.len(),
{
    let d = Delim::Char(' ');
    let all = split(join(tags, " "@), d);
    let part = split(tags[i], d);
    reveal_strlit(" ");
    assert(" "@ =~= seq![' ']);
    if tags.len() == 1 {
        assert(all.subrange(0, part.len() as int) =~= part);
        assert(runs_from(all, part, 0));
    } else {
        let t = tags.drop_last();
        let head = split(join(t, " "@), d);
        let tail = split(tags.last(), d);
        lemma_split_at(join(t, " "@), ' ', tags.last(), d);
        assert(all == head + tail);
        if i == tags.len() - 1 {
            let k = head.len() as int;
            assert(all.subrange(k, k + part.len()) =~= part);
            assert(runs_from(all, part, k));
        } else {
            lemma_join_runs(t, i);
            let k = choose|k: int| #[trigger] runs_from(head, part, k);
            assert(all.subrange(k, k + part.len()) =~= head.subrange(k, k + part.len()));
            assert(runs_from(all, part, k));
        }
    }
}

/// Every tag that a node was stored with is found, blanks inside it or not.
pub proof fn a_stored_tag_is_found(n: Node, tags: Seq<Seq<char>>, i: int)
    requires
        n.tags_text@ == join(tags, " "@),
        0 <= i < tags.len(),
    ensures
        is_tagged(n, tags[i]),
{
    lemma_join_runs(tags, i);
}

/// A tag of one word is found where a whole word of the node's tags is that word.
pub proof fn a_tag_is_a_whole_word(n: Node, tag: Seq<char>)
    requires
        unseparated(tag, Delim::Char(' ')),
    ensures
        is_tagged(n, tag) == split(n.tags_text@, Delim::Char(' ')).contains(tag),
{
    let d = Delim::Char(' ');
    let e = Seq::<char>::empty();
    lemma_split_append(e, tag, d);
    assert(e + tag =~= tag);
    assert(split(e, d) =~= seq![e]);
    assert(split(tag, d) =~= seq![tag]);
    let all = split(n.tags_text@, d);
    if is_tagged(n, tag) {
        let k = choose|k: int| #[trigger] runs_from(all, seq![tag], k);
        assert(all[k] == all.subrange(k, k + 1)[0]);
    }
    if all.contains(tag) {
        let k = choose|k: int| 0 <= k < all.len() && all[k] == tag;
        assert(all.subrange(k, k + 1) =~= seq![tag]);
        assert(runs_from(all, split(tag, d), k));
    }
}

/// Places of memories, superseded ones among them, that are not deleted and that
/// a filter lets through.
pub open spec fn is_listed(
    nodes: Seq<Node>,
    scope: Scope,
    mtype: Option<MemoryType>,
    tag: Option<Seq<char>>,
) -> spec_fn(int) -> bool {
    |i: int|
        {
            &&& 0 <= i < nodes.len()
            &&& nodes[i].kind == Kind::Memory
            &&& nodes[i].deleted_at is None
            &&& scope.admits(nodes[i].project_id)
            &&& match mtype {
                Some(t) => nodes[i].subkind is Some && nodes[i].subkind->0@ == t.name(),
                None => true,
            }
            &&& match tag {
                Some(t) => is_tagged(nodes[i], t),
                None => true,
            }
        }
}

fn lists(n: &Node, scope: Scope, mtype: Option<MemoryType>, tag: Option<&str>) -> (r: bool)
    ensures
        r == ({
            &&& n.kind == Kind::Memory
            &&& n.deleted_at is None
            &&& scope.admits(n.project_id)
            &&& match mtype {
                Some(t) => n.subkind is Some && n.subkind->0@ == t.name(),
                None => true,
            }
            &&& match tag {
                Some(t) => is_tagged(*n, t@),
                None => true,
            }
        }),
{
    let typed = match mtype {
        Some(t) => match &n.subkind {
            Some(s) => same(s.as_str(), t.as_str()),
            None => false,
        },
        None => true,
    };
    let tagged = match tag {
        Some(t) => has_tag(n, t),
        None => true,
    };
    n.kind == Kind::Memory && n.deleted_at.is_none() && scope.covers(n.project_id) && typed
        && tagged
}

/// The view of an optional tag.
pub open spec fn tag_view(tag: Option<&str>) -> Option<Seq<char>> {
    match tag {
        Some(t) => Some(t@),
        None => None,
    }
}

/// The memories of a scope, newest first, filtered by type and tag.
pub open spec fn listing(
    nodes: Seq<Node>,
    scope: Scope,
    mtype: Option<MemoryType>,
    tag: Option<Seq<char>>,
) -> Seq<Node> {
    picked(nodes, kept(ranking(newest_keys(nodes)), is_listed(nodes, scope, mtype, tag)))
}

/// Recent memories, newest first, optionally filtered by type and tag.
pub fn list<'a>(
    nodes: &'a Vec<Node>,
    scope: Scope,
    mtype: Option<MemoryType>,
    tag: Option<&str>,
    limit: usize,
) -> (r: Vec<&'a Node>)
    ensures
        deref_all(r@) == first_n(listing(nodes@, scope, mtype, tag_view(tag)), limit as int),
{
    let ghost p = is_listed(nodes@, scope, mtype, tag_view(tag));
    let mut keys: Vec<Key> = Vec::new();
    let mut keep: Vec<bool> = Vec::new();
    let mut i: usize = 0;
    while i < nodes.len()
        invariant
            i <= nodes@.len(),
            p == is_listed(nodes@, scope, mtype, tag_view(tag)),
            keys@.len() == i,
            keep@.len() == i,
            forall|k: int| 0 <= k < i ==> #[trigger] keys@[k] == newest_keys(nodes@)[k],
            forall|k: int| 0 <= k < i ==> #[trigger] keep@[k] == p(k),
        decreases nodes@.len() - i,
    {
        keys.push(Key::of(flip(nodes[i].created_at)));
        keep.push(lists(&nodes[i], scope, mtype, tag));
        i += 1;
    }
    assert(keys@ =~= newest_keys(nodes@));
    assert(marked(keep@) =~= p);
    let order = rank_where(&keys, &keep);
    pick(nodes, &order, limit)
}

} // verus!
