//! Importers: what the exports of other note stores mean as memories.
//!
//! An importer reads an export into memories to be stored. Storing goes through the
//! ordinary capture, unforced, so that an import that runs again adds nothing.

use vstd::prelude::*;

#[allow(unused_imports)]
use crate::calendar::{day_number, leaps_through, valid_date};
use crate::error::{Error, Result};
use crate::memory::RememberOutcome;
#[allow(unused_imports)]
use crate::memory::{content_hash_of, is_exact, live_copy_decides, verdict};
use crate::model::MemoryType;
#[allow(unused_imports)]
use crate::model::{Kind, Node};
#[allow(unused_imports)]
use crate::seqs::lemma_first_where;
use crate::text::{
    byte_len, chars_of, joined, lines_of, parse_range, parse_signed, position, replace_char, same,
    split_all, string_of, trimmed, trimmed_end, trimmed_start, without_prefix, without_suffix,
    without_suffixes, Delim,
};
#[allow(unused_imports)]
use crate::text::{
    ends_with, find_in, join, lemma_texts_empty, lemma_texts_push, lines, lowercase, occurs_at,
    replaced, signed, split, starts_with, texts, trim, trim_end, trim_start, trim_suffixes,
    unsigned, utf8_len,
};
#[allow(unused_imports)]
use vstd::string::*;

verus! {

/// What an import did.
#[derive(Debug, Clone, Copy, PartialEq, Eq, Structural)]
pub struct ImportStats {
    pub imported: usize,
    pub skipped_duplicates: usize,
}

impl Default for ImportStats {
    fn default() -> (r: ImportStats)
        ensures
            r == (ImportStats { imported: 0, skipped_duplicates: 0 }),
    {
        ImportStats { imported: 0, skipped_duplicates: 0 }
    }
}

/// A parsed memory to be stored.
#[derive(Debug)]
pub struct Incoming {
    pub text: String,
    pub mtype: MemoryType,
    pub tags: Vec<String>,
    /// When it was first captured, where the export says so.
    pub created_at: Option<i64>,
}

/// A parsed memory as the rules see it.
pub ghost struct IncomingView {
    pub text: Seq<char>,
    pub mtype: MemoryType,
    pub tags: Seq<Seq<char>>,
    pub created_at: Option<i64>,
}

impl View for Incoming {
    type V = IncomingView;

    open spec fn view(&self) -> IncomingView {
        IncomingView {
            text: self.text@,
            mtype: self.mtype,
            tags: texts(self.tags@),
            created_at: self.created_at,
        }
    }
}

/// Parsed memories as the rules see them.
pub open spec fn views(items: Seq<Incoming>) -> Seq<IncomingView> {
    Seq::new(items.len(), |i: int| items[i]@)
}

/// How many of the outcomes stored a memory.
pub open spec fn stored(outcomes: Seq<RememberOutcome>) -> nat
    decreases outcomes.len(),
{
    if outcomes.len() == 0 {
        0
    } else {
        stored(outcomes.drop_last()) + if outcomes.last() is Created {
            1nat
        } else {
            0
        }
    }
}

/// Counts what became of the memories of an import: stored, or skipped because the
/// store has them, or had them and was told to forget them.
pub fn tally(outcomes: &Vec<RememberOutcome>) -> (r: ImportStats)
    ensures
        r.imported == stored(outcomes@),
        r.imported + r.skipped_duplicates == outcomes@.len(),
{
    let mut stats = ImportStats::default();
    let mut i: usize = 0;
    while i < outcomes.len()
        invariant
            i <= outcomes@.len(),
            stats.imported == stored(outcomes@.take(i as int)),
            stats.imported + stats.skipped_duplicates == i,
        decreases outcomes@.len() - i,
    {
        assert(outcomes@.take(i + 1).drop_last() =~= outcomes@.take(i as int));
        assert(outcomes@.take(i + 1).last() == outcomes@[i as int]);
        match &outcomes[i] {
            RememberOutcome::Created { .. } => {
                stats.imported += 1;
            },
            _ => {
                stats.skipped_duplicates += 1;
            },
        }
        i += 1;
    }
    assert(outcomes@.take(outcomes@.len() as int) =~= outcomes@);
    stats
}

// ---------------------------------------------------------------------
// Dates
// ---------------------------------------------------------------------

/// Division that rounds towards zero.
pub open spec fn quotient(a: int, b: int) -> int {
    if a >= 0 {
        a / b
    } else {
        -((-a) / b)
    }
}

/// The remainder that goes with [`quotient`].
pub open spec fn remainder(a: int, b: int) -> int {
    a - b * quotient(a, b)
}

/// The day number of month `m` and day `d` of year `y`, days since 1970-01-01. Month
/// and day are taken as they come, existing or not.
pub open spec fn us_day(y: int, m: int, d: int) -> int {
    let my = if m <= 2 {
        y - 1
    } else {
        y
    };
    365 * my + leaps_through(my) + quotient(153 * remainder(m + 9, 12) + 2, 5) + d - 1 - 719_468
}

/// The time that a date such as `6/4/2026` means: month, day, year. Further parts
/// are ignored. Nothing where a part is no number, or where the time is out of range.
pub open spec fn us_time(s: Seq<char>) -> Option<int> {
    let parts = split(trim(s), Delim::Char('/'));
    if parts.len() < 3 {
        None
    } else {
        match (signed(parts[0]), signed(parts[1]), signed(parts[2])) {
            (Some(m), Some(d), Some(y)) => {
                let t = us_day(y, m, d) * 86_400;
                if i64::MIN <= t <= i64::MAX {
                    Some(t)
                } else {
                    None
                }
            },
            _ => None,
        }
    }
}

fn divided(a: i128, b: i128) -> (r: i128)
    requires
        0 < b < 1_000,
        -0x1_0000_0000_0000_0000_0000 < a < 0x1_0000_0000_0000_0000_0000,
    ensures
        r == quotient(a as int, b as int),
        -0x1_0000_0000_0000_0000_0000 < r < 0x1_0000_0000_0000_0000_0000,
{
    let q: i128 = if a >= 0 {
        a / b
    } else {
        -((-a) / b)
    };
    proof {
        let x = if a >= 0 {
            a as int
        } else {
            -(a as int)
        };
        assert(0 <= x / b as int <= x) by (nonlinear_arith)
            requires
                x >= 0,
                b > 0,
        ;
    }
    q
}

/// `a / b` rounded down, for any size that an `i64` date can lead to.
fn floored(a: i128, b: i128) -> (r: i128)
    requires
        0 < b < 1_000,
        -0x1_0000_0000_0000_0000_0000 < a < 0x1_0000_0000_0000_0000_0000,
    ensures
        r == a as int / b as int,
        -0x1_0000_0000_0000_0000_0000 <= r < 0x1_0000_0000_0000_0000_0000,
{
    let q: i128 = if a >= 0 {
        a / b
    } else {
        -1 - (-(a + 1)) / b
    };
    proof {
        if a >= 0 {
            assert(0 <= a as int / b as int <= a) by (nonlinear_arith)
                requires
                    a >= 0,
                    b > 0,
            ;
        } else {
            let x = -(a as int + 1);
            let m = b as int;
            assert(a as int / m == -1 - x / m && 0 <= x / m <= x) by (nonlinear_arith)
                requires
                    m > 0,
                    x >= 0,
                    a as int == -x - 1,
            ;
        }
    }
    q
}

/// Reads a date such as `6/4/2026` as the time at which that day begins.
pub fn parse_us_date(s: &str) -> (r: Option<i64>)
    ensures
        match r {
            Some(t) => us_time(s@) == Some(t as int),
            None => us_time(s@) is None,
        },
{
    let t = trimmed(s);
    let parts = split_all(t.as_str(), Delim::Char('/'));
    if parts.len() < 3 {
        return None;
    }
    assert(texts(parts@)[0] == parts@[0]@);
    assert(texts(parts@)[1] == parts@[1]@);
    assert(texts(parts@)[2] == parts@[2]@);
    let m: i64 = match parse_signed(parts[0].as_str()) {
        Some(n) => n,
        None => {
            return None;
        },
    };
    let d: i64 = match parse_signed(parts[1].as_str()) {
        Some(n) => n,
        None => {
            return None;
        },
    };
    let y: i64 = match parse_signed(parts[2].as_str()) {
        Some(n) => n,
        None => {
            return None;
        },
    };
    let my: i128 = if m <= 2 {
        y as i128 - 1
    } else {
        y as i128
    };
    let mw: i128 = m as i128 + 9;
    let mp: i128 = mw - 12 * divided(mw, 12);
    proof {
        lemma_remainder_small(mw as int);
    }
    let leaps: i128 = floored(my, 4) - floored(my, 100) + floored(my, 400);
    let day: i128 = 365 * my + leaps + divided(153 * mp + 2, 5) + d as i128 - 1 - 719_468;
    let at: i128 = day * 86_400;
    if at < i64::MIN as i128 || at > i64::MAX as i128 {
        None
    } else {
        Some(at as i64)
    }
}

proof fn lemma_remainder_small(a: int)
    ensures
        -12 < remainder(a, 12) < 12,
        a >= 0 ==> remainder(a, 12) == a % 12,
{
    if a < 0 {
        let b = -a;
        assert(b == 12 * (b / 12) + b % 12);
    }
}

// ---------------------------------------------------------------------
// OpenBrain
// ---------------------------------------------------------------------

/// The type that the export's word for a thought means.
pub open spec fn type_of(word: Seq<char>) -> MemoryType {
    if word == "observation"@ {
        MemoryType::Insight
    } else if word == "idea"@ {
        MemoryType::Idea
    } else if word == "person_note"@ {
        MemoryType::Person
    } else {
        MemoryType::Note
    }
}

/// A topic as a tag: trimmed, its blanks turned into hyphens, in lower case.
pub open spec fn topic_tag(topic: Seq<char>) -> Seq<char> {
    lowercase(replaced(trim(topic), ' ', '-'))
}

/// The tags of a list of topics, empty ones left out.
pub open spec fn topic_tags(topics: Seq<Seq<char>>) -> Seq<Seq<char>>
    decreases topics.len(),
{
    if topics.len() == 0 {
        Seq::empty()
    } else {
        let before = topic_tags(topics.drop_last());
        let tag = topic_tag(topics.last());
        if tag.len() > 0 {
            before.push(tag)
        } else {
            before
        }
    }
}

/// The header of a thought.
pub ghost struct Header {
    pub created_at: Option<i64>,
    pub mtype: MemoryType,
    pub tags: Seq<Seq<char>>,
}

/// What stands in the round brackets of a header: a word, and behind a hyphen the
/// topics.
pub open spec fn header_of_inside(date: Option<int>, inside: Seq<char>) -> Header {
    let created_at = match date {
        Some(t) => if t > 0 {
            Some(t as i64)
        } else {
            None
        },
        None => None,
    };
    match find_in(inside, " - "@, 0) {
        Some(k) => Header {
            created_at,
            mtype: type_of(trim(inside.take(k))),
            tags: topic_tags(split(inside.skip(k + 3), Delim::Char(','))),
        },
        None => Header {
            created_at,
            mtype: type_of(trim(inside)),
            tags: topic_tags(split(Seq::empty(), Delim::Char(','))),
        },
    }
}

/// The header behind the number: a date in square brackets, and later a word and
/// topics in round ones.
pub open spec fn header_of_rest(after: Seq<char>) -> Option<Header> {
    match find_in(after, "]"@, 0) {
        Some(close) => match find_in(after, "("@, close) {
            Some(paren) => match find_in(after, ")"@, paren) {
                Some(end) => Some(
                    header_of_inside(us_time(after.take(close)), after.subrange(paren + 1, end)),
                ),
                None => None,
            },
            None => None,
        },
        None => None,
    }
}

/// The header that a line is, such as `12. [6/4/2026] (observation - rust, mcp)`.
pub open spec fn header_of(line: Seq<char>) -> Option<Header> {
    let rest = trim_start(line);
    match find_in(rest, ". ["@, 0) {
        Some(dot) => if unsigned(rest.take(dot), usize::MAX as int) is Some {
            header_of_rest(rest.skip(dot + 3))
        } else {
            None
        },
        None => None,
    }
}

fn read_type(word: &str) -> (r: MemoryType)
    ensures
        r == type_of(word@),
{
    if same(word, "observation") {
        MemoryType::Insight
    } else if same(word, "idea") {
        MemoryType::Idea
    } else if same(word, "person_note") {
        MemoryType::Person
    } else {
        MemoryType::Note
    }
}

fn read_topics(topics: &str) -> (r: Vec<String>)
    ensures
        texts(r@) == topic_tags(split(topics@, Delim::Char(','))),
{
    broadcast use {lemma_texts_push, lemma_texts_empty};

    let parts = split_all(topics, Delim::Char(','));
    let ghost all = texts(parts@);
    let mut out: Vec<String> = Vec::new();
    let mut i: usize = 0;
    assert(texts(out@) =~= topic_tags(all.take(0)));
    while i < parts.len()
        invariant
            i <= parts@.len(),
            all == texts(parts@),
            texts(out@) == topic_tags(all.take(i as int)),
        decreases parts@.len() - i,
    {
        assert(all.take(i + 1).drop_last() =~= all.take(i as int));
        assert(all.take(i + 1).last() == parts@[i as int]@);
        let ghost before = texts(out@);
        let bare = trimmed(parts[i].as_str());
        let tag = replace_char(bare.as_str(), ' ', '-').as_str().to_lowercase();
        if !tag.as_str().is_empty() {
            out.push(tag);
            assert(texts(out@) =~= before.push(tag@));
        }
        i += 1;
    }
    assert(all.take(all.len() as int) =~= all);
    out
}

/// Whether a parsed header holds what the line says.
pub open spec fn is_header(item: Incoming, h: Header) -> bool {
    &&& item.text@.len() == 0
    &&& item.mtype == h.mtype
    &&& texts(item.tags@) == h.tags
    &&& item.created_at == h.created_at
}

fn read_inside(date: Option<i64>, inside: &str) -> (r: Incoming)
    ensures
        is_header(
            r,
            header_of_inside(
                match date {
                    Some(t) => Some(t as int),
                    None => None,
                },
                inside@,
            ),
        ),
{
    let created_at = match date {
        Some(t) => if t > 0 {
            Some(t)
        } else {
            None
        },
        None => None,
    };
    let v = chars_of(inside);
    match position(&v, " - ", 0) {
        Some(k) => {
            proof {
                reveal_strlit(" - ");
            }
            let word = string_of(&v, 0, k);
            let topics = string_of(&v, k + 3, v.len());
            assert(word@ =~= inside@.take(k as int));
            assert(topics@ =~= inside@.skip(k + 3));
            Incoming {
                text: String::new(),
                mtype: read_type(trimmed(word.as_str()).as_str()),
                tags: read_topics(topics.as_str()),
                created_at,
            }
        },
        None => {
            let none = String::new();
            assert(none@ =~= Seq::empty());
            Incoming {
                text: String::new(),
                mtype: read_type(trimmed(inside).as_str()),
                tags: read_topics(none.as_str()),
                created_at,
            }
        },
    }
}

fn read_rest(after: &Vec<char>) -> (r: Option<Incoming>)
    ensures
        match r {
            Some(item) => header_of_rest(after@) is Some && is_header(item, header_of_rest(after@)->0),
            None => header_of_rest(after@) is None,
        },
{
    proof {
        reveal_strlit("]");
        reveal_strlit("(");
        reveal_strlit(")");
    }
    let close: usize = match position(after, "]", 0) {
        Some(i) => i,
        None => {
            return None;
        },
    };
    let paren: usize = match position(after, "(", close) {
        Some(i) => i,
        None => {
            return None;
        },
    };
    let end: usize = match position(after, ")", paren) {
        Some(i) => i,
        None => {
            return None;
        },
    };
    proof {
        lemma_found(after@, "("@, close as int);
        lemma_bracket(after@, paren as int, end as int);
    }
    let date = string_of(after, 0, close);
    assert(date@ =~= after@.take(close as int));
    let inside = string_of(after, paren + 1, end);
    Some(read_inside(parse_us_date(date.as_str()), inside.as_str()))
}

proof fn lemma_bracket(after: Seq<char>, paren: int, end: int)
    requires
        occurs_at(after, "("@, paren),
        find_in(after, ")"@, paren) == Some(end),
    ensures
        paren < end,
{
    reveal_strlit("(");
    reveal_strlit(")");
    lemma_found(after, ")"@, paren);
    if paren == end {
        assert(after.subrange(paren, paren + 1) == "("@);
        assert("("@[0] != ")"@[0]);
    }
}

/// What is found stands there.
proof fn lemma_found(hay: Seq<char>, needle: Seq<char>, from: int)
    ensures
        match find_in(hay, needle, from) {
            Some(i) => from <= i && occurs_at(hay, needle, i),
            None => true,
        },
    decreases hay.len() + 1 - from,
{
    if 0 <= from <= hay.len() && !occurs_at(hay, needle, from) {
        lemma_found(hay, needle, from + 1);
    }
}

/// Reads a line as the header of a thought, if it is one.
pub fn read_header(line: &str) -> (r: Option<Incoming>)
    ensures
        match r {
            Some(item) => header_of(line@) is Some && is_header(item, header_of(line@)->0),
            None => header_of(line@) is None,
        },
{
    proof {
        reveal_strlit(". [");
    }
    let v = chars_of(trimmed_start(line).as_str());
    let dot: usize = match position(&v, ". [", 0) {
        Some(i) => i,
        None => {
            return None;
        },
    };
    assert(v@.subrange(0, dot as int) =~= v@.take(dot as int));
    if parse_range(&v, 0, dot, usize::MAX as u64).is_none() {
        return None;
    }
    let rest = chars_of(string_of(&v, dot + 3, v.len()).as_str());
    assert(rest@ =~= v@.skip(dot + 3));
    read_rest(&rest)
}

/// The thoughts read so far, and the one that is being read: its header and the
/// lines of its body.
pub ghost struct Reading {
    pub items: Seq<IncomingView>,
    pub current: Option<(Header, Seq<Seq<char>>)>,
}

/// The thoughts once the current one is complete. One without text is left out.
pub open spec fn completed(r: Reading) -> Seq<IncomingView> {
    match r.current {
        Some((h, body)) => {
            let text = trim(join(body, "\n"@));
            if text.len() > 0 {
                r.items.push(
                    IncomingView { text, mtype: h.mtype, tags: h.tags, created_at: h.created_at },
                )
            } else {
                r.items
            }
        },
        None => r.items,
    }
}

/// A line of a body, without the indent of three blanks.
pub open spec fn body_line(line: Seq<char>) -> Seq<char> {
    if starts_with(line, "   "@) {
        line.skip(3)
    } else {
        line
    }
}

/// The reading of the first `n` lines. Lines before the first header are skipped.
pub open spec fn reading(ls: Seq<Seq<char>>, n: int) -> Reading
    decreases n,
{
    if n <= 0 {
        Reading { items: Seq::empty(), current: None }
    } else {
        let before = reading(ls, n - 1);
        match header_of(ls[n - 1]) {
            Some(h) => Reading { items: completed(before), current: Some((h, Seq::empty())) },
            None => match before.current {
                Some((h, body)) => Reading {
                    current: Some((h, body.push(body_line(ls[n - 1])))),
                    ..before
                },
                None => before,
            },
        }
    }
}

/// The thoughts of an export.
pub open spec fn thoughts(text: Seq<char>) -> Seq<IncomingView> {
    let ls = lines(text);
    completed(reading(ls, ls.len() as int))
}

/// Whether the executable reading agrees with the rules.
spec fn agrees(
    items: Seq<Incoming>,
    current: Option<(Incoming, Vec<String>)>,
    r: Reading,
) -> bool {
    &&& views(items) == r.items
    &&& match (current, r.current) {
        (Some((item, body)), Some((h, lines))) => is_header(item, h) && texts(body@) == lines,
        (None, None) => true,
        _ => false,
    }
}

fn complete(items: &mut Vec<Incoming>, current: Option<(Incoming, Vec<String>)>, Ghost(r): Ghost<Reading>)
    requires
        agrees(old(items)@, current, r),
    ensures
        views(final(items)@) == completed(r),
{
    match current {
        Some((item, body)) => {
            let ghost before = views(items@);
            let text = trimmed(joined(&body, "\n").as_str());
            if !text.as_str().is_empty() {
                let done = Incoming {
                    text,
                    mtype: item.mtype,
                    tags: item.tags,
                    created_at: item.created_at,
                };
                items.push(done);
                assert(views(items@) =~= before.push(done@));
            }
        },
        None => {},
    }
}

/// Reads a text export of OpenBrain, thoughts such as
/// `12. [6/4/2026] (observation - rust, mcp)` with their text on the lines below.
pub fn openbrain(text: &str) -> (r: Result<Vec<Incoming>>)
    ensures
        match r {
            Ok(items) => thoughts(text@).len() > 0 && views(items@) == thoughts(text@),
            Err(e) => thoughts(text@).len() == 0 && e is Invalid && e->Invalid_0@
                == "no thoughts found — expected OpenBrain list_thoughts text format"@,
        },
{
    broadcast use {lemma_texts_push, lemma_texts_empty};

    let ls = lines_of(text);
    let ghost all = lines(text@);
    let mut items: Vec<Incoming> = Vec::new();
    let mut current: Option<(Incoming, Vec<String>)> = None;
    let mut i: usize = 0;
    assert(views(items@) =~= Seq::empty());
    while i < ls.len()
        invariant
            i <= ls@.len(),
            all == texts(ls@),
            agrees(items@, current, reading(all, i as int)),
        decreases ls@.len() - i,
    {
        let line = ls[i].as_str();
        let ghost before = reading(all, i as int);
        assert(all[i as int] == line@);
        match read_header(line) {
            Some(item) => {
                complete(&mut items, current, Ghost(before));
                let body: Vec<String> = Vec::new();
                assert(texts(body@) =~= Seq::empty());
                current = Some((item, body));
            },
            None => {
                current = match current {
                    Some((item, body)) => {
                        let mut body = body;
                        let ghost had = texts(body@);
                        let bare = match without_prefix(line, "   ") {
                            Some(rest) => {
                                proof {
                                    reveal_strlit("   ");
                                }
                                rest
                            },
                            None => line.to_owned(),
                        };
                        assert(bare@ == body_line(line@));
                        body.push(bare);
                        assert(texts(body@) =~= had.push(bare@));
                        Some((item, body))
                    },
                    None => None,
                };
            },
        }
        i += 1;
    }
    complete(&mut items, current, Ghost(reading(all, all.len() as int)));
    if items.len() == 0 {
        return Err(
            Error::Invalid(
                "no thoughts found — expected OpenBrain list_thoughts text format".to_owned(),
            ),
        );
    }
    Ok(items)
}

// ---------------------------------------------------------------------
// Memory files with frontmatter
// ---------------------------------------------------------------------

/// The value of the first line of the form `type: value`, blanks aside.
pub open spec fn declared_type(ls: Seq<Seq<char>>, from: int) -> Option<Seq<char>>
    decreases ls.len() - from,
{
    if from < 0 || from >= ls.len() {
        None
    } else if starts_with(trim(ls[from]), "type:"@) {
        Some(trim(trim(ls[from]).skip(5)))
    } else {
        declared_type(ls, from + 1)
    }
}

/// The declared type and the body of a file. Without a complete frontmatter, the
/// whole file is the body.
pub open spec fn frontmatter(raw: Seq<char>) -> (Option<Seq<char>>, Seq<char>) {
    if starts_with(raw, "---"@) {
        let rest = raw.skip(3);
        match find_in(rest, "\n---"@, 0) {
            Some(end) => (declared_type(lines(rest.take(end)), 0), rest.skip(end + 4)),
            None => (None, raw),
        }
    } else {
        (None, raw)
    }
}

fn read_type_line(ls: &Vec<String>) -> (r: Option<String>)
    ensures
        match r {
            Some(s) => declared_type(texts(ls@), 0) == Some(s@),
            None => declared_type(texts(ls@), 0) is None,
        },
{
    let ghost all = texts(ls@);
    let mut i: usize = 0;
    while i < ls.len()
        invariant
            i <= ls@.len(),
            all == texts(ls@),
            declared_type(all, i as int) == declared_type(all, 0),
        decreases ls@.len() - i,
    {
        assert(all[i as int] == ls@[i as int]@);
        let line = trimmed(ls[i].as_str());
        match without_prefix(line.as_str(), "type:") {
            Some(rest) => {
                proof {
                    reveal_strlit("type:");
                }
                return Some(trimmed(rest.as_str()));
            },
            None => {},
        }
        i += 1;
    }
    None
}

/// Parts a file into the type that its frontmatter declares, and its body.
pub fn split_frontmatter(raw: &str) -> (r: (Option<String>, String))
    ensures
        (match r.0 {
            Some(s) => Some(s@),
            None => None,
        }, r.1@) == frontmatter(raw@),
{
    proof {
        reveal_strlit("---");
        reveal_strlit("\n---");
    }
    match without_prefix(raw, "---") {
        Some(rest) => {
            let v = chars_of(rest.as_str());
            let n: usize = v.len();
            match position(&v, "\n---", 0) {
                Some(end) => {
                    assert("\n---"@.len() == 4);
                    let front = string_of(&v, 0, end);
                    let body = string_of(&v, end + 4, n);
                    assert(front@ =~= v@.take(end as int));
                    assert(body@ =~= v@.skip(end + 4));
                    (read_type_line(&lines_of(front.as_str())), body)
                },
                None => (None, raw.to_owned()),
            }
        },
        None => (None, raw.to_owned()),
    }
}

/// Files that hold a memory: markdown, but not the index.
pub open spec fn holds_memory(name: Seq<char>) -> bool {
    ends_with(name, ".md"@) && name != "MEMORY.md"@
}

/// Whether a file of that name holds a memory.
pub fn is_memory_file(name: &str) -> (r: bool)
    ensures
        r == holds_memory(name@),
{
    without_suffix(name, ".md").is_some() && !same(name, "MEMORY.md")
}

/// The type of memory that a declared type means.
pub open spec fn declared_as(kind: Option<Seq<char>>) -> MemoryType {
    if kind == Some("feedback"@) {
        MemoryType::Insight
    } else if kind == Some("user"@) {
        MemoryType::Person
    } else {
        MemoryType::Note
    }
}

/// The memory that a file holds; nothing for other files and empty ones.
pub open spec fn file_memory(
    name: Seq<char>,
    raw: Seq<char>,
    tag: Seq<char>,
) -> Option<IncomingView> {
    let (kind, body) = frontmatter(raw);
    if holds_memory(name) && trim(body).len() > 0 {
        Some(
            IncomingView {
                text: trim(body),
                mtype: declared_as(kind),
                tags: seq![tag, lowercase(trim_suffixes(name, ".md"@))],
                created_at: None,
            },
        )
    } else {
        None
    }
}

/// The memories of some files, each its name and contents, in their order.
pub open spec fn file_memories(
    files: Seq<(String, String)>,
    tag: Seq<char>,
) -> Seq<IncomingView>
    decreases files.len(),
{
    if files.len() == 0 {
        Seq::empty()
    } else {
        let before = file_memories(files.drop_last(), tag);
        match file_memory(files.last().0@, files.last().1@, tag) {
            Some(m) => before.push(m),
            None => before,
        }
    }
}

fn read_file(name: &str, raw: &str, tag: &str) -> (r: Option<Incoming>)
    ensures
        match r {
            Some(item) => file_memory(name@, raw@, tag@) == Some(item@),
            None => file_memory(name@, raw@, tag@) is None,
        },
{
    broadcast use {lemma_texts_push, lemma_texts_empty};

    if !is_memory_file(name) {
        return None;
    }
    let (kind, body) = split_frontmatter(raw);
    let text = trimmed(body.as_str());
    if text.as_str().is_empty() {
        return None;
    }
    let mtype = match &kind {
        Some(k) => if same(k.as_str(), "feedback") {
            MemoryType::Insight
        } else if same(k.as_str(), "user") {
            MemoryType::Person
        } else {
            MemoryType::Note
        },
        None => MemoryType::Note,
    };
    proof {
        reveal_strlit(".md");
        reveal_strlit("feedback");
        reveal_strlit("user");
        assert("feedback"@[0] != "user"@[0]);
    }
    let bare = without_suffixes(name, ".md").as_str().to_lowercase();
    let mut tags: Vec<String> = Vec::new();
    tags.push(tag.to_owned());
    tags.push(bare);
    let item = Incoming { text, mtype, tags, created_at: None };
    assert(texts(item.tags@) =~= seq![tag@, lowercase(trim_suffixes(name@, ".md"@))]);
    Some(item)
}

/// Reads a directory of memory files, each its name and contents. The index is
/// skipped, and so are files that are empty behind their frontmatter. Each memory
/// is tagged with `tag`, which says where it came from, and with the file's name.
pub fn claude_memory(dir: &str, files: &Vec<(String, String)>, tag: &str) -> (r: Result<
    Vec<Incoming>,
>)
    ensures
        match r {
            Ok(items) => file_memories(files@, tag@).len() > 0 && views(items@) == file_memories(files@, tag@),
            Err(e) => file_memories(files@, tag@).len() == 0 && e is Invalid && e->Invalid_0@
                == "no memory files found in "@ + dir@,
        },
{
    let mut items: Vec<Incoming> = Vec::new();
    let mut i: usize = 0;
    assert(views(items@) =~= file_memories(files@.take(0), tag@));
    while i < files.len()
        invariant
            i <= files@.len(),
            views(items@) == file_memories(files@.take(i as int), tag@),
        decreases files@.len() - i,
    {
        assert(files@.take(i + 1).drop_last() =~= files@.take(i as int));
        assert(files@.take(i + 1).last() == files@[i as int]);
        let ghost before = views(items@);
        match read_file(files[i].0.as_str(), files[i].1.as_str(), tag) {
            Some(item) => {
                items.push(item);
                assert(views(items@) =~= before.push(item@));
            },
            None => {},
        }
        i += 1;
    }
    assert(files@.take(files@.len() as int) =~= files@);
    if items.len() == 0 {
        let mut msg = "no memory files found in ".to_owned();
        msg.append(dir);
        return Err(Error::Invalid(msg));
    }
    Ok(items)
}

// ---------------------------------------------------------------------
// Collections of an index file
// ---------------------------------------------------------------------

/// The collections read so far, the one that is being read, and whether the lines
/// belong to the list of collections.
pub ghost struct Listing {
    pub found: Seq<(Seq<char>, Seq<char>)>,
    pub current: Option<Seq<char>>,
    pub inside: bool,
}

/// How far a line is indented, in bytes.
pub open spec fn indent(line: Seq<char>) -> int {
    utf8_len(trim_end(line)) - utf8_len(trim_start(trim_end(line)))
}

/// The listing after one more line. `collections:` opens the list, an unindented line
/// closes it; an indent of two names a collection, and a `path:` that is indented
/// further is the path of that collection.
pub open spec fn listed(l: Listing, line: Seq<char>) -> Listing {
    let body = trim(trim_end(line));
    if trim_end(line) == "collections:"@ {
        Listing { inside: true, ..l }
    } else if !l.inside || body.len() == 0 {
        l
    } else if indent(line) == 2 && ends_with(body, ":"@) {
        Listing { current: Some(trim_suffixes(body, ":"@)), ..l }
    } else if indent(line) >= 4 {
        if l.current is Some && starts_with(body, "path:"@) {
            Listing { found: l.found.push((l.current->0, trim(body.skip(5)))), ..l }
        } else {
            l
        }
    } else if indent(line) == 0 {
        Listing { inside: false, ..l }
    } else {
        l
    }
}

/// The listing after the first `n` lines.
pub open spec fn listing(ls: Seq<Seq<char>>, n: int) -> Listing
    decreases n,
{
    if n <= 0 {
        Listing { found: Seq::empty(), current: None, inside: false }
    } else {
        listed(listing(ls, n - 1), ls[n - 1])
    }
}

/// Pairs of texts as the rules see them.
pub open spec fn pair_views(v: Seq<(String, String)>) -> Seq<(Seq<char>, Seq<char>)> {
    Seq::new(v.len(), |i: int| (v[i].0@, v[i].1@))
}

/// The collections of a qmd index, each its name and path: the subset of YAML that
/// nests `path:` in a name in `collections:`.
pub fn qmd_collections(yml: &str) -> (r: Vec<(String, String)>)
    ensures
        pair_views(r@) == listing(lines(yml@), lines(yml@).len() as int).found,
{
    proof {
        reveal_strlit(":");
        reveal_strlit("path:");
    }
    let ls = lines_of(yml);
    let ghost all = lines(yml@);
    let mut out: Vec<(String, String)> = Vec::new();
    let mut current: Option<String> = None;
    let mut inside = false;
    let mut i: usize = 0;
    assert(pair_views(out@) =~= Seq::empty());
    while i < ls.len()
        invariant
            i <= ls@.len(),
            all == texts(ls@),
            ":"@.len() == 1,
            "path:"@.len() == 5,
            pair_views(out@) == listing(all, i as int).found,
            inside == listing(all, i as int).inside,
            match current {
                Some(s) => listing(all, i as int).current == Some(s@),
                None => listing(all, i as int).current is None,
            },
        decreases ls@.len() - i,
    {
        let line = ls[i].as_str();
        assert(all[i as int] == line@);
        let cut = trimmed_end(line);
        let body = trimmed(cut.as_str());
        let width: usize = byte_len(cut.as_str());
        let bare = trimmed_start(cut.as_str());
        let rest: usize = byte_len(bare.as_str());
        proof {
            crate::text::lemma_trim_start_shorter(cut@);
        }
        let depth: usize = width - rest;
        if same(cut.as_str(), "collections:") {
            inside = true;
        } else if inside && !body.as_str().is_empty() {
            if depth == 2 && without_suffix(body.as_str(), ":").is_some() {
                current = Some(without_suffixes(body.as_str(), ":"));
            } else if depth >= 4 {
                match (&current, without_prefix(body.as_str(), "path:")) {
                    (Some(name), Some(path)) => {
                        let ghost before = pair_views(out@);
                        let row = (name.as_str().to_owned(), trimmed(path.as_str()));
                        out.push(row);
                        assert(pair_views(out@) =~= before.push((row.0@, row.1@)));
                    },
                    _ => {},
                }
            } else if depth == 0 {
                inside = false;
            }
        }
        i += 1;
    }
    out
}

// ---------------------------------------------------------------------
// Laws
// ---------------------------------------------------------------------

/// A date that exists is read as the day that the calendar gives it.
pub proof fn existing_dates_are_read_exactly(y: int, m: int, d: int)
    requires
        valid_date(y, m, d),
    ensures
        us_day(y, m, d) == day_number(y, m, d),
{
    lemma_remainder_small(m + 9);
    crate::calendar::lemma_day_of_march_year(y, m, d);
}

/// Importing again stores nothing: a text that a live memory already holds, up to
/// case and spacing, is refused as a duplicate.
pub proof fn importing_again_is_skipped(
    item: IncomingView,
    live: Seq<Node>,
    deleted: Seq<Node>,
    similar: Seq<Node>,
    i: int,
)
    requires
        0 <= i < live.len(),
        live[i].kind == Kind::Memory,
        live[i].deleted_at is None,
        live[i].content_hash is Some,
        live[i].content_hash->0@ == content_hash_of(item.text),
    ensures
        verdict(item.text, false, live, deleted, similar) is Duplicate,
{
    lemma_first_where(live, is_exact(content_hash_of(item.text)));
    assert(is_exact(content_hash_of(item.text))(live[i]));
    live_copy_decides(item.text, live, deleted, similar);
}

} // verus!
