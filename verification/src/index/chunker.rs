//! Chunkers for documents, configuration and source code, sized for retrieval.

use vstd::prelude::*;

#[allow(unused_imports)]
use crate::memory::first_line;
use crate::order::{rank, Key};
#[allow(unused_imports)]
use crate::order::{as_ints, ranking};
use crate::paths::{extension_of, file_name_of};
#[allow(unused_imports)]
use crate::paths::{extension, file_name};
use crate::text::{
    byte_len, chars_of, decimal_of_u64, joined, lines_of, lower_of, matches_at, same, split_fields,
    string_of, strip_eol, trimmed, width_of, without_prefix, Delim,
};
#[allow(unused_imports)]
use crate::text::{
    all_lower, decimal_nat, join, lines, lemma_utf8_len_push, lemma_utf8_len_take, occurs_at,
    starts_with, texts, trim, utf8_len, without_eol, words,
};
#[allow(unused_imports)]
use vstd::string::*;

verus! {

/// Words at which a chunk is full.
pub const TARGET_WORDS: usize = 280;

/// Words that a chunk does not grow beyond.
pub const MAX_WORDS: usize = 400;

/// Words below which a section or a tail is merged into its predecessor.
pub const MIN_WORDS: usize = 60;

/// Words that a chunk may repeat of its predecessor.
pub const OVERLAP_WORDS: usize = 40;

/// A piece of a document, sized for retrieval.
#[derive(Debug, Clone)]
pub struct DocChunk {
    /// Where the chunk stands: document, heading, subheading.
    pub title: String,
    pub body: String,
    /// First line, counted from 1.
    pub start_line: usize,
    /// Last line, counted from 1.
    pub end_line: usize,
}

/// The contents of a chunk.
#[verifier::ext_equal]
pub struct ChunkView {
    pub title: Seq<char>,
    pub body: Seq<char>,
    pub start_line: int,
    pub end_line: int,
}

impl View for DocChunk {
    type V = ChunkView;

    open spec fn view(&self) -> ChunkView {
        ChunkView {
            title: self.title@,
            body: self.body@,
            start_line: self.start_line as int,
            end_line: self.end_line as int,
        }
    }
}

/// The contents of some chunks.
pub open spec fn chunk_views(v: Seq<DocChunk>) -> Seq<ChunkView> {
    Seq::new(v.len(), |i: int| v[i]@)
}

/// A paragraph.
#[derive(Debug, Clone)]
pub struct Para {
    pub text: String,
    pub start_line: usize,
    pub end_line: usize,
    pub words: usize,
    pub is_fence: bool,
}

/// The contents of a paragraph.
#[verifier::ext_equal]
pub struct ParaView {
    pub text: Seq<char>,
    pub start_line: int,
    pub end_line: int,
    pub words: nat,
    pub is_fence: bool,
}

impl View for Para {
    type V = ParaView;

    open spec fn view(&self) -> ParaView {
        ParaView {
            text: self.text@,
            start_line: self.start_line as int,
            end_line: self.end_line as int,
            words: self.words as nat,
            is_fence: self.is_fence,
        }
    }
}

/// The contents of some paragraphs.
pub open spec fn para_views(v: Seq<Para>) -> Seq<ParaView> {
    Seq::new(v.len(), |i: int| v[i]@)
}

impl Para {
    fn copy(&self) -> (r: Para)
        ensures
            r@ == self@,
    {
        Para {
            text: self.text.clone(),
            start_line: self.start_line,
            end_line: self.end_line,
            words: self.words,
            is_fence: self.is_fence,
        }
    }
}

// ---------------------------------------------------------------------
// Lines
// ---------------------------------------------------------------------

/// A line of a document: the byte offset of its first character, and its text
/// without the line's end.
#[verifier::ext_equal]
pub struct LineView {
    pub offset: int,
    pub text: Seq<char>,
}

/// A line of a document.
#[derive(Debug, Clone)]
pub struct Line {
    pub offset: usize,
    pub text: String,
}

impl View for Line {
    type V = LineView;

    open spec fn view(&self) -> LineView {
        LineView { offset: self.offset as int, text: self.text@ }
    }
}

/// The contents of some lines.
pub open spec fn line_views(v: Seq<Line>) -> Seq<LineView> {
    Seq::new(v.len(), |i: int| v[i]@)
}

/// The lines that end with a line feed, and the rest behind the last one.
pub open spec fn ended_lines(text: Seq<char>) -> (Seq<LineView>, Seq<char>)
    decreases text.len(),
{
    if text.len() == 0 {
        (Seq::empty(), Seq::empty())
    } else {
        let (done, rest) = ended_lines(text.drop_last());
        if text.last() == '\n' {
            (
                done.push(
                    LineView {
                        offset: utf8_len(text.drop_last()) - utf8_len(rest),
                        text: without_eol(rest),
                    },
                ),
                Seq::empty(),
            )
        } else {
            (done, rest.push(text.last()))
        }
    }
}

/// The lines of a document with their byte offsets.
pub open spec fn doc_lines(text: Seq<char>) -> Seq<LineView> {
    let (done, rest) = ended_lines(text);
    if rest.len() == 0 {
        done
    } else {
        done.push(LineView { offset: utf8_len(text) - utf8_len(rest), text: without_eol(rest) })
    }
}

proof fn lemma_rest_is_suffix(text: Seq<char>)
    ensures
        ended_lines(text).1.len() <= text.len(),
        ended_lines(text).1 == text.skip(text.len() - ended_lines(text).1.len()),
    decreases text.len(),
{
    if text.len() > 0 {
        let t = text.drop_last();
        lemma_rest_is_suffix(t);
        let rest = ended_lines(text).1;
        assert(rest =~= text.skip(text.len() - rest.len()));
    }
}

/// The lines of a document with their byte offsets.
pub fn line_spans(text: &str) -> (r: Vec<Line>)
    ensures
        line_views(r@) == doc_lines(text@),
{
    let v = chars_of(text);
    let total: usize = byte_len(text);
    let mut out: Vec<Line> = Vec::new();
    let mut start: usize = 0;
    let mut start_offset: usize = 0;
    let mut offset: usize = 0;
    let mut i: usize = 0;
    assert(v@.take(0) =~= Seq::empty());
    assert(v@.subrange(0, 0) =~= Seq::empty());
    assert(line_views(out@) =~= Seq::empty());
    while i < v.len()
        invariant
            v@ == text@,
            total == utf8_len(text@),
            start <= i <= v@.len(),
            offset == utf8_len(v@.take(i as int)),
            start_offset == utf8_len(v@.take(start as int)),
            line_views(out@) == ended_lines(v@.take(i as int)).0,
            v@.subrange(start as int, i as int) == ended_lines(v@.take(i as int)).1,
        decreases v@.len() - i,
    {
        let c = v[i];
        let ghost before = line_views(out@);
        proof {
            assert(v@.take(i + 1).drop_last() =~= v@.take(i as int));
            assert(v@.take(i + 1) =~= v@.take(i as int).push(c));
            lemma_utf8_len_push(v@.take(i as int), c);
            lemma_utf8_len_take(v@, i + 1);
            assert(v@.take(start as int) + v@.subrange(start as int, i as int) =~= v@.take(
                i as int,
            ));
            crate::text::lemma_utf8_len_concat(
                v@.take(start as int),
                v@.subrange(start as int, i as int),
            );
        }
        if c == '\n' {
            let line = string_of(&v, start, i);
            let bare = strip_eol(line.as_str());
            let entry = Line { offset: start_offset, text: bare };
            out.push(entry);
            assert(line_views(out@) =~= before.push(entry@));
            start = i + 1;
            start_offset = offset + width_of(c);
            assert(v@.subrange(start as int, i + 1) =~= Seq::empty());
        } else {
            assert(v@.subrange(start as int, i + 1) =~= v@.subrange(start as int, i as int).push(c));
        }
        offset = offset + width_of(c);
        i += 1;
    }
    proof {
        assert(v@.take(v@.len() as int) =~= v@);
        assert(v@.take(start as int) + v@.subrange(start as int, i as int) =~= v@);
        crate::text::lemma_utf8_len_concat(
            v@.take(start as int),
            v@.subrange(start as int, i as int),
        );
    }
    if start < v.len() {
        let ghost before = line_views(out@);
        let line = string_of(&v, start, v.len());
        let bare = strip_eol(line.as_str());
        let entry = Line { offset: start_offset, text: bare };
        out.push(entry);
        assert(line_views(out@) =~= before.push(entry@));
    }
    out
}

// ---------------------------------------------------------------------
// Paragraphs
// ---------------------------------------------------------------------

/// A range of bytes.
#[derive(Debug, Clone, Copy, PartialEq, Eq, Structural)]
pub struct Span {
    pub start: usize,
    pub end: usize,
}

impl Span {
    /// Whether a byte lies in the range.
    pub open spec fn holds(self, offset: int) -> bool {
        self.start <= offset < self.end
    }
}

/// Whether a byte lies in one of the ranges.
pub open spec fn in_any(fences: Seq<Span>, offset: int) -> bool {
    exists|i: int| 0 <= i < fences.len() && (#[trigger] fences[i]).holds(offset)
}

/// A line inside a paragraph: number, text, and whether it is fenced code.
#[verifier::ext_equal]
pub struct Row {
    pub number: int,
    pub text: Seq<char>,
    pub fenced: bool,
}

/// The lines among the first `n` that begin in `[start, end)`, grouped: a blank
/// line outside code ends a group.
pub open spec fn groups(
    lines: Seq<LineView>,
    n: int,
    start: int,
    end: int,
    fences: Seq<Span>,
) -> Seq<Seq<Row>>
    decreases n,
{
    if n <= 0 {
        seq![Seq::empty()]
    } else {
        let g = groups(lines, n - 1, start, end, fences);
        let line = lines[n - 1];
        let fenced = in_any(fences, line.offset);
        if line.offset < start || line.offset >= end {
            g
        } else if trim(line.text).len() == 0 && !fenced {
            g.push(Seq::empty())
        } else {
            g.drop_last().push(g.last().push(Row { number: n, text: line.text, fenced }))
        }
    }
}

/// The texts of a group's lines.
pub open spec fn row_texts(g: Seq<Row>) -> Seq<Seq<char>> {
    Seq::new(g.len(), |i: int| g[i].text)
}

/// The paragraph that a group of lines makes.
pub open spec fn para_of(g: Seq<Row>) -> ParaView {
    let text = join(row_texts(g), "\n"@);
    ParaView {
        text,
        start_line: g[0].number,
        end_line: g.last().number,
        words: words(text).len(),
        is_fence: exists|i: int| 0 <= i < g.len() && (#[trigger] g[i]).fenced,
    }
}

/// The paragraphs of the groups that are not empty.
pub open spec fn paras_of(g: Seq<Seq<Row>>) -> Seq<ParaView>
    decreases g.len(),
{
    if g.len() == 0 {
        Seq::empty()
    } else if g.last().len() == 0 {
        paras_of(g.drop_last())
    } else {
        paras_of(g.drop_last()).push(para_of(g.last()))
    }
}

/// The paragraphs of the lines that begin in `[start, end)`.
pub open spec fn doc_paras(
    lines: Seq<LineView>,
    start: int,
    end: int,
    fences: Seq<Span>,
) -> Seq<ParaView> {
    paras_of(groups(lines, lines.len() as int, start, end, fences))
}

fn in_fence(fences: &Vec<Span>, offset: usize) -> (r: bool)
    ensures
        r == in_any(fences@, offset as int),
{
    let mut i: usize = 0;
    while i < fences.len()
        invariant
            i <= fences@.len(),
            forall|k: int| 0 <= k < i ==> !(#[trigger] fences@[k]).holds(offset as int),
        decreases fences@.len() - i,
    {
        if fences[i].start <= offset && offset < fences[i].end {
            assert(fences@[i as int].holds(offset as int));
            return true;
        }
        i += 1;
    }
    false
}

/// A group of lines being collected: the joined text, the numbers of the first
/// and last line, and whether any of them is fenced.
struct Block {
    text: Vec<String>,
    first: usize,
    last: usize,
    fenced: bool,
}

impl Block {
    spec fn is(self, g: Seq<Row>) -> bool {
        &&& texts(self.text@) == row_texts(g)
        &&& g.len() > 0 ==> self.first == g[0].number && self.last == g.last().number
        &&& self.fenced == exists|i: int| 0 <= i < g.len() && (#[trigger] g[i]).fenced
    }

    fn new() -> (r: Block)
        ensures
            r.is(Seq::empty()),
    {
        let r = Block { text: Vec::new(), first: 0, last: 0, fenced: false };
        assert(texts(r.text@) =~= row_texts(Seq::empty()));
        r
    }

    fn into_para(self, Ghost(g): Ghost<Seq<Row>>) -> (r: Para)
        requires
            self.is(g),
            g.len() > 0,
        ensures
            r@ == para_of(g),
    {
        let text = joined(&self.text, "\n");
        let n: usize = split_fields(text.as_str(), Delim::Space).len();
        proof {
            assert(texts(self.text@).len() == self.text@.len());
            assert(words(text@).len() == n);
        }
        Para { text, start_line: self.first, end_line: self.last, words: n, is_fence: self.fenced }
    }
}

/// There is always a group being filled.
pub proof fn lemma_groups_len(
    lines: Seq<LineView>,
    n: int,
    start: int,
    end: int,
    fences: Seq<Span>,
)
    ensures
        groups(lines, n, start, end, fences).len() >= 1,
    decreases n,
{
    if n > 0 {
        lemma_groups_len(lines, n - 1, start, end, fences);
    }
}

/// The paragraphs of the lines that begin in `[start, end)`: separated by blank
/// lines, code staying whole.
pub fn split_paras(lines: &Vec<Line>, start: usize, end: usize, fences: &Vec<Span>) -> (r: Vec<
    Para,
>)
    ensures
        para_views(r@) == doc_paras(line_views(lines@), start as int, end as int, fences@),
{
    let ghost lv = line_views(lines@);
    let ghost (a, b, f) = (start as int, end as int, fences@);
    let mut out: Vec<Para> = Vec::new();
    let mut cur = Block::new();
    let mut i: usize = 0;
    assert(para_views(out@) =~= Seq::empty());
    assert(groups(lv, 0, a, b, f).drop_last() =~= Seq::empty());
    while i < lines.len()
        invariant
            i <= lines@.len(),
            lv == line_views(lines@),
            a == start,
            b == end,
            f == fences@,
            groups(lv, i as int, a, b, f).len() >= 1,
            cur.is(groups(lv, i as int, a, b, f).last()),
            para_views(out@) == paras_of(groups(lv, i as int, a, b, f).drop_last()),
        decreases lines@.len() - i,
    {
        let line = &lines[i];
        let ghost g = groups(lv, i as int, a, b, f);
        let ghost h = groups(lv, i + 1, a, b, f);
        assert(lv[i as int] == line@);
        if line.offset >= start && line.offset < end {
            let fenced = in_fence(fences, line.offset);
            let blank = trimmed(line.text.as_str()).as_str().is_empty();
            if blank && !fenced {
                assert(h =~= g.push(Seq::empty()));
                assert(h.drop_last() =~= g);
                let ghost before = para_views(out@);
                if cur.text.len() > 0 {
                    assert(texts(cur.text@).len() == g.last().len());
                    let para = cur.into_para(Ghost(g.last()));
                    out.push(para);
                    assert(para_views(out@) =~= before.push(para@));
                } else {
                    assert(texts(cur.text@).len() == g.last().len());
                }
                cur = Block::new();
            } else {
                let ghost row = Row { number: i + 1, text: line.text@, fenced };
                let ghost old_last = g.last();
                assert(h.last() == old_last.push(row));
                assert(h.drop_last() =~= g.drop_last());
                if cur.text.len() == 0 {
                    assert(texts(cur.text@).len() == old_last.len());
                    cur.first = i + 1;
                } else {
                    assert(texts(cur.text@).len() == old_last.len());
                }
                cur.last = i + 1;
                let ghost was = cur.fenced;
                cur.fenced = cur.fenced || fenced;
                let ghost tb = texts(cur.text@);
                cur.text.push(line.text.clone());
                proof {
                    assert(texts(cur.text@) =~= tb.push(line.text@));
                    assert(row_texts(h.last()) =~= row_texts(old_last).push(line.text@));
                    let nl = h.last();
                    if was {
                        let k = choose|k: int| 0 <= k < old_last.len() && (#[trigger] old_last[k]).fenced;
                        assert(nl[k].fenced);
                    }
                    if fenced {
                        assert(nl[old_last.len() as int].fenced);
                    }
                    if exists|k: int| 0 <= k < nl.len() && (#[trigger] nl[k]).fenced {
                        let k = choose|k: int| 0 <= k < nl.len() && (#[trigger] nl[k]).fenced;
                        if k < old_last.len() {
                            assert(old_last[k].fenced);
                        }
                    }
                    assert(cur.is(nl));
                }
            }
        }
        i += 1;
    }
    let ghost g = groups(lv, lv.len() as int, a, b, f);
    let ghost before = para_views(out@);
    assert(texts(cur.text@).len() == g.last().len());
    if cur.text.len() > 0 {
        let para = cur.into_para(Ghost(g.last()));
        out.push(para);
        assert(para_views(out@) =~= before.push(para@));
    }
    out
}

// ---------------------------------------------------------------------
// Packing
// ---------------------------------------------------------------------

/// Words of some paragraphs together.
pub open spec fn total_words(p: Seq<ParaView>) -> nat
    decreases p.len(),
{
    if p.len() == 0 {
        0
    } else {
        total_words(p.drop_last()) + p.last().words
    }
}

/// The longest end of `p` without code and with at most `budget` words.
pub open spec fn overlap(p: Seq<ParaView>, budget: int) -> Seq<ParaView>
    decreases p.len(),
{
    if p.len() == 0 || p.last().is_fence || p.last().words > budget {
        Seq::empty()
    } else {
        overlap(p.drop_last(), budget - p.last().words).push(p.last())
    }
}

/// The state of packing: the groups that are full, the paragraphs collected
/// since, and how many of these repeat the last full group.
#[verifier::ext_equal]
pub struct Packing {
    pub full: Seq<Seq<ParaView>>,
    pub cur: Seq<ParaView>,
    pub carried: nat,
}

/// Whether the collected paragraphs are closed before one of `words` words.
pub open spec fn is_full(cur: Seq<ParaView>, words: nat) -> bool {
    let w = total_words(cur);
    (w > 0 && w + words > MAX_WORDS && w >= MIN_WORDS) || w >= TARGET_WORDS
}

/// Packing after the first `n` paragraphs.
pub open spec fn packed(paras: Seq<ParaView>, n: int) -> Packing
    decreases n,
{
    if n <= 0 {
        Packing { full: Seq::empty(), cur: Seq::empty(), carried: 0 }
    } else {
        let st = packed(paras, n - 1);
        let para = paras[n - 1];
        if is_full(st.cur, para.words) {
            let keep = overlap(st.cur, OVERLAP_WORDS as int);
            Packing { full: st.full.push(st.cur), cur: keep.push(para), carried: keep.len() }
        } else {
            Packing { cur: st.cur.push(para), ..st }
        }
    }
}

/// The texts of some paragraphs.
pub open spec fn para_texts(p: Seq<ParaView>) -> Seq<Seq<char>> {
    Seq::new(p.len(), |i: int| p[i].text)
}

/// The chunk that a group of paragraphs makes.
pub open spec fn chunk_of(g: Seq<ParaView>, crumb: Seq<char>, sep: Seq<char>) -> ChunkView {
    ChunkView {
        title: crumb,
        body: join(para_texts(g), sep),
        start_line: g[0].start_line,
        end_line: g.last().end_line,
    }
}

/// The chunks that some groups of paragraphs make.
pub open spec fn chunks_of(
    groups: Seq<Seq<ParaView>>,
    crumb: Seq<char>,
    sep: Seq<char>,
) -> Seq<ChunkView> {
    Seq::new(groups.len(), |i: int| chunk_of(groups[i], crumb, sep))
}

/// A chunk with paragraphs appended.
pub open spec fn extended(c: ChunkView, tail: Seq<ParaView>, sep: Seq<char>) -> ChunkView
    decreases tail.len(),
{
    if tail.len() == 0 {
        c
    } else {
        let d = extended(c, tail.drop_last(), sep);
        ChunkView { body: d.body + sep + tail.last().text, end_line: tail.last().end_line, ..d }
    }
}

/// The chunks of a section behind those of the sections before: each full group
/// makes one, and so does what is left; unless it is tiny and the last chunk
/// has the same crumb, which it is then appended to.
pub open spec fn with_section(
    before: Seq<ChunkView>,
    crumb: Seq<char>,
    paras: Seq<ParaView>,
    sep: Seq<char>,
) -> Seq<ChunkView> {
    let st = packed(paras, paras.len() as int);
    let out = before + chunks_of(st.full, crumb, sep);
    if st.cur.len() <= st.carried {
        out
    } else if total_words(st.cur) < MIN_WORDS && out.len() > 0 && out.last().title == crumb {
        out.drop_last().push(extended(out.last(), st.cur.skip(st.carried as int), sep))
    } else {
        out.push(chunk_of(st.cur, crumb, sep))
    }
}

/// A part of a document under one crumb.
pub struct Section {
    pub crumb: String,
    pub paras: Vec<Para>,
}

fn flush(cur: &Vec<Para>, crumb: &str, sep: &str) -> (r: DocChunk)
    requires
        cur@.len() > 0,
    ensures
        r@ == chunk_of(para_views(cur@), crumb@, sep@),
{
    let mut parts: Vec<String> = Vec::new();
    let mut i: usize = 0;
    let ghost want = para_texts(para_views(cur@));
    assert(texts(parts@) =~= want.take(0));
    while i < cur.len()
        invariant
            i <= cur@.len(),
            want == para_texts(para_views(cur@)),
            texts(parts@) == want.take(i as int),
        decreases cur@.len() - i,
    {
        let ghost before = texts(parts@);
        let t = cur[i].text.clone();
        parts.push(t);
        assert(want[i as int] == t@);
        assert(texts(parts@) =~= before.push(t@));
        assert(want.take(i + 1) =~= before.push(t@));
        i += 1;
    }
    assert(want.take(cur@.len() as int) =~= want);
    let n: usize = cur.len();
    assert(para_views(cur@)[0] == cur@[0]@);
    assert(para_views(cur@).last() == cur@[n - 1]@);
    DocChunk {
        title: crumb.to_owned(),
        body: joined(&parts, sep),
        start_line: cur[0].start_line,
        end_line: cur[n - 1].end_line,
    }
}

/// The end of `cur` that the next chunk repeats.
fn carry(cur: &Vec<Para>) -> (r: (Vec<Para>, u128))
    ensures
        para_views(r.0@) == overlap(para_views(cur@), OVERLAP_WORDS as int),
        r.1 == total_words(para_views(r.0@)),
        r.1 <= OVERLAP_WORDS,
{
    let ghost all = para_views(cur@);
    let mut from: usize = cur.len();
    let mut kept: usize = 0;
    let mut going = true;
    assert(all.take(from as int) =~= all);
    assert(all.skip(from as int) =~= Seq::empty());
    assert(overlap(all, 40) =~= overlap(all, 40) + Seq::empty());
    while from > 0 && going
        invariant
            all == para_views(cur@),
            from <= cur@.len(),
            kept <= OVERLAP_WORDS,
            kept == total_words(all.skip(from as int)),
            going ==> overlap(all, OVERLAP_WORDS as int) == overlap(
                all.take(from as int),
                OVERLAP_WORDS - kept,
            ) + all.skip(from as int),
            !going ==> overlap(all, OVERLAP_WORDS as int) == all.skip(from as int),
        decreases
            from,
            (if going {
                1int
            } else {
                0
            }),
    {
        let p = &cur[from - 1];
        assert(all.take(from as int).last() == p@);
        assert(all.take(from as int).drop_last() =~= all.take(from - 1));
        if p.is_fence || p.words > OVERLAP_WORDS - kept {
            assert(overlap(all.take(from as int), OVERLAP_WORDS - kept) =~= Seq::empty());
            assert(Seq::<ParaView>::empty() + all.skip(from as int) =~= all.skip(from as int));
            going = false;
        } else {
            proof {
                let inner = overlap(all.take(from - 1), OVERLAP_WORDS - kept - p.words);
                assert(all.skip(from - 1) =~= seq![p@] + all.skip(from as int));
                assert(inner.push(p@) + all.skip(from as int) =~= inner + all.skip(from - 1));
                lemma_total_words_front(p@, all.skip(from as int));
            }
            kept = kept + p.words;
            from = from - 1;
        }
    }
    proof {
        if going {
            assert(all.take(0) =~= Seq::empty());
            assert(Seq::<ParaView>::empty() + all.skip(from as int) =~= all.skip(from as int));
        }
    }
    let mut out: Vec<Para> = Vec::new();
    let mut i: usize = from;
    assert(para_views(out@) =~= all.subrange(from as int, i as int));
    while i < cur.len()
        invariant
            all == para_views(cur@),
            from <= i <= cur@.len(),
            para_views(out@) == all.subrange(from as int, i as int),
        decreases cur@.len() - i,
    {
        let ghost before = para_views(out@);
        let p = cur[i].copy();
        out.push(p);
        assert(all[i as int] == p@);
        assert(para_views(out@) =~= before.push(p@));
        assert(all.subrange(from as int, i + 1) =~= before.push(p@));
        i += 1;
    }
    assert(all.subrange(from as int, cur@.len() as int) =~= all.skip(from as int));
    (out, kept as u128)
}

proof fn lemma_total_words_front(p: ParaView, rest: Seq<ParaView>)
    ensures
        total_words(seq![p] + rest) == p.words + total_words(rest),
    decreases rest.len(),
{
    let all = seq![p] + rest;
    if rest.len() == 0 {
        assert(all.drop_last() =~= Seq::empty());
        assert(all.last() == p);
        reveal_with_fuel(total_words, 2);
    } else {
        assert(all.drop_last() =~= seq![p] + rest.drop_last());
        assert(all.last() == rest.last());
        lemma_total_words_front(p, rest.drop_last());
    }
}

/// Packs a section's paragraphs greedily into chunks, with bounded overlap
/// between neighbours. `sep` stands between the paragraphs of a chunk.
pub fn pack_section(section: &Section, sep: &str, out: &mut Vec<DocChunk>)
    ensures
        chunk_views(final(out)@) == with_section(
            chunk_views(old(out)@),
            section.crumb@,
            para_views(section.paras@),
            sep@,
        ),
{
    let ghost paras = para_views(section.paras@);
    let ghost crumb = section.crumb@;
    let ghost base = chunk_views(out@);
    let mut cur: Vec<Para> = Vec::new();
    let mut cur_words: u128 = 0;
    let mut carried: usize = 0;
    let mut i: usize = 0;
    assert(para_views(cur@) =~= Seq::empty());
    assert(base + chunks_of(Seq::empty(), crumb, sep@) =~= base);
    while i < section.paras.len()
        invariant
            i <= section.paras@.len(),
            paras == para_views(section.paras@),
            crumb == section.crumb@,
            para_views(cur@) == packed(paras, i as int).cur,
            cur_words == total_words(para_views(cur@)),
            cur_words <= TARGET_WORDS + MAX_WORDS + 0xFFFF_FFFF_FFFF_FFFF,
            carried == packed(paras, i as int).carried,
            chunk_views(out@) == base + chunks_of(packed(paras, i as int).full, crumb, sep@),
        decreases section.paras@.len() - i,
    {
        let ghost st = packed(paras, i as int);
        let ghost next = packed(paras, i + 1);
        let para = &section.paras[i];
        assert(paras[i as int] == para@);
        let words = para.words as u128;
        let over_max = cur_words > 0 && cur_words + words > MAX_WORDS as u128;
        if (over_max && cur_words >= MIN_WORDS as u128) || cur_words >= TARGET_WORDS as u128 {
            assert(is_full(st.cur, para@.words));
            assert(cur@.len() > 0) by {
                if cur@.len() == 0 {
                    assert(para_views(cur@) =~= Seq::empty());
                }
            }
            let chunk = flush(&cur, section.crumb.as_str(), sep);
            let ghost before = chunk_views(out@);
            out.push(chunk);
            proof {
                assert(chunk_views(out@) =~= before.push(chunk@));
                assert(chunks_of(st.full.push(st.cur), crumb, sep@) =~= chunks_of(
                    st.full,
                    crumb,
                    sep@,
                ).push(chunk@));
                assert(chunk_views(out@) =~= base + chunks_of(next.full, crumb, sep@));
            }
            let (keep, kept_words) = carry(&cur);
            carried = keep.len();
            cur_words = kept_words;
            cur = keep;
        }
        let ghost mid = para_views(cur@);
        cur_words = cur_words + words;
        cur.push(para.copy());
        assert(para_views(cur@) =~= mid.push(para@));
        assert(para_views(cur@).drop_last() =~= mid);
        i += 1;
    }
    let ghost st = packed(paras, paras.len() as int);
    if cur.len() > carried {
        if cur_words < MIN_WORDS as u128 && out.len() > 0 {
            let last: usize = out.len() - 1;
            assert(chunk_views(out@).last() == out@[last as int]@);
            if same(out[last].title.as_str(), section.crumb.as_str()) {
                let mut prev = out.pop().unwrap();
                let ghost whole = base + chunks_of(st.full, crumb, sep@);
                let ghost was = prev@;
                assert(was == whole.last());
                assert(chunk_views(out@) =~= whole.drop_last());
                let ghost tail = st.cur.skip(carried as int);
                let mut k: usize = carried;
                assert(tail.take(0) =~= Seq::empty());
                while k < cur.len()
                    invariant
                        carried <= k <= cur@.len(),
                        para_views(cur@) == st.cur,
                        tail == st.cur.skip(carried as int),
                        prev@ == extended(was, tail.take(k - carried), sep@),
                    decreases cur@.len() - k,
                {
                    let ghost d = prev@;
                    assert(tail.take(k + 1 - carried).drop_last() =~= tail.take(k - carried));
                    assert(tail.take(k + 1 - carried).last() == cur@[k as int]@);
                    prev.body.append(sep);
                    prev.body.append(cur[k].text.as_str());
                    prev.end_line = cur[k].end_line;
                    k += 1;
                }
                assert(tail.take(tail.len() as int) =~= tail);
                let ghost short = chunk_views(out@);
                out.push(prev);
                assert(chunk_views(out@) =~= short.push(prev@));
                return ;
            }
        }
        let chunk = flush(&cur, section.crumb.as_str(), sep);
        let ghost before = chunk_views(out@);
        out.push(chunk);
        assert(chunk_views(out@) =~= before.push(chunk@));
    }
}

/// The paragraphs of the full groups and of the rest, repeated ones left out.
pub open spec fn fresh(st: Packing, carried: Seq<nat>) -> Seq<ParaView>
    decreases st.full.len(),
{
    if st.full.len() == 0 {
        st.cur.skip(st.carried as int)
    } else {
        let n = st.full.len() - 1;
        fresh(
            Packing { full: st.full.drop_last(), cur: st.full[n as int], carried: carried[n as int] },
            carried.drop_last(),
        ) + st.cur.skip(st.carried as int)
    }
}

/// For each full group, how many of its paragraphs repeat the one before.
pub open spec fn carried_of(paras: Seq<ParaView>, n: int) -> Seq<nat>
    decreases n,
{
    if n <= 0 {
        Seq::empty()
    } else {
        let st = packed(paras, n - 1);
        if is_full(st.cur, paras[n - 1].words) {
            carried_of(paras, n - 1).push(st.carried)
        } else {
            carried_of(paras, n - 1)
        }
    }
}

/// Packing loses nothing, invents nothing and keeps the order: without the
/// repetitions, the groups are the section's paragraphs.
pub proof fn packing_keeps_every_paragraph(paras: Seq<ParaView>, n: int)
    requires
        0 <= n <= paras.len(),
    ensures
        packed(paras, n).carried <= packed(paras, n).cur.len(),
        carried_of(paras, n).len() == packed(paras, n).full.len(),
        fresh(packed(paras, n), carried_of(paras, n)) == paras.take(n),
    decreases n,
{
    if n > 0 {
        packing_keeps_every_paragraph(paras, n - 1);
        let st = packed(paras, n - 1);
        let next = packed(paras, n);
        let c = carried_of(paras, n - 1);
        let para = paras[n - 1];
        assert(paras.take(n) =~= paras.take(n - 1).push(para));
        if is_full(st.cur, para.words) {
            let d = carried_of(paras, n);
            assert(next.full.drop_last() =~= st.full);
            assert(d.drop_last() =~= c);
            assert(next.cur.skip(next.carried as int) =~= seq![para]);
            assert(fresh(next, d) =~= paras.take(n));
        } else {
            assert(next.cur.skip(next.carried as int) =~= st.cur.skip(st.carried as int).push(para));
            assert(fresh(next, c) =~= fresh(st, c).push(para));
        }
    } else {
        assert(packed(paras, 0).cur.skip(0) =~= paras.take(0));
    }
}

/// What a chunk repeats of its predecessor is an end of it, holds no code, and
/// is at most 40 words long.
pub proof fn overlap_is_bounded(p: Seq<ParaView>, budget: int)
    requires
        0 <= budget,
    ensures
        overlap(p, budget).len() <= p.len(),
        overlap(p, budget) == p.skip(p.len() - overlap(p, budget).len()),
        total_words(overlap(p, budget)) <= budget,
        forall|i: int|
            0 <= i < overlap(p, budget).len() ==> !(#[trigger] overlap(p, budget)[i]).is_fence,
    decreases p.len(),
{
    let r = overlap(p, budget);
    if p.len() == 0 || p.last().is_fence || p.last().words > budget {
        assert(r =~= p.skip(p.len() as int));
    } else {
        let q = overlap(p.drop_last(), budget - p.last().words);
        overlap_is_bounded(p.drop_last(), budget - p.last().words);
        assert(r.drop_last() =~= q);
        assert(r =~= p.skip(p.len() - r.len()));
        assert forall|i: int| 0 <= i < r.len() implies !(#[trigger] r[i]).is_fence by {
            if i < q.len() {
                assert(r[i] == q[i]);
            }
        }
    }
}

/// Whether a group keeps the sizes: without its last paragraph it is below the
/// target, and it is above the maximum only where that paragraph joined fewer words
/// than a chunk should have.
pub open spec fn is_sized(g: Seq<ParaView>) -> bool {
    &&& g.len() > 0
    &&& total_words(g.drop_last()) < TARGET_WORDS
    &&& total_words(g) <= MAX_WORDS || total_words(g.drop_last()) < MIN_WORDS
}

/// Packing keeps the sizes: every group is cut as soon as it reaches the target, and
/// grows beyond the maximum only by one paragraph that is large by itself.
pub proof fn packed_groups_are_sized(paras: Seq<ParaView>, n: int)
    requires
        0 <= n <= paras.len(),
    ensures
        n > 0 ==> is_sized(packed(paras, n).cur),
        forall|i: int| 0 <= i < packed(paras, n).full.len() ==> is_sized(
            #[trigger] packed(paras, n).full[i],
        ),
    decreases n,
{
    if n > 0 {
        packed_groups_are_sized(paras, n - 1);
        let st = packed(paras, n - 1);
        let next = packed(paras, n);
        let para = paras[n - 1];
        assert(next.cur.drop_last() =~= if is_full(st.cur, para.words) {
            overlap(st.cur, OVERLAP_WORDS as int)
        } else {
            st.cur
        });
        if is_full(st.cur, para.words) {
            overlap_is_bounded(st.cur, OVERLAP_WORDS as int);
            assert(n > 1);
            assert forall|i: int| 0 <= i < next.full.len() implies is_sized(
                #[trigger] next.full[i],
            ) by {
                if i < st.full.len() {
                    assert(next.full[i] == st.full[i]);
                }
            }
        }
    }
}

/// A blank line inside code never ends a paragraph: fenced lines stay with the
/// group they follow.
pub proof fn fenced_lines_stay_together(
    lines: Seq<LineView>,
    n: int,
    start: int,
    end: int,
    fences: Seq<Span>,
)
    requires
        0 < n <= lines.len(),
        start <= lines[n - 1].offset < end,
        in_any(fences, lines[n - 1].offset),
    ensures
        groups(lines, n, start, end, fences).len() == groups(lines, n - 1, start, end, fences).len(),
        groups(lines, n, start, end, fences).last() == groups(
            lines,
            n - 1,
            start,
            end,
            fences,
        ).last().push(Row { number: n, text: lines[n - 1].text, fenced: true }),
{
    lemma_groups_len(lines, n - 1, start, end, fences);
}

// ---------------------------------------------------------------------
// Configuration and plain text
// ---------------------------------------------------------------------

/// Chunks a configuration or plain-text file: one section, paragraphs between
/// blank lines, no heading syntax.
pub fn chunk_plain_text(doc_title: &str, text: &str) -> (r: Vec<DocChunk>)
    ensures
        chunk_views(r@) == with_section(
            Seq::empty(),
            doc_title@,
            doc_paras(doc_lines(text@), 0, utf8_len(text@) as int, Seq::empty()),
            "\n\n"@,
        ),
{
    let lines = line_spans(text);
    let none: Vec<Span> = Vec::new();
    let paras = split_paras(&lines, 0, byte_len(text), &none);
    let mut chunks: Vec<DocChunk> = Vec::new();
    assert(none@ =~= Seq::empty());
    assert(chunk_views(chunks@) =~= Seq::empty());
    let section = Section { crumb: doc_title.to_owned(), paras };
    pack_section(&section, "\n\n", &mut chunks);
    chunks
}

/// Largest plain-text file that is indexed, in bytes.
pub const PLAIN_TEXT_SIZE_CAP: u64 = 262_144;

/// How a plain-text or configuration file is chunked.
#[derive(Debug, Clone, Copy, PartialEq, Eq, Structural)]
pub enum PlainTextKind {
    /// Configuration: comment lines must not be read as headings.
    Config,
    /// Free-form prose.
    Prose,
}

/// Names of lockfiles and generated manifests, which are never indexed.
pub open spec fn is_lockfile(name: Seq<char>) -> bool {
    ||| name == "cargo.lock"@
    ||| name == "package-lock.json"@
    ||| name == "yarn.lock"@
    ||| name == "pnpm-lock.yaml"@
    ||| name == "composer.lock"@
    ||| name == "gemfile.lock"@
    ||| name == "poetry.lock"@
    ||| name == "go.sum"@
    ||| name == "mix.lock"@
    ||| name == "flake.lock"@
    ||| name == "pipfile.lock"@
}

/// Environment files with secrets; the checked-in template is none.
pub open spec fn is_secret_env(name: Seq<char>) -> bool {
    name == ".env"@ || (starts_with(name, ".env."@) && name != ".env.example"@)
}

/// How a file of this name and extension is chunked, both in lower case.
pub open spec fn kind_by_name(name: Seq<char>, ext: Seq<char>) -> Option<PlainTextKind> {
    if name == "dockerfile"@ || name == "makefile"@ || name == ".env.example"@ {
        Some(PlainTextKind::Config)
    } else if ext == "toml"@ || ext == "yaml"@ || ext == "yml"@ || ext == "json"@ || ext == "sh"@
        || ext == "bash"@ || ext == "ini"@ {
        Some(PlainTextKind::Config)
    } else if ext == "txt"@ || ext == "rst"@ {
        Some(PlainTextKind::Prose)
    } else {
        None
    }
}

/// How a file is chunked, or nothing where it is not indexed. Secrets, lockfiles
/// and oversized files are left out before the extension is looked at.
pub open spec fn plain_text_kind_of(path: Seq<char>, size: int) -> Option<PlainTextKind> {
    match file_name(path) {
        Some(n) => {
            let name = all_lower(n);
            if is_secret_env(name) || is_lockfile(name) || size < 0 || size > PLAIN_TEXT_SIZE_CAP {
                None
            } else {
                kind_by_name(name, all_lower(extension(n)))
            }
        },
        None => None,
    }
}

fn lockfile(name: &str) -> (r: bool)
    ensures
        r == is_lockfile(name@),
{
    same(name, "cargo.lock") || same(name, "package-lock.json") || same(name, "yarn.lock") || same(
        name,
        "pnpm-lock.yaml",
    ) || same(name, "composer.lock") || same(name, "gemfile.lock") || same(name, "poetry.lock")
        || same(name, "go.sum") || same(name, "mix.lock") || same(name, "flake.lock") || same(
        name,
        "pipfile.lock",
    )
}

fn secret_env(name: &str) -> (r: bool)
    ensures
        r == is_secret_env(name@),
{
    same(name, ".env") || (without_prefix(name, ".env.").is_some() && !same(name, ".env.example"))
}

/// How a file that is no source code is chunked. Nothing: it is skipped.
pub fn plain_text_kind(path: &str, size: i64) -> (r: Option<PlainTextKind>)
    ensures
        r == plain_text_kind_of(path@, size as int),
{
    let raw = match file_name_of(path) {
        Some(n) => n,
        None => {
            return None;
        },
    };
    let name = lower_of(raw.as_str());
    if secret_env(name.as_str()) || lockfile(name.as_str()) {
        return None;
    }
    if size < 0 || size as u64 > PLAIN_TEXT_SIZE_CAP {
        return None;
    }
    let n = name.as_str();
    if same(n, "dockerfile") || same(n, "makefile") || same(n, ".env.example") {
        return Some(PlainTextKind::Config);
    }
    let dotted = extension_of(raw.as_str());
    let low = lower_of(dotted.as_str());
    let ext = low.as_str();
    if same(ext, "toml") || same(ext, "yaml") || same(ext, "yml") || same(ext, "json") || same(
        ext,
        "sh",
    ) || same(ext, "bash") || same(ext, "ini") {
        Some(PlainTextKind::Config)
    } else if same(ext, "txt") || same(ext, "rst") {
        Some(PlainTextKind::Prose)
    } else {
        None
    }
}

/// An environment file is never indexed, whatever the whitelist says; only the
/// template is.
pub proof fn secrets_are_never_indexed(path: Seq<char>, size: int)
    requires
        file_name(path) is Some,
        is_secret_env(all_lower(file_name(path)->0)),
    ensures
        plain_text_kind_of(path, size) is None,
{
}

/// A lockfile is never indexed, whatever its extension.
pub proof fn lockfiles_are_never_indexed(path: Seq<char>, size: int)
    requires
        file_name(path) is Some,
        is_lockfile(all_lower(file_name(path)->0)),
    ensures
        plain_text_kind_of(path, size) is None,
{
}

// ---------------------------------------------------------------------
// Markdown
// ---------------------------------------------------------------------

/// What a Markdown parser reports.
pub enum Mark {
    /// A heading begins, with its level.
    HeadingStart(u32),
    /// A heading ends.
    HeadingEnd,
    /// Text or inline code.
    Text(String),
    /// A code block begins.
    CodeBlock,
    /// Anything else.
    Other,
}

/// What a Markdown parser reports, and the bytes it speaks of.
pub struct MarkEvent {
    pub mark: Mark,
    pub start: usize,
    pub end: usize,
}

/// The contents of a parser's report.
pub enum MarkView {
    HeadingStart(u32),
    HeadingEnd,
    Text(Seq<char>),
    CodeBlock,
    Other,
}

impl View for Mark {
    type V = MarkView;

    open spec fn view(&self) -> MarkView {
        match *self {
            Mark::HeadingStart(level) => MarkView::HeadingStart(level),
            Mark::HeadingEnd => MarkView::HeadingEnd,
            Mark::Text(t) => MarkView::Text(t@),
            Mark::CodeBlock => MarkView::CodeBlock,
            Mark::Other => MarkView::Other,
        }
    }
}

/// The contents of some reports: what is reported, and the bytes.
pub open spec fn mark_views(v: Seq<MarkEvent>) -> Seq<(MarkView, usize, usize)> {
    Seq::new(v.len(), |i: int| (v[i].mark@, v[i].start, v[i].end))
}

/// What `pulldown_cmark` reports of a document, in order, with every extension
/// on: headings, text and inline code, code blocks, and the rest.
pub uninterp spec fn marks_of(text: Seq<char>) -> Seq<(MarkView, usize, usize)>;

/// Parses a document with `pulldown_cmark::Parser::new_ext` and
/// `into_offset_iter`, with `Options::all()`.
#[verifier::external_body]
fn parse_marks(text: &str) -> (r: Vec<MarkEvent>)
    ensures
        mark_views(r@) == marks_of(text@),
{
    let parser = pulldown_cmark::Parser::new_ext(text, pulldown_cmark::Options::all());
    let read = |event: pulldown_cmark::Event| match event {
        pulldown_cmark::Event::Start(pulldown_cmark::Tag::Heading { level, .. }) =>
            Mark::HeadingStart(level as u32),
        pulldown_cmark::Event::End(pulldown_cmark::TagEnd::Heading(_)) => Mark::HeadingEnd,
        pulldown_cmark::Event::Text(t) => Mark::Text(t.to_string()),
        pulldown_cmark::Event::Code(t) => Mark::Text(t.to_string()),
        pulldown_cmark::Event::Start(pulldown_cmark::Tag::CodeBlock(_)) => Mark::CodeBlock,
        _ => Mark::Other,
    };
    parser
        .into_offset_iter()
        .map(|(e, r)| MarkEvent { mark: read(e), start: r.start, end: r.end })
        .collect()
}

/// A heading of a document.
pub struct Heading {
    pub level: u32,
    pub text: String,
    pub span: Span,
}

/// The contents of a heading.
#[verifier::ext_equal]
pub struct HeadingView {
    pub level: u32,
    pub text: Seq<char>,
    pub span: Span,
}

impl View for Heading {
    type V = HeadingView;

    open spec fn view(&self) -> HeadingView {
        HeadingView { level: self.level, text: self.text@, span: self.span }
    }
}

/// The contents of some headings.
pub open spec fn heading_views(v: Seq<Heading>) -> Seq<HeadingView> {
    Seq::new(v.len(), |i: int| v[i]@)
}

/// The structure found so far: headings, code blocks, and the heading that is
/// open.
#[verifier::ext_equal]
pub struct Scan {
    pub headings: Seq<HeadingView>,
    pub fences: Seq<Span>,
    pub open: Option<HeadingView>,
}

/// The deepest heading level that makes a section.
pub const SECTION_LEVEL: u32 = 3;

/// The structure that the first `n` reports give: headings down to level 3 with
/// the text inside them, and code blocks.
pub open spec fn scanned(marks: Seq<(MarkView, usize, usize)>, n: int) -> Scan
    decreases n,
{
    if n <= 0 {
        Scan { headings: Seq::empty(), fences: Seq::empty(), open: None }
    } else {
        let st = scanned(marks, n - 1);
        let (mark, start, end) = marks[n - 1];
        let span = Span { start, end };
        match mark {
            MarkView::HeadingStart(level) => if level <= SECTION_LEVEL {
                Scan { open: Some(HeadingView { level, text: Seq::empty(), span }), ..st }
            } else {
                st
            },
            MarkView::Text(t) => match st.open {
                Some(h) => Scan { open: Some(HeadingView { text: h.text + t, ..h }), ..st },
                None => st,
            },
            MarkView::HeadingEnd => match st.open {
                Some(h) => Scan {
                    headings: st.headings.push(HeadingView { text: trim(h.text), ..h }),
                    open: None,
                    ..st
                },
                None => st,
            },
            MarkView::CodeBlock => Scan { fences: st.fences.push(span), ..st },
            MarkView::Other => st,
        }
    }
}

/// Headings and code blocks from a parser's reports.
pub fn collect_structure(marks: &Vec<MarkEvent>) -> (r: (Vec<Heading>, Vec<Span>))
    ensures
        heading_views(r.0@) == scanned(mark_views(marks@), marks@.len() as int).headings,
        r.1@ == scanned(mark_views(marks@), marks@.len() as int).fences,
{
    let ghost mv = mark_views(marks@);
    let mut headings: Vec<Heading> = Vec::new();
    let mut fences: Vec<Span> = Vec::new();
    let mut open: Option<Heading> = None;
    let mut i: usize = 0;
    assert(heading_views(headings@) =~= Seq::empty());
    assert(fences@ =~= Seq::empty());
    while i < marks.len()
        invariant
            i <= marks@.len(),
            mv == mark_views(marks@),
            heading_views(headings@) == scanned(mv, i as int).headings,
            fences@ == scanned(mv, i as int).fences,
            match open {
                Some(h) => scanned(mv, i as int).open == Some(h@),
                None => scanned(mv, i as int).open is None,
            },
        decreases marks@.len() - i,
    {
        let e = &marks[i];
        let span = Span { start: e.start, end: e.end };
        assert(mv[i as int] == (e.mark@, e.start, e.end));
        let ghost before = heading_views(headings@);
        match &e.mark {
            Mark::HeadingStart(level) => {
                if *level <= SECTION_LEVEL {
                    open = Some(Heading { level: *level, text: String::new(), span });
                }
            },
            Mark::Text(t) => {
                if let Some(h) = open {
                    let mut h = h;
                    h.text.append(t.as_str());
                    open = Some(h);
                } else {
                    open = None;
                }
            },
            Mark::HeadingEnd => {
                if let Some(h) = open {
                    let done = Heading {
                        level: h.level,
                        text: trimmed(h.text.as_str()),
                        span: h.span,
                    };
                    headings.push(done);
                    assert(heading_views(headings@) =~= before.push(done@));
                }
                open = None;
            },
            Mark::CodeBlock => {
                fences.push(span);
            },
            Mark::Other => {},
        }
        i += 1;
    }
    (headings, fences)
}

/// Headings down to level 3, and code blocks, of a document.
pub fn scan_structure(text: &str) -> (r: (Vec<Heading>, Vec<Span>))
    ensures
        heading_views(r.0@) == scanned(marks_of(text@), marks_of(text@).len() as int).headings,
        r.1@ == scanned(marks_of(text@), marks_of(text@).len() as int).fences,
{
    let marks = parse_marks(text);
    assert(mark_views(marks@).len() == marks@.len());
    collect_structure(&marks)
}

/// A heading that stands open above a section: level and text.
pub struct Crumb {
    pub level: u32,
    pub text: String,
}

/// The headings that stand above a new heading of `level`.
pub open spec fn popped(stack: Seq<(u32, Seq<char>)>, level: u32) -> Seq<(u32, Seq<char>)>
    decreases stack.len(),
{
    if stack.len() > 0 && stack.last().0 >= level {
        popped(stack.drop_last(), level)
    } else {
        stack
    }
}

/// The headings that stand open after the first `n`.
pub open spec fn crumbs(headings: Seq<HeadingView>, n: int) -> Seq<(u32, Seq<char>)>
    decreases n,
{
    if n <= 0 {
        Seq::empty()
    } else {
        let h = headings[n - 1];
        popped(crumbs(headings, n - 1), h.level).push((h.level, h.text))
    }
}

/// The title of a document and the headings open below it, as one line.
pub open spec fn crumb_line(title: Seq<char>, stack: Seq<(u32, Seq<char>)>) -> Seq<char> {
    join(seq![title] + Seq::new(stack.len(), |i: int| stack[i].1), " › "@)
}

/// The contents of a section.
#[verifier::ext_equal]
pub struct SectionView {
    pub crumb: Seq<char>,
    pub paras: Seq<ParaView>,
}

impl View for Section {
    type V = SectionView;

    open spec fn view(&self) -> SectionView {
        SectionView { crumb: self.crumb@, paras: para_views(self.paras@) }
    }
}

/// The contents of some sections.
pub open spec fn section_views(v: Seq<Section>) -> Seq<SectionView> {
    Seq::new(v.len(), |i: int| v[i]@)
}

/// A document as the chunker sees it.
pub struct Doc {
    pub title: Seq<char>,
    pub lines: Seq<LineView>,
    pub headings: Seq<HeadingView>,
    pub fences: Seq<Span>,
    pub len: int,
}

/// Where heading `i` begins, or where the document ends.
pub open spec fn heading_start(d: Doc, i: int) -> int {
    if i < d.headings.len() {
        d.headings[i].span.start as int
    } else {
        d.len
    }
}

/// The sections before the first heading and of the first `n` headings; those
/// without a paragraph left out.
pub open spec fn sections(d: Doc, n: int) -> Seq<SectionView>
    decreases n,
{
    if n <= 0 {
        let paras = doc_paras(d.lines, 0, heading_start(d, 0), d.fences);
        if heading_start(d, 0) > 0 && paras.len() > 0 {
            seq![SectionView { crumb: crumb_line(d.title, Seq::empty()), paras }]
        } else {
            Seq::empty()
        }
    } else {
        let before = sections(d, n - 1);
        let paras = doc_paras(
            d.lines,
            d.headings[n - 1].span.end as int,
            heading_start(d, n),
            d.fences,
        );
        if paras.len() > 0 {
            before.push(SectionView { crumb: crumb_line(d.title, crumbs(d.headings, n)), paras })
        } else {
            before
        }
    }
}

/// Position just behind the last `sep` in the first `n` characters, or 0.
pub open spec fn after_last(s: Seq<char>, sep: Seq<char>, n: int) -> int
    decreases n,
{
    if n <= 0 {
        0
    } else if occurs_at(s, sep, n - sep.len()) {
        n
    } else {
        after_last(s, sep, n - 1)
    }
}

/// The last heading of a crumb line.
pub open spec fn last_crumb(s: Seq<char>) -> Seq<char> {
    s.skip(after_last(s, " › "@, s.len() as int))
}

/// The heading of a section that is merged, as a paragraph of its own.
pub open spec fn heading_para(sec: SectionView) -> ParaView {
    let text = last_crumb(sec.crumb);
    ParaView {
        text,
        start_line: sec.paras[0].start_line,
        end_line: sec.paras[0].start_line,
        words: words(text).len(),
        is_fence: false,
    }
}

/// The sections with undersized ones merged into their predecessors.
pub open spec fn merged(secs: Seq<SectionView>) -> Seq<SectionView>
    decreases secs.len(),
{
    if secs.len() == 0 {
        Seq::empty()
    } else {
        let m = merged(secs.drop_last());
        let sec = secs.last();
        if m.len() > 0 && total_words(sec.paras) < MIN_WORDS {
            m.drop_last().push(
                SectionView {
                    crumb: m.last().crumb,
                    paras: m.last().paras.push(heading_para(sec)) + sec.paras,
                },
            )
        } else {
            m.push(sec)
        }
    }
}

/// The chunks of some sections.
pub open spec fn section_chunks(secs: Seq<SectionView>, sep: Seq<char>) -> Seq<ChunkView>
    decreases secs.len(),
{
    if secs.len() == 0 {
        Seq::empty()
    } else {
        with_section(
            section_chunks(secs.drop_last(), sep),
            secs.last().crumb,
            secs.last().paras,
            sep,
        )
    }
}

/// A document as the chunker sees it, given its structure.
pub open spec fn doc_of(
    title: Seq<char>,
    text: Seq<char>,
    headings: Seq<HeadingView>,
    fences: Seq<Span>,
) -> Doc {
    Doc { title, lines: doc_lines(text), headings, fences, len: utf8_len(text) as int }
}

/// The chunks of a document, given its structure.
pub open spec fn doc_chunks(d: Doc) -> Seq<ChunkView> {
    section_chunks(merged(sections(d, d.headings.len() as int)), "\n\n"@)
}

fn make_crumb(title: &str, stack: &Vec<Crumb>) -> (r: String)
    ensures
        r@ == crumb_line(title@, crumb_views(stack@)),
{
    let ghost sv = crumb_views(stack@);
    let ghost want = seq![title@] + Seq::new(sv.len(), |i: int| sv[i].1);
    let mut parts: Vec<String> = Vec::new();
    parts.push(title.to_owned());
    assert(texts(parts@) =~= want.take(1));
    let mut i: usize = 0;
    while i < stack.len()
        invariant
            i <= stack@.len(),
            sv == crumb_views(stack@),
            want == seq![title@] + Seq::new(sv.len(), |i: int| sv[i].1),
            texts(parts@) == want.take(i + 1),
        decreases stack@.len() - i,
    {
        let ghost before = texts(parts@);
        let t = stack[i].text.clone();
        parts.push(t);
        assert(texts(parts@) =~= before.push(t@));
        assert(sv[i as int].1 == t@);
        assert(want.take(i + 2) =~= before.push(t@));
        i += 1;
    }
    assert(want.take(want.len() as int) =~= want);
    joined(&parts, " › ")
}

/// The contents of a stack of headings.
pub open spec fn crumb_views(v: Seq<Crumb>) -> Seq<(u32, Seq<char>)> {
    Seq::new(v.len(), |i: int| (v[i].level, v[i].text@))
}

fn push_crumb(stack: &mut Vec<Crumb>, h: &Heading)
    ensures
        crumb_views(final(stack)@) == popped(crumb_views(old(stack)@), h.level).push(
            (h.level, h.text@),
        ),
{
    let ghost want = popped(crumb_views(stack@), h.level);
    let mut n: usize = stack.len();
    let mut done = false;
    while n > 0 && !done
        invariant
            n == stack@.len(),
            want == popped(crumb_views(stack@), h.level),
            done ==> want == crumb_views(stack@),
        decreases
            n,
            (if done {
                0int
            } else {
                1
            }),
    {
        let ghost sv = crumb_views(stack@);
        assert(sv.last() == (stack@[n - 1].level, stack@[n - 1].text@));
        if stack[n - 1].level >= h.level {
            stack.pop();
            assert(crumb_views(stack@) =~= sv.drop_last());
            n -= 1;
        } else {
            done = true;
        }
    }
    let ghost before = crumb_views(stack@);
    let c = Crumb { level: h.level, text: h.text.clone() };
    stack.push(c);
    assert(crumb_views(stack@) =~= before.push((h.level, h.text@)));
}

/// The sections of a document.
fn make_sections(
    title: &str,
    lines: &Vec<Line>,
    headings: &Vec<Heading>,
    fences: &Vec<Span>,
    len: usize,
    Ghost(d): Ghost<Doc>,
) -> (r: Vec<Section>)
    requires
        d.title == title@,
        d.lines == line_views(lines@),
        d.headings == heading_views(headings@),
        d.fences == fences@,
        d.len == len,
    ensures
        section_views(r@) == sections(d, d.headings.len() as int),
{
    let mut out: Vec<Section> = Vec::new();
    let mut stack: Vec<Crumb> = Vec::new();
    assert(crumb_views(stack@) =~= Seq::empty());
    assert(section_views(out@) =~= Seq::empty());
    let first: usize = if headings.len() > 0 {
        assert(d.headings[0] == headings@[0]@);
        headings[0].span.start
    } else {
        len
    };
    if first > 0 {
        let paras = split_paras(lines, 0, first, fences);
        assert(para_views(paras@).len() == paras@.len());
        if paras.len() > 0 {
            let crumb = make_crumb(title, &stack);
            let sec = Section { crumb, paras };
            out.push(sec);
            assert(section_views(out@) =~= seq![sec@]);
        }
    }
    let mut i: usize = 0;
    while i < headings.len()
        invariant
            i <= headings@.len(),
            d.title == title@,
            d.lines == line_views(lines@),
            d.headings == heading_views(headings@),
            d.fences == fences@,
            d.len == len,
            crumb_views(stack@) == crumbs(d.headings, i as int),
            section_views(out@) == sections(d, i as int),
        decreases headings@.len() - i,
    {
        let h = &headings[i];
        assert(d.headings[i as int] == h@);
        push_crumb(&mut stack, h);
        let end: usize = if i + 1 < headings.len() {
            assert(d.headings[i + 1] == headings@[i + 1]@);
            headings[i + 1].span.start
        } else {
            len
        };
        let paras = split_paras(lines, h.span.end, end, fences);
        assert(para_views(paras@).len() == paras@.len());
        let ghost before = section_views(out@);
        if paras.len() > 0 {
            let crumb = make_crumb(title, &stack);
            let sec = Section { crumb, paras };
            out.push(sec);
            assert(section_views(out@) =~= before.push(sec@));
        }
        i += 1;
    }
    out
}

fn last_crumb_of(s: &str) -> (r: String)
    ensures
        r@ == last_crumb(s@),
{
    let v = chars_of(s);
    let sep = chars_of(" › ");
    let mut n: usize = v.len();
    let mut found = false;
    while n > 0 && !found
        invariant
            n <= v@.len(),
            sep@ == " › "@,
            after_last(v@, sep@, v@.len() as int) == after_last(v@, sep@, n as int),
            found ==> after_last(v@, sep@, v@.len() as int) == n,
        decreases
            n,
            (if found {
                0int
            } else {
                1
            }),
    {
        if sep.len() <= n && matches_at(&v, &sep, n - sep.len()) {
            found = true;
        } else {
            n -= 1;
        }
    }
    assert(v@.subrange(n as int, v@.len() as int) =~= v@.skip(n as int));
    string_of(&v, n, v.len())
}

fn words_of(paras: &Vec<Para>) -> (r: usize)
    ensures
        r == total_words(para_views(paras@)) || (r == MIN_WORDS && total_words(para_views(paras@))
            >= MIN_WORDS),
{
    let ghost all = para_views(paras@);
    let mut total: usize = 0;
    let mut i: usize = 0;
    assert(all.take(0) =~= Seq::empty());
    while i < paras.len()
        invariant
            i <= paras@.len(),
            all == para_views(paras@),
            total == total_words(all.take(i as int)),
            total < MIN_WORDS,
        decreases paras@.len() - i,
    {
        assert(all.take(i + 1).drop_last() =~= all.take(i as int));
        assert(all.take(i + 1).last() == paras@[i as int]@);
        if paras[i].words >= MIN_WORDS - total {
            proof {
                lemma_total_words_take(all, i + 1);
            }
            return MIN_WORDS;
        }
        total = total + paras[i].words;
        i += 1;
    }
    assert(all.take(all.len() as int) =~= all);
    total
}

proof fn lemma_total_words_take(p: Seq<ParaView>, n: int)
    requires
        0 <= n <= p.len(),
    ensures
        total_words(p.take(n)) <= total_words(p),
    decreases p.len() - n,
{
    if n < p.len() {
        assert(p.take(n + 1).drop_last() =~= p.take(n));
        lemma_total_words_take(p, n + 1);
    } else {
        assert(p.take(n) =~= p);
    }
}

/// Merges undersized sections into their predecessors; the heading stays as a
/// line of its own.
fn merge_sections(secs: Vec<Section>) -> (r: Vec<Section>)
    requires
        forall|i: int| 0 <= i < secs@.len() ==> (#[trigger] secs@[i]).paras@.len() > 0,
    ensures
        section_views(r@) == merged(section_views(secs@)),
{
    let ghost sv = section_views(secs@);
    let mut out: Vec<Section> = Vec::new();
    let mut i: usize = 0;
    assert(sv.take(0) =~= Seq::empty());
    assert(section_views(out@) =~= Seq::empty());
    while i < secs.len()
        invariant
            i <= secs@.len(),
            sv == section_views(secs@),
            forall|i: int| 0 <= i < secs@.len() ==> (#[trigger] secs@[i]).paras@.len() > 0,
            section_views(out@) == merged(sv.take(i as int)),
        decreases secs@.len() - i,
    {
        let sec = &secs[i];
        let ghost m = section_views(out@);
        assert(sv.take(i + 1).drop_last() =~= sv.take(i as int));
        assert(sv.take(i + 1).last() == sec@);
        let small = words_of(&sec.paras) < MIN_WORDS;
        if out.len() > 0 && small {
            let mut prev = out.pop().unwrap();
            assert(section_views(out@) =~= m.drop_last());
            assert(prev@ == m.last());
            let ghost had = para_views(prev.paras@);
            let text = last_crumb_of(sec.crumb.as_str());
            let n: usize = split_fields(text.as_str(), Delim::Space).len();
            assert(words(text@).len() == n);
            assert(para_views(sec.paras@)[0] == sec.paras@[0]@);
            let line: usize = sec.paras[0].start_line;
            let head = Para { text, start_line: line, end_line: line, words: n, is_fence: false };
            assert(head@ == heading_para(sec@));
            prev.paras.push(head);
            assert(para_views(prev.paras@) =~= had.push(head@));
            let ghost tail = para_views(sec.paras@);
            let mut k: usize = 0;
            assert(had.push(head@) + tail.take(0) =~= had.push(head@));
            while k < sec.paras.len()
                invariant
                    k <= sec.paras@.len(),
                    tail == para_views(sec.paras@),
                    para_views(prev.paras@) == had.push(head@) + tail.take(k as int),
                    prev.crumb@ == m.last().crumb,
                decreases sec.paras@.len() - k,
            {
                let ghost before = para_views(prev.paras@);
                let p = sec.paras[k].copy();
                prev.paras.push(p);
                assert(tail[k as int] == p@);
                assert(para_views(prev.paras@) =~= before.push(p@));
                assert(had.push(head@) + tail.take(k + 1) =~= before.push(p@));
                k += 1;
            }
            assert(tail.take(tail.len() as int) =~= tail);
            let ghost short = section_views(out@);
            out.push(prev);
            assert(section_views(out@) =~= short.push(prev@));
        } else {
            let copy = copy_section(sec);
            out.push(copy);
            assert(section_views(out@) =~= m.push(copy@));
        }
        i += 1;
    }
    assert(sv.take(secs@.len() as int) =~= sv);
    out
}

fn copy_section(sec: &Section) -> (r: Section)
    ensures
        r@ == sec@,
{
    let ghost all = para_views(sec.paras@);
    let mut paras: Vec<Para> = Vec::new();
    let mut i: usize = 0;
    assert(para_views(paras@) =~= all.take(0));
    while i < sec.paras.len()
        invariant
            i <= sec.paras@.len(),
            all == para_views(sec.paras@),
            para_views(paras@) == all.take(i as int),
        decreases sec.paras@.len() - i,
    {
        let ghost before = para_views(paras@);
        let p = sec.paras[i].copy();
        paras.push(p);
        assert(all[i as int] == p@);
        assert(para_views(paras@) =~= before.push(p@));
        assert(all.take(i + 1) =~= before.push(p@));
        i += 1;
    }
    assert(all.take(all.len() as int) =~= all);
    Section { crumb: sec.crumb.clone(), paras }
}

/// Packs sections one after the other.
fn pack_all(secs: &Vec<Section>, sep: &str) -> (r: Vec<DocChunk>)
    ensures
        chunk_views(r@) == section_chunks(section_views(secs@), sep@),
{
    let ghost sv = section_views(secs@);
    let mut chunks: Vec<DocChunk> = Vec::new();
    let mut i: usize = 0;
    assert(sv.take(0) =~= Seq::empty());
    assert(chunk_views(chunks@) =~= Seq::empty());
    while i < secs.len()
        invariant
            i <= secs@.len(),
            sv == section_views(secs@),
            chunk_views(chunks@) == section_chunks(sv.take(i as int), sep@),
        decreases secs@.len() - i,
    {
        assert(sv.take(i + 1).drop_last() =~= sv.take(i as int));
        assert(sv.take(i + 1).last() == secs@[i as int]@);
        pack_section(&secs[i], sep, &mut chunks);
        i += 1;
    }
    assert(sv.take(secs@.len() as int) =~= sv);
    chunks
}

proof fn lemma_sections_not_empty(d: Doc, n: int)
    ensures
        forall|i: int| 0 <= i < sections(d, n).len() ==> (#[trigger] sections(d, n)[i]).paras.len() > 0,
    decreases n,
{
    if n > 0 {
        lemma_sections_not_empty(d, n - 1);
        let r = sections(d, n);
        let q = sections(d, n - 1);
        assert forall|i: int| 0 <= i < r.len() implies (#[trigger] r[i]).paras.len() > 0 by {
            if i < q.len() {
                assert(r[i] == q[i]);
            }
        }
    }
}

/// Chunks a document whose headings and code blocks are known.
pub fn chunk_structured(
    doc_title: &str,
    text: &str,
    headings: &Vec<Heading>,
    fences: &Vec<Span>,
) -> (r: Vec<DocChunk>)
    ensures
        chunk_views(r@) == doc_chunks(
            doc_of(doc_title@, text@, heading_views(headings@), fences@),
        ),
{
    let lines = line_spans(text);
    let ghost d = doc_of(doc_title@, text@, heading_views(headings@), fences@);
    let secs = make_sections(doc_title, &lines, headings, fences, byte_len(text), Ghost(d));
    proof {
        lemma_sections_not_empty(d, d.headings.len() as int);
        assert forall|i: int| 0 <= i < secs@.len() implies (#[trigger] secs@[i]).paras@.len() > 0 by {
            assert(section_views(secs@)[i] == secs@[i]@);
            assert(para_views(secs@[i].paras@).len() == secs@[i].paras@.len());
        }
    }
    let all = merge_sections(secs);
    pack_all(&all, "\n\n")
}

/// Chunks a Markdown document at its headings down to level 3. Each chunk
/// carries its place in the heading tree and its lines; code blocks stay whole.
pub fn chunk_markdown(doc_title: &str, text: &str) -> (r: Vec<DocChunk>)
    ensures
        chunk_views(r@) == doc_chunks(
            doc_of(
                doc_title@,
                text@,
                scanned(marks_of(text@), marks_of(text@).len() as int).headings,
                scanned(marks_of(text@), marks_of(text@).len() as int).fences,
            ),
        ),
{
    let (headings, fences) = scan_structure(text);
    chunk_structured(doc_title, text, &headings, &fences)
}

// ---------------------------------------------------------------------
// Source code
// ---------------------------------------------------------------------

/// A symbol that a syntax tree gives: its lines, counted from 1, and its names.
#[derive(Debug, Clone)]
pub struct Symbol {
    pub start_line: usize,
    pub end_line: usize,
    pub qualified: String,
    pub kind: String,
    pub signature: String,
}

impl Symbol {
    /// The first line of the symbol in a file of `n` lines.
    pub open spec fn first(self) -> int {
        if self.start_line >= 1 {
            self.start_line as int
        } else {
            1
        }
    }

    /// The last line of the symbol in a file of `n` lines.
    pub open spec fn last(self, n: int) -> int {
        if self.end_line <= n {
            self.end_line as int
        } else {
            n
        }
    }

    /// Where a chunk of the symbol stands.
    pub open spec fn crumb(self, title: Seq<char>) -> Seq<char> {
        title + " › "@ + self.qualified@ + " ("@ + self.kind@ + ") — "@ + trim(
            first_line(self.signature@),
        )
    }
}

/// The runs of uncovered lines among `start..=l`: those that have ended, and the
/// start of the one that is open.
pub open spec fn run_scan(covered: Seq<bool>, start: int, l: int) -> (Seq<(int, int)>, Option<int>)
    decreases l - start + 1,
{
    if l < start {
        (Seq::empty(), None)
    } else {
        let (r, open) = run_scan(covered, start, l - 1);
        if covered[l - 1] {
            match open {
                Some(s) => (r.push((s, l - 1)), None),
                None => (r, None),
            }
        } else {
            match open {
                Some(s) => (r, Some(s)),
                None => (r, Some(l)),
            }
        }
    }
}

/// The runs of uncovered lines among `start..=end`, from longest possible start
/// to end.
pub open spec fn runs(covered: Seq<bool>, start: int, end: int) -> Seq<(int, int)> {
    let (r, open) = run_scan(covered, start, end);
    match open {
        Some(s) => r.push((s, end)),
        None => r,
    }
}

/// The contents of some runs.
pub open spec fn run_views(v: Seq<(usize, usize)>) -> Seq<(int, int)> {
    Seq::new(v.len(), |i: int| (v[i].0 as int, v[i].1 as int))
}

/// The runs of lines among `start..=end` that are not covered.
pub fn uncovered_runs(covered: &Vec<bool>, start: usize, end: usize) -> (r: Vec<(usize, usize)>)
    requires
        1 <= start,
        end <= covered@.len(),
    ensures
        run_views(r@) == runs(covered@, start as int, end as int),
{
    let n: usize = covered.len();
    let mut out: Vec<(usize, usize)> = Vec::new();
    let mut open: Option<usize> = None;
    let mut l: usize = start;
    assert(run_views(out@) =~= Seq::empty());
    while l <= end
        invariant
            1 <= start <= l,
            end <= n == covered@.len(),
            l <= end || l == start,
            run_views(out@) == run_scan(covered@, start as int, l - 1).0,
            match open {
                Some(s) => run_scan(covered@, start as int, l - 1).1 == Some(s as int),
                None => run_scan(covered@, start as int, l - 1).1 is None,
            },
        decreases end + 1 - l,
    {
        let ghost before = run_views(out@);
        if covered[l - 1] {
            if let Some(s) = open {
                out.push((s, l - 1));
                assert(run_views(out@) =~= before.push((s as int, l - 1)));
            }
            open = None;
        } else if open.is_none() {
            open = Some(l);
        }
        if l == end {
            proof {
                assert(run_views(out@) == run_scan(covered@, start as int, l as int).0);
            }
            let ghost mid = run_views(out@);
            if let Some(s) = open {
                out.push((s, end));
                assert(run_views(out@) =~= mid.push((s as int, end as int)));
            }
            return out;
        }
        l += 1;
    }
    assert(run_scan(covered@, start as int, end as int) == (Seq::<(int, int)>::empty(), None::<int>));
    out
}

/// The nonblank lines among `start..=end`, each a paragraph.
pub open spec fn code_paras(lines: Seq<Seq<char>>, start: int, end: int) -> Seq<ParaView>
    decreases end - start + 1,
{
    if end < start {
        Seq::empty()
    } else {
        let rest = code_paras(lines, start, end - 1);
        let text = lines[end - 1];
        if trim(text).len() == 0 {
            rest
        } else {
            rest.push(
                ParaView {
                    text,
                    start_line: end,
                    end_line: end,
                    words: words(text).len(),
                    is_fence: false,
                },
            )
        }
    }
}

/// The nonblank lines among `start..=end`, each a paragraph.
pub fn line_paras(lines: &Vec<String>, start: usize, end: usize) -> (r: Vec<Para>)
    requires
        1 <= start <= end <= lines@.len(),
    ensures
        para_views(r@) == code_paras(texts(lines@), start as int, end as int),
{
    let n: usize = lines.len();
    let mut out: Vec<Para> = Vec::new();
    let mut l: usize = start - 1;
    assert(para_views(out@) =~= Seq::empty());
    while l < end
        invariant
            1 <= start,
            start - 1 <= l <= end <= n == lines@.len(),
            para_views(out@) == code_paras(texts(lines@), start as int, l as int),
        decreases end - l,
    {
        let ghost before = para_views(out@);
        let text = &lines[l];
        assert(texts(lines@)[l as int] == text@);
        let blank = trimmed(text.as_str()).as_str().is_empty();
        if !blank {
            let count: usize = split_fields(text.as_str(), Delim::Space).len();
            assert(words(text@).len() == count);
            let p = Para {
                text: text.clone(),
                start_line: l + 1,
                end_line: l + 1,
                words: count,
                is_fence: false,
            };
            out.push(p);
            assert(para_views(out@) =~= before.push(p@));
        }
        l += 1;
    }
    out
}

/// A stretch of a file under one crumb.
#[verifier::ext_equal]
pub struct Piece {
    pub crumb: Seq<char>,
    pub start: int,
    pub end: int,
}

/// The stretches of some runs under one crumb.
pub open spec fn pieces_of(runs: Seq<(int, int)>, crumb: Seq<char>) -> Seq<Piece> {
    Seq::new(runs.len(), |i: int| Piece { crumb, start: runs[i].0, end: runs[i].1 })
}

/// The lines covered once `first..=last` are claimed as well.
pub open spec fn claimed(covered: Seq<bool>, first: int, last: int) -> Seq<bool> {
    Seq::new(covered.len(), |i: int| covered[i] || first <= i + 1 <= last)
}

/// What the first `k` symbols of a ranking claim: their stretches, and the lines
/// covered after them.
pub open spec fn symbol_pieces(
    symbols: Seq<Symbol>,
    order: Seq<int>,
    title: Seq<char>,
    n: nat,
    k: int,
) -> (Seq<Piece>, Seq<bool>)
    decreases k,
{
    if k <= 0 {
        (Seq::empty(), Seq::new(n, |i: int| false))
    } else {
        let (pieces, covered) = symbol_pieces(symbols, order, title, n, k - 1);
        let sym = symbols[order[k - 1]];
        let (first, last) = (sym.first(), sym.last(n as int));
        if first > last {
            (pieces, covered)
        } else {
            (
                pieces + pieces_of(runs(covered, first, last), sym.crumb(title)),
                claimed(covered, first, last),
            )
        }
    }
}

/// Where a chunk of lines outside every symbol stands.
pub open spec fn rest_crumb(title: Seq<char>, start: int, end: int) -> Seq<char> {
    title + " › (lines "@ + decimal_nat(start as nat) + "-"@ + decimal_nat(end as nat) + ")"@
}

/// The stretches of lines outside every symbol.
pub open spec fn rest_pieces(runs: Seq<(int, int)>, title: Seq<char>) -> Seq<Piece> {
    Seq::new(
        runs.len(),
        |i: int|
            Piece {
                crumb: rest_crumb(title, runs[i].0, runs[i].1),
                start: runs[i].0,
                end: runs[i].1,
            },
    )
}

/// Sort keys by length: inner symbols before those that hold them.
pub open spec fn length_keys(symbols: Seq<Symbol>) -> Seq<Key> {
    Seq::new(
        symbols.len(),
        |i: int|
            Key {
                first: (if symbols[i].end_line >= symbols[i].start_line {
                    symbols[i].end_line - symbols[i].start_line
                } else {
                    0
                }) as i128,
                second: 0,
                third: 0,
            },
    )
}

/// The stretches of a source file of `n` lines: per symbol, innermost first,
/// what no inner symbol has claimed; then the lines outside every symbol.
pub open spec fn source_pieces(symbols: Seq<Symbol>, title: Seq<char>, n: nat) -> Seq<Piece> {
    let order = ranking(length_keys(symbols));
    let (pieces, covered) = symbol_pieces(symbols, order, title, n, symbols.len() as int);
    pieces + rest_pieces(runs(covered, 1, n as int), title)
}

/// The chunks of some stretches; those without a nonblank line make none.
pub open spec fn piece_chunks(pieces: Seq<Piece>, lines: Seq<Seq<char>>) -> Seq<ChunkView>
    decreases pieces.len(),
{
    if pieces.len() == 0 {
        Seq::empty()
    } else {
        let before = piece_chunks(pieces.drop_last(), lines);
        let p = pieces.last();
        let paras = code_paras(lines, p.start, p.end);
        if paras.len() == 0 {
            before
        } else {
            with_section(before, p.crumb, paras, "\n"@)
        }
    }
}

/// The lines of a run lie in its range and in order.
proof fn lemma_runs_in_range(covered: Seq<bool>, start: int, l: int)
    requires
        1 <= start,
        l <= covered.len(),
    ensures
        forall|i: int|
            0 <= i < run_scan(covered, start, l).0.len() ==> start <= (#[trigger] run_scan(
                covered,
                start,
                l,
            ).0[i]).0 <= run_scan(covered, start, l).0[i].1 <= l,
        run_scan(covered, start, l).1 is Some ==> start <= run_scan(covered, start, l).1->0 <= l,
    decreases l - start + 1,
{
    if l >= start {
        lemma_runs_in_range(covered, start, l - 1);
        let r = run_scan(covered, start, l).0;
        let q = run_scan(covered, start, l - 1).0;
        assert forall|i: int| 0 <= i < r.len() implies start <= (#[trigger] r[i]).0 <= r[i].1 <= l by {
            if i < q.len() {
                assert(r[i] == q[i]);
            }
        }
    }
}

/// The runs among `start..=end` lie there.
pub proof fn lemma_runs_bounds(covered: Seq<bool>, start: int, end: int)
    requires
        1 <= start,
        end <= covered.len(),
    ensures
        forall|i: int|
            0 <= i < runs(covered, start, end).len() ==> start <= (#[trigger] runs(
                covered,
                start,
                end,
            )[i]).0 <= runs(covered, start, end)[i].1 <= end,
{
    lemma_runs_in_range(covered, start, end);
    let r = runs(covered, start, end);
    let q = run_scan(covered, start, end).0;
    assert forall|i: int| 0 <= i < r.len() implies start <= (#[trigger] r[i]).0 <= r[i].1 <= end by {
        if i < q.len() {
            assert(r[i] == q[i]);
        }
    }
}

fn pack_piece(
    lines: &Vec<String>,
    crumb: &str,
    start: usize,
    end: usize,
    chunks: &mut Vec<DocChunk>,
    Ghost(pieces): Ghost<Seq<Piece>>,
)
    requires
        1 <= start <= end <= lines@.len(),
        chunk_views(old(chunks)@) == piece_chunks(pieces, texts(lines@)),
    ensures
        chunk_views(final(chunks)@) == piece_chunks(
            pieces.push(Piece { crumb: crumb@, start: start as int, end: end as int }),
            texts(lines@),
        ),
{
    let ghost p = Piece { crumb: crumb@, start: start as int, end: end as int };
    assert(pieces.push(p).drop_last() =~= pieces);
    let paras = line_paras(lines, start, end);
    assert(para_views(paras@).len() == paras@.len());
    if paras.len() > 0 {
        let section = Section { crumb: crumb.to_owned(), paras };
        pack_section(&section, "\n", chunks);
    }
}

fn symbol_crumb(sym: &Symbol, title: &str) -> (r: String)
    ensures
        r@ == sym.crumb(title@),
{
    let lines = lines_of(sym.signature.as_str());
    let sig = if lines.len() > 0 {
        assert(texts(lines@)[0] == lines@[0]@);
        trimmed(lines[0].as_str())
    } else {
        trimmed("")
    };
    proof {
        reveal_strlit("");
        assert(""@ =~= Seq::<char>::empty());
    }
    let mut out = title.to_owned();
    out.append(" › ");
    out.append(sym.qualified.as_str());
    out.append(" (");
    out.append(sym.kind.as_str());
    out.append(") — ");
    out.append(sig.as_str());
    out
}

fn order_symbols(symbols: &Vec<Symbol>) -> (r: Vec<usize>)
    ensures
        as_ints(r@) == ranking(length_keys(symbols@)),
        r@.len() == symbols@.len(),
        forall|i: int| 0 <= i < r@.len() ==> #[trigger] r@[i] < symbols@.len(),
{
    let mut keys: Vec<Key> = Vec::new();
    let mut i: usize = 0;
    while i < symbols.len()
        invariant
            i <= symbols@.len(),
            keys@ == length_keys(symbols@).take(i as int),
        decreases symbols@.len() - i,
    {
        let s = &symbols[i];
        let len: usize = if s.end_line >= s.start_line {
            s.end_line - s.start_line
        } else {
            0
        };
        keys.push(Key::of(len as i128));
        assert(keys@ =~= length_keys(symbols@).take(i + 1));
        i += 1;
    }
    assert(keys@ =~= length_keys(symbols@));
    let order = rank(&keys);
    assert(as_ints(order@).len() == symbols@.len());
    assert forall|i: int| 0 <= i < order@.len() implies #[trigger] order@[i] < symbols@.len() by {
        assert(as_ints(order@)[i] == order@[i]);
    }
    order
}

fn claim(covered: &mut Vec<bool>, first: usize, last: usize)
    requires
        1 <= first <= last <= old(covered)@.len(),
    ensures
        final(covered)@ == claimed(old(covered)@, first as int, last as int),
{
    let ghost was = covered@;
    let mut l: usize = first - 1;
    while l < last
        invariant
            1 <= first <= last <= was.len(),
            first - 1 <= l <= last,
            covered@.len() == was.len(),
            forall|i: int|
                0 <= i < was.len() ==> #[trigger] covered@[i] == (was[i] || first <= i + 1 <= l),
        decreases last - l,
    {
        covered.set(l, true);
        l += 1;
    }
    assert(covered@ =~= claimed(was, first as int, last as int));
}

fn no_lines(n: usize) -> (r: Vec<bool>)
    ensures
        r@ == Seq::new(n as nat, |i: int| false),
{
    let mut v: Vec<bool> = Vec::new();
    let mut i: usize = 0;
    while i < n
        invariant
            i <= n,
            v@ == Seq::new(i as nat, |i: int| false),
        decreases n - i,
    {
        v.push(false);
        assert(v@ =~= Seq::new((i + 1) as nat, |i: int| false));
        i += 1;
    }
    v
}

/// Chunks a source file on the boundaries of its symbols. Lines are claimed
/// innermost first, so that a class does not repeat its methods.
pub fn chunk_source(symbols: &Vec<Symbol>, doc_title: &str, source: &str) -> (r: Vec<DocChunk>)
    ensures
        chunk_views(r@) == piece_chunks(
            source_pieces(symbols@, doc_title@, lines(source@).len()),
            lines(source@),
        ),
{
    let rows = lines_of(source);
    let n: usize = rows.len();
    let ghost ls = lines(source@);
    assert(texts(rows@).len() == n);
    let order = order_symbols(symbols);
    let ghost o = as_ints(order@);
    let mut covered = no_lines(n);
    let mut chunks: Vec<DocChunk> = Vec::new();
    let mut k: usize = 0;
    assert(chunk_views(chunks@) =~= Seq::empty());
    while k < order.len()
        invariant
            k <= order@.len(),
            n == rows@.len(),
            texts(rows@) == ls,
            ls.len() == n,
            o == as_ints(order@),
            order@.len() == symbols@.len(),
            forall|i: int| 0 <= i < order@.len() ==> #[trigger] order@[i] < symbols@.len(),
            covered@ == symbol_pieces(symbols@, o, doc_title@, n as nat, k as int).1,
            covered@.len() == n,
            chunk_views(chunks@) == piece_chunks(
                symbol_pieces(symbols@, o, doc_title@, n as nat, k as int).0,
                ls,
            ),
        decreases order@.len() - k,
    {
        let sym = &symbols[order[k]];
        assert(o[k as int] == order@[k as int]);
        let first: usize = if sym.start_line >= 1 {
            sym.start_line
        } else {
            1
        };
        let last: usize = if sym.end_line <= n {
            sym.end_line
        } else {
            n
        };
        if first <= last {
            let crumb = symbol_crumb(sym, doc_title);
            let ghost had = symbol_pieces(symbols@, o, doc_title@, n as nat, k as int).0;
            let ghost rv = runs(covered@, first as int, last as int);
            let list = uncovered_runs(&covered, first, last);
            proof {
                lemma_runs_bounds(covered@, first as int, last as int);
            }
            let ghost new = pieces_of(rv, crumb@);
            let mut i: usize = 0;
            assert(had + new.take(0) =~= had);
            while i < list.len()
                invariant
                    i <= list@.len(),
                    1 <= first <= last <= n,
                    n == rows@.len(),
                    texts(rows@) == ls,
                    rv == run_views(list@),
                    new == pieces_of(rv, crumb@),
                    forall|i: int|
                        0 <= i < rv.len() ==> first <= (#[trigger] rv[i]).0 <= rv[i].1 <= last,
                    chunk_views(chunks@) == piece_chunks(had + new.take(i as int), ls),
                decreases list@.len() - i,
            {
                assert(rv[i as int] == (list@[i as int].0 as int, list@[i as int].1 as int));
                let run = list[i];
                pack_piece(
                    &rows,
                    crumb.as_str(),
                    run.0,
                    run.1,
                    &mut chunks,
                    Ghost(had + new.take(i as int)),
                );
                assert((had + new.take(i as int)).push(new[i as int]) =~= had + new.take(i + 1));
                i += 1;
            }
            assert(new.take(new.len() as int) =~= new);
            claim(&mut covered, first, last);
        }
        k += 1;
    }
    let ghost had = symbol_pieces(symbols@, o, doc_title@, n as nat, symbols@.len() as int).0;
    let ghost rv = runs(covered@, 1, n as int);
    let list = uncovered_runs(&covered, 1, n);
    proof {
        lemma_runs_bounds(covered@, 1, n as int);
    }
    let ghost new = rest_pieces(rv, doc_title@);
    let mut i: usize = 0;
    assert(had + new.take(0) =~= had);
    while i < list.len()
        invariant
            i <= list@.len(),
            n == rows@.len(),
            texts(rows@) == ls,
            rv == run_views(list@),
            new == rest_pieces(rv, doc_title@),
            forall|i: int| 0 <= i < rv.len() ==> 1 <= (#[trigger] rv[i]).0 <= rv[i].1 <= n,
            chunk_views(chunks@) == piece_chunks(had + new.take(i as int), ls),
        decreases list@.len() - i,
    {
        assert(rv[i as int] == (list@[i as int].0 as int, list@[i as int].1 as int));
        let run = list[i];
        let mut crumb = doc_title.to_owned();
        crumb.append(" › (lines ");
        crumb.append(decimal_of_u64(run.0 as u64).as_str());
        crumb.append("-");
        crumb.append(decimal_of_u64(run.1 as u64).as_str());
        crumb.append(")");
        pack_piece(
            &rows,
            crumb.as_str(),
            run.0,
            run.1,
            &mut chunks,
            Ghost(had + new.take(i as int)),
        );
        assert((had + new.take(i as int)).push(new[i as int]) =~= had + new.take(i + 1));
        i += 1;
    }
    assert(new.take(new.len() as int) =~= new);
    chunks
}

/// How many runs hold line `x`.
pub open spec fn run_count(r: Seq<(int, int)>, x: int) -> nat
    decreases r.len(),
{
    if r.len() == 0 {
        0
    } else {
        run_count(r.drop_last(), x) + if r.last().0 <= x <= r.last().1 {
            1nat
        } else {
            0
        }
    }
}

/// How many stretches hold line `x`.
pub open spec fn piece_count(p: Seq<Piece>, x: int) -> nat
    decreases p.len(),
{
    if p.len() == 0 {
        0
    } else {
        piece_count(p.drop_last(), x) + if p.last().start <= x <= p.last().end {
            1nat
        } else {
            0
        }
    }
}

proof fn lemma_run_scan_count(covered: Seq<bool>, start: int, l: int, x: int)
    requires
        1 <= start,
        l <= covered.len(),
    ensures
        run_count(run_scan(covered, start, l).0, x) + (match run_scan(covered, start, l).1 {
            Some(s) => if s <= x <= l {
                1nat
            } else {
                0
            },
            None => 0,
        }) == if start <= x <= l && !covered[x - 1] {
            1nat
        } else {
            0
        },
    decreases l - start + 1,
{
    if l >= start {
        lemma_run_scan_count(covered, start, l - 1, x);
        lemma_runs_in_range(covered, start, l - 1);
        let (q, open) = run_scan(covered, start, l - 1);
        let r = run_scan(covered, start, l).0;
        if covered[l - 1] && open is Some {
            assert(r.drop_last() =~= q);
        }
    }
}

/// The runs hold each line of the stretch that is not covered once, and no other.
pub proof fn lemma_runs_count(covered: Seq<bool>, start: int, end: int, x: int)
    requires
        1 <= start,
        end <= covered.len(),
    ensures
        run_count(runs(covered, start, end), x) == if start <= x <= end && !covered[x - 1] {
            1nat
        } else {
            0
        },
{
    lemma_run_scan_count(covered, start, end, x);
    let (q, open) = run_scan(covered, start, end);
    if open is Some {
        assert(runs(covered, start, end).drop_last() =~= q);
    }
}

proof fn lemma_piece_count_runs(r: Seq<(int, int)>, p: Seq<Piece>, x: int)
    requires
        p.len() == r.len(),
        forall|i: int|
            0 <= i < r.len() ==> (#[trigger] p[i]).start == r[i].0 && p[i].end == r[i].1,
    ensures
        piece_count(p, x) == run_count(r, x),
    decreases r.len(),
{
    if r.len() > 0 {
        assert(p[r.len() - 1] == p.last());
        assert forall|i: int| 0 <= i < r.len() - 1 implies (#[trigger] p.drop_last()[i]).start
            == r.drop_last()[i].0 && p.drop_last()[i].end == r.drop_last()[i].1 by {
            assert(p.drop_last()[i] == p[i]);
        }
        lemma_piece_count_runs(r.drop_last(), p.drop_last(), x);
    }
}

proof fn lemma_piece_count_concat(a: Seq<Piece>, b: Seq<Piece>, x: int)
    ensures
        piece_count(a + b, x) == piece_count(a, x) + piece_count(b, x),
    decreases b.len(),
{
    if b.len() == 0 {
        assert(a + b =~= a);
    } else {
        assert((a + b).drop_last() =~= a + b.drop_last());
        assert((a + b).last() == b.last());
        lemma_piece_count_concat(a, b.drop_last(), x);
    }
}

proof fn lemma_symbol_pieces_count(
    symbols: Seq<Symbol>,
    order: Seq<int>,
    title: Seq<char>,
    n: nat,
    k: int,
    x: int,
)
    requires
        1 <= x <= n,
    ensures
        symbol_pieces(symbols, order, title, n, k).1.len() == n,
        piece_count(symbol_pieces(symbols, order, title, n, k).0, x) == if symbol_pieces(
            symbols,
            order,
            title,
            n,
            k,
        ).1[x - 1] {
            1nat
        } else {
            0
        },
    decreases k,
{
    if k > 0 {
        lemma_symbol_pieces_count(symbols, order, title, n, k - 1, x);
        let (pieces, covered) = symbol_pieces(symbols, order, title, n, k - 1);
        let sym = symbols[order[k - 1]];
        let (first, last) = (sym.first(), sym.last(n as int));
        if first <= last {
            let r = runs(covered, first, last);
            let new = pieces_of(r, sym.crumb(title));
            lemma_runs_count(covered, first, last, x);
            lemma_piece_count_runs(r, new, x);
            lemma_piece_count_concat(pieces, new, x);
        }
    }
}

/// Every line of a source file is in exactly one stretch: no line is lost, and
/// what a symbol holds is not repeated by the one around it.
pub proof fn every_line_is_claimed_once(
    symbols: Seq<Symbol>,
    title: Seq<char>,
    n: nat,
    x: int,
)
    requires
        1 <= x <= n,
    ensures
        piece_count(source_pieces(symbols, title, n), x) == 1,
{
    let order = ranking(length_keys(symbols));
    lemma_symbol_pieces_count(symbols, order, title, n, symbols.len() as int, x);
    let (pieces, covered) = symbol_pieces(symbols, order, title, n, symbols.len() as int);
    let r = runs(covered, 1, n as int);
    let rest = rest_pieces(r, title);
    lemma_runs_count(covered, 1, n as int, x);
    lemma_piece_count_runs(r, rest, x);
    lemma_piece_count_concat(pieces, rest, x);
}

// ---------------------------------------------------------------------
// Laws of the breadcrumb
// ---------------------------------------------------------------------

/// The headings that stand open after the first `n` are those that enclose what
/// follows: heading `j` is among them exactly where every heading behind it, up to the
/// `n`-th, is of a strictly deeper level. They stand in the order of the document,
/// their levels strictly deepen, and the last is the `n`-th heading itself. The result
/// says which headings they are.
pub proof fn open_headings_enclose(headings: Seq<HeadingView>, n: int) -> (js: Seq<int>)
    requires
        0 <= n <= headings.len(),
    ensures
        js.len() == crumbs(headings, n).len(),
        forall|i: int|
            0 <= i < js.len() ==> 0 <= #[trigger] js[i] < n && crumbs(headings, n)[i] == (
                headings[js[i]].level,
                headings[js[i]].text,
            ),
        forall|i: int, k: int| 0 <= i < k < js.len() ==> #[trigger] js[i] < #[trigger] js[k],
        forall|i: int, k: int|
            #![trigger js[i], js[k]]
            0 <= i < k < js.len() ==> headings[js[i]].level < headings[js[k]].level,
        forall|j: int|
            #![trigger js.contains(j)]
            0 <= j < n ==> (js.contains(j) <==> forall|k: int|
                j < k < n ==> (#[trigger] headings[k]).level > headings[j].level),
        n > 0 ==> js.len() > 0 && js.last() == n - 1,
    decreases n,
{
    if n == 0 {
        Seq::empty()
    } else {
        let before = open_headings_enclose(headings, n - 1);
        let stack = crumbs(headings, n - 1);
        let level = headings[n - 1].level;
        let m = lemma_popped_is_prefix(stack, level);
        let rest = before.take(m);
        let js = rest.push(n - 1);
        assert(popped(stack, level) == stack.take(m));
        assert forall|i: int| 0 <= i < js.len() implies 0 <= #[trigger] js[i] < n && crumbs(
            headings,
            n,
        )[i] == (headings[js[i]].level, headings[js[i]].text) by {
            if i < m {
                assert(js[i] == before[i]);
                assert(stack.take(m)[i] == stack[i]);
            }
        }
        assert forall|i: int, k: int| 0 <= i < k < js.len() implies #[trigger] js[i]
            < #[trigger] js[k] by {
            assert(js[i] == before[i]);
            if k < m {
                assert(js[k] == before[k]);
            }
        }
        assert forall|i: int, k: int|
            #![trigger js[i], js[k]]
            0 <= i < k < js.len() implies headings[js[i]].level < headings[js[k]].level by {
            assert(js[i] == before[i]);
            if k < m {
                assert(js[k] == before[k]);
            } else {
                assert(stack[i].0 == headings[before[i]].level);
                assert(stack[m - 1].0 == headings[before[m - 1]].level);
                if i < m - 1 {
                    assert(headings[before[i]].level < headings[before[m - 1]].level);
                }
            }
        }
        assert forall|j: int|
            #![trigger js.contains(j)]
            0 <= j < n implies (js.contains(j) <==> forall|k: int|
            j < k < n ==> (#[trigger] headings[k]).level > headings[j].level) by {
            let deeper = forall|k: int|
                j < k < n ==> (#[trigger] headings[k]).level > headings[j].level;
            let deeper_before = forall|k: int|
                j < k < n - 1 ==> (#[trigger] headings[k]).level > headings[j].level;
            if j == n - 1 {
                assert(js[m] == j);
            } else {
                assert(before.contains(j) <==> deeper_before);
                if js.contains(j) {
                    let i = choose|i: int| 0 <= i < js.len() && js[i] == j;
                    assert(i < m);
                    assert(before[i] == j);
                    assert(before.contains(j));
                    assert(js[m] == n - 1);
                    assert(headings[js[i]].level < headings[js[m]].level);
                    assert(deeper);
                }
                if deeper {
                    assert(deeper_before);
                    let i = choose|i: int| 0 <= i < before.len() && before[i] == j;
                    assert(stack[i].0 == headings[j].level);
                    assert(headings[n - 1].level > headings[j].level);
                    if i >= m {
                        assert(stack[i].0 >= level);
                    }
                    assert(js[i] == j);
                }
            }
        }
        js
    }
}

/// Closing headings leaves those up to the last that is less deep.
proof fn lemma_popped_is_prefix(stack: Seq<(u32, Seq<char>)>, level: u32) -> (m: int)
    ensures
        0 <= m <= stack.len(),
        popped(stack, level) == stack.take(m),
        forall|i: int| m <= i < stack.len() ==> (#[trigger] stack[i]).0 >= level,
        m > 0 ==> stack[m - 1].0 < level,
    decreases stack.len(),
{
    if stack.len() > 0 && stack.last().0 >= level {
        let t = stack.drop_last();
        let m = lemma_popped_is_prefix(t, level);
        assert(t.take(m) =~= stack.take(m));
        assert forall|i: int| m <= i < stack.len() implies (#[trigger] stack[i]).0 >= level by {
            if i < t.len() {
                assert(t[i] == stack[i]);
            }
        }
        m
    } else {
        assert(stack.take(stack.len() as int) =~= stack);
        stack.len() as int
    }
}

/// A breadcrumb is the title of the document, and behind it each open heading, set off
/// by the mark between them.
pub proof fn a_crumb_names_title_and_headings(
    title: Seq<char>,
    stack: Seq<(u32, Seq<char>)>,
    level: u32,
    text: Seq<char>,
)
    ensures
        crumb_line(title, Seq::empty()) == title,
        crumb_line(title, stack.push((level, text))) == crumb_line(title, stack) + " › "@ + text,
{
    let none = Seq::<(u32, Seq<char>)>::empty();
    assert(seq![title] + Seq::new(none.len(), |i: int| none[i].1) =~= seq![title]);
    let more = stack.push((level, text));
    let a = seq![title] + Seq::new(stack.len(), |i: int| stack[i].1);
    let b = seq![title] + Seq::new(more.len(), |i: int| more[i].1);
    assert(b.drop_last() =~= a);
    assert(b.last() == text);
}

} // verus!
