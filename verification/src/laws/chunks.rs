//! Laws of cutting documents and sources into chunks.

use vstd::prelude::*;

#[allow(unused_imports)]
use crate::index::chunker::{
    after_last, chunk_of, chunks_of, code_paras, crumb_line, doc_lines, ended_lines, extended,
    groups, heading_para, in_any, is_full, length_keys, merged, overlap, packed, para_texts,
    paras_of, pieces_of, plain_text_kind_of, rest_crumb, runs, scanned, sections, source_pieces,
    symbol_pieces, total_words, with_section, ChunkView, Doc, HeadingView, LineView, MarkView,
    ParaView, PlainTextKind, Row, SectionView, Span, Symbol,
};
#[allow(unused_imports)]
use crate::memory::first_line;
#[allow(unused_imports)]
use crate::order::ranking;
#[allow(unused_imports)]
use crate::paths::{extension, file_name};
#[allow(unused_imports)]
use crate::text::{
    all_lower, decimal_nat, join, occurs_at, starts_with, trim, utf8_len, without_eol, words,
};
#[allow(unused_imports)]
use vstd::string::*;

verus! {

// ---------------------------------------------------------------------
// Lines and paragraphs
// ---------------------------------------------------------------------

/// A document is read line by line: a line ends at its line feed, and begins as many
/// bytes into the document as stand before it.
pub proof fn lines_are_read_in_order(a: Seq<char>, t: Seq<char>)
    requires
        forall|i: int| 0 <= i < t.len() ==> #[trigger] t[i] != '\n',
        a.len() == 0 || a.last() == '\n',
    ensures
        doc_lines(a).len() == ended_lines(a).0.len(),
        t.len() > 0 ==> doc_lines(a + t) == doc_lines(a).push(
            LineView { offset: utf8_len(a) as int, text: without_eol(t) },
        ),
        doc_lines(a + t + seq!['\n']) == doc_lines(a).push(
            LineView { offset: utf8_len(a) as int, text: without_eol(t) },
        ),
{
    lemma_rest_of(a, t);
    let s = a + t;
    assert(ended_lines(a).1.len() == 0);
    let n = s + seq!['\n'];
    assert(n.drop_last() =~= s);
    crate::text::lemma_utf8_len_concat(a, t);
    assert(ended_lines(s).1 =~= t);
    let e = ended_lines(n);
    assert(e.1.len() == 0);
}

proof fn lemma_rest_of(a: Seq<char>, t: Seq<char>)
    requires
        forall|i: int| 0 <= i < t.len() ==> #[trigger] t[i] != '\n',
        a.len() == 0 || a.last() == '\n',
    ensures
        ended_lines(a).1.len() == 0,
        ended_lines(a + t).0 == ended_lines(a).0,
        ended_lines(a + t).1 =~= t,
    decreases t.len(),
{
    if t.len() == 0 {
        assert(a + t =~= a);
    } else {
        let u = t.drop_last();
        assert forall|i: int| 0 <= i < u.len() implies #[trigger] u[i] != '\n' by {
            assert(u[i] == t[i]);
        }
        lemma_rest_of(a, u);
        assert((a + t).drop_last() =~= a + u);
        assert(t[t.len() - 1] != '\n');
    }
}

/// Blank lines part paragraphs, except in code; a line outside of the section is none of
/// it; every other line goes on with the paragraph it follows, under its number.
pub proof fn blank_lines_part_paragraphs(
    lines: Seq<LineView>,
    n: int,
    start: int,
    end: int,
    fences: Seq<Span>,
)
    requires
        0 < n <= lines.len(),
    ensures
        ({
            let before = groups(lines, n - 1, start, end, fences);
            let after = groups(lines, n, start, end, fences);
            let line = lines[n - 1];
            let code = exists|i: int|
                0 <= i < fences.len() && (#[trigger] fences[i]).start <= line.offset
                    < fences[i].end;
            let inside = start <= line.offset < end;
            &&& before.len() > 0
            &&& !inside ==> after == before
            &&& inside && !code && trim(line.text).len() == 0 ==> after == before.push(Seq::empty())
            &&& inside && (code || trim(line.text).len() > 0) ==> after.len() == before.len()
                && after.drop_last() == before.drop_last() && after.last() == before.last().push(
                Row { number: n, text: line.text, fenced: code },
            )
        }),
{
    crate::index::chunker::lemma_groups_len(lines, n - 1, start, end, fences);
    let line = lines[n - 1];
    if in_any(fences, line.offset) {
        let i = choose|i: int| 0 <= i < fences.len() && (#[trigger] fences[i]).holds(line.offset);
        assert(fences[i].start <= line.offset < fences[i].end);
    }
    if exists|i: int| 0 <= i < fences.len() && (#[trigger] fences[i]).start <= line.offset
        < fences[i].end {
        let i = choose|i: int| 0 <= i < fences.len() && (#[trigger] fences[i]).start <= line.offset
            < fences[i].end;
        assert(fences[i].holds(line.offset));
    }
}

/// A paragraph holds its lines, and spans from the first to the last; groups without a
/// line make none.
pub proof fn a_paragraph_spans_its_lines(g: Seq<Seq<Row>>, rows: Seq<Row>)
    ensures
        rows.len() == 0 ==> paras_of(g.push(rows)) == paras_of(g),
        rows.len() > 0 ==> paras_of(g.push(rows)).len() == paras_of(g).len() + 1 && paras_of(
            g.push(rows),
        ).drop_last() == paras_of(g),
        rows.len() > 0 ==> ({
            let p = paras_of(g.push(rows)).last();
            &&& p.text == join(Seq::new(rows.len(), |i: int| rows[i].text), "\n"@)
            &&& p.start_line == rows[0].number
            &&& p.end_line == rows[rows.len() - 1].number
            &&& p.words == words(p.text).len()
            &&& p.is_fence <==> exists|i: int| 0 <= i < rows.len() && (#[trigger] rows[i]).fenced
        }),
        paras_of(Seq::empty()).len() == 0,
{
    assert(g.push(rows).drop_last() =~= g);
    if rows.len() > 0 {
        assert(paras_of(g.push(rows)).drop_last() =~= paras_of(g));
    }
}

// ---------------------------------------------------------------------
// Packing
// ---------------------------------------------------------------------

/// The words of some paragraphs are those of each together.
pub proof fn words_add_up(p: Seq<ParaView>, q: ParaView)
    ensures
        total_words(Seq::empty()) == 0,
        total_words(p.push(q)) == total_words(p) + q.words,
{
    assert(p.push(q).drop_last() =~= p);
}

/// A chunk is cut once it has 280 words, or where the next paragraph would take it over
/// 400 and it has 60 already; nowhere else.
pub proof fn a_chunk_is_cut_at_its_size(cur: Seq<ParaView>, words: nat)
    ensures
        total_words(cur) >= 280 ==> is_full(cur, words),
        60 <= total_words(cur) < 280 ==> (is_full(cur, words) <==> total_words(cur) + words > 400),
        total_words(cur) < 60 ==> !is_full(cur, words),
{
}

/// The paragraphs of a section are dealt out in order: each group is a stretch of them
/// without a gap, the first begins with the first, each begins no later than right
/// behind the one before, and the last ends with the last. The result says where each
/// group begins and ends.
pub proof fn groups_are_stretches(paras: Seq<ParaView>, n: int) -> (r: (Seq<(int, int)>, int))
    requires
        0 <= n <= paras.len(),
    ensures
        ({
            let st = packed(paras, n);
            let (cuts, from) = r;
            &&& cuts.len() == st.full.len()
            &&& 0 <= from <= n
            &&& st.cur == paras.subrange(from, n)
            &&& n > 0 ==> from < n
            &&& forall|i: int|
                0 <= i < cuts.len() ==> 0 <= (#[trigger] cuts[i]).0 < cuts[i].1 <= n && st.full[i]
                    == paras.subrange(cuts[i].0, cuts[i].1) && total_words(st.full[i]) >= 60
            &&& cuts.len() > 0 ==> cuts[0].0 == 0 && cuts.last().1 == from + st.carried && from
                > cuts.last().0
            &&& cuts.len() == 0 ==> from == 0 && st.carried == 0
            &&& forall|i: int|
                0 < i < cuts.len() ==> cuts[i - 1].0 < (#[trigger] cuts[i]).0 <= cuts[i - 1].1
                    < cuts[i].1
            &&& from + st.carried <= n
            &&& n > 0 ==> from + st.carried < n
        }),
    decreases n,
{
    if n <= 0 {
        assert(packed(paras, 0).cur =~= paras.subrange(0, 0));
        (Seq::empty(), 0)
    } else {
        let (cuts, from) = groups_are_stretches(paras, n - 1);
        let st = packed(paras, n - 1);
        let next = packed(paras, n);
        let para = paras[n - 1];
        if is_full(st.cur, para.words) {
            let keep = overlap(st.cur, 40);
            crate::index::chunker::overlap_is_bounded(st.cur, 40);
            let more = cuts.push((from, n - 1));
            let start = n - 1 - keep.len();
            assert(n > 1);
            lemma_keeps_less(st.cur);
            assert(next.cur =~= paras.subrange(start, n)) by {
                assert(keep == st.cur.skip(st.cur.len() - keep.len()));
                assert forall|i: int| 0 <= i < keep.len() implies #[trigger] keep[i]
                    == paras[start + i] by {
                    assert(keep[i] == st.cur[st.cur.len() - keep.len() + i]);
                }
            }
            assert forall|i: int| 0 <= i < more.len() implies 0 <= (#[trigger] more[i]).0
                < more[i].1 <= n && next.full[i] == paras.subrange(more[i].0, more[i].1)
                && total_words(next.full[i]) >= 60 by {
                if i < cuts.len() {
                    assert(more[i] == cuts[i]);
                    assert(next.full[i] == st.full[i]);
                }
            }
            assert forall|i: int| 0 < i < more.len() implies more[i - 1].0 < (
            #[trigger] more[i]).0 <= more[i - 1].1 < more[i].1 by {
                if i < cuts.len() {
                    assert(more[i] == cuts[i]);
                    assert(more[i - 1] == cuts[i - 1]);
                } else {
                    assert(more[i - 1] == cuts.last());
                }
            }
            assert(more[0] == if cuts.len() > 0 {
                cuts[0]
            } else {
                (from, n - 1)
            });
            (more, start)
        } else {
            assert(next.cur =~= paras.subrange(from, n));
            (cuts, from)
        }
    }
}

/// What is repeated of a group that is cut is less than the group.
proof fn lemma_keeps_less(p: Seq<ParaView>)
    requires
        total_words(p) >= 60,
    ensures
        overlap(p, 40).len() < p.len(),
{
    crate::index::chunker::overlap_is_bounded(p, 40);
    if overlap(p, 40).len() == p.len() {
        assert(p.skip(0) =~= p);
        assert(overlap(p, 40) == p);
    } else if p.len() == 0 {
        assert(total_words(p) == 0);
    }
}

/// A chunk repeats as many of the last paragraphs of the one before as make up to forty
/// words, without code; and not one fewer.
pub proof fn a_chunk_repeats_forty_words(p: Seq<ParaView>)
    ensures
        ({
            let r = overlap(p, 40);
            &&& r.len() <= p.len()
            &&& r == p.skip(p.len() - r.len())
            &&& total_words(r) <= 40
            &&& forall|i: int| 0 <= i < r.len() ==> !(#[trigger] r[i]).is_fence
            &&& r.len() < p.len() ==> p[p.len() - r.len() - 1].is_fence || total_words(r)
                + p[p.len() - r.len() - 1].words > 40
        }),
        crate::index::chunker::OVERLAP_WORDS == 40,
{
    crate::index::chunker::overlap_is_bounded(p, 40);
    lemma_overlap_is_most(p, 40);
}

proof fn lemma_overlap_is_most(p: Seq<ParaView>, budget: int)
    requires
        0 <= budget,
    ensures
        ({
            let r = overlap(p, budget);
            r.len() < p.len() ==> p[p.len() - r.len() - 1].is_fence || total_words(r) + p[p.len()
                - r.len() - 1].words > budget
        }),
    decreases p.len(),
{
    crate::index::chunker::overlap_is_bounded(p, budget);
    if p.len() == 0 || p.last().is_fence || p.last().words > budget {
    } else {
        let t = p.drop_last();
        let b = budget - p.last().words;
        lemma_overlap_is_most(t, b);
        crate::index::chunker::overlap_is_bounded(t, b);
        let q = overlap(t, b);
        let r = overlap(p, budget);
        assert(r == q.push(p.last()));
        assert(r.drop_last() =~= q);
        if r.len() < p.len() {
            assert(p[p.len() - r.len() - 1] == t[t.len() - q.len() - 1]);
        }
    }
}

proof fn lemma_extended(
    all: Seq<ParaView>,
    a: int,
    b: int,
    n: int,
    crumb: Seq<char>,
    sep: Seq<char>,
)
    requires
        0 <= a < b <= n <= all.len(),
    ensures
        extended(chunk_of(all.subrange(a, b), crumb, sep), all.subrange(b, n), sep) == chunk_of(
            all.subrange(a, n),
            crumb,
            sep,
        ),
    decreases n - b,
{
    let tail = all.subrange(b, n);
    let c = chunk_of(all.subrange(a, b), crumb, sep);
    if n == b {
        assert(tail.len() == 0);
    } else {
        lemma_extended(all, a, b, n - 1, crumb, sep);
        assert(tail.drop_last() =~= all.subrange(b, n - 1));
        let x = para_texts(all.subrange(a, n));
        assert(x.drop_last() =~= para_texts(all.subrange(a, n - 1)));
        assert(x.last() == all[n - 1].text);
        let whole = chunk_of(all.subrange(a, n), crumb, sep);
        let got = extended(c, tail, sep);
        assert(got.body == whole.body);
        assert(all.subrange(a, n)[0] == all[a]);
        assert(all.subrange(a, n - 1)[0] == all[a]);
    }
}

/// A section is cut into chunks under its own title: each is a stretch of its paragraphs
/// without a gap, their texts with the separator between them, from the first line of
/// the first to the last line of the last. Every paragraph is in one of them, and they
/// stand in order. The result says where each chunk begins and ends.
pub proof fn chunks_are_stretches_of_their_section(
    crumb: Seq<char>,
    paras: Seq<ParaView>,
    sep: Seq<char>,
) -> (cuts: Seq<(int, int)>)
    requires
        paras.len() > 0,
    ensures
        ({
            let r = with_section(Seq::empty(), crumb, paras, sep);
            &&& r.len() == cuts.len()
            &&& cuts.len() > 0
            &&& cuts[0].0 == 0
            &&& cuts.last().1 == paras.len()
            &&& forall|i: int|
                0 < i < cuts.len() ==> cuts[i - 1].0 < (#[trigger] cuts[i]).0 <= cuts[i - 1].1
                    < cuts[i].1
            &&& forall|i: int|
                0 <= i < cuts.len() ==> {
                    let (a, b) = #[trigger] cuts[i];
                    &&& 0 <= a < b <= paras.len()
                    &&& r[i].title == crumb
                    &&& r[i].body == join(
                        Seq::new((b - a) as nat, |k: int| paras[a + k].text),
                        sep,
                    )
                    &&& r[i].start_line == paras[a].start_line
                    &&& r[i].end_line == paras[b - 1].end_line
                }
        }),
{
    let n = paras.len() as int;
    let st = packed(paras, n);
    let (full, from) = groups_are_stretches(paras, n);
    let none = Seq::<ChunkView>::empty();
    let out = none + chunks_of(st.full, crumb, sep);
    assert(out =~= chunks_of(st.full, crumb, sep));
    let r = with_section(none, crumb, paras, sep);
    assert(st.cur.len() > st.carried);
    let joined = total_words(st.cur) < 60 && out.len() > 0;
    let cuts = if joined {
        full.drop_last().push((full.last().0, n))
    } else {
        full.push((from, n))
    };
    if joined {
        assert(out.last() == chunk_of(st.full.last(), crumb, sep));
        let (a, b) = full.last();
        assert(st.full[full.len() - 1] == paras.subrange(a, b));
        assert(st.cur.skip(st.carried as int) =~= paras.subrange(b, n));
        lemma_extended(paras, a, b, n, crumb, sep);
    }
    assert forall|i: int| 0 <= i < cuts.len() implies {
        let (a, b) = #[trigger] cuts[i];
        &&& 0 <= a < b <= paras.len()
        &&& r[i].title == crumb
        &&& r[i].body == join(Seq::new((b - a) as nat, |k: int| paras[a + k].text), sep)
        &&& r[i].start_line == paras[a].start_line
        &&& r[i].end_line == paras[b - 1].end_line
    } by {
        let (a, b) = cuts[i];
        if i < cuts.len() - 1 {
            assert(cuts[i] == full[i]);
        } else if joined {
            assert(full[full.len() - 1] == full.last());
        }
        assert(r[i] == chunk_of(paras.subrange(a, b), crumb, sep)) by {
            if i < cuts.len() - 1 {
                assert(r[i] == out[i]);
                assert(st.full[i] == paras.subrange(a, b));
            }
        }
        assert(para_texts(paras.subrange(a, b)) =~= Seq::new(
            (b - a) as nat,
            |k: int| paras[a + k].text,
        ));
    }
    assert forall|i: int| 0 < i < cuts.len() implies cuts[i - 1].0 < (#[trigger] cuts[i]).0
        <= cuts[i - 1].1 < cuts[i].1 by {
        assert(cuts[i - 1] == full[i - 1]);
        if i < full.len() {
            assert(full[i].0 == cuts[i].0);
            assert(full[i - 1].1 < full[i].1);
        }
    }
    if full.len() > 0 {
        assert(cuts[0].0 == full[0].0);
    }
    cuts
}

/// What stands before a section does not change its chunks, unless the chunk before it
/// has the same title.
pub proof fn sections_are_cut_apart(
    before: Seq<ChunkView>,
    crumb: Seq<char>,
    paras: Seq<ParaView>,
    sep: Seq<char>,
)
    requires
        before.len() == 0 || before.last().title != crumb,
    ensures
        with_section(before, crumb, paras, sep) == before + with_section(
            Seq::empty(),
            crumb,
            paras,
            sep,
        ),
{
    let st = packed(paras, paras.len() as int);
    let none = Seq::<ChunkView>::empty();
    let own = chunks_of(st.full, crumb, sep);
    assert(none + own =~= own);
    let out = before + own;
    if own.len() > 0 {
        assert(out.last() == own.last());
        assert(out.drop_last() =~= before + own.drop_last());
    } else {
        assert(out =~= before);
    }
    assert(with_section(before, crumb, paras, sep) =~= before + with_section(
        none,
        crumb,
        paras,
        sep,
    ));
}

// ---------------------------------------------------------------------
// Markdown
// ---------------------------------------------------------------------

/// A section of sixty words or more is one of its own; a shorter one is put behind the
/// section before it, its heading as a paragraph between them. The first stands whatever
/// its size.
pub proof fn short_sections_join_the_one_before(secs: Seq<SectionView>, sec: SectionView)
    ensures
        total_words(sec.paras) >= 60 ==> merged(secs.push(sec)) == merged(secs).push(sec),
        merged(secs).len() == 0 ==> merged(secs.push(sec)) == seq![sec],
        total_words(sec.paras) < 60 && merged(secs).len() > 0 ==> ({
            let m = merged(secs);
            let r = merged(secs.push(sec));
            &&& r.len() == m.len()
            &&& r.drop_last() == m.drop_last()
            &&& r.last().crumb == m.last().crumb
            &&& r.last().paras == m.last().paras.push(heading_para(sec)) + sec.paras
        }),
        merged(Seq::empty()).len() == 0,
{
    assert(secs.push(sec).drop_last() =~= secs);
    let m = merged(secs);
    if m.len() == 0 {
        assert(m.push(sec) =~= seq![sec]);
    } else if total_words(sec.paras) < 60 {
        assert(merged(secs.push(sec)).drop_last() =~= m.drop_last());
    }
}

/// The heading that a short section leaves is the last of its crumb, on the line where
/// the section's text begins.
pub proof fn a_joined_section_keeps_its_heading(
    title: Seq<char>,
    stack: Seq<(u32, Seq<char>)>,
    level: u32,
    text: Seq<char>,
    paras: Seq<ParaView>,
)
    requires
        forall|i: int| 0 <= i < text.len() ==> #[trigger] text[i] != '›',
    ensures
        ({
            let sec = SectionView { crumb: crumb_line(title, stack.push((level, text))), paras };
            &&& heading_para(sec).text == text
            &&& heading_para(sec).start_line == paras[0].start_line
            &&& heading_para(sec).end_line == paras[0].start_line
            &&& heading_para(sec).words == words(text).len()
            &&& !heading_para(sec).is_fence
        }),
{
    crate::index::chunker::a_crumb_names_title_and_headings(title, stack, level, text);
    let a = crumb_line(title, stack);
    reveal_strlit(" › ");
    let sep = " › "@;
    assert(sep.len() == 3 && sep[0] == ' ' && sep[1] == '›' && sep[2] == ' ');
    let s = a + sep + text;
    lemma_after_last(a, text, s.len() as int);
    assert(s.skip(a.len() as int + 3) =~= text);
}

proof fn lemma_after_last(a: Seq<char>, text: Seq<char>, n: int)
    requires
        forall|i: int| 0 <= i < text.len() ==> #[trigger] text[i] != '›',
        a.len() + 3 <= n <= a.len() + 3 + text.len(),
    ensures
        after_last(a + " › "@ + text, " › "@, n) == a.len() + 3,
    decreases n,
{
    reveal_strlit(" › ");
    let sep = " › "@;
    assert(sep.len() == 3 && sep[0] == ' ' && sep[1] == '›' && sep[2] == ' ');
    let s = a + sep + text;
    if n == a.len() + 3 {
        assert(s.subrange(n - 3, n) =~= sep);
    } else {
        if occurs_at(s, sep, n - 3) {
            assert(s.subrange(n - 3, n)[1] == s[n - 2]);
            assert(s[n - 2] == '›');
            if n - 2 >= a.len() + 3 {
                assert(s[n - 2] == text[n - 2 - a.len() - 3]);
            } else {
                assert(s[n - 2] == sep[2]);
            }
        }
        lemma_after_last(a, text, n - 1);
    }
}

/// A document is read section by section: a heading's section is what stands between it
/// and the next heading, or the end, under the title and the headings that enclose it;
/// before the first heading stands a section under the title alone.
pub proof fn a_section_stands_under_its_headings(d: Doc, n: int)
    requires
        0 < n <= d.headings.len(),
    ensures
        ({
            let upto = if n < d.headings.len() {
                d.headings[n].span.start as int
            } else {
                d.len
            };
            let paras = crate::index::chunker::doc_paras(
                d.lines,
                d.headings[n - 1].span.end as int,
                upto,
                d.fences,
            );
            &&& paras.len() > 0 ==> sections(d, n) == sections(d, n - 1).push(
                SectionView {
                    crumb: crumb_line(d.title, crate::index::chunker::crumbs(d.headings, n)),
                    paras,
                },
            )
            &&& paras.len() == 0 ==> sections(d, n) == sections(d, n - 1)
        }),
        ({
            let upto = if d.headings.len() > 0 {
                d.headings[0].span.start as int
            } else {
                d.len
            };
            let paras = crate::index::chunker::doc_paras(d.lines, 0, upto, d.fences);
            &&& paras.len() > 0 && upto > 0 ==> sections(d, 0).len() == 1 && sections(d, 0)[0].crumb
                == d.title && sections(d, 0)[0].paras == paras
            &&& paras.len() == 0 || upto <= 0 ==> sections(d, 0).len() == 0
        }),
{
    crate::index::chunker::a_crumb_names_title_and_headings(
        d.title,
        Seq::empty(),
        0,
        Seq::empty(),
    );
}

/// Headings down to the third level make sections; their text is what stands between
/// their marks, without the blanks around it. A code block is a fence, and nothing else
/// is either.
pub proof fn headings_of_three_levels_make_sections(
    marks: Seq<(MarkView, usize, usize)>,
    n: int,
)
    requires
        0 < n <= marks.len(),
    ensures
        ({
            let a = scanned(marks, n - 1);
            let b = scanned(marks, n);
            let (mark, start, end) = marks[n - 1];
            &&& mark matches MarkView::HeadingStart(level) ==> b.headings == a.headings && b.fences
                == a.fences && (level <= 3 ==> b.open is Some && b.open->0.level == level
                && b.open->0.text.len() == 0 && b.open->0.span == (Span { start, end })) && (level
                > 3 ==> b == a)
            &&& mark matches MarkView::Text(t) ==> b.headings == a.headings && b.fences == a.fences
                && (a.open is Some ==> b.open is Some && b.open->0.text == a.open->0.text + t
                && b.open->0.level == a.open->0.level && b.open->0.span == a.open->0.span) && (
            a.open is None ==> b.open is None)
            &&& mark == MarkView::HeadingEnd ==> b.open is None && b.fences == a.fences && (a.open
                is Some ==> b.headings == a.headings.push(
                HeadingView {
                    level: a.open->0.level,
                    text: trim(a.open->0.text),
                    span: a.open->0.span,
                },
            )) && (a.open is None ==> b.headings == a.headings)
            &&& mark == MarkView::CodeBlock ==> b.headings == a.headings && b.open == a.open
                && b.fences == a.fences.push(Span { start, end })
            &&& mark == MarkView::Other ==> b == a
        }),
        scanned(marks, 0).headings.len() == 0,
        scanned(marks, 0).fences.len() == 0,
        scanned(marks, 0).open is None,
{
}

// ---------------------------------------------------------------------
// Plain text
// ---------------------------------------------------------------------

/// What is indexed as plain text: configuration and prose by their endings and names,
/// up to 256 KiB; never an environment file but for its template, and never a lockfile.
pub proof fn plain_text_by_name_and_size(path: Seq<char>, size: int)
    requires
        file_name(path) is Some,
    ensures
        ({
            let name = all_lower(file_name(path)->0);
            let ext = all_lower(extension(file_name(path)->0));
            let r = plain_text_kind_of(path, size);
            let lock = name == "cargo.lock"@ || name == "package-lock.json"@ || name
                == "yarn.lock"@ || name == "pnpm-lock.yaml"@ || name == "composer.lock"@ || name
                == "gemfile.lock"@ || name == "poetry.lock"@ || name == "go.sum"@ || name
                == "mix.lock"@ || name == "flake.lock"@ || name == "pipfile.lock"@;
            let secret = name == ".env"@ || (starts_with(name, ".env."@) && name
                != ".env.example"@);
            let config = name == "dockerfile"@ || name == "makefile"@ || name == ".env.example"@
                || ext == "toml"@ || ext == "yaml"@ || ext == "yml"@ || ext == "json"@ || ext
                == "sh"@ || ext == "bash"@ || ext == "ini"@;
            let prose = ext == "txt"@ || ext == "rst"@;
            let ok = !lock && !secret && 0 <= size <= 262_144;
            &&& r is Some ==> ok && (config || prose)
            &&& ok && config ==> r == Some(PlainTextKind::Config)
            &&& ok && !config && prose ==> r == Some(PlainTextKind::Prose)
        }),
{
}

// ---------------------------------------------------------------------
// Sources
// ---------------------------------------------------------------------

/// Every line of a source that is not blank is a paragraph of its own, under its number.
pub proof fn source_lines_are_paragraphs(lines: Seq<Seq<char>>, start: int, end: int)
    requires
        start <= end,
    ensures
        ({
            let a = code_paras(lines, start, end - 1);
            let b = code_paras(lines, start, end);
            let t = lines[end - 1];
            &&& trim(t).len() == 0 ==> b == a
            &&& trim(t).len() > 0 ==> b == a.push(
                ParaView {
                    text: t,
                    start_line: end,
                    end_line: end,
                    words: words(t).len(),
                    is_fence: false,
                },
            )
        }),
        code_paras(lines, start, start - 1).len() == 0,
{
}

/// A symbol is named by the file, its qualified name, its kind and the first line of its
/// signature; what no symbol holds by the file and its lines.
pub proof fn pieces_are_named(sym: Symbol, title: Seq<char>, start: int, end: int)
    ensures
        sym.crumb(title) == title + " › "@ + sym.qualified@ + " ("@ + sym.kind@ + ") — "@ + trim(
            first_line(sym.signature@),
        ),
        rest_crumb(title, start, end) == title + " › (lines "@ + decimal_nat(start as nat) + "-"@
            + decimal_nat(end as nat) + ")"@,
{
}

proof fn lemma_covered(
    symbols: Seq<Symbol>,
    order: Seq<int>,
    title: Seq<char>,
    n: nat,
    k: int,
    x: int,
)
    requires
        1 <= x <= n,
        0 <= k,
    ensures
        symbol_pieces(symbols, order, title, n, k).1.len() == n,
        symbol_pieces(symbols, order, title, n, k).1[x - 1] <==> exists|j: int|
            0 <= j < k && symbols[#[trigger] order[j]].start_line <= x
                <= symbols[order[j]].end_line,
    decreases k,
{
    if k > 0 {
        lemma_covered(symbols, order, title, n, k - 1, x);
        let before = symbol_pieces(symbols, order, title, n, k - 1).1;
        let after = symbol_pieces(symbols, order, title, n, k).1;
        let sym = symbols[order[k - 1]];
        let held = sym.start_line <= x <= sym.end_line;
        let (first, last) = (sym.first(), sym.last(n as int));
        assert(first <= x <= last <==> held);
        assert(after[x - 1] == (before[x - 1] || held));
        if after[x - 1] {
            if before[x - 1] {
                let j = choose|j: int| 0 <= j < k - 1 && symbols[#[trigger] order[j]].start_line
                    <= x <= symbols[order[j]].end_line;
                assert(symbols[order[j]].start_line <= x);
            } else {
                assert(symbols[order[k - 1]].start_line <= x <= symbols[order[k - 1]].end_line);
            }
        }
        if exists|j: int| 0 <= j < k && symbols[#[trigger] order[j]].start_line <= x
            <= symbols[order[j]].end_line {
            let j = choose|j: int| 0 <= j < k && symbols[#[trigger] order[j]].start_line <= x
                <= symbols[order[j]].end_line;
            if j < k - 1 {
                assert(before[x - 1]);
            }
        }
    }
}

proof fn lemma_in_some_run(r: Seq<(int, int)>, x: int)
    requires
        crate::index::chunker::run_count(r, x) > 0,
    ensures
        exists|i: int| 0 <= i < r.len() && (#[trigger] r[i]).0 <= x <= r[i].1,
    decreases r.len(),
{
    let t = r.drop_last();
    if r.last().0 <= x <= r.last().1 {
        assert(r[r.len() - 1].0 <= x);
    } else {
        lemma_in_some_run(t, x);
        let i = choose|i: int| 0 <= i < t.len() && (#[trigger] t[i]).0 <= x <= t[i].1;
        assert(r[i].0 <= x <= r[i].1);
    }
}

proof fn lemma_run_holds(covered: Seq<bool>, start: int, end: int, x: int)
    requires
        1 <= start <= x <= end <= covered.len(),
        !covered[x - 1],
    ensures
        exists|i: int|
            0 <= i < runs(covered, start, end).len() && (#[trigger] runs(
                covered,
                start,
                end,
            )[i]).0 <= x <= runs(covered, start, end)[i].1,
{
    crate::index::chunker::lemma_runs_count(covered, start, end, x);
    lemma_in_some_run(runs(covered, start, end), x);
}

proof fn lemma_piece_stays(
    symbols: Seq<Symbol>,
    order: Seq<int>,
    title: Seq<char>,
    n: nat,
    k: int,
    m: int,
    i: int,
)
    requires
        0 <= k <= m,
        0 <= i < symbol_pieces(symbols, order, title, n, k).0.len(),
    ensures
        i < symbol_pieces(symbols, order, title, n, m).0.len(),
        symbol_pieces(symbols, order, title, n, m).0[i] == symbol_pieces(
            symbols,
            order,
            title,
            n,
            k,
        ).0[i],
    decreases m,
{
    if k < m {
        lemma_piece_stays(symbols, order, title, n, k, m - 1, i);
    }
}

/// A line belongs to the innermost symbol around it: to the shortest of those that hold
/// it, and of equally short ones to the first.
pub proof fn a_line_is_of_its_innermost_symbol(
    symbols: Seq<Symbol>,
    title: Seq<char>,
    n: nat,
    x: int,
    s: int,
)
    requires
        1 <= x <= n,
        0 <= s < symbols.len(),
        symbols[s].start_line <= x <= symbols[s].end_line,
        forall|t: int|
            0 <= t < symbols.len() && t != s && (#[trigger] symbols[t]).start_line <= x
                <= symbols[t].end_line ==> symbols[t].end_line - symbols[t].start_line
                > symbols[s].end_line - symbols[s].start_line || (symbols[t].end_line
                - symbols[t].start_line == symbols[s].end_line - symbols[s].start_line && t > s),
    ensures
        exists|i: int|
            0 <= i < source_pieces(symbols, title, n).len() && (#[trigger] source_pieces(
                symbols,
                title,
                n,
            )[i]).start <= x <= source_pieces(symbols, title, n)[i].end && source_pieces(
                symbols,
                title,
                n,
            )[i].crumb == symbols[s].crumb(title),
{
    let keys = length_keys(symbols);
    let order = ranking(keys);
    crate::order::ranking_is_sorted(keys, keys.len() as int);
    crate::order::lemma_ranking_has(order, keys, s);
    let k = choose|k: int| 0 <= k < order.len() && order[k] == s;
    lemma_covered(symbols, order, title, n, k, x);
    let (before, covered) = symbol_pieces(symbols, order, title, n, k);
    if covered[x - 1] {
        let j = choose|j: int| 0 <= j < k && symbols[#[trigger] order[j]].start_line <= x
            <= symbols[order[j]].end_line;
        let t = order[j];
        assert(keys[order[j]].less(keys[order[k]]) || (keys[order[j]] == keys[order[k]] && order[j]
            < order[k]));
        assert(symbols[t].start_line <= x <= symbols[t].end_line);
    }
    let sym = symbols[s];
    let (first, last) = (sym.first(), sym.last(n as int));
    assert(first <= x <= last);
    let r = runs(covered, first, last);
    lemma_run_holds(covered, first, last, x);
    let q = choose|q: int| 0 <= q < r.len() && (#[trigger] r[q]).0 <= x <= r[q].1;
    let new = pieces_of(r, sym.crumb(title));
    let after = symbol_pieces(symbols, order, title, n, k + 1).0;
    let i = before.len() + q;
    assert(after[i] == new[q]);
    lemma_piece_stays(symbols, order, title, n, k + 1, symbols.len() as int, i);
    let all = source_pieces(symbols, title, n);
    assert(all[i] == new[q]);
}

/// A line that no symbol holds is in a piece that is named by its lines.
pub proof fn a_line_of_no_symbol_is_named_by_its_lines(
    symbols: Seq<Symbol>,
    title: Seq<char>,
    n: nat,
    x: int,
)
    requires
        1 <= x <= n,
        forall|t: int|
            0 <= t < symbols.len() ==> !((#[trigger] symbols[t]).start_line <= x
                <= symbols[t].end_line),
    ensures
        exists|i: int|
            0 <= i < source_pieces(symbols, title, n).len() && (#[trigger] source_pieces(
                symbols,
                title,
                n,
            )[i]).start <= x <= source_pieces(symbols, title, n)[i].end && source_pieces(
                symbols,
                title,
                n,
            )[i].crumb == rest_crumb(
                title,
                source_pieces(symbols, title, n)[i].start,
                source_pieces(symbols, title, n)[i].end,
            ),
{
    let keys = length_keys(symbols);
    let order = ranking(keys);
    crate::order::ranking_is_sorted(keys, keys.len() as int);
    let m = symbols.len() as int;
    lemma_covered(symbols, order, title, n, m, x);
    let (before, covered) = symbol_pieces(symbols, order, title, n, m);
    if covered[x - 1] {
        let j = choose|j: int| 0 <= j < m && symbols[#[trigger] order[j]].start_line <= x
            <= symbols[order[j]].end_line;
        assert(0 <= order[j] < symbols.len());
        assert(!(symbols[order[j]].start_line <= x <= symbols[order[j]].end_line));
    }
    let r = runs(covered, 1, n as int);
    lemma_run_holds(covered, 1, n as int, x);
    let q = choose|q: int| 0 <= q < r.len() && (#[trigger] r[q]).0 <= x <= r[q].1;
    let all = source_pieces(symbols, title, n);
    assert(all[before.len() + q].start <= x <= all[before.len() + q].end);
}

} // verus!
