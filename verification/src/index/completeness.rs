//! What the chunkers keep: no line with anything on it is lost on the way from a
//! file to its chunks.

use vstd::prelude::*;

#[allow(unused_imports)]
use crate::index::chunker::{
    chunk_of, chunks_of, code_paras, doc_chunks, doc_paras, every_line_is_claimed_once, extended,
    groups, heading_start, is_full, lemma_groups_len, lemma_runs_bounds, length_keys, merged,
    packed, packing_keeps_every_paragraph, para_of, para_texts, paras_of, piece_chunks, piece_count,
    pieces_of, rest_pieces, row_texts, runs, section_chunks, sections, source_pieces, symbol_pieces,
    total_words, with_section, ChunkView, Doc, LineView, ParaView, Piece, Row, SectionView, Span,
    Symbol, MIN_WORDS,
};
#[allow(unused_imports)]
use crate::order::ranking;
#[allow(unused_imports)]
use crate::text::{contains, join, occurs_at, trim};

verus! {

/// Whether some chunk holds a text.
pub open spec fn holds_text(chunks: Seq<ChunkView>, t: Seq<char>) -> bool {
    exists|i: int| 0 <= i < chunks.len() && contains((#[trigger] chunks[i]).body, t)
}

// ---------------------------------------------------------------------
// Texts in texts
// ---------------------------------------------------------------------

proof fn lemma_contains_all(a: Seq<char>)
    ensures
        contains(a, a),
{
    assert(a.subrange(0, a.len() as int) =~= a);
    assert(occurs_at(a, a, 0));
}

proof fn lemma_contains_concat(x: Seq<char>, y: Seq<char>, t: Seq<char>)
    requires
        contains(x, t) || contains(y, t),
    ensures
        contains(x + y, t),
{
    if contains(x, t) {
        let i = choose|i: int| occurs_at(x, t, i);
        assert((x + y).subrange(i, i + t.len()) =~= x.subrange(i, i + t.len()));
        assert(occurs_at(x + y, t, i));
    } else {
        let i = choose|i: int| occurs_at(y, t, i);
        let k = x.len() + i;
        assert((x + y).subrange(k, k + t.len()) =~= y.subrange(i, i + t.len()));
        assert(occurs_at(x + y, t, k));
    }
}

proof fn lemma_contains_through(a: Seq<char>, b: Seq<char>, t: Seq<char>)
    requires
        contains(a, b),
        contains(b, t),
    ensures
        contains(a, t),
{
    let i = choose|i: int| occurs_at(a, b, i);
    let j = choose|j: int| occurs_at(b, t, j);
    let k = i + j;
    assert(a.subrange(k, k + t.len()) =~= a.subrange(i, i + b.len()).subrange(j, j + t.len()));
    assert(occurs_at(a, t, k));
}

proof fn lemma_join_contains(p: Seq<Seq<char>>, sep: Seq<char>, i: int)
    requires
        0 <= i < p.len(),
    ensures
        contains(join(p, sep), p[i]),
    decreases p.len(),
{
    if p.len() == 1 {
        lemma_contains_all(p[0]);
    } else {
        let head = join(p.drop_last(), sep);
        if i == p.len() - 1 {
            lemma_contains_all(p[i]);
            lemma_contains_concat(head + sep, p.last(), p[i]);
        } else {
            lemma_join_contains(p.drop_last(), sep, i);
            assert(p.drop_last()[i] == p[i]);
            lemma_contains_concat(head, sep, p[i]);
            lemma_contains_concat(head + sep, p.last(), p[i]);
        }
    }
}

// ---------------------------------------------------------------------
// From paragraphs to chunks
// ---------------------------------------------------------------------

/// A paragraph is in a full group, or fresh in the one being filled.
proof fn lemma_packed_has(paras: Seq<ParaView>, n: int, k: int)
    requires
        0 <= k < n <= paras.len(),
    ensures
        ({
            let st = packed(paras, n);
            ||| exists|g: int| 0 <= g < st.full.len() && (#[trigger] st.full[g]).contains(paras[k])
            ||| st.cur.skip(st.carried as int).contains(paras[k])
        }),
    decreases n,
{
    packing_keeps_every_paragraph(paras, n - 1);
    packing_keeps_every_paragraph(paras, n);
    let st = packed(paras, n - 1);
    let next = packed(paras, n);
    let para = paras[n - 1];
    let fresh = st.cur.skip(st.carried as int);
    let rest = next.cur.skip(next.carried as int);
    if is_full(st.cur, para.words) {
        let g = st.full.len() as int;
        assert(next.full[g] == st.cur);
        if k == n - 1 {
            assert(rest[0] == para);
        } else {
            lemma_packed_has(paras, n - 1, k);
            if fresh.contains(paras[k]) {
                let j = choose|j: int| 0 <= j < fresh.len() && fresh[j] == paras[k];
                assert(st.cur[st.carried + j] == paras[k]);
                assert(next.full[g].contains(paras[k]));
            } else {
                let f = choose|f: int|
                    0 <= f < st.full.len() && (#[trigger] st.full[f]).contains(paras[k]);
                assert(next.full[f] == st.full[f]);
            }
        }
    } else {
        assert(rest =~= fresh.push(para));
        if k == n - 1 {
            assert(rest[rest.len() - 1] == para);
        } else {
            lemma_packed_has(paras, n - 1, k);
            if fresh.contains(paras[k]) {
                let j = choose|j: int| 0 <= j < fresh.len() && fresh[j] == paras[k];
                assert(rest[j] == paras[k]);
            }
        }
    }
}

proof fn lemma_extended_keeps(c: ChunkView, tail: Seq<ParaView>, sep: Seq<char>, t: Seq<char>)
    requires
        contains(c.body, t),
    ensures
        contains(extended(c, tail, sep).body, t),
    decreases tail.len(),
{
    if tail.len() > 0 {
        lemma_extended_keeps(c, tail.drop_last(), sep, t);
        let d = extended(c, tail.drop_last(), sep);
        lemma_contains_concat(d.body, sep, t);
        lemma_contains_concat(d.body + sep, tail.last().text, t);
    }
}

proof fn lemma_extended_has(c: ChunkView, tail: Seq<ParaView>, sep: Seq<char>, j: int)
    requires
        0 <= j < tail.len(),
    ensures
        contains(extended(c, tail, sep).body, tail[j].text),
    decreases tail.len(),
{
    let d = extended(c, tail.drop_last(), sep);
    if j == tail.len() - 1 {
        lemma_contains_all(tail[j].text);
        lemma_contains_concat(d.body + sep, tail.last().text, tail[j].text);
    } else {
        lemma_extended_has(c, tail.drop_last(), sep, j);
        assert(tail.drop_last()[j] == tail[j]);
        lemma_contains_concat(d.body, sep, tail[j].text);
        lemma_contains_concat(d.body + sep, tail.last().text, tail[j].text);
    }
}

proof fn lemma_chunk_has(g: Seq<ParaView>, crumb: Seq<char>, sep: Seq<char>, p: ParaView)
    requires
        g.contains(p),
    ensures
        contains(chunk_of(g, crumb, sep).body, p.text),
{
    let i = choose|i: int| 0 <= i < g.len() && g[i] == p;
    assert(para_texts(g)[i] == p.text);
    lemma_join_contains(para_texts(g), sep, i);
}

/// What the chunks before a section hold, they hold with it.
proof fn lemma_with_section_keeps(
    before: Seq<ChunkView>,
    crumb: Seq<char>,
    paras: Seq<ParaView>,
    sep: Seq<char>,
    t: Seq<char>,
)
    requires
        holds_text(before, t),
    ensures
        holds_text(with_section(before, crumb, paras, sep), t),
{
    let st = packed(paras, paras.len() as int);
    let out = before + chunks_of(st.full, crumb, sep);
    let r = with_section(before, crumb, paras, sep);
    let i = choose|i: int| 0 <= i < before.len() && contains((#[trigger] before[i]).body, t);
    assert(out[i] == before[i]);
    if i < r.len() && r[i] == out[i] {
    } else {
        assert(i == out.len() - 1);
        lemma_extended_keeps(out.last(), st.cur.skip(st.carried as int), sep, t);
        assert(contains(r[i].body, t));
    }
}

/// Every paragraph of a section is in one of the chunks.
proof fn lemma_with_section_has(
    before: Seq<ChunkView>,
    crumb: Seq<char>,
    paras: Seq<ParaView>,
    sep: Seq<char>,
    k: int,
)
    requires
        0 <= k < paras.len(),
    ensures
        holds_text(with_section(before, crumb, paras, sep), paras[k].text),
{
    let n = paras.len() as int;
    let st = packed(paras, n);
    let full = chunks_of(st.full, crumb, sep);
    let out = before + full;
    let r = with_section(before, crumb, paras, sep);
    let t = paras[k].text;
    let tail = st.cur.skip(st.carried as int);
    packing_keeps_every_paragraph(paras, n);
    lemma_packed_has(paras, n, k);
    if tail.contains(paras[k]) {
        let j = choose|j: int| 0 <= j < tail.len() && tail[j] == paras[k];
        assert(st.cur[st.carried + j] == paras[k]);
        assert(st.cur.contains(paras[k]));
        if total_words(st.cur) < MIN_WORDS && out.len() > 0 && out.last().title == crumb {
            lemma_extended_has(out.last(), tail, sep, j);
            assert(contains(r[r.len() - 1].body, t));
        } else {
            lemma_chunk_has(st.cur, crumb, sep, paras[k]);
            assert(contains(r[r.len() - 1].body, t));
        }
    } else {
        let g = choose|g: int| 0 <= g < st.full.len() && (#[trigger] st.full[g]).contains(paras[k]);
        let i = before.len() + g;
        lemma_chunk_has(st.full[g], crumb, sep, paras[k]);
        assert(out[i] == full[g]);
        if i < r.len() && r[i] == out[i] {
            assert(contains(r[i].body, t));
        } else {
            assert(i == out.len() - 1);
            lemma_extended_keeps(out.last(), tail, sep, t);
            assert(contains(r[i].body, t));
        }
    }
}

proof fn lemma_section_chunks_have(secs: Seq<SectionView>, sep: Seq<char>, s: int, k: int)
    requires
        0 <= s < secs.len(),
        0 <= k < secs[s].paras.len(),
    ensures
        holds_text(section_chunks(secs, sep), secs[s].paras[k].text),
    decreases secs.len(),
{
    let before = section_chunks(secs.drop_last(), sep);
    if s == secs.len() - 1 {
        lemma_with_section_has(before, secs.last().crumb, secs.last().paras, sep, k);
    } else {
        assert(secs.drop_last()[s] == secs[s]);
        lemma_section_chunks_have(secs.drop_last(), sep, s, k);
        lemma_with_section_keeps(
            before,
            secs.last().crumb,
            secs.last().paras,
            sep,
            secs[s].paras[k].text,
        );
    }
}

/// Merging sections loses no paragraph.
proof fn lemma_merged_has(secs: Seq<SectionView>, p: ParaView, s: int)
    requires
        0 <= s < secs.len(),
        secs[s].paras.contains(p),
    ensures
        exists|m: int|
            0 <= m < merged(secs).len() && (#[trigger] merged(secs)[m]).paras.contains(p),
    decreases secs.len(),
{
    let before = merged(secs.drop_last());
    let r = merged(secs);
    let sec = secs.last();
    let last = r.len() - 1;
    let joins = before.len() > 0 && total_words(sec.paras) < MIN_WORDS;
    if s == secs.len() - 1 {
        let k = choose|k: int| 0 <= k < sec.paras.len() && sec.paras[k] == p;
        if joins {
            let at = before.last().paras.len() + 1 + k;
            assert(r[last].paras[at] == p);
        } else {
            assert(r[last].paras[k] == p);
        }
        assert(r[last].paras.contains(p));
    } else {
        assert(secs.drop_last()[s] == secs[s]);
        lemma_merged_has(secs.drop_last(), p, s);
        let m = choose|m: int| 0 <= m < before.len() && (#[trigger] before[m]).paras.contains(p);
        let k = choose|k: int| 0 <= k < before[m].paras.len() && before[m].paras[k] == p;
        assert(r[m].paras[k] == p);
        assert(r[m].paras.contains(p));
    }
}

// ---------------------------------------------------------------------
// From lines to paragraphs
// ---------------------------------------------------------------------

/// A line that counts is in one of the groups.
proof fn lemma_groups_have(
    lines: Seq<LineView>,
    n: int,
    start: int,
    end: int,
    fences: Seq<Span>,
    l: int,
)
    requires
        0 <= l < n <= lines.len(),
        start <= lines[l].offset < end,
        trim(lines[l].text).len() > 0,
    ensures
        exists|g: int, r: int|
            0 <= g < groups(lines, n, start, end, fences).len() && 0 <= r < groups(
                lines,
                n,
                start,
                end,
                fences,
            )[g].len() && (#[trigger] groups(lines, n, start, end, fences)[g][r]).text
                == lines[l].text,
    decreases n,
{
    lemma_groups_len(lines, n - 1, start, end, fences);
    let before = groups(lines, n - 1, start, end, fences);
    let now = groups(lines, n, start, end, fences);
    if l == n - 1 {
        let g = now.len() - 1;
        let r = now[g].len() - 1;
        assert(now[g][r].text == lines[l].text);
    } else {
        lemma_groups_have(lines, n - 1, start, end, fences, l);
        let (g, r) = choose|g: int, r: int|
            0 <= g < before.len() && 0 <= r < before[g].len() && (#[trigger] before[g][r]).text
                == lines[l].text;
        assert(now[g][r] == before[g][r]);
    }
}

/// A row of a group is in the group's paragraph.
proof fn lemma_paras_have(all: Seq<Seq<Row>>, g: int, r: int)
    requires
        0 <= g < all.len(),
        0 <= r < all[g].len(),
    ensures
        exists|k: int|
            0 <= k < paras_of(all).len() && contains(
                (#[trigger] paras_of(all)[k]).text,
                all[g][r].text,
            ),
    decreases all.len(),
{
    let p = paras_of(all);
    if g == all.len() - 1 {
        assert(row_texts(all[g])[r] == all[g][r].text);
        lemma_join_contains(row_texts(all[g]), "\n"@, r);
        assert(p[p.len() - 1] == para_of(all[g]));
        assert(contains(p[p.len() - 1].text, all[g][r].text));
    } else {
        assert(all.drop_last()[g] == all[g]);
        lemma_paras_have(all.drop_last(), g, r);
        let q = paras_of(all.drop_last());
        let k = choose|k: int| 0 <= k < q.len() && contains((#[trigger] q[k]).text, all[g][r].text);
        assert(p[k] == q[k]);
    }
}

/// A line that counts is in one of the paragraphs.
proof fn lemma_doc_paras_have(
    lines: Seq<LineView>,
    start: int,
    end: int,
    fences: Seq<Span>,
    l: int,
) -> (k: int)
    requires
        0 <= l < lines.len(),
        start <= lines[l].offset < end,
        trim(lines[l].text).len() > 0,
    ensures
        0 <= k < doc_paras(lines, start, end, fences).len(),
        contains(doc_paras(lines, start, end, fences)[k].text, lines[l].text),
{
    let n = lines.len() as int;
    let all = groups(lines, n, start, end, fences);
    lemma_groups_have(lines, n, start, end, fences, l);
    let (g, r) = choose|g: int, r: int|
        0 <= g < all.len() && 0 <= r < all[g].len() && (#[trigger] all[g][r]).text
            == lines[l].text;
    lemma_paras_have(all, g, r);
    choose|k: int|
        0 <= k < paras_of(all).len() && contains((#[trigger] paras_of(all)[k]).text, lines[l].text)
}

/// Where section `i` begins: at the start of the document, or behind heading `i`.
pub open spec fn section_start(d: Doc, i: int) -> int {
    if i <= 0 {
        0
    } else {
        d.headings[i - 1].span.end as int
    }
}

/// A section with a paragraph is among the sections.
proof fn lemma_sections_have(d: Doc, n: int, i: int)
    requires
        0 <= i <= n,
        doc_paras(d.lines, section_start(d, i), heading_start(d, i), d.fences).len() > 0,
        i == 0 ==> heading_start(d, 0) > 0,
    ensures
        exists|s: int|
            0 <= s < sections(d, n).len() && (#[trigger] sections(d, n)[s]).paras == doc_paras(
                d.lines,
                section_start(d, i),
                heading_start(d, i),
                d.fences,
            ),
    decreases n,
{
    let want = doc_paras(d.lines, section_start(d, i), heading_start(d, i), d.fences);
    let r = sections(d, n);
    if i == n {
        assert(r[r.len() - 1].paras == want);
    } else {
        lemma_sections_have(d, n - 1, i);
        let q = sections(d, n - 1);
        let s = choose|s: int| 0 <= s < q.len() && (#[trigger] q[s]).paras == want;
        assert(r[s] == q[s]);
    }
}

// ---------------------------------------------------------------------
// Laws
// ---------------------------------------------------------------------

/// No line of a document is lost: whatever is written before the first heading, or
/// between a heading and the next, is in one of the chunks.
pub proof fn no_document_line_is_lost(d: Doc, i: int, l: int)
    requires
        0 <= i <= d.headings.len(),
        0 <= l < d.lines.len(),
        section_start(d, i) <= d.lines[l].offset < heading_start(d, i),
        trim(d.lines[l].text).len() > 0,
    ensures
        holds_text(doc_chunks(d), d.lines[l].text),
{
    let n = d.headings.len() as int;
    let t = d.lines[l].text;
    let paras = doc_paras(d.lines, section_start(d, i), heading_start(d, i), d.fences);
    let k = lemma_doc_paras_have(d.lines, section_start(d, i), heading_start(d, i), d.fences, l);
    lemma_sections_have(d, n, i);
    let secs = sections(d, n);
    let s = choose|s: int| 0 <= s < secs.len() && (#[trigger] secs[s]).paras == paras;
    assert(secs[s].paras.contains(paras[k]));
    lemma_merged_has(secs, paras[k], s);
    let all = merged(secs);
    let m = choose|m: int| 0 <= m < all.len() && (#[trigger] all[m]).paras.contains(paras[k]);
    let j = choose|j: int| 0 <= j < all[m].paras.len() && all[m].paras[j] == paras[k];
    lemma_section_chunks_have(all, "\n\n"@, m, j);
    lemma_holds_through(doc_chunks(d), paras[k].text, t);
}

proof fn lemma_holds_through(chunks: Seq<ChunkView>, b: Seq<char>, t: Seq<char>)
    requires
        holds_text(chunks, b),
        contains(b, t),
    ensures
        holds_text(chunks, t),
{
    let c = choose|c: int| 0 <= c < chunks.len() && contains((#[trigger] chunks[c]).body, b);
    lemma_contains_through(chunks[c].body, b, t);
    assert(contains(chunks[c].body, t));
}

/// No line of a configuration or plain-text file is lost.
pub proof fn no_plain_line_is_lost(title: Seq<char>, lines: Seq<LineView>, len: int, l: int)
    requires
        0 <= l < lines.len(),
        0 <= lines[l].offset < len,
        trim(lines[l].text).len() > 0,
    ensures
        holds_text(
            with_section(
                Seq::empty(),
                title,
                doc_paras(lines, 0, len, Seq::empty()),
                "\n\n"@,
            ),
            lines[l].text,
        ),
{
    let paras = doc_paras(lines, 0, len, Seq::empty());
    let k = lemma_doc_paras_have(lines, 0, len, Seq::empty(), l);
    lemma_with_section_has(Seq::empty(), title, paras, "\n\n"@, k);
    lemma_holds_through(
        with_section(Seq::empty(), title, paras, "\n\n"@),
        paras[k].text,
        lines[l].text,
    );
}

proof fn lemma_code_paras_have(lines: Seq<Seq<char>>, start: int, end: int, x: int) -> (k: int)
    requires
        1 <= start <= x <= end <= lines.len(),
        trim(lines[x - 1]).len() > 0,
    ensures
        0 <= k < code_paras(lines, start, end).len(),
        code_paras(lines, start, end)[k].text == lines[x - 1],
    decreases end - start,
{
    if x == end {
        code_paras(lines, start, end).len() - 1
    } else {
        lemma_code_paras_have(lines, start, end - 1, x)
    }
}

/// What a stretch holds is in one of the chunks.
proof fn lemma_piece_chunks_have(pieces: Seq<Piece>, lines: Seq<Seq<char>>, x: int)
    requires
        1 <= x <= lines.len(),
        piece_count(pieces, x) > 0,
        are_inside(pieces, lines.len() as int),
        trim(lines[x - 1]).len() > 0,
    ensures
        holds_text(piece_chunks(pieces, lines), lines[x - 1]),
    decreases pieces.len(),
{
    let p = pieces.last();
    let before = piece_chunks(pieces.drop_last(), lines);
    let paras = code_paras(lines, p.start, p.end);
    if p.start <= x <= p.end {
        let k = lemma_code_paras_have(lines, p.start, p.end, x);
        lemma_with_section_has(before, p.crumb, paras, "\n"@, k);
    } else {
        assert forall|i: int| 0 <= i < pieces.drop_last().len() implies 1 <= (
        #[trigger] pieces.drop_last()[i]).start && pieces.drop_last()[i].end <= lines.len() by {
            assert(pieces.drop_last()[i] == pieces[i]);
        }
        lemma_piece_chunks_have(pieces.drop_last(), lines, x);
        if paras.len() > 0 {
            lemma_with_section_keeps(before, p.crumb, paras, "\n"@, lines[x - 1]);
        }
    }
}

/// Whether every stretch lies in a file of `n` lines.
spec fn are_inside(pieces: Seq<Piece>, n: int) -> bool {
    forall|i: int|
        0 <= i < pieces.len() ==> 1 <= (#[trigger] pieces[i]).start && pieces[i].end <= n
}

proof fn lemma_symbol_pieces_inside(
    symbols: Seq<Symbol>,
    order: Seq<int>,
    title: Seq<char>,
    n: nat,
    k: int,
)
    ensures
        are_inside(symbol_pieces(symbols, order, title, n, k).0, n as int),
        symbol_pieces(symbols, order, title, n, k).1.len() == n,
    decreases k,
{
    if k > 0 {
        lemma_symbol_pieces_inside(symbols, order, title, n, k - 1);
        let (pieces, covered) = symbol_pieces(symbols, order, title, n, k - 1);
        let sym = symbols[order[k - 1]];
        let (first, last) = (sym.first(), sym.last(n as int));
        if first <= last {
            lemma_runs_bounds(covered, first, last);
            let new = pieces_of(runs(covered, first, last), sym.crumb(title));
            lemma_inside_concat(pieces, new, n as int);
        }
    }
}

proof fn lemma_inside_concat(a: Seq<Piece>, b: Seq<Piece>, n: int)
    requires
        are_inside(a, n),
        are_inside(b, n),
    ensures
        are_inside(a + b, n),
{
    assert forall|i: int| 0 <= i < (a + b).len() implies 1 <= (#[trigger] (a + b)[i]).start && (a
        + b)[i].end <= n by {
        if i < a.len() {
            assert((a + b)[i] == a[i]);
        } else {
            assert((a + b)[i] == b[i - a.len()]);
        }
    }
}

/// No line of a source file is lost, whatever its symbols are.
pub proof fn no_source_line_is_lost(
    symbols: Seq<Symbol>,
    title: Seq<char>,
    lines: Seq<Seq<char>>,
    x: int,
)
    requires
        1 <= x <= lines.len(),
        trim(lines[x - 1]).len() > 0,
    ensures
        holds_text(piece_chunks(source_pieces(symbols, title, lines.len()), lines), lines[x - 1]),
{
    let n = lines.len();
    let order = ranking(length_keys(symbols));
    let (pieces, covered) = symbol_pieces(symbols, order, title, n, symbols.len() as int);
    let rest = rest_pieces(runs(covered, 1, n as int), title);
    lemma_symbol_pieces_inside(symbols, order, title, n, symbols.len() as int);
    lemma_runs_bounds(covered, 1, n as int);
    lemma_inside_concat(pieces, rest, n as int);
    every_line_is_claimed_once(symbols, title, n, x);
    lemma_piece_chunks_have(source_pieces(symbols, title, n), lines, x);
}

} // verus!
