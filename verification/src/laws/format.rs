//! Laws of how nodes are shown.

use vstd::prelude::*;

#[allow(unused_imports)]
use crate::format::{
    collapsed, edge_line, edge_lines, excerpt, first_match, full_date_text, led_in, line_head,
    line_tail, line_text, month_day_text, other_end, project_name_of, query_stems_of, record_head,
    record_notes, record_text, shown_from, stems_of, window_end, window_of, with_id,
    without_ellipsis, word_start,
};
#[allow(unused_imports)]
use crate::grounding::Grounding;
#[allow(unused_imports)]
use crate::model::{short_form, Edge, Kind, MemoryConfidence, Node};
#[allow(unused_imports)]
use crate::seqs::lemma_first_where_is;
#[allow(unused_imports)]
use crate::text::{any_alnum, decimal, is_space, starts_with, trim, trim_start, utf8_len};
#[allow(unused_imports)]
use crate::memory::token_seq;
#[allow(unused_imports)]
use vstd::string::*;

verus! {

/// The query marks what it shares with a text by the first five characters of its words
/// that have three or more, at least one letter or digit among them, and are no stop
/// words.
pub proof fn stems_are_five_characters(t: Seq<Seq<char>>, w: Seq<char>, stop: Seq<Seq<char>>)
    ensures
        ({
            let a = stems_of(t, stop);
            let b = stems_of(t.push(w), stop);
            let counts = w.len() >= 3 && !stop.contains(w) && any_alnum(w);
            &&& !counts ==> b == a
            &&& counts && w.len() <= 5 ==> b == a.push(w)
            &&& counts && w.len() > 5 ==> b == a.push(w.take(5))
        }),
        stems_of(Seq::empty(), stop).len() == 0,
{
    assert(t.push(w).drop_last() =~= t);
    if w.len() <= 5 {
        assert(w.take(w.len() as int) =~= w);
    }
}

/// A query gives the stems of its tokens, and none where there is none.
pub proof fn a_query_gives_its_stems(q: Seq<char>, stop: Seq<Seq<char>>)
    ensures
        query_stems_of(Some(q), stop) == stems_of(token_seq(q), stop),
        query_stems_of(None, stop).len() == 0,
{
}

/// What is shown of a long text begins no more than 32 characters before the first match
/// in the best stretch, and not before that stretch; where a blank stands in between it
/// begins behind the first.
pub proof fn an_excerpt_begins_at_a_word(
    text: Seq<char>,
    lc: Seq<char>,
    stems: Seq<Seq<char>>,
    w: int,
    b: int,
)
    requires
        0 <= b <= lc.len() <= text.len(),
        0 <= w,
    ensures
        ({
            let at = first_match(lc, stems, b, window_end(lc, b, w));
            let p = shown_from(text, lc, stems, w, b);
            let from = if at - 32 > b {
                at - 32
            } else {
                b
            };
            &&& b <= p <= at
            &&& at - p <= 32 || p == b
            &&& p == from || is_space(text[p - 1])
            &&& p > from ==> forall|k: int| from <= k < p - 1 ==> !is_space(#[trigger] text[k])
            &&& p == from ==> forall|k: int| from <= k < at ==> !is_space(#[trigger] text[k])
        }),
{
    let e = window_end(lc, b, w);
    lemma_match_inside(lc, stems, b, e);
    let at = first_match(lc, stems, b, e);
    let from = if led_in(at) > b {
        led_in(at)
    } else {
        b
    };
    lemma_word_behind_blank(text, from, at, from);
}

proof fn lemma_match_inside(lc: Seq<char>, stems: Seq<Seq<char>>, s: int, e: int)
    requires
        s <= e,
    ensures
        s <= first_match(lc, stems, s, e) <= e,
    decreases e - s,
{
    if s < e && !crate::format::begins_at(lc, stems, s, e) {
        lemma_match_inside(lc, stems, s + 1, e);
    }
}

proof fn lemma_word_behind_blank(text: Seq<char>, p: int, at: int, b: int)
    requires
        0 <= b <= p <= at,
    ensures
        ({
            let r = word_start(text, p, at, b);
            &&& r == b || p < r <= at
            &&& r != b ==> is_space(text[r - 1]) && forall|k: int|
                p <= k < r - 1 ==> !is_space(#[trigger] text[k])
            &&& r == b ==> forall|k: int| p <= k < at ==> !is_space(#[trigger] text[k])
        }),
    decreases at - p,
{
    if p < at && !is_space(text[p]) {
        lemma_word_behind_blank(text, p + 1, at, b);
    }
}

/// A text that matches nothing, or in its first window, is shown from its start and cut
/// to the width; any other from where the match is, behind an ellipsis.
pub proof fn an_excerpt_is_as_wide_as_asked(text: Seq<char>, stems: Seq<Seq<char>>, w: int)
    requires
        0 <= w,
    ensures
        window_of(text, stems, w) is None && text.len() <= w ==> excerpt(text, stems, w) == text,
        window_of(text, stems, w) is None && text.len() > w ==> excerpt(text, stems, w)
            == text.take(w).push('…'),
        window_of(text, stems, w) matches Some(t) ==> excerpt(text, stems, w) == t && t.len() > 0
            && t[0] == '…' && t.len() <= w + 1,
{
}

/// A node is shown on a line: its short form; in brackets its type, or else its kind, its
/// project, the day it was made, how often it was used and whether it is in doubt; and
/// its title.
pub proof fn a_line_says_what_it_is_of(node: Node, project: Option<Seq<char>>)
    ensures
        ({
            let tag = if node.subkind is Some {
                node.subkind->0@
            } else {
                node.kind.name()
            };
            let of = if project is Some {
                " pr:"@ + project->0
            } else {
                Seq::empty()
            };
            let uses = if node.access_count > 0 {
                " ↑"@ + decimal(node.access_count as int)
            } else {
                Seq::empty()
            };
            let doubt = if node.confidence_spec() == Some(MemoryConfidence::Unsure) {
                " unsure"@
            } else {
                Seq::empty()
            };
            let title = if node.title is Some {
                node.title->0@
            } else {
                "(untitled)"@
            };
            line_head(node, project) == short_form(node.kind, node.uid@) + " ["@ + tag + of + " "@
                + month_day_text(node.created_at as int) + uses + doubt + "] "@ + title
        }),
{
}

/// Behind the title stands what the body says beyond it: nothing where there is no body or
/// it says no more, what follows the title where the body begins with it, and otherwise
/// the body, where it is longer than the title; on one line, and as an excerpt.
pub proof fn a_line_adds_what_the_title_leaves_out(node: Node, stems: Seq<Seq<char>>, w: int)
    ensures
        node.body is None ==> line_tail(node, stems, w).len() == 0,
        node.body matches Some(body) ==> ({
            let title = if node.title is Some {
                node.title->0@
            } else {
                "(untitled)"@
            };
            let flat = collapsed(body@);
            let start = without_ellipsis(title);
            let rest = trim_start(flat.skip(start.len() as int));
            &&& starts_with(flat, start) && rest.len() == 0 ==> line_tail(node, stems, w).len() == 0
            &&& starts_with(flat, start) && rest.len() > 0 ==> line_tail(node, stems, w) == " — "@
                + excerpt(rest, stems, w)
            &&& !starts_with(flat, start) && utf8_len(flat) > utf8_len(title) ==> line_tail(
                node,
                stems,
                w,
            ) == " — "@ + excerpt(flat, stems, w)
            &&& !starts_with(flat, start) && utf8_len(flat) <= utf8_len(title) ==> line_tail(
                node,
                stems,
                w,
            ).len() == 0
        }),
{
}

/// A line is its head and its tail.
pub proof fn a_line_is_head_and_tail(
    node: Node,
    project: Option<Seq<char>>,
    stems: Seq<Seq<char>>,
    w: int,
)
    ensures
        line_text(node, project, stems, w) == line_head(node, project) + line_tail(node, stems, w),
{
}

/// A record says the same at length: when it was made, and when it was last changed where
/// that is another time.
pub proof fn a_record_is_dated(node: Node, project: Option<Seq<char>>)
    ensures
        ({
            let tag = if node.subkind is Some {
                node.subkind->0@
            } else {
                node.kind.name()
            };
            let of = if project is Some {
                " pr:"@ + project->0
            } else {
                Seq::empty()
            };
            let changed = if node.updated_at != node.created_at {
                " updated "@ + full_date_text(node.updated_at as int)
            } else {
                Seq::empty()
            };
            let uses = if node.access_count > 0 {
                " ↑"@ + decimal(node.access_count as int)
            } else {
                Seq::empty()
            };
            record_head(node, project) == short_form(node.kind, node.uid@) + " "@ + tag + of
                + " created "@ + full_date_text(node.created_at as int) + changed + uses
        }),
{
}

/// A record quotes title, body and tags, each on lines of its own; a body that says no
/// more than the title is left out, and so is what the node has not.
pub proof fn a_record_quotes_its_node(node: Node)
    ensures
        ({
            let title = if node.title is Some {
                "\n"@ + node.title->0@
            } else {
                Seq::empty()
            };
            let repeated = node.title is Some && node.body is Some && node.title->0@ == trim(
                node.body->0@,
            );
            let body = if node.body is Some && !repeated {
                "\n"@ + node.body->0@
            } else {
                Seq::empty()
            };
            let tags = if node.tags_text@.len() > 0 {
                "\ntags: "@ + node.tags_text@
            } else {
                Seq::empty()
            };
            record_text(node) == title + body + tags
        }),
{
}

/// A memory's record says how sure its author was, and warns where what it was grounded
/// on is gone; the record of anything else says neither.
pub proof fn a_record_warns(node: Node, g: Grounding)
    ensures
        node.kind != Kind::Memory ==> record_notes(node, g).len() == 0,
        node.kind == Kind::Memory && node.confidence_spec() is None && !(g is Stale)
            ==> record_notes(node, g).len() == 0,
        node.kind == Kind::Memory && node.confidence_spec() is Some && !(g is Stale)
            ==> record_notes(node, g) == "\nconfidence: "@ + node.confidence_spec()->0.name()
            + " (author-declared; not a ranking signal)"@,
        node.kind == Kind::Memory && node.confidence_spec() is None ==> (
        g matches Grounding::Stale { kind, label } ==> record_notes(node, g)
            == "\n! grounding stale: "@ + kind.name() + " "@ + label@
            + " is no longer indexed (the note may still be right; nothing has revisited it since)"@),
{
    let c = "\nconfidence: "@ + node.confidence_spec()->0.name()
        + " (author-declared; not a ranking signal)"@;
    assert(c + Seq::<char>::empty() =~= c);
    if let Grounding::Stale { kind, label } = g {
        let s = "\n! grounding stale: "@ + kind.name() + " "@ + label@
            + " is no longer indexed (the note may still be right; nothing has revisited it since)"@;
        assert(Seq::<char>::empty() + s =~= s);
    }
}

/// An edge is shown from the node's side: an arrow to the right where it leaves the node,
/// one to the left where it comes in, its relation, and the node at the other end.
pub proof fn an_edge_points_away_from_its_source(e: Edge, id: i64, others: Seq<Node>, i: int)
    requires
        0 <= i < others.len(),
        others[i].id == (if e.src == id {
            e.dst
        } else {
            e.src
        }),
        forall|k: int| 0 <= k < i ==> (#[trigger] others[k]).id != others[i].id,
    ensures
        ({
            let o = others[i];
            let title = if o.title is Some {
                o.title->0@
            } else {
                Seq::empty()
            };
            &&& e.src == id ==> edge_line(e, id, others) == "\n"@ + "→"@ + " "@ + e.rel.name() + " "@
                + short_form(o.kind, o.uid@) + " "@ + title
            &&& e.src != id ==> edge_line(e, id, others) == "\n"@ + "←"@ + " "@ + e.rel.name() + " "@
                + short_form(o.kind, o.uid@) + " "@ + title
        }),
{
    lemma_first_where_is(others, with_id(other_end(e, id)), i);
}

/// Edges are shown in order, each on a line of its own.
pub proof fn edges_are_shown_in_order(edges: Seq<Edge>, e: Edge, id: i64, others: Seq<Node>)
    ensures
        edge_lines(edges.push(e), id, others) == edge_lines(edges, id, others) + edge_line(
            e,
            id,
            others,
        ),
        edge_lines(Seq::empty(), id, others).len() == 0,
{
    assert(edges.push(e).drop_last() =~= edges);
}

/// A project is shown by its name.
pub proof fn a_project_is_shown_by_name(node: Node, projects: Map<i64, String>, id: i64)
    ensures
        node.project_id == Some(id) && projects.dom().contains(id) ==> project_name_of(
            node,
            projects,
        ) == Some(projects[id]@),
        node.project_id == Some(id) && !projects.dom().contains(id) ==> project_name_of(
            node,
            projects,
        ) is None,
        node.project_id is None ==> project_name_of(node, projects) is None,
{
}

} // verus!
