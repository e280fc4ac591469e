//! Laws of anchors and of what grounds a memory.

use vstd::prelude::*;

#[allow(unused_imports)]
use crate::anchors::{
    anchor_text, anchored_at, by_id, candidates, clean_anchor, components, forward_slashes, glob,
    is_due, kept_anchors, matches_command, matches_path, matches_target, path_suffix,
};
#[allow(unused_imports)]
use crate::format::{line_text, project_name_of};
#[allow(unused_imports)]
use crate::grounding::{
    alive_link, dead_link, grounded_at, grounds, is_grounding_of, live_at, newest_keys, stale_at,
    stale_list, stale_text, ungrounded_at, Grounding, Link,
};
#[allow(unused_imports)]
use crate::model::{Kind, Node, Scope};
#[allow(unused_imports)]
use crate::order::ranking;
#[allow(unused_imports)]
use crate::seqs::{kept, lemma_first_where_is};
#[allow(unused_imports)]
use crate::text::{fields, join, starts_with, texts, trim, Delim};
#[allow(unused_imports)]
use vstd::string::*;

verus! {

/// An anchor is kept without the blanks around it and without a `file:` before it, where
/// something is left and it is no longer than two hundred characters.
pub proof fn an_anchor_is_cleaned(patterns: Seq<Seq<char>>, p: Seq<char>, x: Seq<char>)
    ensures
        ({
            let c = clean_anchor(p);
            let a = kept_anchors(patterns);
            let b = kept_anchors(patterns.push(p));
            &&& 0 < c.len() <= 200 ==> b == a.push(c)
            &&& c.len() == 0 || c.len() > 200 ==> b == a
        }),
        trim(p) == "file:"@ + x ==> clean_anchor(p) == trim(x),
        !starts_with(trim(p), "file:"@) ==> clean_anchor(p) == trim(trim(p)),
        kept_anchors(Seq::empty()).len() == 0,
        crate::anchors::MAX_ANCHORS == 8,
{
    assert(patterns.push(p).drop_last() =~= patterns);
    if trim(p) == "file:"@ + x {
        super::text::beginnings_and_ends("file:"@, x, x);
        assert(trim(p).skip("file:"@.len() as int) =~= x);
    }
}

/// A pattern matches a path where it matches what follows one of its slashes, or the
/// whole: `src/*.rs` is met by any file of any `src`. A back slash counts as a slash. An
/// empty pattern matches nothing.
pub proof fn a_pattern_matches_an_end_of_the_path(pattern: Seq<char>, path: Seq<char>, k: int)
    ensures
        pattern.len() == 0 ==> !matches_path(pattern, path),
        pattern.len() > 0 && 0 <= k < components(path).len() && glob(
            pattern,
            join(components(path).skip(k), "/"@),
        ) ==> matches_path(pattern, path),
        (forall|j: int|
            0 <= j < components(path).len() ==> !glob(
                pattern,
                join(#[trigger] components(path).skip(j), "/"@),
            )) ==> !matches_path(pattern, path),
        components(path) == fields(
            Seq::new(
                path.len(),
                |i: int|
                    if path[i] == '\\' {
                        '/'
                    } else {
                        path[i]
                    },
            ),
            Delim::Char('/'),
        ),
{
    assert(forward_slashes(path) =~= Seq::new(
        path.len(),
        |i: int|
            if path[i] == '\\' {
                '/'
            } else {
                path[i]
            },
    ));
    if 0 <= k < components(path).len() && glob(pattern, join(components(path).skip(k), "/"@)) {
        assert(glob(pattern, path_suffix(path, k)));
    }
    if matches_path(pattern, path) {
        let start = choose|start: int|
            0 <= start < components(path).len() && glob(
                pattern,
                #[trigger] path_suffix(path, start),
            );
        assert(glob(pattern, join(components(path).skip(start), "/"@)));
    }
}

/// A command is met where one of its words is a path that the pattern matches; blanks and
/// quotes part its words.
pub proof fn a_command_is_met_by_its_words(pattern: Seq<char>, command: Seq<char>)
    ensures
        matches_command(pattern, command) <==> exists|i: int|
            0 <= i < fields(command, Delim::SpaceOrQuote).len() && matches_path(
                pattern,
                #[trigger] fields(command, Delim::SpaceOrQuote)[i],
            ),
        matches_target(pattern, command, true) == matches_command(pattern, command),
        matches_target(pattern, command, false) == matches_path(pattern, command),
{
}

/// A memory is due where one of its anchors matches and it was not shown yet.
pub proof fn a_memory_is_due_at_its_anchors(
    n: Node,
    target: Seq<char>,
    is_command: bool,
    seen: Seq<i64>,
)
    ensures
        n.meta.anchors matches Some(a) ==> (is_due(target, is_command, seen)(n) <==> !seen.contains(
            n.id,
        ) && exists|k: int|
            0 <= k < a@.len() && matches_target((#[trigger] a@[k])@, target, is_command)),
        n.meta.anchors is None ==> !is_due(target, is_command, seen)(n),
{
    if let Some(a) = n.meta.anchors {
        if is_due(target, is_command, seen)(n) {
            let k = choose|k: int|
                0 <= k < a@.len() && matches_target(
                    #[trigger] texts(a@)[k],
                    target,
                    is_command,
                );
            assert(matches_target(a@[k]@, target, is_command));
        }
        if exists|k: int| 0 <= k < a@.len() && matches_target(
            (#[trigger] a@[k])@,
            target,
            is_command,
        ) {
            let k = choose|k: int|
                0 <= k < a@.len() && matches_target((#[trigger] a@[k])@, target, is_command);
            assert(matches_target(texts(a@)[k], target, is_command));
        }
    }
}

/// What an anchor shows is the memory's line, up to four hundred characters of its text.
pub proof fn an_anchor_shows_its_memory(n: Node, projects: Map<i64, String>)
    ensures
        anchor_text(n, projects) == "Guard anchor matched — relevant memory: "@ + line_text(
            n,
            project_name_of(n, projects),
            Seq::empty(),
            400,
        ),
{
}

/// Anchors are looked for on every memory of the scope that is not deleted and has some,
/// the oldest first, and on nothing else. The result says where each stands.
pub proof fn every_anchored_memory_is_asked(nodes: Seq<Node>, scope: Scope) -> (at: Seq<int>)
    ensures
        candidates(nodes, scope).len() == at.len(),
        forall|k: int|
            0 <= k < at.len() ==> 0 <= #[trigger] at[k] < nodes.len() && candidates(nodes, scope)[k]
                == nodes[at[k]] && nodes[at[k]].kind == Kind::Memory && nodes[at[k]].deleted_at
                is None && scope.admits(nodes[at[k]].project_id) && nodes[at[k]].meta.anchors is Some
                && nodes[at[k]].meta.anchors->0@.len() > 0,
        forall|i: int|
            #![trigger nodes[i]]
            0 <= i < nodes.len() && nodes[i].kind == Kind::Memory && nodes[i].deleted_at is None
                && scope.admits(nodes[i].project_id) && nodes[i].meta.anchors is Some
                && nodes[i].meta.anchors->0@.len() > 0 ==> at.contains(i),
        forall|a: int, b: int|
            #![trigger at[a], at[b]]
            0 <= a < b < at.len() ==> nodes[at[a]].id < nodes[at[b]].id || (nodes[at[a]].id
                == nodes[at[b]].id && at[a] < at[b]),
{
    let p = anchored_at(nodes, scope);
    let keys = by_id(nodes);
    super::order::selection_is_exact_and_sorted(keys, p);
    let at = kept(ranking(keys), p);
    assert forall|i: int|
        #![trigger nodes[i]]
        0 <= i < nodes.len() && nodes[i].kind == Kind::Memory && nodes[i].deleted_at is None
            && scope.admits(nodes[i].project_id) && nodes[i].meta.anchors is Some
            && nodes[i].meta.anchors->0@.len() > 0 implies at.contains(i) by {
        assert(p(i));
    }
    at
}

/// What is indexed grounds a memory: symbols, chunks of code and of documents, and files;
/// nothing else does.
pub proof fn what_grounds_a_memory(kind: Kind)
    ensures
        grounds(kind) <==> kind is Symbol || kind is CodeChunk || kind is Chunk || kind is File,
{
}

/// A memory is grounded by the first of its links that is alive; where none is, its
/// grounding is stale by the first that is dead; where it has none, it is not grounded.
pub proof fn the_first_live_link_grounds(g: Grounding, links: Seq<Link>, i: int)
    ensures
        0 <= i < links.len() && links[i].checkable() && links[i].alive && (forall|k: int|
            0 <= k < i ==> !((#[trigger] links[k]).checkable() && links[k].alive)) ==> (
        is_grounding_of(g, links) <==> (g matches Grounding::Grounded { kind, label }
            && kind.name() == links[i].kind@ && label@ == links[i].label@)),
        0 <= i < links.len() && links[i].checkable() && !links[i].alive && (forall|k: int|
            0 <= k < links.len() ==> !((#[trigger] links[k]).checkable() && links[k].alive)) && (
        forall|k: int| 0 <= k < i ==> !(#[trigger] links[k]).checkable()) ==> (is_grounding_of(
            g,
            links,
        ) <==> (g matches Grounding::Stale { kind, label } && kind.name() == links[i].kind@
            && label@ == links[i].label@)),
        (forall|k: int| 0 <= k < links.len() ==> !(#[trigger] links[k]).checkable()) ==> (
        is_grounding_of(g, links) <==> g is Ungrounded),
{
    crate::seqs::lemma_first_where(links, alive_link());
    crate::seqs::lemma_first_where(links, dead_link());
    if 0 <= i < links.len() && links[i].checkable() && links[i].alive && (forall|k: int|
        0 <= k < i ==> !((#[trigger] links[k]).checkable() && links[k].alive)) {
        lemma_first_where_is(links, alive_link(), i);
    }
    if 0 <= i < links.len() && links[i].checkable() && !links[i].alive && (forall|k: int|
        0 <= k < i ==> !(#[trigger] links[k]).checkable()) {
        lemma_first_where_is(links, dead_link(), i);
    }
}

/// The stale are listed newest first, as many as asked for: what is listed is stale, and
/// what is left out is no newer than what is listed, or the list is full.
pub proof fn the_stale_are_listed_newest_first(
    nodes: Seq<Node>,
    groundings: Seq<Grounding>,
    limit: int,
)
    requires
        0 <= limit,
    ensures
        ({
            let r = stale_list(nodes, groundings, limit);
            &&& r.len() <= limit
            &&& forall|k: int|
                0 <= k < r.len() ==> 0 <= #[trigger] r[k] < nodes.len()
                    && nodes[r[k]].live_memory() && groundings[r[k]] is Stale
            &&& forall|a: int, b: int|
                #![trigger r[a], r[b]]
                0 <= a < b < r.len() ==> nodes[r[a]].created_at > nodes[r[b]].created_at || (
                nodes[r[a]].created_at == nodes[r[b]].created_at && r[a] < r[b])
            &&& r.len() < limit ==> forall|i: int|
                #![trigger nodes[i]]
                0 <= i < nodes.len() && nodes[i].live_memory() && groundings[i] is Stale
                    ==> r.contains(i)
        }),
{
    let p = stale_at(nodes, groundings);
    let keys = newest_keys(nodes);
    super::order::selection_is_exact_and_sorted(keys, p);
    let all = kept(ranking(keys), p);
    super::order::the_first_are_taken(all, limit);
    let r = stale_list(nodes, groundings, limit);
    assert forall|k: int| 0 <= k < r.len() implies 0 <= #[trigger] r[k] < nodes.len()
        && nodes[r[k]].live_memory() && groundings[r[k]] is Stale by {
        assert(p(all[k]));
    }
    assert forall|a: int, b: int|
        #![trigger r[a], r[b]]
        0 <= a < b < r.len() implies nodes[r[a]].created_at > nodes[r[b]].created_at || (
    nodes[r[a]].created_at == nodes[r[b]].created_at && r[a] < r[b]) by {
        assert(keys[all[a]].less(keys[all[b]]) || (keys[all[a]] == keys[all[b]] && all[a] < all[b]));
    }
    if r.len() < limit {
        assert forall|i: int|
            #![trigger nodes[i]]
            0 <= i < nodes.len() && nodes[i].live_memory() && groundings[i] is Stale implies
            r.contains(i) by {
            assert(p(i));
        }
    }
}

/// A stale grounding is named by its kind and its label.
pub proof fn a_stale_grounding_is_named(g: Grounding)
    ensures
        g matches Grounding::Stale { kind, label } ==> stale_text(g) == kind.name() + " "@ + label@,
        !(g is Stale) ==> stale_text(g).len() == 0,
{
    reveal_strlit(" ");
    assert(" "@ =~= seq![' ']);
}

/// Live memories are counted as grounded, not grounded or stale by what their grounding
/// is; nothing else is counted.
pub proof fn live_memories_are_counted_by_grounding(
    nodes: Seq<Node>,
    groundings: Seq<Grounding>,
    i: int,
)
    ensures
        live_at(nodes)(i) <==> nodes[i].live_memory(),
        grounded_at(nodes, groundings)(i) <==> nodes[i].live_memory() && groundings[i] is Grounded,
        ungrounded_at(nodes, groundings)(i) <==> nodes[i].live_memory() && groundings[i]
            is Ungrounded,
        stale_at(nodes, groundings)(i) <==> nodes[i].live_memory() && groundings[i] is Stale,
{
}

} // verus!
