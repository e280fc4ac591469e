//! Guard anchors: file and command patterns that surface a memory when a
//! tool is about to touch what they name.

use std::collections::HashMap;

use vstd::prelude::*;

use crate::format::agent_line;
#[allow(unused_imports)]
use crate::format::{line_text, project_name_of};
use crate::json::write_strings;
#[allow(unused_imports)]
use crate::json::json_of_strings;
use crate::model::{Kind, Meta, Node, Scope};
#[allow(unused_imports)]
use crate::order::{deref_all, marked, picked, ranking};
use crate::order::{pick, rank_where, Key};
#[allow(unused_imports)]
use crate::seqs::{
    first_n, first_where, kept, lemma_first_where_is, lemma_first_where_none, lemma_kept,
};
use crate::text::{chars_of, joined_from, split_fields, trimmed, without_prefix, Delim};
#[allow(unused_imports)]
use crate::text::{fields, join, starts_with, texts, trim};
#[allow(unused_imports)]
use crate::wild::wild;
use crate::wild::wild_match;
#[allow(unused_imports)]
use vstd::string::*;

verus! {

/// Most patterns a memory may carry.
pub const MAX_ANCHORS: usize = 8;

/// Most characters a pattern may have.
pub const MAX_ANCHOR_CHARS: usize = 200;

/// Glob matching of a whole text: `*` stands for any run of characters, `/`
/// and the empty run among them, `?` for exactly one character, and every
/// other character for itself.
pub open spec fn glob(p: Seq<char>, t: Seq<char>) -> bool {
    wild(p, t, '*', '?')
}

/// Whether `pattern` matches the whole of `text`.
pub fn glob_match(pattern: &str, text: &str) -> (r: bool)
    ensures
        r == glob(pattern@, text@),
{
    wild_match(pattern, text, '*', '?')
}

// ---------------------------------------------------------------------
// Patterns
// ---------------------------------------------------------------------

/// A pattern as it is stored: trimmed, without the `file:` scheme.
pub open spec fn clean_anchor(p: Seq<char>) -> Seq<char> {
    let t = trim(p);
    trim(
        if starts_with(t, "file:"@) {
            t.skip("file:"@.len() as int)
        } else {
            t
        },
    )
}

/// Whether a pattern may be stored.
pub open spec fn anchor_kept(p: Seq<char>) -> bool {
    0 < p.len() <= MAX_ANCHOR_CHARS
}

/// The patterns that may be stored, in order.
pub open spec fn kept_anchors(patterns: Seq<Seq<char>>) -> Seq<Seq<char>>
    decreases patterns.len(),
{
    if patterns.len() == 0 {
        Seq::empty()
    } else {
        let rest = kept_anchors(patterns.drop_last());
        let p = clean_anchor(patterns.last());
        if anchor_kept(p) {
            rest.push(p)
        } else {
            rest
        }
    }
}

/// Normalizes anchor patterns, drops empty and oversized ones, and keeps the
/// first eight.
pub fn sanitize_anchors(patterns: Vec<String>) -> (r: Vec<String>)
    ensures
        texts(r@) == first_n(kept_anchors(texts(patterns@)), MAX_ANCHORS as int),
{
    let mut out: Vec<String> = Vec::new();
    let mut i: usize = 0;
    assert(texts(patterns@).take(0) =~= Seq::empty());
    assert(texts(out@) =~= Seq::empty());
    while i < patterns.len()
        invariant
            i <= patterns@.len(),
            texts(out@) == kept_anchors(texts(patterns@).take(i as int)),
        decreases patterns@.len() - i,
    {
        let ghost all = texts(patterns@);
        assert(all.take(i + 1).drop_last() =~= all.take(i as int));
        assert(all.take(i + 1).last() == patterns@[i as int]@);
        let ghost before = texts(out@);
        let t = trimmed(patterns[i].as_str());
        let p = match without_prefix(t.as_str(), "file:") {
            Some(rest) => trimmed(rest.as_str()),
            None => trimmed(t.as_str()),
        };
        let n: usize = chars_of(p.as_str()).len();
        if 0 < n && n <= MAX_ANCHOR_CHARS {
            out.push(p);
            assert(texts(out@) =~= before.push(p@));
        }
        i += 1;
    }
    assert(texts(patterns@).take(patterns@.len() as int) =~= texts(patterns@));
    let ghost kept = texts(out@);
    if out.len() > MAX_ANCHORS {
        out.truncate(MAX_ANCHORS);
        assert(texts(out@) =~= kept.take(MAX_ANCHORS as int));
    }
    out
}

/// Replaces a memory's anchor patterns, and gives the JSON text that they are
/// stored as.
pub fn set_anchors(meta: &mut Meta, patterns: Vec<String>) -> (r: String)
    ensures
        *final(meta) == (Meta { anchors: Some(patterns), ..*old(meta) }),
        r@ == json_of_strings(texts(patterns@)),
{
    let json = write_strings(&patterns);
    meta.anchors = Some(patterns);
    json
}

// ---------------------------------------------------------------------
// Matching
// ---------------------------------------------------------------------

/// `s` with `/` for every backslash.
pub open spec fn forward_slashes(s: Seq<char>) -> Seq<char> {
    Seq::new(
        s.len(),
        |i: int|
            if s[i] == '\\' {
                '/'
            } else {
                s[i]
            },
    )
}

/// The components of a path.
pub open spec fn components(path: Seq<char>) -> Seq<Seq<char>> {
    fields(forward_slashes(path), Delim::Char('/'))
}

/// The end of a path from component `start` on.
pub open spec fn path_suffix(path: Seq<char>, start: int) -> Seq<char> {
    join(components(path).skip(start), "/"@)
}

/// Whether a pattern matches some suffix of a path, counted in whole
/// components.
pub open spec fn matches_path(pattern: Seq<char>, path: Seq<char>) -> bool {
    pattern.len() > 0 && exists|start: int|
        0 <= start < components(path).len() && glob(pattern, #[trigger] path_suffix(path, start))
}

/// Whether a pattern matches a word of a command as a path.
pub open spec fn matches_command(pattern: Seq<char>, command: Seq<char>) -> bool {
    exists|i: int|
        0 <= i < fields(command, Delim::SpaceOrQuote).len() && matches_path(
            pattern,
            #[trigger] fields(command, Delim::SpaceOrQuote)[i],
        )
}

fn with_forward_slashes(s: &str) -> (r: String)
    ensures
        r@ == forward_slashes(s@),
{
    let v = chars_of(s);
    let mut out = String::new();
    let mut i: usize = 0;
    while i < v.len()
        invariant
            i <= v@.len(),
            v@ == s@,
            out@ == forward_slashes(s@).take(i as int),
        decreases v@.len() - i,
    {
        let c = v[i];
        out.push(
            if c == '\\' {
                '/'
            } else {
                c
            },
        );
        assert(out@ =~= forward_slashes(s@).take(i + 1));
        i += 1;
    }
    assert(out@ =~= forward_slashes(s@));
    out
}

/// Whether `pattern` matches a suffix of `path`.
pub fn anchor_matches_path(pattern: &str, path: &str) -> (r: bool)
    ensures
        r == matches_path(pattern@, path@),
{
    if pattern.is_empty() {
        return false;
    }
    let flat = with_forward_slashes(path);
    let parts = split_fields(flat.as_str(), Delim::Char('/'));
    let mut start: usize = 0;
    while start < parts.len()
        invariant
            start <= parts@.len(),
            texts(parts@) == components(path@),
            pattern@.len() > 0,
            forall|k: int| 0 <= k < start ==> !glob(pattern@, #[trigger] path_suffix(path@, k)),
        decreases parts@.len() - start,
    {
        let tail = joined_from(&parts, start, "/");
        assert(tail@ == path_suffix(path@, start as int));
        if glob_match(pattern, tail.as_str()) {
            return true;
        }
        start += 1;
    }
    false
}

/// Whether `pattern` matches a word of `command` as a path.
pub fn anchor_matches_command(pattern: &str, command: &str) -> (r: bool)
    ensures
        r == matches_command(pattern@, command@),
{
    let toks = split_fields(command, Delim::SpaceOrQuote);
    let ghost all = fields(command@, Delim::SpaceOrQuote);
    let mut i: usize = 0;
    while i < toks.len()
        invariant
            i <= toks@.len(),
            all == texts(toks@),
            all == fields(command@, Delim::SpaceOrQuote),
            forall|k: int| 0 <= k < i ==> !matches_path(pattern@, #[trigger] all[k]),
        decreases toks@.len() - i,
    {
        assert(all[i as int] == toks@[i as int]@);
        if anchor_matches_path(pattern, toks[i].as_str()) {
            return true;
        }
        i += 1;
    }
    false
}

/// Whether `pattern` matches `target`, a command or a path.
pub open spec fn matches_target(pattern: Seq<char>, target: Seq<char>, is_command: bool) -> bool {
    if is_command {
        matches_command(pattern, target)
    } else {
        matches_path(pattern, target)
    }
}

/// A memory that is to surface: one of its anchors matches and it has not been
/// seen.
pub open spec fn is_due(target: Seq<char>, is_command: bool, seen: Seq<i64>) -> spec_fn(
    Node,
) -> bool {
    |n: Node|
        {
            &&& n.meta.anchors is Some
            &&& exists|k: int|
                0 <= k < n.meta.anchors->0@.len() && matches_target(
                    #[trigger] texts(n.meta.anchors->0@)[k],
                    target,
                    is_command,
                )
            &&& !seen.contains(n.id)
        }
}

/// What is said of a memory that surfaces.
pub open spec fn anchor_text(n: Node, projects: Map<i64, String>) -> Seq<char> {
    "Guard anchor matched — relevant memory: "@ + line_text(
        n,
        project_name_of(n, projects),
        Seq::empty(),
        400,
    )
}

fn has_id(seen: &Vec<i64>, id: i64) -> (r: bool)
    ensures
        r == seen@.contains(id),
{
    let mut i: usize = 0;
    while i < seen.len()
        invariant
            i <= seen@.len(),
            forall|k: int| 0 <= k < i ==> seen@[k] != id,
        decreases seen@.len() - i,
    {
        if seen[i] == id {
            return true;
        }
        i += 1;
    }
    false
}

fn any_match(patterns: &Vec<String>, target: &str, is_command: bool) -> (r: bool)
    ensures
        r == exists|k: int|
            0 <= k < patterns@.len() && matches_target(
                #[trigger] texts(patterns@)[k],
                target@,
                is_command,
            ),
{
    let mut i: usize = 0;
    while i < patterns.len()
        invariant
            i <= patterns@.len(),
            forall|k: int|
                0 <= k < i ==> !matches_target(#[trigger] texts(patterns@)[k], target@, is_command),
        decreases patterns@.len() - i,
    {
        assert(texts(patterns@)[i as int] == patterns@[i as int]@);
        let hit = if is_command {
            anchor_matches_command(patterns[i].as_str(), target)
        } else {
            anchor_matches_path(patterns[i].as_str(), target)
        };
        if hit {
            return true;
        }
        i += 1;
    }
    false
}

/// A memory in scope that is not deleted and carries anchors.
pub open spec fn is_anchored(scope: Scope, n: Node) -> bool {
    &&& n.kind == Kind::Memory
    &&& n.deleted_at is None
    &&& scope.admits(n.project_id)
    &&& n.meta.anchors is Some
    &&& n.meta.anchors->0@.len() > 0
}

/// Whether the node at an index is an anchored memory in scope.
pub open spec fn anchored_at(nodes: Seq<Node>, scope: Scope) -> spec_fn(int) -> bool {
    |i: int| 0 <= i < nodes.len() && is_anchored(scope, nodes[i])
}

/// Sort keys: by id.
pub open spec fn by_id(nodes: Seq<Node>) -> Seq<Key> {
    Seq::new(nodes.len(), |i: int| Key { first: nodes[i].id as i128, second: 0, third: 0 })
}

/// The memories in scope that are not deleted and carry anchors, by id.
pub open spec fn candidates(nodes: Seq<Node>, scope: Scope) -> Seq<Node> {
    picked(nodes, kept(ranking(by_id(nodes)), anchored_at(nodes, scope)))
}

/// The memories in scope that are not deleted and carry anchors, by id.
pub fn anchored_candidates<'a>(nodes: &'a Vec<Node>, scope: Scope) -> (r: Vec<&'a Node>)
    ensures
        deref_all(r@) == candidates(nodes@, scope),
{
    let ghost p = anchored_at(nodes@, scope);
    let mut keys: Vec<Key> = Vec::new();
    let mut keep: Vec<bool> = Vec::new();
    let mut i: usize = 0;
    while i < nodes.len()
        invariant
            i <= nodes@.len(),
            p == anchored_at(nodes@, scope),
            keys@.len() == i,
            keep@.len() == i,
            forall|k: int| 0 <= k < i ==> #[trigger] keys@[k] == by_id(nodes@)[k],
            forall|k: int| 0 <= k < i ==> #[trigger] keep@[k] == p(k),
        decreases nodes@.len() - i,
    {
        let n = &nodes[i];
        let anchored = match &n.meta.anchors {
            Some(patterns) => patterns.len() > 0,
            None => false,
        };
        keys.push(Key::of(n.id as i128));
        let live = n.kind == Kind::Memory && n.deleted_at.is_none();
        keep.push(live && scope.covers(n.project_id) && anchored);
        i += 1;
    }
    assert(keys@ =~= by_id(nodes@));
    assert(marked(keep@) =~= p);
    let order = rank_where(&keys, &keep);
    let r = pick(nodes, &order, order.len());
    assert(deref_all(r@) =~= candidates(nodes@, scope));
    r
}

/// Finds the first of the anchored memories in scope that matches `target` and
/// has not been seen this session, records it as seen, and gives the text that
/// is shown for it. `is_command` tells a shell command from a file path.
pub fn find_and_record(
    nodes: &Vec<Node>,
    scope: Scope,
    seen: &mut Vec<i64>,
    projects: &HashMap<i64, String>,
    target: &str,
    is_command: bool,
) -> (r: Option<String>)
    ensures
        ({
            let all = candidates(nodes@, scope);
            match first_where(all, is_due(target@, is_command, old(seen)@)) {
                Some(i) => {
                    &&& final(seen)@ == old(seen)@.push(all[i].id)
                    &&& r is Some
                    &&& r->0@ == anchor_text(all[i], projects@)
                },
                None => final(seen)@ == old(seen)@ && r is None,
            }
        }),
{
    broadcast use vstd::std_specs::hash::group_hash_axioms;

    let found = anchored_candidates(nodes, scope);
    let ghost all = deref_all(found@);
    let ghost p = is_due(target@, is_command, seen@);
    let mut i: usize = 0;
    while i < found.len()
        invariant
            i <= found@.len(),
            seen@ == old(seen)@,
            p == is_due(target@, is_command, old(seen)@),
            all == deref_all(found@),
            all == candidates(nodes@, scope),
            forall|k: int| 0 <= k < i ==> !p(#[trigger] all[k]),
        decreases found@.len() - i,
    {
        let n = found[i];
        assert(all[i as int] == *n);
        let hit = match &n.meta.anchors {
            Some(patterns) => any_match(patterns, target, is_command),
            None => false,
        };
        if hit && !has_id(seen, n.id) {
            proof {
                lemma_first_where_is(all, p, i as int);
            }
            seen.push(n.id);
            let project = match n.project_id {
                Some(id) => match projects.get(&id) {
                    Some(name) => Some(name.as_str()),
                    None => None,
                },
                None => None,
            };
            let mut out = "Guard anchor matched — relevant memory: ".to_owned();
            let line = agent_line(n, project, 400);
            out.append(line.as_str());
            return Some(out);
        }
        i += 1;
    }
    proof {
        lemma_first_where_none(all, p);
    }
    None
}

/// Only memories in scope that are not deleted and carry anchors surface.
pub proof fn only_anchored_memories_surface(nodes: Seq<Node>, scope: Scope, k: int)
    requires
        0 <= k < candidates(nodes, scope).len(),
    ensures
        nodes.contains(candidates(nodes, scope)[k]),
        is_anchored(scope, candidates(nodes, scope)[k]),
{
    let p = anchored_at(nodes, scope);
    lemma_kept(ranking(by_id(nodes)), p);
    let i = kept(ranking(by_id(nodes)), p)[k];
    assert(p(i));
    assert(nodes[i] == candidates(nodes, scope)[k]);
}

/// A memory surfaces once a session: what has been seen is never due.
pub proof fn seen_is_never_due(n: Node, target: Seq<char>, is_command: bool, seen: Seq<i64>)
    requires
        seen.contains(n.id),
    ensures
        !is_due(target, is_command, seen)(n),
{
}

/// A memory without anchors never surfaces here.
pub proof fn unanchored_is_never_due(n: Node, target: Seq<char>, is_command: bool, seen: Seq<i64>)
    requires
        n.meta.anchors is None || n.meta.anchors->0@.len() == 0,
    ensures
        !is_due(target, is_command, seen)(n),
{
}

/// A pattern without wildcards matches itself and nothing else.
pub proof fn plain_pattern_matches_itself(p: Seq<char>, t: Seq<char>)
    requires
        forall|i: int| 0 <= i < p.len() ==> #[trigger] p[i] != '*' && p[i] != '?',
    ensures
        glob(p, t) == (p == t),
    decreases p.len(),
{
    if p.len() > 0 {
        let q = p.skip(1);
        assert(p[0] != '*' && p[0] != '?');
        assert forall|i: int| 0 <= i < q.len() implies #[trigger] q[i] != '*' && q[i] != '?' by {
            assert(q[i] == p[i + 1]);
        }
        if t.len() > 0 {
            plain_pattern_matches_itself(q, t.skip(1));
            if q == t.skip(1) && p[0] == t[0] {
                assert forall|i: int| 0 <= i < p.len() implies p[i] == t[i] by {
                    if i > 0 {
                        assert(q[i - 1] == t.skip(1)[i - 1]);
                    }
                }
                assert(p =~= t);
            }
        }
    } else {
        assert(t.len() == 0 ==> p =~= t);
    }
}

/// A lone `*` matches everything.
pub proof fn star_matches_everything(t: Seq<char>)
    ensures
        glob(seq!['*'], t),
{
    let p = seq!['*'];
    assert(p.skip(1).len() == 0);
    assert(t.skip(t.len() as int).len() == 0);
    assert(wild(p.skip(1), t.skip(t.len() as int), '*', '?'));
}

} // verus!
