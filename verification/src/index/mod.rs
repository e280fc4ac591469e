//! Document collections and the incremental, hash-driven indexer.
//!
//! A file's identity is its collection and its path below the collection's
//! root. Whether it is read at all, only restamped or chunked again is decided
//! here; walking the disk and writing the store are left to the caller.

use vstd::prelude::*;
use vstd::utf8::encode_utf8;

use crate::error::Error;
use crate::memory::{blake3_hash, derive_title};
#[allow(unused_imports)]
use crate::memory::{blake3_of, title_of};
use crate::model::{Kind, Meta, NewEdge, NewNode, Node, Rel};
use crate::paths::{extension_of, file_name_of, file_stem_of};
#[allow(unused_imports)]
use crate::paths::{extension, file_name, file_stem};
#[allow(unused_imports)]
use crate::json::opt_view;
use crate::seqs::same_bytes;
#[allow(unused_imports)]
use crate::seqs::{count_where, first_where, lemma_first_where_is, lemma_first_where_none};
use crate::sets::is_member;
use crate::text::{
    chars_of, decimal_of_u64, joined, lines_of, lower_of, padded, parse_range, same, string_of,
};
#[allow(unused_imports)]
use crate::text::{all_lower, decimal_nat, join, lines, pad_left, texts, unsigned};
#[allow(unused_imports)]
use vstd::string::*;

pub mod chunker;
pub mod completeness;
pub mod run;

use self::chunker::{chunk_markdown, DocChunk};
#[allow(unused_imports)]
use self::chunker::{chunk_views, doc_chunks, doc_of, marks_of, scanned, ChunkView};

verus! {

// ---------------------------------------------------------------------
// Slices of indexed files
// ---------------------------------------------------------------------

/// Position of the last `c`, or -1.
pub open spec fn last_at(s: Seq<char>, c: char) -> int
    decreases s.len(),
{
    if s.len() == 0 {
        -1
    } else if s.last() == c {
        s.len() - 1
    } else {
        last_at(s.drop_last(), c)
    }
}

/// Position of the first `c`, or the length.
pub open spec fn first_at(s: Seq<char>, c: char) -> int
    decreases s.len(),
{
    if s.len() == 0 {
        0
    } else if s[0] == c {
        0
    } else {
        1 + first_at(s.skip(1), c)
    }
}

/// The lines that the part of a reference after the colon names.
pub open spec fn span_of(range: Seq<char>) -> Option<(nat, nat)> {
    let k = first_at(range, '-');
    if k < range.len() {
        match (unsigned(range.take(k), usize::MAX as int), unsigned(range.skip(k + 1), usize::MAX as int)) {
            (Some(a), Some(b)) => Some((a, b)),
            _ => None,
        }
    } else {
        match unsigned(range, usize::MAX as int) {
            Some(n) => Some((n, n)),
            None => None,
        }
    }
}

/// The path and the lines that a reference names: `path:10-40`, `path:10`, or a
/// bare path.
pub open spec fn reference_parts(r: Seq<char>) -> (Seq<char>, Option<(nat, nat)>) {
    let k = last_at(r, ':');
    if k > 0 && span_of(r.skip(k + 1)) is Some {
        (r.take(k), span_of(r.skip(k + 1)))
    } else {
        (r, None)
    }
}

/// Whether a reference can be a path: ids have neither slash nor dot.
pub open spec fn is_path_like(p: Seq<char>) -> bool {
    p.contains('/') || p.contains('.')
}

/// A span of lines as numbers.
pub open spec fn span_view(s: Option<(usize, usize)>) -> Option<(nat, nat)> {
    match s {
        Some((a, b)) => Some((a as nat, b as nat)),
        None => None,
    }
}

/// Position of the last `c` in `v`.
fn find_last(v: &Vec<char>, c: char) -> (r: Option<usize>)
    ensures
        match r {
            Some(i) => i < v@.len() && last_at(v@, c) == i,
            None => last_at(v@, c) == -1,
        },
{
    let mut n: usize = v.len();
    assert(v@.take(n as int) =~= v@);
    while n > 0
        invariant
            n <= v@.len(),
            last_at(v@, c) == last_at(v@.take(n as int), c),
        decreases n,
    {
        assert(v@.take(n as int).last() == v@[n - 1]);
        assert(v@.take(n as int).drop_last() =~= v@.take(n - 1));
        if v[n - 1] == c {
            return Some(n - 1);
        }
        n -= 1;
    }
    None
}

/// Position of the first `c` in `v[from..]`, counted from `from`, or its length.
fn find_first(v: &Vec<char>, c: char, from: usize) -> (r: usize)
    requires
        from <= v@.len(),
    ensures
        r == first_at(v@.skip(from as int), c),
        r <= v@.len() - from,
{
    let ghost s = v@.skip(from as int);
    let mut i: usize = from;
    assert(s.skip(0) =~= s);
    while i < v.len()
        invariant
            from <= i <= v@.len(),
            s == v@.skip(from as int),
            first_at(s, c) == (i - from) + first_at(s.skip(i - from), c),
        decreases v@.len() - i,
    {
        assert(s.skip(i - from)[0] == v@[i as int]);
        assert(s.skip(i - from).skip(1) =~= s.skip(i + 1 - from));
        if v[i] == c {
            return i - from;
        }
        i += 1;
    }
    i - from
}

fn parse_span(v: &Vec<char>, from: usize) -> (r: Option<(usize, usize)>)
    requires
        from <= v@.len(),
    ensures
        span_view(r) == span_of(v@.skip(from as int)),
{
    let n: usize = v.len();
    let ghost range = v@.skip(from as int);
    let k: usize = find_first(v, '-', from);
    assert(range =~= v@.subrange(from as int, n as int));
    if k < n - from {
        let a = parse_range(v, from, from + k, usize::MAX as u64);
        let b = parse_range(v, from + k + 1, n, usize::MAX as u64);
        assert(range.take(k as int) =~= v@.subrange(from as int, from + k));
        assert(range.skip(k + 1) =~= v@.subrange(from + k + 1, n as int));
        match (a, b) {
            (Some(x), Some(y)) => Some((x as usize, y as usize)),
            _ => None,
        }
    } else {
        match parse_range(v, from, n, usize::MAX as u64) {
            Some(x) => Some((x as usize, x as usize)),
            None => None,
        }
    }
}

/// The path and the lines that a reference names. Nothing where it cannot be a
/// path.
pub fn slice_target(reference: &str) -> (r: Option<(String, Option<(usize, usize)>)>)
    ensures
        match r {
            Some((path, span)) => is_path_like(reference_parts(reference@).0) && path@
                == reference_parts(reference@).0 && span_view(span) == reference_parts(
                reference@,
            ).1,
            None => !is_path_like(reference_parts(reference@).0),
        },
{
    let v = chars_of(reference);
    let n: usize = v.len();
    assert(v@.take(n as int) =~= v@);
    let mut cut: usize = n;
    let mut span: Option<(usize, usize)> = None;
    if let Some(k) = find_last(&v, ':') {
        if k > 0 {
            span = parse_span(&v, k + 1);
            if span.is_some() {
                cut = k;
            }
        }
    }
    assert(v@.subrange(0, cut as int) =~= v@.take(cut as int));
    let path = string_of(&v, 0, cut);
    if has_char(&v, cut, '/') || has_char(&v, cut, '.') {
        Some((path, span))
    } else {
        None
    }
}

fn has_char(v: &Vec<char>, n: usize, c: char) -> (r: bool)
    requires
        n <= v@.len(),
    ensures
        r == v@.take(n as int).contains(c),
{
    let mut i: usize = 0;
    while i < n
        invariant
            i <= n <= v@.len(),
            forall|k: int| 0 <= k < i ==> v@[k] != c,
        decreases n - i,
    {
        if v[i] == c {
            assert(v@.take(n as int)[i as int] == c);
            return true;
        }
        i += 1;
    }
    false
}

/// The paths of the files that have one, in order.
pub open spec fn known_paths(files: Seq<Node>) -> Seq<Seq<char>>
    decreases files.len(),
{
    if files.len() == 0 {
        Seq::empty()
    } else {
        match files.last().path {
            Some(p) => known_paths(files.drop_last()).push(p@),
            None => known_paths(files.drop_last()),
        }
    }
}

/// The path of a file, or nothing.
pub open spec fn path_or_empty(n: Node) -> Seq<char> {
    match n.path {
        Some(p) => p@,
        None => Seq::empty(),
    }
}

fn list_paths(files: &Vec<Node>) -> (r: Vec<String>)
    ensures
        texts(r@) == known_paths(files@),
{
    let mut out: Vec<String> = Vec::new();
    let mut i: usize = 0;
    assert(files@.take(0) =~= Seq::empty());
    assert(texts(out@) =~= Seq::empty());
    while i < files.len()
        invariant
            i <= files@.len(),
            texts(out@) == known_paths(files@.take(i as int)),
        decreases files@.len() - i,
    {
        assert(files@.take(i + 1).drop_last() =~= files@.take(i as int));
        assert(files@.take(i + 1).last() == files@[i as int]);
        let ghost before = texts(out@);
        if let Some(p) = &files[i].path {
            let s = p.clone();
            out.push(s);
            assert(texts(out@) =~= before.push(s@));
        }
        i += 1;
    }
    assert(files@.take(files@.len() as int) =~= files@);
    out
}

/// The collection of the one file that a path names. Nothing where none does;
/// an error where several do, or where the file belongs to no collection.
pub fn pick_file(path: &str, matches: &Vec<Node>) -> (r: Result<Option<i64>, Error>)
    ensures
        if matches@.len() == 0 {
            r == Ok::<Option<i64>, Error>(None)
        } else if matches@.len() == 1 {
            match matches@[0].collection_id {
                Some(id) => r == Ok::<Option<i64>, Error>(Some(id)),
                None => r matches Err(Error::Invalid(m)) && m@ == "file "@ + path_or_empty(
                    matches@[0],
                ) + " has no collection"@,
            }
        } else {
            r matches Err(Error::AmbiguousRef(m, n)) && n == matches@.len() && m@ == path@
                + " (matches "@ + join(known_paths(matches@), ", "@) + ")"@
        },
{
    let n: usize = matches.len();
    if n == 0 {
        return Ok(None);
    }
    if n > 1 {
        let mut m = path.to_owned();
        m.append(" (matches ");
        m.append(joined(&list_paths(matches), ", ").as_str());
        m.append(")");
        return Err(Error::AmbiguousRef(m, n));
    }
    match matches[0].collection_id {
        Some(id) => Ok(Some(id)),
        None => {
            let mut m = "file ".to_owned();
            match &matches[0].path {
                Some(p) => {
                    m.append(p.as_str());
                },
                None => {
                    assert("file "@ + Seq::<char>::empty() =~= "file "@);
                },
            }
            m.append(" has no collection");
            Err(Error::Invalid(m))
        },
    }
}

/// One numbered line of a slice.
pub open spec fn numbered(n: int, line: Seq<char>) -> Seq<char> {
    "\n"@ + pad_left(decimal_nat(n as nat), 5, ' ') + "  "@ + line
}

/// The numbered lines among the first `n` whose number lies in `a..=b`.
pub open spec fn numbered_lines(all: Seq<Seq<char>>, n: int, a: nat, b: nat) -> Seq<char>
    decreases n,
{
    if n <= 0 {
        Seq::empty()
    } else if a <= n <= b {
        numbered_lines(all, n - 1, a, b) + numbered(n, all[n - 1])
    } else {
        numbered_lines(all, n - 1, a, b)
    }
}

/// A slice of a file: a heading that says which lines, then the lines, numbered.
pub open spec fn slice_text(
    rel: Seq<char>,
    content: Seq<char>,
    span: Option<(nat, nat)>,
) -> Seq<char> {
    let all = lines(content);
    let total = all.len();
    let (a, b) = match span {
        Some(s) => s,
        None => (1nat, total),
    };
    let shown = if b <= total {
        b
    } else {
        total
    };
    rel + ":"@ + decimal_nat(a) + "-"@ + decimal_nat(shown) + " ("@ + decimal_nat(total)
        + " lines)"@ + numbered_lines(all, total as int, a, b)
}

/// The numbered lines of a file that a reference asks for; all of them where it
/// names none.
pub fn render_slice(rel: &str, content: &str, span: Option<(usize, usize)>) -> (r: String)
    ensures
        r@ == slice_text(rel@, content@, span_view(span)),
{
    let all = lines_of(content);
    let total: usize = all.len();
    assert(texts(all@).len() == total);
    let (a, b) = match span {
        Some(s) => s,
        None => (1usize, total),
    };
    let shown: usize = if b <= total {
        b
    } else {
        total
    };
    let mut out = rel.to_owned();
    out.append(":");
    out.append(decimal_of_u64(a as u64).as_str());
    out.append("-");
    out.append(decimal_of_u64(shown as u64).as_str());
    out.append(" (");
    out.append(decimal_of_u64(total as u64).as_str());
    out.append(" lines)");
    let ghost head = out@;
    let ghost ls = lines(content@);
    let mut i: usize = 0;
    assert(head + numbered_lines(ls, 0, a as nat, b as nat) =~= head);
    while i < total
        invariant
            i <= total == all@.len(),
            texts(all@) == ls,
            out@ == head + numbered_lines(ls, i as int, a as nat, b as nat),
        decreases total - i,
    {
        let n: usize = i + 1;
        assert(ls[i as int] == all@[i as int]@);
        if n >= a && n <= b {
            let ghost before = numbered_lines(ls, i as int, a as nat, b as nat);
            let mut row = "\n".to_owned();
            row.append(padded(decimal_of_u64(n as u64), 5, ' ').as_str());
            row.append("  ");
            row.append(all[i].as_str());
            out.append(row.as_str());
            assert(out@ =~= head + (before + numbered(n as int, ls[i as int])));
        }
        i = n;
    }
    out
}

// ---------------------------------------------------------------------
// Collections
// ---------------------------------------------------------------------

/// A live collection at a path.
pub open spec fn collection_at(path: Seq<char>) -> spec_fn(Node) -> bool {
    |n: Node|
        n.kind == Kind::Collection && n.deleted_at is None && opt_view(n.path) == Some(path)
}

/// A live collection of a name.
pub open spec fn collection_named(name: Seq<char>) -> spec_fn(Node) -> bool {
    |n: Node|
        n.kind == Kind::Collection && n.deleted_at is None && opt_view(n.title) == Some(name)
}

fn says(s: &Option<String>, text: &str) -> (r: bool)
    ensures
        r == (opt_view(*s) == Some(text@)),
{
    match s {
        Some(t) => same(t.as_str(), text),
        None => false,
    }
}

fn find_by_path(nodes: &Vec<Node>, path: &str) -> (r: Option<usize>)
    ensures
        match r {
            Some(i) => i < nodes@.len() && first_where(nodes@, collection_at(path@)) == Some(
                i as int,
            ),
            None => first_where(nodes@, collection_at(path@)) is None,
        },
{
    let ghost p = collection_at(path@);
    let mut i: usize = 0;
    while i < nodes.len()
        invariant
            i <= nodes@.len(),
            p == collection_at(path@),
            forall|k: int| 0 <= k < i ==> !p(#[trigger] nodes@[k]),
        decreases nodes@.len() - i,
    {
        let n = &nodes[i];
        if n.kind == Kind::Collection && n.deleted_at.is_none() && says(&n.path, path) {
            proof {
                lemma_first_where_is(nodes@, p, i as int);
            }
            return Some(i);
        }
        i += 1;
    }
    proof {
        lemma_first_where_none(nodes@, p);
    }
    None
}

fn find_by_name(nodes: &Vec<Node>, name: &str) -> (r: Option<usize>)
    ensures
        match r {
            Some(i) => i < nodes@.len() && first_where(nodes@, collection_named(name@)) == Some(
                i as int,
            ),
            None => first_where(nodes@, collection_named(name@)) is None,
        },
{
    let ghost p = collection_named(name@);
    let mut i: usize = 0;
    while i < nodes.len()
        invariant
            i <= nodes@.len(),
            p == collection_named(name@),
            forall|k: int| 0 <= k < i ==> !p(#[trigger] nodes@[k]),
        decreases nodes@.len() - i,
    {
        let n = &nodes[i];
        if n.kind == Kind::Collection && n.deleted_at.is_none() && says(&n.title, name) {
            proof {
                lemma_first_where_is(nodes@, p, i as int);
            }
            return Some(i);
        }
        i += 1;
    }
    proof {
        lemma_first_where_none(nodes@, p);
    }
    None
}

/// What registering a docs root comes to.
#[derive(Debug)]
pub enum Registration {
    /// The root is registered already, as the node at this position.
    Existing(usize),
    /// This node is to be stored.
    New(NewNode),
}

/// Registers a docs root, unless it is registered already. `canonical` is the
/// root in canonical form.
pub fn add_collection(
    nodes: &Vec<Node>,
    is_dir: bool,
    root: &str,
    canonical: &str,
    name: &str,
    project_id: Option<i64>,
) -> (r: Result<Registration, Error>)
    ensures
        if !is_dir {
            r matches Err(Error::Invalid(m)) && m@ == "not a directory: "@ + root@
        } else {
            match first_where(nodes@, collection_at(canonical@)) {
                Some(i) => r matches Ok(Registration::Existing(k)) && k == i,
                None => r matches Ok(Registration::New(n)) && n.kind == Some(Kind::Collection)
                    && opt_view(n.title) == Some(name@) && opt_view(n.path) == Some(canonical@)
                    && n.project_id == project_id && n.body is None && n.subkind is None
                    && n.collection_id is None && n.parent_id is None && n.lang is None
                    && n.span_start is None && n.span_end is None && n.content_hash is None
                    && n.meta is None && n.tags@.len() == 0,
            }
        },
{
    if !is_dir {
        let mut m = "not a directory: ".to_owned();
        m.append(root);
        return Err(Error::Invalid(m));
    }
    match find_by_path(nodes, canonical) {
        Some(i) => Ok(Registration::Existing(i)),
        None => {
            let mut new = NewNode::new(Kind::Collection);
            new.title = Some(name.to_owned());
            new.path = Some(canonical.to_owned());
            new.project_id = project_id;
            Ok(Registration::New(new))
        },
    }
}

/// Finds a collection by name, else by canonical path.
pub fn find_collection(nodes: &Vec<Node>, reference: &str, canonical: &str) -> (r: Result<
    usize,
    Error,
>)
    ensures
        match first_where(nodes@, collection_named(reference@)) {
            Some(i) => r matches Ok(k) && k == i,
            None => match first_where(nodes@, collection_at(canonical@)) {
                Some(i) => r matches Ok(k) && k == i,
                None => r matches Err(Error::NotFound(m)) && m@ == "collection '"@ + reference@
                    + "'"@,
            },
        },
{
    if let Some(i) = find_by_name(nodes, reference) {
        return Ok(i);
    }
    match find_by_path(nodes, canonical) {
        Some(i) => Ok(i),
        None => {
            let mut m = "collection '".to_owned();
            m.append(reference);
            m.append("'");
            Err(Error::NotFound(m))
        },
    }
}

/// Live nodes of a kind in a collection.
pub open spec fn indexed_as(collection_id: i64, kind: Kind) -> spec_fn(Node) -> bool {
    |n: Node| n.collection_id == Some(collection_id) && n.kind == kind && n.deleted_at is None
}

fn in_collection(n: &Node, collection_id: i64) -> (r: bool)
    ensures
        r == (n.collection_id == Some(collection_id)),
{
    match n.collection_id {
        Some(c) => c == collection_id,
        None => false,
    }
}

/// How many files and chunks of a collection are live.
pub fn collection_stats(nodes: &Vec<Node>, collection_id: i64) -> (r: (usize, usize))
    ensures
        r.0 == count_where(nodes@, indexed_as(collection_id, Kind::File)),
        r.1 == count_where(nodes@, indexed_as(collection_id, Kind::Chunk)),
{
    let ghost p = indexed_as(collection_id, Kind::File);
    let ghost q = indexed_as(collection_id, Kind::Chunk);
    let mut files: usize = 0;
    let mut chunks: usize = 0;
    let mut i: usize = 0;
    assert(nodes@.take(0) =~= Seq::empty());
    while i < nodes.len()
        invariant
            i <= nodes@.len(),
            p == indexed_as(collection_id, Kind::File),
            q == indexed_as(collection_id, Kind::Chunk),
            files <= i,
            chunks <= i,
            files == count_where(nodes@.take(i as int), p),
            chunks == count_where(nodes@.take(i as int), q),
        decreases nodes@.len() - i,
    {
        assert(nodes@.take(i + 1).drop_last() =~= nodes@.take(i as int));
        assert(nodes@.take(i + 1).last() == nodes@[i as int]);
        let n = &nodes[i];
        if in_collection(n, collection_id) && n.deleted_at.is_none() {
            if n.kind == Kind::File {
                files += 1;
            }
            if n.kind == Kind::Chunk {
                chunks += 1;
            }
        }
        i += 1;
    }
    assert(nodes@.take(nodes@.len() as int) =~= nodes@);
    (files, chunks)
}

/// Whether removing a collection removes a node: the collection itself and what
/// is indexed under it, as far as it is live.
pub open spec fn falls_with(n: Node, collection_id: i64) -> bool {
    n.deleted_at is None && (n.id == collection_id || n.collection_id == Some(collection_id))
}

/// Soft-deletes a collection and everything indexed under it.
pub fn remove_collection(nodes: &mut Vec<Node>, collection_id: i64, now: i64)
    ensures
        final(nodes)@.len() == old(nodes)@.len(),
        forall|i: int|
            0 <= i < old(nodes)@.len() ==> #[trigger] final(nodes)@[i] == (if falls_with(
                old(nodes)@[i],
                collection_id,
            ) {
                Node { deleted_at: Some(now), ..old(nodes)@[i] }
            } else {
                old(nodes)@[i]
            }),
{
    let ghost was = nodes@;
    let mut i: usize = 0;
    while i < nodes.len()
        invariant
            i <= nodes@.len(),
            nodes@.len() == was.len(),
            forall|k: int|
                0 <= k < i ==> #[trigger] nodes@[k] == (if falls_with(was[k], collection_id) {
                    Node { deleted_at: Some(now), ..was[k] }
                } else {
                    was[k]
                }),
            forall|k: int| i <= k < was.len() ==> #[trigger] nodes@[k] == was[k],
        decreases nodes@.len() - i,
    {
        let hit = nodes[i].deleted_at.is_none() && (nodes[i].id == collection_id || in_collection(
            &nodes[i],
            collection_id,
        ));
        if hit {
            nodes[i].deleted_at = Some(now);
        }
        i += 1;
    }
}

/// Whether a new node is a context note on a collection or a file.
pub open spec fn is_note_on(n: NewNode, target: Node, text: Seq<char>) -> bool {
    &&& n.kind == Some(Kind::Annotation)
    &&& opt_view(n.title) == Some(title_of(text))
    &&& opt_view(n.body) == Some(text)
    &&& n.project_id == target.project_id
    &&& n.collection_id == (if target.kind == Kind::Collection {
        Some(target.id)
    } else {
        target.collection_id
    })
    &&& n.subkind is None
    &&& n.parent_id is None
    &&& n.path is None
    &&& n.span_start is None
    &&& n.span_end is None
    &&& n.lang is None
    &&& n.tags@.len() == 0
    &&& n.content_hash is None
    &&& n.meta is None
}

/// A context note on a collection or a file, to be stored under `id`, and the edge
/// that says what it describes.
pub fn annotate(target: &Node, text: &str, id: i64) -> (r: (NewNode, NewEdge))
    ensures
        is_note_on(r.0, *target, text@),
        r.1 == (NewEdge { src: id, dst: target.id, rel: Rel::Describes }),
{
    let mut new = NewNode::new(Kind::Annotation);
    new.title = Some(derive_title(text));
    new.body = Some(text.to_owned());
    new.project_id = target.project_id;
    new.collection_id = if target.kind == Kind::Collection {
        Some(target.id)
    } else {
        target.collection_id
    };
    (new, NewEdge { src: id, dst: target.id, rel: Rel::Describes })
}

// ---------------------------------------------------------------------
// Incremental indexing
// ---------------------------------------------------------------------

/// What an indexing run did.
#[derive(Debug, Clone, Copy, PartialEq, Eq, Structural)]
pub struct IndexStats {
    pub seen: usize,
    pub indexed: usize,
    pub unchanged: usize,
    pub removed: usize,
    pub chunks: usize,
}

impl Default for IndexStats {
    fn default() -> (r: IndexStats)
        ensures
            r == (IndexStats { seen: 0, indexed: 0, unchanged: 0, removed: 0, chunks: 0 }),
    {
        IndexStats { seen: 0, indexed: 0, unchanged: 0, removed: 0, chunks: 0 }
    }
}

/// Whether a file is a document: by its extension, in any case.
pub open spec fn is_document(path: Seq<char>) -> bool {
    match file_name(path) {
        Some(n) => all_lower(extension(n)) == "md"@ || all_lower(extension(n)) == "markdown"@,
        None => false,
    }
}

/// Whether a file is a document.
pub fn is_markdown(path: &str) -> (r: bool)
    ensures
        r == is_document(path@),
{
    match file_name_of(path) {
        Some(n) => {
            let ext = lower_of(extension_of(n.as_str()).as_str());
            same(ext.as_str(), "md") || same(ext.as_str(), "markdown")
        },
        None => false,
    }
}

/// Whether a file is known, live, and has the recorded time and size.
pub open spec fn stat_unchanged(existing: Option<Node>, mtime: i64, size: i64) -> bool {
    existing is Some && existing->0.deleted_at is None && existing->0.meta.mtime == Some(mtime)
        && existing->0.meta.size == Some(size)
}

/// The metadata that records a file's time and size.
pub open spec fn stat_meta(mtime: i64, size: i64) -> Meta {
    Meta { mtime: Some(mtime), size: Some(size), ..Meta::nothing() }
}

/// The hash of a file's content.
pub open spec fn file_hash(content: Seq<char>) -> Seq<u8> {
    blake3_of(encode_utf8(content))
}

/// Whether a file is known, live, and has the recorded content.
pub open spec fn content_unchanged(existing: Option<Node>, content: Seq<char>) -> bool {
    existing is Some && existing->0.deleted_at is None && existing->0.content_hash is Some
        && existing->0.content_hash->0@ == file_hash(content)
}

/// What a file's entry on disk calls for.
#[derive(Debug, Clone, Copy, PartialEq, Eq, Structural)]
pub enum Step {
    /// Nothing: time and size are as recorded.
    Skip,
    /// The content has to be read.
    Read,
}

/// What a file's content calls for.
#[derive(Debug)]
pub enum Change {
    /// Record the new time and size; the content is as recorded.
    Restamp,
    /// Store the file anew, or update the node it has, and replace its chunks.
    Reindex { hash: Vec<u8>, file: Option<NewNode>, chunks: Vec<NewNode> },
}

/// The title of a document: its file name without extension, else its path.
pub open spec fn doc_title_of(rel: Seq<char>) -> Seq<char> {
    match file_stem(rel) {
        Some(s) => s,
        None => rel,
    }
}

/// The chunks of a document.
pub open spec fn chunks_for(rel: Seq<char>, content: Seq<char>) -> Seq<ChunkView> {
    doc_chunks(
        doc_of(
            doc_title_of(rel),
            content,
            scanned(marks_of(content), marks_of(content).len() as int).headings,
            scanned(marks_of(content), marks_of(content).len() as int).fences,
        ),
    )
}

/// Whether a new node is the one for a file.
pub open spec fn is_file_node(
    n: NewNode,
    rel: Seq<char>,
    content: Seq<char>,
    collection: Node,
    mtime: i64,
    size: i64,
) -> bool {
    &&& n.kind == Some(Kind::File)
    &&& opt_view(n.title) == Some(
        match file_name(rel) {
            Some(s) => s,
            None => rel,
        },
    )
    &&& opt_view(n.path) == Some(rel)
    &&& opt_view(n.lang) == Some("markdown"@)
    &&& n.collection_id == Some(collection.id)
    &&& n.project_id == collection.project_id
    &&& n.content_hash is Some && n.content_hash->0@ == file_hash(content)
    &&& n.meta == Some(stat_meta(mtime, size))
    &&& n.body is None
    &&& n.subkind is None
    &&& n.parent_id is None
    &&& n.span_start is None
    &&& n.span_end is None
    &&& n.tags@.len() == 0
}

/// Whether a new node is the one for a chunk. Its parent is set once the file
/// has a node.
pub open spec fn is_chunk_node(
    n: NewNode,
    c: ChunkView,
    rel: Seq<char>,
    collection: Node,
    file_id: Option<i64>,
) -> bool {
    &&& n.kind == Some(Kind::Chunk)
    &&& opt_view(n.title) == Some(c.title)
    &&& opt_view(n.body) == Some(c.body)
    &&& opt_view(n.path) == Some(rel)
    &&& opt_view(n.lang) == Some("markdown"@)
    &&& n.parent_id == file_id
    &&& n.collection_id == Some(collection.id)
    &&& n.project_id == collection.project_id
    &&& n.span_start == Some(c.start_line as i64)
    &&& n.span_end == Some(c.end_line as i64)
    &&& n.content_hash is Some && n.content_hash->0@ == file_hash(c.body)
    &&& n.subkind is None
    &&& n.tags@.len() == 0
    &&& n.meta is None
}

/// Whether a change is what the content of a file calls for: nothing but a new stamp
/// where it is as recorded, else the file and its chunks anew.
pub open spec fn is_change_for(
    change: Change,
    existing: Option<Node>,
    rel: Seq<char>,
    content: Seq<char>,
    collection: Node,
    mtime: i64,
    size: i64,
) -> bool {
    if content_unchanged(existing, content) {
        change is Restamp
    } else {
        &&& change matches Change::Reindex { hash, file, chunks }
        &&& hash@ == file_hash(content)
        &&& match existing {
            Some(_) => file is None,
            None => file is Some && is_file_node(file->0, rel, content, collection, mtime, size),
        }
        &&& chunks@.len() == chunks_for(rel, content).len()
        &&& forall|i: int|
            0 <= i < chunks@.len() ==> is_chunk_node(
                #[trigger] chunks@[i],
                chunks_for(rel, content)[i],
                rel,
                collection,
                match existing {
                    Some(f) => Some(f.id),
                    None => None,
                },
            )
    }
}

fn chunk_node(c: &DocChunk, rel: &str, collection: &Node, file_id: Option<i64>) -> (r: NewNode)
    ensures
        is_chunk_node(r, c@, rel@, *collection, file_id),
{
    let mut new = NewNode::new(Kind::Chunk);
    new.title = Some(c.title.clone());
    new.body = Some(c.body.clone());
    new.path = Some(rel.to_owned());
    new.lang = Some("markdown".to_owned());
    new.parent_id = file_id;
    new.collection_id = Some(collection.id);
    new.project_id = collection.project_id;
    new.span_start = Some(c.start_line as i64);
    new.span_end = Some(c.end_line as i64);
    new.content_hash = Some(blake3_hash(c.body.as_str()));
    new
}

fn file_node(
    rel: &str,
    hash: Vec<u8>,
    collection: &Node,
    mtime: i64,
    size: i64,
    Ghost(content): Ghost<Seq<char>>,
) -> (r: NewNode)
    requires
        hash@ == file_hash(content),
    ensures
        is_file_node(r, rel@, content, *collection, mtime, size),
{
    let mut meta = Meta::empty();
    meta.mtime = Some(mtime);
    meta.size = Some(size);
    let mut new = NewNode::new(Kind::File);
    new.title = Some(
        match file_name_of(rel) {
            Some(n) => n,
            None => rel.to_owned(),
        },
    );
    new.path = Some(rel.to_owned());
    new.lang = Some("markdown".to_owned());
    new.collection_id = Some(collection.id);
    new.project_id = collection.project_id;
    new.content_hash = Some(hash);
    new.meta = Some(meta);
    new
}

/// A run over one collection: what has been seen, and what was done.
pub struct Indexer {
    /// Paths met on disk.
    pub seen: Vec<String>,
    pub stats: IndexStats,
}

impl Indexer {
    /// Every file met was either indexed or found unchanged, but for the one
    /// whose content is awaited.
    pub open spec fn settled(self, awaited: int) -> bool {
        &&& self.stats.seen == self.seen@.len()
        &&& self.stats.indexed + self.stats.unchanged + awaited == self.stats.seen
    }

    /// Nothing was met yet.
    pub open spec fn is_fresh(self) -> bool {
        &&& self.seen@.len() == 0
        &&& self.stats == (IndexStats {
            seen: 0,
            indexed: 0,
            unchanged: 0,
            removed: 0,
            chunks: 0,
        })
    }

    /// What a document that is met changes: it is counted, and counted as unchanged
    /// where its time and size are as recorded.
    pub open spec fn has_met(
        self,
        before: Indexer,
        rel: Seq<char>,
        existing: Option<Node>,
        mtime: i64,
        size: i64,
    ) -> bool {
        let skipped: int = if stat_unchanged(existing, mtime, size) {
            1
        } else {
            0
        };
        &&& texts(self.seen@) == texts(before.seen@).push(rel)
        &&& self.settled(1 - skipped)
        &&& self.stats.unchanged == before.stats.unchanged + skipped
        &&& self.stats.indexed == before.stats.indexed
        &&& self.stats.removed == before.stats.removed
        &&& self.stats.chunks == before.stats.chunks
    }

    /// What the content of a document changes: it is counted as unchanged where it is
    /// as recorded, else as indexed with its chunks.
    pub open spec fn has_read(
        self,
        before: Indexer,
        rel: Seq<char>,
        existing: Option<Node>,
        content: Seq<char>,
    ) -> bool {
        let n = before.stats.chunks + chunks_for(rel, content).len();
        &&& self.settled(0)
        &&& self.seen@ == before.seen@
        &&& self.stats.removed == before.stats.removed
        &&& if content_unchanged(existing, content) {
            &&& self.stats.unchanged == before.stats.unchanged + 1
            &&& self.stats.chunks == before.stats.chunks
        } else {
            &&& self.stats.indexed == before.stats.indexed + 1
            &&& self.stats.chunks == (if n <= usize::MAX {
                n
            } else {
                usize::MAX as int
            })
        }
    }

    /// What the end of the walk changes: the files that have vanished are counted.
    pub open spec fn has_finished(
        self,
        before: Indexer,
        live: Seq<(i64, Seq<char>)>,
        gone: Seq<i64>,
    ) -> bool {
        &&& gone == vanished(live, texts(before.seen@))
        &&& self.seen@ == before.seen@
        &&& self.stats == (IndexStats { removed: gone.len() as usize, ..before.stats })
        &&& self.stats.removed == gone.len()
    }

    /// A run that has met nothing yet. Fails where the collection has no root or
    /// the root is gone.
    pub fn start(collection: &Node, root_exists: bool) -> (r: Result<Indexer, Error>)
        ensures
            match collection.path {
                None => r matches Err(Error::Invalid(m)) && m@ == "collection has no path"@,
                Some(p) => if root_exists {
                    r matches Ok(x) && x.is_fresh()
                } else {
                    r matches Err(Error::NotFound(m)) && m@ == "collection root missing: "@ + p@
                },
            },
    {
        match &collection.path {
            None => Err(Error::Invalid("collection has no path".to_owned())),
            Some(p) => {
                if !root_exists {
                    let mut m = "collection root missing: ".to_owned();
                    m.append(p.as_str());
                    return Err(Error::NotFound(m));
                }
                Ok(Indexer { seen: Vec::new(), stats: IndexStats::default() })
            },
        }
    }

    /// A document was met on disk. `existing` is the node it has, if any.
    pub fn on_file(&mut self, rel: &str, existing: Option<&Node>, mtime: i64, size: i64) -> (r:
        Step)
        requires
            old(self).settled(0),
        ensures
            r == (if stat_unchanged(node_of(existing), mtime, size) {
                Step::Skip
            } else {
                Step::Read
            }),
            final(self).has_met(*old(self), rel@, node_of(existing), mtime, size),
    {
        let ghost before = texts(self.seen@);
        let s = rel.to_owned();
        self.seen.push(s);
        assert(texts(self.seen@) =~= before.push(rel@));
        self.stats.seen = self.seen.len();
        let same_stat = match existing {
            Some(f) => f.deleted_at.is_none() && (match f.meta.mtime {
                Some(t) => t == mtime,
                None => false,
            }) && (match f.meta.size {
                Some(n) => n == size,
                None => false,
            }),
            None => false,
        };
        if same_stat {
            self.stats.unchanged = self.stats.unchanged + 1;
            Step::Skip
        } else {
            Step::Read
        }
    }

    /// The content of a document was read.
    pub fn on_content(
        &mut self,
        rel: &str,
        existing: Option<&Node>,
        content: &str,
        collection: &Node,
        mtime: i64,
        size: i64,
    ) -> (r: Change)
        requires
            old(self).settled(1),
        ensures
            is_change_for(r, node_of(existing), rel@, content@, *collection, mtime, size),
            final(self).has_read(*old(self), rel@, node_of(existing), content@),
    {
        let hash = blake3_hash(content);
        let same_content = match existing {
            Some(f) => f.deleted_at.is_none() && (match &f.content_hash {
                Some(h) => same_bytes(h, &hash),
                None => false,
            }),
            None => false,
        };
        if same_content {
            self.stats.unchanged = self.stats.unchanged + 1;
            return Change::Restamp;
        }
        let title = match file_stem_of(rel) {
            Some(s) => s,
            None => rel.to_owned(),
        };
        let pieces = chunk_markdown(title.as_str(), content);
        let file_id: Option<i64> = match existing {
            Some(f) => Some(f.id),
            None => None,
        };
        let ghost cv = chunks_for(rel@, content@);
        let mut chunks: Vec<NewNode> = Vec::new();
        let mut i: usize = 0;
        assert(chunk_views(pieces@).len() == pieces@.len());
        while i < pieces.len()
            invariant
                i <= pieces@.len(),
                chunks@.len() == i,
                cv == chunk_views(pieces@),
                cv.len() == pieces@.len(),
                forall|k: int|
                    0 <= k < i ==> is_chunk_node(
                        #[trigger] chunks@[k],
                        cv[k],
                        rel@,
                        *collection,
                        file_id,
                    ),
            decreases pieces@.len() - i,
        {
            assert(cv[i as int] == pieces@[i as int]@);
            chunks.push(chunk_node(&pieces[i], rel, collection, file_id));
            i += 1;
        }
        self.stats.indexed = self.stats.indexed + 1;
        self.stats.chunks = self.stats.chunks.saturating_add(chunks.len());
        let file = match existing {
            Some(_) => None,
            None => Some(
                file_node(
                    rel,
                    crate::seqs::copy_bytes(&hash),
                    collection,
                    mtime,
                    size,
                    Ghost(content@),
                ),
            ),
        };
        Change::Reindex { hash, file, chunks }
    }

    /// The walk is over: the ids of the live files that were not met, which are
    /// soft-deleted with their chunks. `live` are the collection's live files.
    pub fn finish(&mut self, live: &Vec<(i64, String)>) -> (r: Vec<i64>)
        requires
            old(self).settled(0),
            old(self).stats.removed == 0,
        ensures
            final(self).has_finished(*old(self), file_views(live@), r@),
    {
        let ghost all = file_views(live@);
        let mut out: Vec<i64> = Vec::new();
        let mut i: usize = 0;
        assert(all.take(0) =~= Seq::empty());
        while i < live.len()
            invariant
                i <= live@.len(),
                all == file_views(live@),
                out@ == vanished(all.take(i as int), texts(self.seen@)),
            decreases live@.len() - i,
        {
            assert(all.take(i + 1).drop_last() =~= all.take(i as int));
            assert(all.take(i + 1).last() == (live@[i as int].0, live@[i as int].1@));
            if !is_member(&self.seen, live[i].1.as_str()) {
                out.push(live[i].0);
            }
            i += 1;
        }
        assert(all.take(all.len() as int) =~= all);
        self.stats.removed = out.len();
        out
    }
}

/// The node behind an optional reference.
pub open spec fn node_of(n: Option<&Node>) -> Option<Node> {
    match n {
        Some(x) => Some(*x),
        None => None,
    }
}

/// Ids with their paths.
pub open spec fn file_views(v: Seq<(i64, String)>) -> Seq<(i64, Seq<char>)> {
    Seq::new(v.len(), |i: int| (v[i].0, v[i].1@))
}

/// The ids of the files whose path is not among `seen`.
pub open spec fn vanished(live: Seq<(i64, Seq<char>)>, seen: Seq<Seq<char>>) -> Seq<i64>
    decreases live.len(),
{
    if live.len() == 0 {
        Seq::empty()
    } else if seen.contains(live.last().1) {
        vanished(live.drop_last(), seen)
    } else {
        vanished(live.drop_last(), seen).push(live.last().0)
    }
}

/// A file whose time and size are as recorded is not read again: indexing an
/// unchanged file a second time does nothing.
pub proof fn unchanged_file_is_skipped(f: Node, mtime: i64, size: i64)
    requires
        f.deleted_at is None,
        f.meta.mtime == Some(mtime),
        f.meta.size == Some(size),
    ensures
        stat_unchanged(Some(f), mtime, size),
{
}

/// A deleted file is always read and indexed again when it comes back.
pub proof fn deleted_file_comes_back(f: Node, content: Seq<char>, mtime: i64, size: i64)
    requires
        f.deleted_at is Some,
    ensures
        !stat_unchanged(Some(f), mtime, size),
        !content_unchanged(Some(f), content),
{
}

/// A file that was met is never taken for vanished.
pub proof fn seen_file_is_kept(live: Seq<(i64, Seq<char>)>, seen: Seq<Seq<char>>, id: i64)
    requires
        forall|i: int|
            0 <= i < live.len() && (#[trigger] live[i]).0 == id ==> seen.contains(live[i].1),
    ensures
        !vanished(live, seen).contains(id),
    decreases live.len(),
{
    if live.len() > 0 {
        let rest = live.drop_last();
        assert forall|i: int| 0 <= i < rest.len() && (#[trigger] rest[i]).0
            == id implies seen.contains(rest[i].1) by {
            assert(rest[i] == live[i]);
        }
        seen_file_is_kept(rest, seen, id);
        let last = live[live.len() - 1];
        let v = vanished(live, seen);
        if v.contains(id) {
            let k = choose|k: int| 0 <= k < v.len() && v[k] == id;
            let w = vanished(rest, seen);
            if k < w.len() {
                assert(w[k] == id);
            }
        }
    }
}

} // verus!
