//! Laws of indexing, of reading files back and of notes on what is indexed.

use vstd::prelude::*;

#[allow(unused_imports)]
use crate::index::chunker::ChunkView;
#[allow(unused_imports)]
use crate::index::run::{
    all_dropped, are_chunk_rows, existing, is_applied, is_file_at, is_file_step, is_not_below,
    is_reindexed, live_list, replaced_below, restamped, DiskFile,
};
#[allow(unused_imports)]
use crate::index::{
    chunks_for, collection_at, collection_named, content_unchanged, doc_title_of, falls_with,
    file_hash, first_at, indexed_as, is_change_for, is_chunk_node, is_document, is_file_node,
    is_note_on, is_path_like, known_paths, last_at, numbered_lines, reference_parts, slice_text,
    stat_meta, stat_unchanged, vanished, Change, Indexer,
};
#[allow(unused_imports)]
use crate::json::opt_view;
#[allow(unused_imports)]
use crate::memory::title_of;
#[allow(unused_imports)]
use crate::model::{Kind, NewNode, Node};
#[allow(unused_imports)]
use crate::paths::{extension, file_name, file_stem};
#[allow(unused_imports)]
use crate::seqs::kept;
#[allow(unused_imports)]
use crate::text::{all_lower, decimal_nat, is_digit, lemma_decimal_digits, lines, pad_left, texts};
#[allow(unused_imports)]
use vstd::string::*;

verus! {

// ---------------------------------------------------------------------
// References
// ---------------------------------------------------------------------

proof fn lemma_first_at(a: Seq<char>, c: char, b: Seq<char>)
    requires
        forall|k: int| 0 <= k < a.len() ==> #[trigger] a[k] != c,
    ensures
        first_at(a + seq![c] + b, c) == a.len(),
        first_at(a, c) == a.len(),
    decreases a.len(),
{
    let s = a + seq![c] + b;
    if a.len() > 0 {
        let t = a.skip(1);
        assert forall|k: int| 0 <= k < t.len() implies #[trigger] t[k] != c by {
            assert(t[k] == a[k + 1]);
        }
        lemma_first_at(t, c, b);
        assert(s.skip(1) =~= t + seq![c] + b);
        assert(s[0] == a[0]);
    } else {
        assert(s[0] == c);
    }
}

proof fn lemma_last_at(a: Seq<char>, c: char, b: Seq<char>)
    requires
        forall|k: int| 0 <= k < b.len() ==> #[trigger] b[k] != c,
    ensures
        last_at(a + seq![c] + b, c) == a.len(),
    decreases b.len(),
{
    let s = a + seq![c] + b;
    if b.len() > 0 {
        let t = b.drop_last();
        assert forall|k: int| 0 <= k < t.len() implies #[trigger] t[k] != c by {
            assert(t[k] == b[k]);
        }
        lemma_last_at(a, c, t);
        assert(s.drop_last() =~= a + seq![c] + t);
        assert(s.last() == b[b.len() - 1]);
    }
}

proof fn lemma_no_char(a: Seq<char>, c: char)
    requires
        forall|k: int| 0 <= k < a.len() ==> #[trigger] a[k] != c,
    ensures
        last_at(a, c) == -1,
    decreases a.len(),
{
    if a.len() > 0 {
        let t = a.drop_last();
        assert(a[a.len() - 1] != c);
        assert forall|k: int| 0 <= k < t.len() implies #[trigger] t[k] != c by {
            assert(t[k] == a[k]);
        }
        lemma_no_char(t, c);
    }
}

/// A reference names a path, and behind a colon the line or the lines: `path:10`,
/// `path:10-20`, or the path alone.
pub proof fn a_reference_names_lines(path: Seq<char>, a: nat, b: nat)
    requires
        path.len() > 0,
        a <= usize::MAX,
        b <= usize::MAX,
    ensures
        reference_parts(path + seq![':'] + decimal_nat(a)) == (path, Some((a, a))),
        reference_parts(path + seq![':'] + (decimal_nat(a) + seq!['-'] + decimal_nat(b))) == (
            path,
            Some((a, b)),
        ),
        (forall|k: int| 0 <= k < path.len() ==> #[trigger] path[k] != ':') ==> reference_parts(path)
            == (path, None::<(nat, nat)>),
{
    let (x, y) = (decimal_nat(a), decimal_nat(b));
    lemma_decimal_digits(a);
    lemma_decimal_digits(b);
    super::text::numbers_read_back(a, usize::MAX as int);
    super::text::numbers_read_back(b, usize::MAX as int);
    assert forall|k: int| 0 <= k < x.len() implies #[trigger] x[k] != '-' && x[k] != ':' by {
        assert(is_digit(x[k]));
    }
    assert forall|k: int| 0 <= k < y.len() implies #[trigger] y[k] != ':' by {
        assert(is_digit(y[k]));
    }
    let n = path.len() as int;
    let r = path + seq![':'] + x;
    lemma_last_at(path, ':', x);
    assert(r.skip(n + 1) =~= x);
    assert(r.take(n) =~= path);
    lemma_first_at(x, '-', y);
    let z = x + seq!['-'] + y;
    assert(z.take(x.len() as int) =~= x);
    assert(z.skip(x.len() as int + 1) =~= y);
    let q = path + seq![':'] + z;
    assert forall|k: int| 0 <= k < z.len() implies #[trigger] z[k] != ':' by {
        if k < x.len() {
            assert(z[k] == x[k]);
        } else if k > x.len() {
            assert(z[k] == y[k - x.len() - 1]);
        }
    }
    lemma_last_at(path, ':', z);
    assert(q.skip(n + 1) =~= z);
    assert(q.take(n) =~= path);
    if forall|k: int| 0 <= k < path.len() ==> #[trigger] path[k] != ':' {
        lemma_no_char(path, ':');
    }
}

/// What holds a slash or a dot may be a path.
pub proof fn paths_hold_a_slash_or_a_dot(p: Seq<char>, i: int)
    ensures
        0 <= i < p.len() && (p[i] == '/' || p[i] == '.') ==> is_path_like(p),
        (forall|k: int| 0 <= k < p.len() ==> #[trigger] p[k] != '/' && p[k] != '.')
            ==> !is_path_like(p),
{
    if 0 <= i < p.len() && (p[i] == '/' || p[i] == '.') {
        assert(p.contains(p[i]));
    }
}

/// The known paths are those of the files that have one, in order.
pub proof fn known_paths_are_those_of_the_files(files: Seq<Node>, f: Node)
    ensures
        f.path is Some ==> known_paths(files.push(f)) == known_paths(files).push(f.path->0@),
        f.path is None ==> known_paths(files.push(f)) == known_paths(files),
        known_paths(Seq::empty()).len() == 0,
{
    assert(files.push(f).drop_last() =~= files);
}

// ---------------------------------------------------------------------
// Showing lines
// ---------------------------------------------------------------------

/// Lines are shown from the first to the last that is asked for, each with its number, in
/// five places, two spaces before its text.
pub proof fn lines_are_shown_with_their_numbers(all: Seq<Seq<char>>, n: int, a: nat, b: nat)
    requires
        0 < n <= all.len(),
    ensures
        a <= n <= b ==> numbered_lines(all, n, a, b) == numbered_lines(all, n - 1, a, b) + "\n"@
            + pad_left(decimal_nat(n as nat), 5, ' ') + "  "@ + all[n - 1],
        n < a || n > b ==> numbered_lines(all, n, a, b) == numbered_lines(all, n - 1, a, b),
        numbered_lines(all, 0, a, b).len() == 0,
{
    if a <= n <= b {
        let p = numbered_lines(all, n - 1, a, b);
        let (x, y, z, w) = ("\n"@, pad_left(decimal_nat(n as nat), 5, ' '), "  "@, all[n - 1]);
        assert(p + (x + y + z + w) =~= p + x + y + z + w);
    }
}

/// Above the lines stands where they are from, which they are and how many there are in
/// all; without a span all are shown, and no more than there are.
pub proof fn a_slice_says_where_it_is_from(rel: Seq<char>, content: Seq<char>, a: nat, b: nat)
    ensures
        ({
            let all = lines(content);
            let n = all.len();
            &&& slice_text(rel, content, None) == rel + ":"@ + decimal_nat(1) + "-"@ + decimal_nat(n)
                + " ("@ + decimal_nat(n) + " lines)"@ + numbered_lines(all, n as int, 1, n)
            &&& b <= n ==> slice_text(rel, content, Some((a, b))) == rel + ":"@ + decimal_nat(a)
                + "-"@ + decimal_nat(b) + " ("@ + decimal_nat(n) + " lines)"@ + numbered_lines(
                all,
                n as int,
                a,
                b,
            )
            &&& b > n ==> slice_text(rel, content, Some((a, b))) == rel + ":"@ + decimal_nat(a)
                + "-"@ + decimal_nat(n) + " ("@ + decimal_nat(n) + " lines)"@ + numbered_lines(
                all,
                n as int,
                a,
                b,
            )
        }),
{
}

// ---------------------------------------------------------------------
// Collections and notes
// ---------------------------------------------------------------------

/// A collection is found by its path or by its name, where it is not deleted; what is
/// indexed in it by its kind.
pub proof fn collections_are_found_alive(n: Node, s: Seq<char>, id: i64, kind: Kind)
    ensures
        collection_at(s)(n) <==> n.kind is Collection && n.deleted_at is None && n.path is Some
            && n.path->0@ == s,
        collection_named(s)(n) <==> n.kind is Collection && n.deleted_at is None && n.title is Some
            && n.title->0@ == s,
        indexed_as(id, kind)(n) <==> n.collection_id == Some(id) && n.kind == kind && n.deleted_at
            is None,
        falls_with(n, id) <==> n.deleted_at is None && (n.id == id || n.collection_id == Some(id)),
{
}

/// A note says its text and stands where its target stands: in the same project, and in
/// its collection, or in the target where that is one.
pub proof fn a_note_stands_with_its_target(n: NewNode, target: Node, text: Seq<char>)
    requires
        is_note_on(n, target, text),
    ensures
        n.kind == Some(Kind::Annotation),
        n.body is Some && n.body->0@ == text,
        n.title is Some && n.title->0@ == title_of(text),
        n.project_id == target.project_id,
        target.kind is Collection ==> n.collection_id == Some(target.id),
        !(target.kind is Collection) ==> n.collection_id == target.collection_id,
        n.tags@.len() == 0,
        n.path is None,
        n.parent_id is None,
        n.span_start is None,
        n.span_end is None,
        n.lang is None,
        n.subkind is None,
        n.meta is None,
{
}

// ---------------------------------------------------------------------
// Files
// ---------------------------------------------------------------------

/// A document is what ends in `.md` or `.markdown`, whatever the case.
pub proof fn documents_by_their_ending(path: Seq<char>, n: Seq<char>)
    requires
        file_name(path) == Some(n),
    ensures
        is_document(path) <==> all_lower(extension(n)) == "md"@ || all_lower(extension(n))
            == "markdown"@,
{
}

/// A file is skipped only where it is recorded, not deleted, and of the recorded time and
/// size; what was read is unchanged only where it is recorded, not deleted, and of the
/// recorded hash.
pub proof fn a_changed_file_is_read(f: Node, mtime: i64, size: i64, content: Seq<char>)
    ensures
        !stat_unchanged(None, mtime, size),
        stat_unchanged(Some(f), mtime, size) <==> f.deleted_at is None && f.meta.mtime == Some(
            mtime,
        ) && f.meta.size == Some(size),
        !content_unchanged(None, content),
        content_unchanged(Some(f), content) <==> f.deleted_at is None && f.content_hash is Some
            && f.content_hash->0@ == file_hash(content),
        stat_meta(mtime, size).mtime == Some(mtime),
        stat_meta(mtime, size).size == Some(size),
{
}

/// A file is stored under its path, with its name as title, in its collection and its
/// project, with its hash, time and size.
pub proof fn a_file_is_stored_under_its_path(
    n: NewNode,
    rel: Seq<char>,
    content: Seq<char>,
    collection: Node,
    mtime: i64,
    size: i64,
)
    requires
        is_file_node(n, rel, content, collection, mtime, size),
    ensures
        n.kind == Some(Kind::File),
        n.path is Some && n.path->0@ == rel,
        file_name(rel) is Some ==> n.title is Some && n.title->0@ == file_name(rel)->0,
        file_name(rel) is None ==> n.title is Some && n.title->0@ == rel,
        n.lang is Some && n.lang->0@ == "markdown"@,
        n.collection_id == Some(collection.id),
        n.project_id == collection.project_id,
        n.content_hash is Some && n.content_hash->0@ == file_hash(content),
        n.meta is Some && n.meta->0.mtime == Some(mtime) && n.meta->0.size == Some(size),
        n.body is None,
        n.parent_id is None,
        n.tags@.len() == 0,
{
}

/// A chunk is stored below its file: with its title and text, from its first line to its
/// last, in the same collection and project.
pub proof fn a_chunk_is_stored_below_its_file(
    n: NewNode,
    c: ChunkView,
    rel: Seq<char>,
    collection: Node,
    file_id: Option<i64>,
)
    requires
        is_chunk_node(n, c, rel, collection, file_id),
        1 <= c.start_line <= i64::MAX,
        1 <= c.end_line <= i64::MAX,
    ensures
        n.kind == Some(Kind::Chunk),
        n.title is Some && n.title->0@ == c.title,
        n.body is Some && n.body->0@ == c.body,
        n.path is Some && n.path->0@ == rel,
        n.lang is Some && n.lang->0@ == "markdown"@,
        n.parent_id == file_id,
        n.collection_id == Some(collection.id),
        n.project_id == collection.project_id,
        n.span_start is Some && n.span_start->0 == c.start_line,
        n.span_end is Some && n.span_end->0 == c.end_line,
        n.content_hash is Some && n.content_hash->0@ == file_hash(c.body),
        n.tags@.len() == 0,
        n.meta is None,
{
}

/// A document is titled by its file's name without the ending.
pub proof fn a_document_is_titled_by_its_name(rel: Seq<char>)
    ensures
        file_stem(rel) is Some ==> doc_title_of(rel) == file_stem(rel)->0,
        file_stem(rel) is None ==> doc_title_of(rel) == rel,
{
}

/// Content that did not change is only stamped anew; content that did is cut into chunks
/// again, all of them, and the file is stored where it was not.
pub proof fn changed_content_is_indexed_again(
    change: Change,
    existing: Option<Node>,
    rel: Seq<char>,
    content: Seq<char>,
    collection: Node,
    mtime: i64,
    size: i64,
)
    requires
        is_change_for(change, existing, rel, content, collection, mtime, size),
    ensures
        change is Restamp <==> existing is Some && existing->0.deleted_at is None
            && existing->0.content_hash is Some && existing->0.content_hash->0@ == file_hash(content),
        change matches Change::Reindex { hash, file, chunks } ==> hash@ == file_hash(content) && (
        file is Some <==> existing is None) && chunks@.len() == chunks_for(rel, content).len() && (
        forall|i: int|
            0 <= i < chunks@.len() ==> (#[trigger] chunks@[i]).body is Some && chunks@[i].body->0@
                == chunks_for(rel, content)[i].body && chunks@[i].title is Some
                && chunks@[i].title->0@ == chunks_for(rel, content)[i].title) && (
        existing is Some ==> forall|i: int|
            0 <= i < chunks@.len() ==> (#[trigger] chunks@[i]).parent_id == Some(existing->0.id)),
{
    if let Change::Reindex { hash, file, chunks } = change {
        assert forall|i: int| 0 <= i < chunks@.len() implies (#[trigger] chunks@[i]).body is Some
            && chunks@[i].body->0@ == chunks_for(rel, content)[i].body && chunks@[i].title is Some
            && chunks@[i].title->0@ == chunks_for(rel, content)[i].title by {
            assert(is_chunk_node(
                chunks@[i],
                chunks_for(rel, content)[i],
                rel,
                collection,
                match existing {
                    Some(f) => Some(f.id),
                    None => None,
                },
            ));
        }
    }
}

/// What is recorded and was not met on disk has vanished, and nothing else has.
pub proof fn the_unseen_have_vanished(
    live: Seq<(i64, Seq<char>)>,
    f: (i64, Seq<char>),
    seen: Seq<Seq<char>>,
)
    ensures
        seen.contains(f.1) ==> vanished(live.push(f), seen) == vanished(live, seen),
        !seen.contains(f.1) ==> vanished(live.push(f), seen) == vanished(live, seen).push(f.0),
        vanished(Seq::empty(), seen).len() == 0,
{
    assert(live.push(f).drop_last() =~= live);
}

// ---------------------------------------------------------------------
// The store after a run
// ---------------------------------------------------------------------

/// The files of a collection that are not deleted are listed with their paths.
pub proof fn live_files_are_listed(nodes: Seq<Node>, n: Node, id: i64)
    ensures
        ({
            let counts = n.kind is File && n.collection_id == Some(id) && n.deleted_at is None
                && n.path is Some;
            &&& counts ==> live_list(nodes.push(n), id) == live_list(nodes, id).push(
                (n.id, n.path->0@),
            )
            &&& !counts ==> live_list(nodes.push(n), id) == live_list(nodes, id)
        }),
        live_list(Seq::empty(), id).len() == 0,
        forall|rel: Seq<char>|
            #[trigger] is_file_at(id, rel)(n) <==> n.kind is File && n.collection_id == Some(id)
                && n.path is Some && n.path->0@ == rel,
{
    assert(nodes.push(n).drop_last() =~= nodes);
}

/// A file that is stamped anew keeps everything but its time, size and time of change; one
/// that is indexed anew is alive again and has the new hash too.
pub proof fn a_stamp_changes_nothing_else(
    n: Node,
    was: Node,
    hash: Seq<u8>,
    mtime: i64,
    size: i64,
    now: i64,
)
    ensures
        ({
            let r = restamped(was, mtime, size, now);
            &&& r.meta.mtime == Some(mtime)
            &&& r.meta.size == Some(size)
            &&& r.updated_at == now
            &&& r == Node { meta: r.meta, updated_at: now, ..was }
        }),
        is_reindexed(n, was, hash, mtime, size, now) ==> n.deleted_at is None && n.content_hash
            is Some && n.content_hash->0@ == hash && n.id == was.id && n.uid == was.uid && n.path
            == was.path && n.title == was.title && n.collection_id == was.collection_id
            && n.created_at == was.created_at && n.updated_at == now && n.meta.mtime == Some(mtime)
            && n.meta.size == Some(size),
{
}

/// A file that vanished falls, and what stands below it too; everything else stays.
pub proof fn what_vanished_falls(nodes: Seq<Node>, gone: Seq<i64>, now: i64, i: int)
    requires
        0 <= i < nodes.len(),
    ensures
        all_dropped(nodes, gone, now).len() == nodes.len(),
        ({
            let n = nodes[i];
            let r = all_dropped(nodes, gone, now)[i];
            let falls = gone.contains(n.id) || (n.parent_id is Some && gone.contains(
                n.parent_id->0,
            ));
            &&& n.deleted_at is None && falls ==> r == Node { deleted_at: Some(now), ..n }
            &&& n.deleted_at is Some || !falls ==> r == n
        }),
{
}

/// The chunks that a file had are replaced by the new ones, and what does not stand below
/// the file stays.
pub proof fn old_chunks_are_replaced(nodes: Seq<Node>, i: int, f: Node, rows: Seq<Node>, x: Node)
    requires
        0 <= i < nodes.len(),
    ensures
        ({
            let r = replaced_below(nodes, i, f, rows);
            &&& rows.contains(x) ==> r.contains(x)
            &&& nodes.update(i, f).contains(x) && x.parent_id != Some(nodes[i].id) ==> r.contains(x)
            &&& r.contains(x) && !rows.contains(x) ==> x.parent_id != Some(nodes[i].id)
                && nodes.update(i, f).contains(x)
        }),
{
    let all = nodes.update(i, f);
    let p = is_not_below(nodes[i].id);
    super::order::keeping_loses_nothing(all, p, x);
    let k = kept(all, p);
    let r = replaced_below(nodes, i, f, rows);
    assert(r == k + rows);
    if rows.contains(x) {
        let j = choose|j: int| 0 <= j < rows.len() && rows[j] == x;
        assert(r[k.len() + j] == x);
    }
    if k.contains(x) {
        let j = choose|j: int| 0 <= j < k.len() && k[j] == x;
        assert(r[j] == x);
    }
    if r.contains(x) && !rows.contains(x) {
        let j = choose|j: int| 0 <= j < r.len() && r[j] == x;
        if j >= k.len() {
            assert(rows[j - k.len()] == x);
        } else {
            assert(k[j] == x);
        }
    }
}

/// New chunks are stored below the file, one row for each, with ids that follow each
/// other.
pub proof fn chunks_are_stored_in_order(
    rows: Seq<Node>,
    chunks: Seq<NewNode>,
    file_id: i64,
    first_id: int,
    now: i64,
    i: int,
)
    requires
        are_chunk_rows(rows, chunks, file_id, first_id, now),
        0 <= i < rows.len(),
        0 <= first_id,
        first_id + rows.len() <= i64::MAX,
    ensures
        rows.len() == chunks.len(),
        rows[i].id == first_id + i,
        rows[i].parent_id == Some(file_id),
        opt_view(rows[i].body) == opt_view(chunks[i].body),
        opt_view(rows[i].title) == opt_view(chunks[i].title),
        rows[i].collection_id == chunks[i].collection_id,
        rows[i].project_id == chunks[i].project_id,
{
    let n = NewNode { parent_id: Some(file_id), ..chunks[i] };
    assert(n.is_stored_as(rows[i], (first_id + i) as i64, rows[i].uid@, now));
}

/// What a run ends with: what vanished is removed and counted, and nothing else changes.
pub proof fn a_run_ends_with_what_vanished(
    before: Indexer,
    after: Indexer,
    live: Seq<(i64, Seq<char>)>,
    gone: Seq<i64>,
)
    requires
        after.has_finished(before, live, gone),
    ensures
        gone == vanished(live, texts(before.seen@)),
        after.stats.removed == gone.len(),
        after.seen@ == before.seen@,
        after.stats.seen == before.stats.seen,
        after.stats.indexed == before.stats.indexed,
        after.stats.unchanged == before.stats.unchanged,
        after.stats.chunks == before.stats.chunks,
{
}

/// A file whose time and size are as recorded is counted and leaves the store as it is.
pub proof fn an_unchanged_file_leaves_the_store(
    x: Indexer,
    y: Indexer,
    before: Seq<Node>,
    after: Seq<Node>,
    collection: Node,
    f: DiskFile,
    first_id: i64,
    now: i64,
)
    requires
        is_file_step(x, y, before, after, collection, f, first_id, now),
        stat_unchanged(existing(before, collection.id, f.rel), f.mtime, f.size),
    ensures
        after == before,
        y.stats.unchanged == x.stats.unchanged + 1,
        y.stats.indexed == x.stats.indexed,
        y.stats.chunks == x.stats.chunks,
        texts(y.seen@) == texts(x.seen@).push(f.rel),
{
}

/// A change is applied to the file it is of: a stamp to its row alone; new content to its
/// row and to what stands below it; and a new file is added with its chunks behind it.
pub proof fn a_change_is_applied_to_its_file(
    before: Seq<Node>,
    after: Seq<Node>,
    place: Option<int>,
    change: Change,
    mtime: i64,
    size: i64,
    first_id: i64,
    now: i64,
    k: int,
)
    requires
        is_applied(before, after, place, change, mtime, size, first_id, now),
        place matches Some(i) ==> 0 <= i < before.len(),
    ensures
        change is Restamp ==> place is Some && after.len() == before.len() && after[place->0]
            == restamped(before[place->0], mtime, size, now) && (0 <= k < before.len() && k
            != place->0 ==> after[k] == before[k]),
        change matches Change::Reindex { hash, file, chunks } ==> (place is None ==> after.len()
            == before.len() + 1 + chunks@.len() && (0 <= k < before.len() ==> after[k] == before[k])
            && file is Some && after[before.len() as int].id == first_id && (0 <= k < chunks@.len()
            ==> after[before.len() + 1 + k].parent_id == Some(first_id) && opt_view(
            after[before.len() + 1 + k].body,
        ) == opt_view(chunks@[k].body))),
{
    if let Change::Reindex { hash, file, chunks } = change {
        if place is None {
            let (f, rows) = choose|f: Node, rows: Seq<Node>|
                #![trigger before.push(f) + rows]
                file is Some && crate::replicate::is_ulid(f.uid@) && file->0.is_stored_as(
                    f,
                    first_id,
                    f.uid@,
                    now,
                ) && are_chunk_rows(rows, chunks@, first_id, first_id + 1, now) && after
                    == before.push(f) + rows;
            if 0 <= k < chunks@.len() {
                assert(after[before.len() + 1 + k] == rows[k]);
                assert(crate::replicate::is_ulid(rows[k].uid@));
            }
        }
    }
}

} // verus!
