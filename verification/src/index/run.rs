//! An indexing run on the stored nodes: finding a file's node, applying what its
//! content calls for, and dropping what has vanished.

use vstd::prelude::*;

use crate::index::Change;
#[allow(unused_imports)]
use crate::index::Indexer;
#[allow(unused_imports)]
use crate::index::{file_views, is_change_for, stat_meta, stat_unchanged, vanished};
#[allow(unused_imports)]
use crate::json::opt_view;
use crate::model::{Kind, Meta, NewNode, Node};
use crate::replicate::new_token;
#[allow(unused_imports)]
use crate::replicate::is_ulid;
#[allow(unused_imports)]
use crate::seqs::{
    first_where, kept, lemma_first_where, lemma_first_where_is, lemma_first_where_none,
};
use crate::text::same;
#[allow(unused_imports)]
use crate::text::texts;

verus! {

// ---------------------------------------------------------------------
// Files of a collection
// ---------------------------------------------------------------------

/// Files of a collection at a path.
pub open spec fn is_file_at(collection_id: i64, rel: Seq<char>) -> spec_fn(Node) -> bool {
    |n: Node|
        n.kind == Kind::File && n.collection_id == Some(collection_id) && opt_view(n.path) == Some(
            rel,
        )
}

/// The place of the node that a file has, deleted or not.
pub fn find_file(nodes: &Vec<Node>, collection_id: i64, rel: &str) -> (r: Option<usize>)
    ensures
        match r {
            Some(i) => i < nodes@.len() && first_where(nodes@, is_file_at(collection_id, rel@))
                == Some(i as int),
            None => first_where(nodes@, is_file_at(collection_id, rel@)) is None,
        },
{
    let ghost p = is_file_at(collection_id, rel@);
    let mut i: usize = 0;
    while i < nodes.len()
        invariant
            i <= nodes@.len(),
            p == is_file_at(collection_id, rel@),
            forall|k: int| 0 <= k < i ==> !p(#[trigger] nodes@[k]),
        decreases nodes@.len() - i,
    {
        let n = &nodes[i];
        let here = match &n.path {
            Some(path) => same(path.as_str(), rel),
            None => false,
        };
        if here && n.kind == Kind::File && is_in(n, collection_id) {
            proof {
                lemma_first_where_is(nodes@, p, i as int);
            }
            return Some(i);
        }
        i += 1;
    }
    proof {
        lemma_first_where_none(nodes@, p);
    }
    None
}

fn is_in(n: &Node, collection_id: i64) -> (r: bool)
    ensures
        r == (n.collection_id == Some(collection_id)),
{
    match n.collection_id {
        Some(c) => c == collection_id,
        None => false,
    }
}

/// Whether a node is a live file of a collection.
pub open spec fn is_live_file(n: Node, collection_id: i64) -> bool {
    n.kind == Kind::File && n.collection_id == Some(collection_id) && n.deleted_at is None
        && n.path is Some
}

/// The live files of a collection, each its id and path.
pub open spec fn live_list(nodes: Seq<Node>, collection_id: i64) -> Seq<(i64, Seq<char>)>
    decreases nodes.len(),
{
    if nodes.len() == 0 {
        Seq::empty()
    } else if is_live_file(nodes.last(), collection_id) {
        live_list(nodes.drop_last(), collection_id).push((nodes.last().id, nodes.last().path->0@))
    } else {
        live_list(nodes.drop_last(), collection_id)
    }
}

/// The live files of a collection.
pub fn live_files(nodes: &Vec<Node>, collection_id: i64) -> (r: Vec<(i64, String)>)
    ensures
        file_views(r@) == live_list(nodes@, collection_id),
{
    let mut out: Vec<(i64, String)> = Vec::new();
    let mut i: usize = 0;
    assert(file_views(out@) =~= live_list(nodes@.take(0), collection_id));
    while i < nodes.len()
        invariant
            i <= nodes@.len(),
            file_views(out@) == live_list(nodes@.take(i as int), collection_id),
        decreases nodes@.len() - i,
    {
        assert(nodes@.take(i + 1).drop_last() =~= nodes@.take(i as int));
        assert(nodes@.take(i + 1).last() == nodes@[i as int]);
        let n = &nodes[i];
        let ghost before = file_views(out@);
        if n.kind == Kind::File && is_in(n, collection_id) && n.deleted_at.is_none() {
            if let Some(path) = &n.path {
                let row = (n.id, path.clone());
                out.push(row);
                assert(file_views(out@) =~= before.push((row.0, row.1@)));
            }
        }
        i += 1;
    }
    assert(nodes@.take(nodes@.len() as int) =~= nodes@);
    out
}

// ---------------------------------------------------------------------
// Applying a change
// ---------------------------------------------------------------------

/// Nodes that are not below a file.
pub open spec fn is_not_below(file_id: i64) -> spec_fn(Node) -> bool {
    |n: Node| n.parent_id != Some(file_id)
}

/// A file with a new time and size.
pub open spec fn restamped(n: Node, mtime: i64, size: i64, now: i64) -> Node {
    Node { meta: stat_meta(mtime, size), updated_at: now, ..n }
}

/// Whether `n` is the file `was` indexed again: live, with the hash of its content
/// and its time and size.
pub open spec fn is_reindexed(
    n: Node,
    was: Node,
    hash: Seq<u8>,
    mtime: i64,
    size: i64,
    now: i64,
) -> bool {
    &&& n.content_hash is Some && n.content_hash->0@ == hash
    &&& n == Node {
        content_hash: n.content_hash,
        deleted_at: None,
        ..restamped(was, mtime, size, now)
    }
}

/// Whether rows are those of a file's chunks, numbered from `first_id`. Their uids
/// are left to chance.
pub open spec fn are_chunk_rows(
    rows: Seq<Node>,
    chunks: Seq<NewNode>,
    file_id: i64,
    first_id: int,
    now: i64,
) -> bool {
    &&& rows.len() == chunks.len()
    &&& forall|i: int|
        0 <= i < rows.len() ==> is_ulid((#[trigger] rows[i]).uid@) && (NewNode {
            parent_id: Some(file_id),
            ..chunks[i]
        }).is_stored_as(rows[i], (first_id + i) as i64, rows[i].uid@, now)
}

/// Whether a change can be applied to the node at a place, or to none.
pub open spec fn fits(change: Change, place: Option<int>) -> bool {
    match change {
        Change::Restamp => place is Some,
        Change::Reindex { hash, file, chunks } => {
            &&& (file is Some) == (place is None)
            &&& file is Some ==> file->0.kind is Some
            &&& forall|i: int| 0 <= i < chunks@.len() ==> (#[trigger] chunks@[i]).kind is Some
        },
    }
}

/// How many ids a change may take.
pub open spec fn ids_taken(change: Change) -> int {
    match change {
        Change::Restamp => 0int,
        Change::Reindex { hash, file, chunks } => chunks@.len() as int + 1,
    }
}

/// The nodes with `f` in place of the file at `i`, and `rows` in place of what was
/// below it.
pub open spec fn replaced_below(nodes: Seq<Node>, i: int, f: Node, rows: Seq<Node>) -> Seq<Node> {
    kept(nodes.update(i, f), is_not_below(nodes[i].id)) + rows
}

/// Whether `after` are the stored nodes once a change is applied to the file at
/// `place`: a new stamp; or the file live again with its new hash, time and size,
/// and its chunks replaced; or the new file and its chunks.
pub open spec fn is_applied(
    before: Seq<Node>,
    after: Seq<Node>,
    place: Option<int>,
    change: Change,
    mtime: i64,
    size: i64,
    first_id: i64,
    now: i64,
) -> bool {
    match change {
        Change::Restamp => place is Some && after == before.update(
            place->0,
            restamped(before[place->0], mtime, size, now),
        ),
        Change::Reindex { hash, file, chunks } => match place {
            Some(i) => exists|f: Node, rows: Seq<Node>|
                is_reindexed(f, before[i], hash@, mtime, size, now) && are_chunk_rows(
                    rows,
                    chunks@,
                    before[i].id,
                    first_id as int,
                    now,
                ) && after == #[trigger] replaced_below(before, i, f, rows),
            None => exists|f: Node, rows: Seq<Node>|
                #![trigger before.push(f) + rows]
                file is Some && is_ulid(f.uid@) && file->0.is_stored_as(f, first_id, f.uid@, now)
                    && are_chunk_rows(rows, chunks@, first_id, first_id + 1, now) && after
                    == before.push(f) + rows,
        },
    }
}

fn drop_below(nodes: &mut Vec<Node>, file_id: i64)
    ensures
        final(nodes)@ == kept(old(nodes)@, is_not_below(file_id)),
{
    let ghost all = nodes@;
    let ghost p = is_not_below(file_id);
    let n: usize = nodes.len();
    let mut dropped: usize = 0;
    let mut i: usize = 0;
    assert(nodes@ =~= kept(all.take(0), p) + all.skip(0));
    while i < nodes.len()
        invariant
            i <= nodes@.len(),
            n == all.len(),
            nodes@.len() + dropped == n,
            p == is_not_below(file_id),
            kept(all.take(i + dropped), p).len() == i,
            nodes@ == kept(all.take(i + dropped), p) + all.skip(i + dropped),
        decreases nodes@.len() - i,
    {
        let ghost k = i + dropped;
        let ghost head = kept(all.take(k), p);
        assert(all.take(k + 1).drop_last() =~= all.take(k));
        assert(all.take(k + 1).last() == all[k]);
        assert(nodes@[i as int] == all[k]);
        let below = match nodes[i].parent_id {
            Some(id) => id == file_id,
            None => false,
        };
        if below {
            nodes.remove(i);
            assert(nodes@ =~= head + all.skip(k + 1));
            dropped += 1;
        } else {
            assert(head.push(all[k]) + all.skip(k + 1) =~= head + all.skip(k));
            i += 1;
        }
    }
    assert(all.take(n as int) =~= all);
    assert(nodes@ =~= kept(all, p));
}

fn chunk_rows(chunks: Vec<NewNode>, file_id: i64, first_id: i64, now: i64) -> (r: Vec<Node>)
    requires
        first_id + chunks@.len() <= i64::MAX,
        forall|i: int| 0 <= i < chunks@.len() ==> (#[trigger] chunks@[i]).kind is Some,
    ensures
        are_chunk_rows(r@, chunks@, file_id, first_id as int, now),
{
    let ghost all = chunks@;
    let mut rest = chunks;
    let mut out: Vec<Node> = Vec::new();
    let n: usize = rest.len();
    while out.len() < n
        invariant
            n == all.len(),
            out@.len() <= n,
            rest@ == all.skip(out@.len() as int),
            first_id + n <= i64::MAX,
            forall|i: int| 0 <= i < all.len() ==> (#[trigger] all[i]).kind is Some,
            forall|i: int|
                0 <= i < out@.len() ==> is_ulid((#[trigger] out@[i]).uid@) && (NewNode {
                    parent_id: Some(file_id),
                    ..all[i]
                }).is_stored_as(out@[i], (first_id + i) as i64, out@[i].uid@, now),
        decreases n - out@.len(),
    {
        let k: usize = out.len();
        assert(rest@[0] == all[k as int]);
        let mut new = rest.remove(0);
        assert(rest@ =~= all.skip(k + 1));
        new.parent_id = Some(file_id);
        let uid = new_token();
        let id: i64 = (first_id as i128 + k as i128) as i64;
        let row = new.stored(id, uid, now);
        out.push(row);
    }
    out
}

/// Applies what a file's content calls for to the stored nodes. `place` is where the
/// file's node stands, if it has one, and new nodes are numbered from `first_id`.
pub fn apply_change(
    nodes: &mut Vec<Node>,
    place: Option<usize>,
    change: Change,
    mtime: i64,
    size: i64,
    first_id: i64,
    now: i64,
)
    requires
        place is Some ==> place->0 < old(nodes)@.len(),
        fits(change, place_of(place)),
        first_id + ids_taken(change) <= i64::MAX,
    ensures
        is_applied(
            old(nodes)@,
            final(nodes)@,
            place_of(place),
            change,
            mtime,
            size,
            first_id,
            now,
        ),
{
    let ghost before = nodes@;
    let mut stamp = Meta::empty();
    stamp.mtime = Some(mtime);
    stamp.size = Some(size);
    match change {
        Change::Restamp => {
            if let Some(i) = place {
                nodes[i].meta = stamp;
                nodes[i].updated_at = now;
                assert(nodes@ =~= before.update(
                    i as int,
                    restamped(before[i as int], mtime, size, now),
                ));
            }
        },
        Change::Reindex { hash, file, chunks } => match place {
            Some(i) => {
                let id: i64 = nodes[i].id;
                nodes[i].meta = stamp;
                nodes[i].updated_at = now;
                nodes[i].deleted_at = None;
                nodes[i].content_hash = Some(hash);
                let ghost f = nodes@[i as int];
                assert(nodes@ =~= before.update(i as int, f));
                drop_below(nodes, id);
                let mut rows = chunk_rows(chunks, id, first_id, now);
                let ghost fresh = rows@;
                nodes.append(&mut rows);
                proof {
                    assert(is_reindexed(f, before[i as int], hash@, mtime, size, now));
                    assert(nodes@ =~= kept(before.update(i as int, f), is_not_below(id)) + fresh);
                    assert(nodes@ == replaced_below(before, i as int, f, fresh));
                }
            },
            None => {
                if let Some(new) = file {
                    let uid = new_token();
                    let f = new.stored(first_id, uid, now);
                    let ghost row = f;
                    nodes.push(f);
                    let mut rows = chunk_rows(chunks, first_id, first_id + 1, now);
                    let ghost fresh = rows@;
                    nodes.append(&mut rows);
                    assert(nodes@ =~= before.push(row) + fresh);
                }
            },
        },
    }
}

/// The place behind an optional index.
pub open spec fn place_of(place: Option<usize>) -> Option<int> {
    match place {
        Some(i) => Some(i as int),
        None => None,
    }
}

/// A node once files are dropped: soft-deleted where it is one of them, or below one.
pub open spec fn dropped(n: Node, gone: Seq<i64>, now: i64) -> Node {
    if n.deleted_at is None && (gone.contains(n.id) || (n.parent_id is Some && gone.contains(
        n.parent_id->0,
    ))) {
        Node { deleted_at: Some(now), ..n }
    } else {
        n
    }
}

/// The nodes once files are dropped.
pub open spec fn all_dropped(nodes: Seq<Node>, gone: Seq<i64>, now: i64) -> Seq<Node> {
    Seq::new(nodes.len(), |i: int| dropped(nodes[i], gone, now))
}

fn has_id(ids: &Vec<i64>, id: i64) -> (r: bool)
    ensures
        r == ids@.contains(id),
{
    let mut i: usize = 0;
    while i < ids.len()
        invariant
            i <= ids@.len(),
            forall|k: int| 0 <= k < i ==> #[trigger] ids@[k] != id,
        decreases ids@.len() - i,
    {
        if ids[i] == id {
            return true;
        }
        i += 1;
    }
    false
}

/// Soft-deletes the files that have vanished, with their chunks.
pub fn drop_files(nodes: &mut Vec<Node>, gone: &Vec<i64>, now: i64)
    ensures
        final(nodes)@ == all_dropped(old(nodes)@, gone@, now),
{
    let ghost was = nodes@;
    let mut i: usize = 0;
    while i < nodes.len()
        invariant
            i <= nodes@.len(),
            nodes@.len() == was.len(),
            forall|k: int| 0 <= k < i ==> #[trigger] nodes@[k] == dropped(was[k], gone@, now),
            forall|k: int| i <= k < was.len() ==> #[trigger] nodes@[k] == was[k],
        decreases nodes@.len() - i,
    {
        let below = match nodes[i].parent_id {
            Some(id) => has_id(gone, id),
            None => false,
        };
        if nodes[i].deleted_at.is_none() && (has_id(gone, nodes[i].id) || below) {
            nodes[i].deleted_at = Some(now);
        }
        i += 1;
    }
    assert(nodes@ =~= all_dropped(was, gone@, now));
}

// ---------------------------------------------------------------------
// A whole run
// ---------------------------------------------------------------------

/// A document on disk.
pub ghost struct DiskFile {
    pub rel: Seq<char>,
    pub mtime: i64,
    pub size: i64,
    pub content: Seq<char>,
}

/// The node that a file has in a store.
pub open spec fn existing(nodes: Seq<Node>, collection_id: i64, rel: Seq<char>) -> Option<Node> {
    match first_where(nodes, is_file_at(collection_id, rel)) {
        Some(i) => Some(nodes[i]),
        None => None,
    }
}

/// Whether meeting a file takes a run from `x` to `y` and the store from `before` to
/// `after`: nothing is stored where its time and size are as recorded, else what its
/// content calls for is applied.
pub open spec fn is_file_step(
    x: Indexer,
    y: Indexer,
    before: Seq<Node>,
    after: Seq<Node>,
    collection: Node,
    f: DiskFile,
    first_id: i64,
    now: i64,
) -> bool {
    let was = existing(before, collection.id, f.rel);
    if stat_unchanged(was, f.mtime, f.size) {
        y.has_met(x, f.rel, was, f.mtime, f.size) && after == before
    } else {
        exists|met: Indexer, change: Change|
            {
                &&& #[trigger] met.has_met(x, f.rel, was, f.mtime, f.size)
                &&& y.has_read(met, f.rel, was, f.content)
                &&& #[trigger] is_change_for(
                    change,
                    was,
                    f.rel,
                    f.content,
                    collection,
                    f.mtime,
                    f.size,
                )
                &&& is_applied(
                    before,
                    after,
                    first_where(before, is_file_at(collection.id, f.rel)),
                    change,
                    f.mtime,
                    f.size,
                    first_id,
                    now,
                )
            }
    }
}

/// A run over `files`, up to the end of the walk: `runs[k]` and `states[k]` are what
/// was counted and what was stored once `k` of them were met, and the file at `k` was
/// met at `times[k]`, with nodes numbered from `ids[k]`.
pub ghost struct Walk {
    pub files: Seq<DiskFile>,
    pub runs: Seq<Indexer>,
    pub states: Seq<Seq<Node>>,
    pub ids: Seq<i64>,
    pub times: Seq<i64>,
}

impl Walk {
    /// Whether this is a walk over a collection, each path met once.
    pub open spec fn is_of(self, collection: Node) -> bool {
        let n = self.files.len();
        &&& self.runs.len() == n + 1
        &&& self.states.len() == n + 1
        &&& self.ids.len() == n
        &&& self.times.len() == n
        &&& self.runs[0].is_fresh()
        &&& forall|k: int|
            0 <= k < n ==> is_file_step(
                self.runs[k],
                self.runs[k + 1],
                self.states[k],
                self.states[k + 1],
                collection,
                #[trigger] self.files[k],
                self.ids[k],
                self.times[k],
            )
        &&& forall|i: int, j: int|
            #![trigger self.files[i], self.files[j]]
            0 <= i < j < n ==> self.files[i].rel != self.files[j].rel
    }
}

/// The paths of some files.
pub open spec fn paths_of(files: Seq<DiskFile>) -> Seq<Seq<char>> {
    Seq::new(files.len(), |i: int| files[i].rel)
}


/// Whether a store is up to date with the disk: every file has a live node with its
/// time and size, and every live file node is of one of the files.
pub open spec fn is_current(nodes: Seq<Node>, collection_id: i64, files: Seq<DiskFile>) -> bool {
    &&& forall|k: int|
        0 <= k < files.len() ==> stat_unchanged(
            existing(nodes, collection_id, (#[trigger] files[k]).rel),
            files[k].mtime,
            files[k].size,
        )
    &&& forall|i: int|
        0 <= i < nodes.len() && is_live_file(#[trigger] nodes[i], collection_id)
            ==> paths_of(files).contains(nodes[i].path->0@)
}

/// Whether no file of a collection stands below another node.
pub open spec fn files_on_top(nodes: Seq<Node>, collection_id: i64) -> bool {
    forall|i: int|
        0 <= i < nodes.len() && (#[trigger] nodes[i]).kind == Kind::File && nodes[i].collection_id
            == Some(collection_id) ==> nodes[i].parent_id is None
}

proof fn lemma_found_update(s: Seq<Node>, i: int, x: Node, p: spec_fn(Node) -> bool)
    requires
        0 <= i < s.len(),
        p(x) == p(s[i]),
    ensures
        first_where(s.update(i, x), p) == first_where(s, p),
{
    let t = s.update(i, x);
    lemma_first_where(s, p);
    match first_where(s, p) {
        Some(j) => {
            assert forall|k: int| 0 <= k < j implies !p(#[trigger] t[k]) by {
                assert(!p(s[k]));
            }
            assert(p(t[j]));
            lemma_first_where_is(t, p, j);
        },
        None => {
            assert forall|k: int| 0 <= k < t.len() implies !p(#[trigger] t[k]) by {
                assert(!p(s[k]));
            }
            lemma_first_where_none(t, p);
        },
    }
}

proof fn lemma_found_append(s: Seq<Node>, t: Seq<Node>, p: spec_fn(Node) -> bool)
    requires
        first_where(s, p) is Some,
    ensures
        first_where(s + t, p) == first_where(s, p),
{
    let i = first_where(s, p)->0;
    lemma_first_where(s, p);
    let u = s + t;
    assert forall|k: int| 0 <= k < i implies !p(#[trigger] u[k]) by {
        assert(u[k] == s[k]);
    }
    assert(u[i] == s[i]);
    lemma_first_where_is(u, p, i);
}

/// Leaving out nodes that are not looked for does not change what is found.
proof fn lemma_found_kept(s: Seq<Node>, p: spec_fn(Node) -> bool, q: spec_fn(Node) -> bool)
    requires
        forall|k: int| 0 <= k < s.len() && p(#[trigger] s[k]) ==> q(s[k]),
    ensures
        match first_where(s, p) {
            Some(i) => first_where(kept(s, q), p) is Some && kept(s, q)[first_where(
                kept(s, q),
                p,
            )->0] == s[i],
            None => first_where(kept(s, q), p) is None,
        },
    decreases s.len(),
{
    if s.len() > 0 {
        let t = s.drop_last();
        assert forall|k: int| 0 <= k < t.len() && p(#[trigger] t[k]) implies q(t[k]) by {
            assert(t[k] == s[k]);
        }
        lemma_found_kept(t, p, q);
        lemma_first_where(t, p);
        lemma_first_where(kept(t, q), p);
        let last = s[s.len() - 1];
        if q(last) {
            assert(kept(s, q).drop_last() =~= kept(t, q));
        }
    }
}

proof fn lemma_top_kept(nodes: Seq<Node>, collection_id: i64, q: spec_fn(Node) -> bool)
    requires
        files_on_top(nodes, collection_id),
    ensures
        files_on_top(kept(nodes, q), collection_id),
{
    crate::seqs::lemma_kept(nodes, q);
    let r = kept(nodes, q);
    assert forall|i: int|
        0 <= i < r.len() && (#[trigger] r[i]).kind == Kind::File && r[i].collection_id == Some(
            collection_id,
        ) implies r[i].parent_id is None by {
        assert(nodes.contains(r[i]));
        let k = choose|k: int| 0 <= k < nodes.len() && nodes[k] == r[i];
        assert(nodes[k].parent_id is None);
    }
}

/// The change that a step applies.
proof fn lemma_step_change(
    x: Indexer,
    y: Indexer,
    before: Seq<Node>,
    after: Seq<Node>,
    collection: Node,
    f: DiskFile,
    first_id: i64,
    now: i64,
) -> (change: Change)
    requires
        is_file_step(x, y, before, after, collection, f, first_id, now),
        !stat_unchanged(existing(before, collection.id, f.rel), f.mtime, f.size),
    ensures
        is_change_for(
            change,
            existing(before, collection.id, f.rel),
            f.rel,
            f.content,
            collection,
            f.mtime,
            f.size,
        ),
        is_applied(
            before,
            after,
            first_where(before, is_file_at(collection.id, f.rel)),
            change,
            f.mtime,
            f.size,
            first_id,
            now,
        ),
{
    let was = existing(before, collection.id, f.rel);
    let place = first_where(before, is_file_at(collection.id, f.rel));
    let (met, change) = choose|met: Indexer, change: Change|
        {
            &&& #[trigger] met.has_met(x, f.rel, was, f.mtime, f.size)
            &&& y.has_read(met, f.rel, was, f.content)
            &&& #[trigger] is_change_for(
                change,
                was,
                f.rel,
                f.content,
                collection,
                f.mtime,
                f.size,
            )
            &&& is_applied(before, after, place, change, f.mtime, f.size, first_id, now)
        };
    change
}

/// A step over one file leaves it current, leaves the others as they are, and puts no
/// file below a node.
proof fn lemma_file_step(
    before: Seq<Node>,
    after: Seq<Node>,
    collection: Node,
    f: DiskFile,
    first_id: i64,
    now: i64,
    other: Seq<char>,
)
    requires
        exists|x: Indexer, y: Indexer| #[trigger]
            is_file_step(x, y, before, after, collection, f, first_id, now),
        files_on_top(before, collection.id),
    ensures
        files_on_top(after, collection.id),
        stat_unchanged(existing(after, collection.id, f.rel), f.mtime, f.size),
        other != f.rel && existing(before, collection.id, other) is Some ==> existing(
            after,
            collection.id,
            other,
        ) == existing(before, collection.id, other),
{
    let cid = collection.id;
    let p = is_file_at(cid, f.rel);
    let o = is_file_at(cid, other);
    let was = existing(before, cid, f.rel);
    lemma_first_where(before, p);
    lemma_first_where(before, o);
    if !stat_unchanged(was, f.mtime, f.size) {
        let place = first_where(before, p);
        let (x, y) = choose|x: Indexer, y: Indexer| #[trigger]
            is_file_step(x, y, before, after, collection, f, first_id, now);
        let change = lemma_step_change(x, y, before, after, collection, f, first_id, now);
        match change {
            Change::Restamp => {
                let i = place->0;
                let x = restamped(before[i], f.mtime, f.size, now);
                lemma_found_update(before, i, x, p);
                lemma_found_update(before, i, x, o);
                assert(other != f.rel ==> !o(before[i]));
                assert(files_on_top(after, cid));
            },
            Change::Reindex { hash, file, chunks } => match place {
                Some(i) => {
                    let (x, rows) = choose|x: Node, rows: Seq<Node>|
                        is_reindexed(x, before[i], hash@, f.mtime, f.size, now) && are_chunk_rows(
                            rows,
                            chunks@,
                            before[i].id,
                            first_id as int,
                            now,
                        ) && after == #[trigger] replaced_below(before, i, x, rows);
                    let id = before[i].id;
                    let q = is_not_below(id);
                    let mid = before.update(i, x);
                    assert(p(x) == p(before[i]));
                    assert(o(x) == o(before[i]));
                    lemma_found_update(before, i, x, p);
                    lemma_found_update(before, i, x, o);
                    assert(other != f.rel ==> !o(before[i]));
                    assert(files_on_top(mid, cid));
                    assert forall|k: int| 0 <= k < mid.len() && p(#[trigger] mid[k]) implies q(
                        mid[k],
                    ) by {}
                    assert forall|k: int| 0 <= k < mid.len() && o(#[trigger] mid[k]) implies q(
                        mid[k],
                    ) by {}
                    lemma_found_kept(mid, p, q);
                    lemma_found_kept(mid, o, q);
                    let left = kept(mid, q);
                    lemma_first_where(left, p);
                    lemma_first_where(left, o);
                    lemma_found_append(left, rows, p);
                    if first_where(left, o) is Some {
                        lemma_found_append(left, rows, o);
                    }
                    lemma_top_kept(mid, cid, q);
                    assert(after =~= left + rows);
                    assert forall|k: int|
                        0 <= k < after.len() && (#[trigger] after[k]).kind == Kind::File
                            && after[k].collection_id == Some(cid) implies after[k].parent_id is None by {
                        if k < left.len() {
                            assert(after[k] == left[k]);
                        } else {
                            assert(after[k] == rows[k - left.len()]);
                            assert(is_ulid(rows[k - left.len()].uid@));
                            assert(chunks@[k - left.len()].kind == Some(Kind::Chunk));
                        }
                    }
                },
                None => {
                    let (x, rows) = choose|x: Node, rows: Seq<Node>|
                        #![trigger before.push(x) + rows]
                        file is Some && is_ulid(x.uid@) && file->0.is_stored_as(
                            x,
                            first_id,
                            x.uid@,
                            now,
                        ) && are_chunk_rows(rows, chunks@, first_id, first_id + 1, now) && after
                            == before.push(x) + rows;
                    let mid = before.push(x);
                    let n = before.len() as int;
                    assert forall|k: int| 0 <= k < n implies !p(#[trigger] mid[k]) by {
                        assert(mid[k] == before[k]);
                    }
                    assert(p(mid[n]));
                    lemma_first_where_is(mid, p, n);
                    lemma_found_append(mid, rows, p);
                    if first_where(before, o) is Some {
                        lemma_found_append(before, seq![x], o);
                        assert(before + seq![x] =~= mid);
                        lemma_found_append(mid, rows, o);
                    }
                    assert forall|k: int|
                        0 <= k < after.len() && (#[trigger] after[k]).kind == Kind::File
                            && after[k].collection_id == Some(cid) implies after[k].parent_id is None by {
                        if k < n {
                            assert(after[k] == before[k]);
                        } else if k > n {
                            assert(after[k] == rows[k - n - 1]);
                            assert(is_ulid(rows[k - n - 1].uid@));
                            assert(chunks@[k - n - 1].kind == Some(Kind::Chunk));
                        }
                    }
                },
            },
        }
    }
}

proof fn lemma_walk(w: Walk, collection: Node, k: int)
    requires
        w.is_of(collection),
        files_on_top(w.states[0], collection.id),
        0 <= k <= w.files.len(),
    ensures
        files_on_top(w.states[k], collection.id),
        texts(w.runs[k].seen@) == paths_of(w.files).take(k),
        forall|j: int|
            0 <= j < k ==> stat_unchanged(
                existing(w.states[k], collection.id, (#[trigger] w.files[j]).rel),
                w.files[j].mtime,
                w.files[j].size,
            ),
    decreases k,
{
    if k == 0 {
        assert(texts(w.runs[0].seen@) =~= paths_of(w.files).take(0));
    } else {
        let m = k - 1;
        lemma_walk(w, collection, m);
        let f = w.files[m];
        let before = w.states[m];
        let after = w.states[k];
        assert(is_file_step(
            w.runs[m],
            w.runs[m + 1],
            before,
            w.states[m + 1],
            collection,
            f,
            w.ids[m],
            w.times[m],
        ));
        assert(texts(w.runs[k].seen@) =~= paths_of(w.files).take(k));
        lemma_file_step(before, after, collection, f, w.ids[m], w.times[m], f.rel);
        assert forall|j: int| 0 <= j < k implies stat_unchanged(
            existing(after, collection.id, (#[trigger] w.files[j]).rel),
            w.files[j].mtime,
            w.files[j].size,
        ) by {
            if j < m {
                assert(w.files[j].rel != f.rel);
                lemma_file_step(
                    before,
                    after,
                    collection,
                    f,
                    w.ids[m],
                    w.times[m],
                    w.files[j].rel,
                );
            }
        }
    }
}

/// The files that are dropped are live files whose path was not met, and all of them.
proof fn lemma_vanished(nodes: Seq<Node>, collection_id: i64, seen: Seq<Seq<char>>)
    ensures
        forall|id: i64| #[trigger]
            vanished(live_list(nodes, collection_id), seen).contains(id) ==> exists|i: int|
                0 <= i < nodes.len() && (#[trigger] nodes[i]).id == id && is_live_file(
                    nodes[i],
                    collection_id,
                ) && !seen.contains(nodes[i].path->0@),
        forall|i: int|
            0 <= i < nodes.len() && is_live_file(#[trigger] nodes[i], collection_id)
                && !seen.contains(nodes[i].path->0@) ==> vanished(
                live_list(nodes, collection_id),
                seen,
            ).contains(nodes[i].id),
    decreases nodes.len(),
{
    if nodes.len() > 0 {
        let head = nodes.drop_last();
        let last = nodes[nodes.len() - 1];
        lemma_vanished(head, collection_id, seen);
        let a = vanished(live_list(head, collection_id), seen);
        let b = vanished(live_list(nodes, collection_id), seen);
        if is_live_file(last, collection_id) {
            assert(live_list(nodes, collection_id).drop_last() =~= live_list(head, collection_id));
        }
        assert forall|id: i64| #[trigger] b.contains(id) implies exists|i: int|
            0 <= i < nodes.len() && (#[trigger] nodes[i]).id == id && is_live_file(
                nodes[i],
                collection_id,
            ) && !seen.contains(nodes[i].path->0@) by {
            let k = choose|k: int| 0 <= k < b.len() && b[k] == id;
            if k < a.len() {
                assert(a[k] == id);
                assert(a.contains(id));
                let i = choose|i: int|
                    0 <= i < head.len() && (#[trigger] head[i]).id == id && is_live_file(
                        head[i],
                        collection_id,
                    ) && !seen.contains(head[i].path->0@);
                assert(nodes[i] == head[i]);
            } else {
                assert(nodes[nodes.len() - 1].id == id);
            }
        }
        assert forall|i: int|
            0 <= i < nodes.len() && is_live_file(#[trigger] nodes[i], collection_id)
                && !seen.contains(nodes[i].path->0@) implies b.contains(nodes[i].id) by {
            if i < head.len() {
                assert(head[i] == nodes[i]);
                assert(a.contains(head[i].id));
                let k = choose|k: int| 0 <= k < a.len() && a[k] == head[i].id;
                assert(b[k] == a[k]);
            } else {
                assert(b[b.len() - 1] == nodes[i].id);
            }
        }
    }
}

/// A run brings the store up to date: afterwards every file on disk has a live node
/// with its time and size, one that was deleted and came back among them, and no
/// other file is live.
pub proof fn a_run_brings_the_store_up_to_date(
    w: Walk,
    collection: Node,
    end: Indexer,
    gone: Seq<i64>,
    now: i64,
)
    requires
        w.is_of(collection),
        files_on_top(w.states[0], collection.id),
        forall|i: int, j: int|
            #![trigger w.states.last()[i], w.states.last()[j]]
            0 <= i < j < w.states.last().len() ==> w.states.last()[i].id != w.states.last()[j].id,
        end.has_finished(w.runs.last(), live_list(w.states.last(), collection.id), gone),
    ensures
        is_current(all_dropped(w.states.last(), gone, now), collection.id, w.files),
{
    let files = w.files;
    let n = files.len() as int;
    let cid = collection.id;
    lemma_walk(w, collection, n);
    let last = w.states[n];
    assert(last == w.states.last());
    let seen = paths_of(files);
    assert(seen.take(n) =~= seen);
    let after = all_dropped(last, gone, now);
    lemma_vanished(last, cid, seen);
    assert forall|k: int| 0 <= k < n implies stat_unchanged(
        existing(after, cid, (#[trigger] files[k]).rel),
        files[k].mtime,
        files[k].size,
    ) by {
        let p = is_file_at(cid, files[k].rel);
        lemma_first_where(last, p);
        let i = first_where(last, p)->0;
        assert(stat_unchanged(existing(last, cid, files[k].rel), files[k].mtime, files[k].size));
        assert(seen[k] == files[k].rel);
        if gone.contains(last[i].id) {
            let j = choose|j: int|
                0 <= j < last.len() && (#[trigger] last[j]).id == last[i].id && is_live_file(
                    last[j],
                    cid,
                ) && !seen.contains(last[j].path->0@);
            assert(j == i);
            assert(seen.contains(last[i].path->0@));
        }
        assert(after[i] == last[i]);
        assert forall|m: int| 0 <= m < i implies !p(#[trigger] after[m]) by {
            assert(!p(last[m]));
        }
        lemma_first_where_is(after, p, i);
    }
    assert forall|i: int|
        0 <= i < after.len() && is_live_file(#[trigger] after[i], cid) implies seen.contains(
        after[i].path->0@,
    ) by {
        assert(after[i] == dropped(last[i], gone, now));
        if !seen.contains(last[i].path->0@) {
            assert(is_live_file(last[i], cid));
            assert(gone.contains(last[i].id));
        }
    }
}

/// A second run over an unchanged disk and store does nothing: no node is added,
/// removed or changed, every file is seen and found unchanged, none is indexed, no
/// chunk is written, and none is dropped.
pub proof fn a_second_run_changes_nothing(
    nodes: Seq<Node>,
    w: Walk,
    collection: Node,
    end: Indexer,
    gone: Seq<i64>,
    now: i64,
)
    requires
        is_current(nodes, collection.id, w.files),
        w.is_of(collection),
        w.states[0] == nodes,
        end.has_finished(w.runs.last(), live_list(w.states.last(), collection.id), gone),
    ensures
        forall|k: int| 0 <= k <= w.files.len() ==> #[trigger] w.states[k] == nodes,
        all_dropped(w.states.last(), gone, now) == nodes,
        end.stats.seen == w.files.len(),
        end.stats.unchanged == end.stats.seen,
        end.stats.indexed == 0,
        end.stats.removed == 0,
        end.stats.chunks == 0,
{
    let cid = collection.id;
    let n = w.files.len() as int;
    let seen = paths_of(w.files);
    lemma_idle_walk(nodes, w, collection, n);
    assert(seen.take(n) =~= seen);
    assert(w.states.last() == nodes);
    lemma_vanished(nodes, cid, seen);
    if gone.len() > 0 {
        assert(gone.contains(gone[0]));
    }
    assert(all_dropped(nodes, gone, now) =~= nodes);
}

proof fn lemma_idle_walk(nodes: Seq<Node>, w: Walk, collection: Node, k: int)
    requires
        is_current(nodes, collection.id, w.files),
        w.is_of(collection),
        w.states[0] == nodes,
        0 <= k <= w.files.len(),
    ensures
        forall|j: int| 0 <= j <= k ==> #[trigger] w.states[j] == nodes,
        texts(w.runs[k].seen@) == paths_of(w.files).take(k),
        w.runs[k].settled(0),
        w.runs[k].stats.indexed == 0,
        w.runs[k].stats.unchanged == k,
        w.runs[k].stats.chunks == 0,
    decreases k,
{
    if k == 0 {
        assert(texts(w.runs[0].seen@) =~= paths_of(w.files).take(0));
    } else {
        let m = k - 1;
        lemma_idle_walk(nodes, w, collection, m);
        assert(w.states[m] == nodes);
        assert(is_file_step(
            w.runs[m],
            w.runs[m + 1],
            w.states[m],
            w.states[m + 1],
            collection,
            w.files[m],
            w.ids[m],
            w.times[m],
        ));
        assert(texts(w.runs[k].seen@) =~= paths_of(w.files).take(k));
        assert(w.states[k] == nodes);
    }
}

/// A file that was deleted and is back is live again, under its old node, with the
/// time and size that it has now.
pub proof fn a_file_comes_back_to_life(
    x: Indexer,
    y: Indexer,
    before: Seq<Node>,
    after: Seq<Node>,
    collection: Node,
    f: DiskFile,
    first_id: i64,
    now: i64,
)
    requires
        is_file_step(x, y, before, after, collection, f, first_id, now),
        files_on_top(before, collection.id),
        existing(before, collection.id, f.rel) is Some,
        existing(before, collection.id, f.rel)->0.deleted_at is Some,
    ensures
        ({
            let was = existing(before, collection.id, f.rel)->0;
            let n = existing(after, collection.id, f.rel);
            &&& n is Some
            &&& n->0.id == was.id
            &&& n->0.deleted_at is None
            &&& n->0.meta == stat_meta(f.mtime, f.size)
        }),
{
    let cid = collection.id;
    let p = is_file_at(cid, f.rel);
    let i = first_where(before, p)->0;
    lemma_first_where(before, p);
    let was = existing(before, cid, f.rel);
    let change = lemma_step_change(x, y, before, after, collection, f, first_id, now);
    match change {
        Change::Restamp => {},
        Change::Reindex { hash, file, chunks } => {
            let (x, rows) = choose|x: Node, rows: Seq<Node>|
                is_reindexed(x, before[i], hash@, f.mtime, f.size, now) && are_chunk_rows(
                    rows,
                    chunks@,
                    before[i].id,
                    first_id as int,
                    now,
                ) && after == #[trigger] replaced_below(before, i, x, rows);
            let mid = before.update(i, x);
            let q = is_not_below(before[i].id);
            lemma_found_update(before, i, x, p);
            assert forall|k: int| 0 <= k < mid.len() && p(#[trigger] mid[k]) implies q(mid[k]) by {}
            lemma_found_kept(mid, p, q);
            lemma_first_where(kept(mid, q), p);
            lemma_found_append(kept(mid, q), rows, p);
        },
    }
}

} // verus!
