//! Laws of replication.

use vstd::prelude::*;

#[allow(unused_imports)]
use crate::json::{member_bool, member_json, member_str};
#[allow(unused_imports)]
use crate::model::{Kind, Rel};
#[allow(unused_imports)]
use crate::order::ranking;
#[allow(unused_imports)]
use crate::replicate::{
    activity, are_links, by_activity, changes, edges_sent, has_id, has_uid, hex_of, is_batch_of,
    is_blocked, is_change, is_keyed_by_no_text, is_project, is_resolvable, key_in, merged,
    merged_all, newest, received, record_of, replaces, replicates, resolves, syncs, watermark,
    watermark_in, wire_key, written, EdgeView, LocalEdge, Memory, MemoryView, NewLink, Project,
    RecordView, SyncBatch,
};
#[allow(unused_imports)]
use crate::seqs::{first_where, kept, lemma_first_where, lemma_first_where_is};
#[allow(unused_imports)]
use crate::text::{join, signed};
#[allow(unused_imports)]
use vstd::string::*;

verus! {

/// A memory was last active when it was last changed or deleted, whichever is later.
pub proof fn activity_is_the_later_time(updated_at: i64, deleted_at: Option<i64>)
    ensures
        activity(updated_at, deleted_at) >= updated_at,
        deleted_at is Some ==> activity(updated_at, deleted_at) >= deleted_at->0,
        activity(updated_at, deleted_at) >= 0 || deleted_at is Some || updated_at < 0,
        deleted_at is Some && updated_at >= 0 ==> activity(updated_at, deleted_at) == updated_at
            || activity(updated_at, deleted_at) == deleted_at->0,
        deleted_at is None && updated_at >= 0 ==> activity(updated_at, deleted_at) == updated_at,
{
}

/// What was active later wins; of two that were active at once a deletion wins over what
/// is not deleted, and otherwise what is here stays.
pub proof fn the_later_wins(rec: RecordView, m: MemoryView)
    requires
        rec.updated_at >= 0,
        m.updated_at >= 0,
    ensures
        ({
            let theirs: int = if rec.deleted_at is Some && rec.deleted_at->0 > rec.updated_at {
                rec.deleted_at->0 as int
            } else {
                rec.updated_at as int
            };
            let ours: int = if m.deleted_at is Some && m.deleted_at->0 > m.updated_at {
                m.deleted_at->0 as int
            } else {
                m.updated_at as int
            };
            &&& theirs > ours ==> replaces(rec, m)
            &&& theirs < ours ==> !replaces(rec, m)
            &&& theirs == ours && rec.deleted_at is Some && m.deleted_at is None ==> replaces(rec, m)
            &&& theirs == ours && (rec.deleted_at is None || m.deleted_at is Some) ==> !replaces(
                rec,
                m,
            )
        }),
{
}

/// What arrives is stored field by field, under the id, the kind, the project and the
/// time of creation that it has here.
pub proof fn what_arrives_is_stored(
    rec: RecordView,
    id: i64,
    kind: Kind,
    project_id: Option<i64>,
    created_at: i64,
)
    ensures
        ({
            let m = received(rec, id, kind, project_id, created_at);
            &&& m.id == id
            &&& m.kind == kind
            &&& m.project_id == project_id
            &&& m.created_at == created_at
            &&& m.uid == rec.uid
            &&& m.subkind == rec.mtype
            &&& m.title == rec.title
            &&& m.body == rec.body
            &&& m.tags_text == join(rec.tags, " "@)
            &&& m.pinned == rec.pinned
            &&& rec.content_hash is None ==> m.content_hash is None
            &&& forall|b: Seq<u8>|
                rec.content_hash == Some(#[trigger] hex_of(b)) ==> m.content_hash == Some(b)
            &&& m.meta == rec.meta
            &&& m.updated_at == rec.updated_at
            &&& m.deleted_at == rec.deleted_at
        }),
{
    assert forall|b: Seq<u8>| rec.content_hash == Some(#[trigger] hex_of(b)) implies received(
        rec,
        id,
        kind,
        project_id,
        created_at,
    ).content_hash == Some(b) by {
        crate::replicate::hex_reads_back(b);
    }
}

/// A hash is written as two lower-case hexadecimal digits for each byte.
pub proof fn a_hash_is_written_in_hex(b: Seq<u8>, i: int)
    requires
        0 <= i < b.len(),
    ensures
        hex_of(b).len() == 2 * b.len(),
        ({
            let (x, y) = (hex_of(b)[2 * i], hex_of(b)[2 * i + 1]);
            &&& '0' <= x <= '9' || 'a' <= x <= 'f'
            &&& '0' <= y <= '9' || 'a' <= y <= 'f'
            &&& b[i] / 16 < 10 ==> x as u32 == 48 + b[i] / 16
            &&& b[i] / 16 >= 10 ==> x as u32 == 87 + b[i] / 16
            &&& b[i] % 16 < 10 ==> y as u32 == 48 + b[i] % 16
            &&& b[i] % 16 >= 10 ==> y as u32 == 87 + b[i] % 16
        }),
    decreases b.len(),
{
    let t = b.drop_last();
    lemma_hex_len(t);
    if i < b.len() - 1 {
        a_hash_is_written_in_hex(t, i);
        assert(hex_of(b)[2 * i] == hex_of(t)[2 * i]);
        assert(hex_of(b)[2 * i + 1] == hex_of(t)[2 * i + 1]);
    }
}

proof fn lemma_hex_len(b: Seq<u8>)
    ensures
        hex_of(b).len() == 2 * b.len(),
    decreases b.len(),
{
    if b.len() > 0 {
        lemma_hex_len(b.drop_last());
    }
}

/// A memory that is not here is added behind the others; one that is here and loses is
/// replaced in its place, where it keeps its id, kind and time of creation; everything
/// else stays as it is.
pub proof fn a_record_goes_to_its_own_memory(
    v: Seq<MemoryView>,
    rec: RecordView,
    project_id: Option<i64>,
    id: i64,
    i: int,
)
    ensures
        (forall|k: int| 0 <= k < v.len() ==> (#[trigger] v[k]).uid != rec.uid) ==> ({
            let r = merged(v, rec, project_id, id);
            &&& r.len() == v.len() + 1
            &&& r.drop_last() == v
            &&& r.last() == received(rec, id, Kind::Memory, project_id, rec.created_at)
        }),
        0 <= i < v.len() && v[i].uid == rec.uid && (forall|k: int|
            0 <= k < v.len() && k != i ==> (#[trigger] v[k]).uid != rec.uid) ==> ({
            let r = merged(v, rec, project_id, id);
            &&& r.len() == v.len()
            &&& forall|k: int| 0 <= k < v.len() && k != i ==> #[trigger] r[k] == v[k]
            &&& !replaces(rec, v[i]) ==> r[i] == v[i]
            &&& replaces(rec, v[i]) ==> r[i] == received(
                rec,
                v[i].id,
                v[i].kind,
                project_id,
                v[i].created_at,
            )
        }),
{
    let p = has_uid(rec.uid);
    lemma_first_where(v, p);
    if forall|k: int| 0 <= k < v.len() ==> (#[trigger] v[k]).uid != rec.uid {
        assert(merged(v, rec, project_id, id).drop_last() =~= v);
    }
    if 0 <= i < v.len() && v[i].uid == rec.uid && (forall|k: int|
        0 <= k < v.len() && k != i ==> (#[trigger] v[k]).uid != rec.uid) {
        lemma_first_where_is(v, p, i);
    }
}

/// Records are applied one after the other; one counts as written where it is new or
/// wins, and as a tombstone where it is deleted too.
pub proof fn written_records_are_counted(
    v: Seq<MemoryView>,
    recs: Seq<RecordView>,
    project_ids: Seq<Option<i64>>,
    first_id: int,
    k: int,
)
    requires
        0 < k <= recs.len(),
    ensures
        ({
            let a = written(v, recs, project_ids, first_id, k - 1);
            let b = written(v, recs, project_ids, first_id, k);
            let before = merged_all(v, recs, project_ids, first_id, k - 1);
            let rec = recs[k - 1];
            let fresh = forall|i: int| 0 <= i < before.len() ==> (#[trigger] before[i]).uid
                != rec.uid;
            &&& b.0 == a.0 || b.0 == a.0 + 1
            &&& fresh ==> b.0 == a.0 + 1
            &&& forall|i: int|
                0 <= i < before.len() && (#[trigger] before[i]).uid == rec.uid && (forall|j: int|
                    0 <= j < i ==> (#[trigger] before[j]).uid != rec.uid) ==> (b.0 == a.0 + 1
                    <==> replaces(rec, before[i]))
            &&& b.0 == a.0 ==> b.1 == a.1
            &&& b.0 == a.0 + 1 && rec.deleted_at is Some ==> b.1 == a.1 + 1
            &&& b.0 == a.0 + 1 && rec.deleted_at is None ==> b.1 == a.1
        }),
        written(v, recs, project_ids, first_id, 0) == (0int, 0int),
{
    let before = merged_all(v, recs, project_ids, first_id, k - 1);
    let rec = recs[k - 1];
    lemma_first_where(before, has_uid(rec.uid));
    assert forall|i: int|
        0 <= i < before.len() && (#[trigger] before[i]).uid == rec.uid && (forall|j: int|
            0 <= j < i ==> (#[trigger] before[j]).uid != rec.uid) implies first_where(
        before,
        has_uid(rec.uid),
    ) == Some(i) by {
        lemma_first_where_is(before, has_uid(rec.uid), i);
    }
}

/// A project replicates where it says `sync` and has a portable key; the key is the text
/// it gives, and what is no text stands for itself where it is a list or an object.
pub proof fn a_project_opts_in(meta: Seq<char>, s: Seq<char>, j: Seq<char>)
    ensures
        member_bool(meta, "sync"@) != Some(true) ==> !syncs(meta),
        member_json(meta, "portable_key"@) is None ==> !syncs(meta) && key_in(meta) is None,
        member_json(meta, "portable_key"@) is Some && member_str(meta, "portable_key"@) == Some(s)
            ==> key_in(meta) == Some(Some(s)) && (syncs(meta) <==> member_bool(meta, "sync"@)
            == Some(true)),
        member_json(meta, "portable_key"@) == Some("null"@) && member_str(meta, "portable_key"@)
            is None ==> !syncs(meta) && key_in(meta) is None,
        member_json(meta, "portable_key"@) == Some(j) && member_str(meta, "portable_key"@) is None
            && j.len() > 0 && (j[0] == '[' || j[0] == '{') && j != "null"@ ==> key_in(meta) == Some(
            Some(j),
        ),
        member_json(meta, "portable_key"@) == Some(j) && member_str(meta, "portable_key"@) is None
            && j != "null"@ && (j.len() == 0 || (j[0] != '[' && j[0] != '{')) ==> key_in(meta)
            == Some(None::<Seq<char>>),
{
}

/// A memory of a project replicates where the project has opted in, and one of no project
/// always; what is no memory never does.
pub proof fn what_replicates(projects: Seq<Project>, m: Memory, i: int)
    ensures
        m.kind != Kind::Memory ==> !replicates(projects, m),
        m.kind == Kind::Memory && m.project_id is None ==> replicates(projects, m) && wire_key(
            projects,
            m.project_id,
        ) is None,
        (forall|k: int| 0 <= k < projects.len() ==> Some((#[trigger] projects[k]).id)
            != m.project_id) && m.project_id is Some ==> !replicates(projects, m),
        0 <= i < projects.len() && Some(projects[i].id) == m.project_id && (forall|k: int|
            0 <= k < i ==> Some((#[trigger] projects[k]).id) != m.project_id) && m.kind
            == Kind::Memory ==> (replicates(projects, m) <==> member_bool(
            projects[i].meta@,
            "sync"@,
        ) == Some(true) && key_in(projects[i].meta@) is Some) && (replicates(projects, m)
            ==> wire_key(projects, m.project_id) == key_in(projects[i].meta@)->0
            && (is_keyed_by_no_text(projects, m.project_id) <==> key_in(projects[i].meta@)->0
            is None)),
{
    if m.project_id is Some {
        let id = m.project_id->0;
        lemma_first_where(projects, is_project(id));
        if 0 <= i < projects.len() && projects[i].id == id && (forall|k: int|
            0 <= k < i ==> Some((#[trigger] projects[k]).id) != m.project_id) {
            assert forall|k: int| 0 <= k < i implies !is_project(id)(#[trigger] projects[k]) by {
                assert(Some(projects[k].id) != m.project_id);
            }
            lemma_first_where_is(projects, is_project(id), i);
        }
        if forall|k: int| 0 <= k < projects.len() ==> Some((#[trigger] projects[k]).id)
            != m.project_id {
            if first_where(projects, is_project(id)) is Some {
                let k = first_where(projects, is_project(id))->0;
                assert(Some(projects[k].id) != m.project_id);
            }
        }
    }
}

/// A batch holds the memories that replicate and were active after the given time, all of
/// them and no other, each as its record, the one that was active first in front. The
/// result says which memory each record is of.
pub proof fn a_batch_is_what_is_newer(rows: Seq<Memory>, projects: Seq<Project>, since: i64) -> (at:
    Seq<int>)
    ensures
        ({
            let r = changes(rows, projects, since);
            &&& at.len() == r.len()
            &&& forall|k: int|
                0 <= k < at.len() ==> 0 <= #[trigger] at[k] < rows.len() && replicates(
                    projects,
                    rows[at[k]],
                ) && activity(rows[at[k]].updated_at, rows[at[k]].deleted_at) > since && r[k]
                    == record_of(rows[at[k]]@, wire_key(projects, rows[at[k]].project_id))
            &&& forall|i: int|
                #![trigger rows[i]]
                0 <= i < rows.len() && replicates(projects, rows[i]) && activity(
                    rows[i].updated_at,
                    rows[i].deleted_at,
                ) > since ==> at.contains(i)
            &&& forall|a: int, b: int|
                #![trigger at[a], at[b]]
                0 <= a < b < at.len() ==> activity(
                    rows[at[a]].updated_at,
                    rows[at[a]].deleted_at,
                ) < activity(rows[at[b]].updated_at, rows[at[b]].deleted_at) || (activity(
                    rows[at[a]].updated_at,
                    rows[at[a]].deleted_at,
                ) == activity(rows[at[b]].updated_at, rows[at[b]].deleted_at) && at[a] < at[b])
        }),
{
    let keys = by_activity(rows);
    let p = is_change(rows, projects, since);
    super::order::selection_is_exact_and_sorted(keys, p);
    let at = kept(ranking(keys), p);
    assert forall|i: int|
        #![trigger rows[i]]
        0 <= i < rows.len() && replicates(projects, rows[i]) && activity(
            rows[i].updated_at,
            rows[i].deleted_at,
        ) > since implies at.contains(i) by {
        assert(p(i));
    }
    at
}

/// A batch is refused where one of its memories is of a project whose key is no text.
pub proof fn a_key_that_is_no_text_blocks(rows: Seq<Memory>, projects: Seq<Project>, since: i64)
    ensures
        is_blocked(rows, projects, since) <==> exists|i: int|
            0 <= i < rows.len() && replicates(projects, #[trigger] rows[i]) && activity(
                rows[i].updated_at,
                rows[i].deleted_at,
            ) > since && is_keyed_by_no_text(projects, rows[i].project_id),
{
    if is_blocked(rows, projects, since) {
        let i = choose|i: int|
            is_change(rows, projects, since)(i) && is_keyed_by_no_text(
                projects,
                (#[trigger] rows[i]).project_id,
            );
        assert(replicates(projects, rows[i]));
    }
    if exists|i: int|
        0 <= i < rows.len() && replicates(projects, #[trigger] rows[i]) && activity(
            rows[i].updated_at,
            rows[i].deleted_at,
        ) > since && is_keyed_by_no_text(projects, rows[i].project_id) {
        let i = choose|i: int|
            0 <= i < rows.len() && replicates(projects, #[trigger] rows[i]) && activity(
                rows[i].updated_at,
                rows[i].deleted_at,
            ) > since && is_keyed_by_no_text(projects, rows[i].project_id);
        assert(is_change(rows, projects, since)(i));
    }
}

proof fn lemma_newest(rows: Seq<Memory>, projects: Seq<Project>, n: int)
    requires
        0 <= n <= rows.len(),
    ensures
        newest(rows, projects, n) is None ==> forall|i: int|
            0 <= i < n ==> !replicates(projects, #[trigger] rows[i]),
        newest(rows, projects, n) matches Some(t) ==> (forall|i: int|
            0 <= i < n && replicates(projects, #[trigger] rows[i]) ==> activity(
                rows[i].updated_at,
                rows[i].deleted_at,
            ) <= t) && (exists|i: int|
            0 <= i < n && replicates(projects, #[trigger] rows[i]) && activity(
                rows[i].updated_at,
                rows[i].deleted_at,
            ) == t),
    decreases n,
{
    if n > 0 {
        lemma_newest(rows, projects, n - 1);
        assert(replicates(projects, rows[n - 1]) || !replicates(projects, rows[n - 1]));
    }
}

/// The watermark is the time of the latest activity among what replicates, and 0 where
/// nothing does: nothing is newer, and something is as new.
pub proof fn the_watermark_is_the_latest_activity(rows: Seq<Memory>, projects: Seq<Project>)
    ensures
        forall|i: int|
            0 <= i < rows.len() && replicates(projects, #[trigger] rows[i]) ==> activity(
                rows[i].updated_at,
                rows[i].deleted_at,
            ) <= watermark(rows, projects),
        (exists|i: int|
            0 <= i < rows.len() && replicates(projects, #[trigger] rows[i]) && activity(
                rows[i].updated_at,
                rows[i].deleted_at,
            ) == watermark(rows, projects)) || (watermark(rows, projects) == 0 && forall|i: int|
            0 <= i < rows.len() ==> !replicates(projects, #[trigger] rows[i])),
{
    lemma_newest(rows, projects, rows.len() as int);
}

/// A watermark that was not stored, or cannot be read, is 0.
pub proof fn an_unread_watermark_is_zero(value: Option<Seq<char>>)
    ensures
        value is None ==> watermark_in(value) == 0,
        value is Some && signed(value->0) is None ==> watermark_in(value) == 0,
        value is Some && signed(value->0) is Some ==> watermark_in(value) == signed(value->0)->0,
{
}

/// An edge is sent where both of its ends replicate, by the uids of the ends, the source
/// as source and the target as target.
pub proof fn edges_go_with_their_ends(
    edges: Seq<LocalEdge>,
    rows: Seq<Memory>,
    projects: Seq<Project>,
    n: int,
    i: int,
    j: int,
)
    requires
        0 < n <= edges.len(),
        0 <= i < rows.len(),
        0 <= j < rows.len(),
        rows[i].id == edges[n - 1].src,
        rows[j].id == edges[n - 1].dst,
        forall|a: int, b: int|
            #![trigger rows[a], rows[b]]
            0 <= a < b < rows.len() ==> rows[a].id != rows[b].id,
    ensures
        ({
            let before = edges_sent(edges, rows, projects, n - 1);
            let after = edges_sent(edges, rows, projects, n);
            let e = edges[n - 1];
            &&& replicates(projects, rows[i]) && replicates(projects, rows[j]) ==> after
                == before.push(
                EdgeView {
                    src_uid: rows[i].uid@,
                    dst_uid: rows[j].uid@,
                    rel: e.rel@,
                    weight_bits: e.weight_bits,
                    created_at: e.created_at,
                },
            )
            &&& !replicates(projects, rows[i]) || !replicates(projects, rows[j]) ==> after == before
        }),
{
    let e = edges[n - 1];
    assert forall|k: int| 0 <= k < i implies !has_id(e.src)(#[trigger] rows[k]) by {
        assert(rows[k].id != rows[i].id);
    }
    assert forall|k: int| 0 <= k < j implies !has_id(e.dst)(#[trigger] rows[k]) by {
        assert(rows[k].id != rows[j].id);
    }
    lemma_first_where_is(rows, has_id(e.src), i);
    lemma_first_where_is(rows, has_id(e.dst), j);
}

/// An edge that arrives is stored between the memories that have the uids of its ends,
/// the source as source and the target as target, with its relation and its weight.
pub proof fn an_edge_arrives_at_its_ends(
    v: Seq<MemoryView>,
    e: EdgeView,
    link: NewLink,
    i: int,
    j: int,
)
    requires
        0 <= i < v.len(),
        0 <= j < v.len(),
        v[i].uid == e.src_uid,
        v[j].uid == e.dst_uid,
        forall|a: int, b: int|
            #![trigger v[a], v[b]]
            0 <= a < b < v.len() ==> v[a].uid != v[b].uid,
    ensures
        resolves(v, e, link) <==> link.src == v[i].id && link.dst == v[j].id && link.rel.name()
            == e.rel && link.weight_bits == e.weight_bits,
        is_resolvable(v, e) <==> exists|rel: Rel| #[trigger] rel.name() == e.rel,
{
    assert forall|k: int| 0 <= k < i implies !has_uid(e.src_uid)(#[trigger] v[k]) by {
        assert(v[k].uid != v[i].uid);
    }
    assert forall|k: int| 0 <= k < j implies !has_uid(e.dst_uid)(#[trigger] v[k]) by {
        assert(v[k].uid != v[j].uid);
    }
    lemma_first_where_is(v, has_uid(e.src_uid), i);
    lemma_first_where_is(v, has_uid(e.dst_uid), j);
}

/// An edge whose end is not here is left out.
pub proof fn an_edge_without_an_end_is_left_out(v: Seq<MemoryView>, e: EdgeView, link: NewLink)
    requires
        (forall|k: int| 0 <= k < v.len() ==> (#[trigger] v[k]).uid != e.src_uid) || (forall|k: int|
            0 <= k < v.len() ==> (#[trigger] v[k]).uid != e.dst_uid),
    ensures
        !is_resolvable(v, e),
        !resolves(v, e, link),
{
    lemma_first_where(v, has_uid(e.src_uid));
    lemma_first_where(v, has_uid(e.dst_uid));
}

/// A batch holds the changed records, the edges between what replicates, and the
/// watermark.
pub proof fn a_batch_holds_records_edges_and_watermark(
    b: SyncBatch,
    rows: Seq<Memory>,
    projects: Seq<Project>,
    edges: Seq<LocalEdge>,
    since: i64,
)
    requires
        is_batch_of(b, rows, projects, edges, since),
    ensures
        b.nodes@.len() == changes(rows, projects, since).len(),
        forall|k: int|
            0 <= k < b.nodes@.len() ==> (#[trigger] b.nodes@[k])@ == changes(
                rows,
                projects,
                since,
            )[k],
        b.edges@.len() == edges_sent(edges, rows, projects, edges.len() as int).len(),
        forall|k: int|
            0 <= k < b.edges@.len() ==> (#[trigger] b.edges@[k])@ == edges_sent(
                edges,
                rows,
                projects,
                edges.len() as int,
            )[k],
        b.watermark == watermark(rows, projects),
{
    let v = crate::replicate::record_views(b.nodes@);
    let w = crate::replicate::edge_views(b.edges@);
    assert forall|k: int| 0 <= k < b.nodes@.len() implies (#[trigger] b.nodes@[k])@ == changes(
        rows,
        projects,
        since,
    )[k] by {
        assert(v[k] == b.nodes@[k]@);
    }
    assert forall|k: int| 0 <= k < b.edges@.len() implies (#[trigger] b.edges@[k])@ == edges_sent(
        edges,
        rows,
        projects,
        edges.len() as int,
    )[k] by {
        assert(w[k] == b.edges@[k]@);
    }
}

/// Every edge that can be stored is stored, each by its own link.
pub proof fn each_edge_has_its_link(
    links: Seq<NewLink>,
    v: Seq<MemoryView>,
    edges: Seq<EdgeView>,
    i: int,
)
    requires
        are_links(links, v, edges),
        0 <= i < edges.len(),
    ensures
        links.len() == edges.len(),
        resolves(v, edges[i], links[i]),
{
}

} // verus!
