//! Replication: what a store sends to its peers, and how it merges what they send.
//!
//! Global memories replicate, and those of projects that are enabled for it and have
//! a portable key, with the edges among them. A memory's identity is its uid, and a
//! merge is last-write-wins by uid: a record replaces the local one when its latest
//! activity is strictly newer, or as new and a deletion. Deletions travel as
//! tombstones. What a store learns from use is never sent.
//!
//! Activity counts whole seconds, so of two edits within one second the one that
//! arrives first stays.

use vstd::prelude::*;

use crate::error::{Error, Result};
use crate::json::{read_bool, read_json, read_str};
#[allow(unused_imports)]
use crate::json::{member_bool, member_json, member_str};
use crate::model::{Kind, Rel};
#[allow(unused_imports)]
use crate::order::{as_ints, marked, ranking};
use crate::order::{rank_where, Key};
#[allow(unused_imports)]
use crate::seqs::{
    first_where, kept, lemma_first_where, lemma_first_where_is, lemma_first_where_none,
};
use crate::text::{chars_of, decimal_of, joined, parse_signed, same, split_fields, Delim};
#[allow(unused_imports)]
use crate::text::{
    decimal, join, lemma_decimal_digits, lemma_fields, lemma_words_of_join, signed, texts, words,
};
#[allow(unused_imports)]
use vstd::string::*;

verus! {

// ---------------------------------------------------------------------
// Hexadecimal
// ---------------------------------------------------------------------

/// The digit of a number below 16.
pub open spec fn hex_digit(n: int) -> char {
    if n < 10 {
        (('0' as u32) + n) as char
    } else {
        (('a' as u32) + n - 10) as char
    }
}

/// The number of a hexadecimal digit, either case.
pub open spec fn hex_value(c: char) -> Option<int> {
    if '0' <= c <= '9' {
        Some((c as u32) - ('0' as u32))
    } else if 'a' <= c <= 'f' {
        Some((c as u32) - ('a' as u32) + 10)
    } else if 'A' <= c <= 'F' {
        Some((c as u32) - ('A' as u32) + 10)
    } else {
        None
    }
}

/// Bytes in hexadecimal, two digits each.
pub open spec fn hex_of(b: Seq<u8>) -> Seq<char>
    decreases b.len(),
{
    if b.len() == 0 {
        Seq::empty()
    } else {
        hex_of(b.drop_last()) + seq![hex_digit(b.last() as int / 16), hex_digit(b.last() as int % 16)]
    }
}

/// The byte that two characters write: two digits, or a plus sign and one.
pub open spec fn pair_value(a: char, b: char) -> Option<int> {
    match (hex_value(a), hex_value(b)) {
        (Some(x), Some(y)) => Some(16 * x + y),
        (None, Some(y)) => if a == '+' {
            Some(y)
        } else {
            None
        },
        _ => None,
    }
}

/// The bytes that a text writes in hexadecimal.
pub open spec fn bytes_of(s: Seq<char>) -> Option<Seq<u8>>
    decreases s.len(),
{
    if s.len() == 0 {
        Some(Seq::empty())
    } else if s.len() == 1 {
        None
    } else {
        match (bytes_of(s.take(s.len() - 2)), pair_value(s[s.len() - 2], s[s.len() - 1])) {
            (Some(b), Some(n)) => Some(b.push(n as u8)),
            _ => None,
        }
    }
}

fn digit_of(n: u8) -> (r: char)
    requires
        n < 16,
    ensures
        r == hex_digit(n as int),
{
    if n < 10 {
        (48 + n) as char
    } else {
        (87 + n) as char
    }
}

fn value_of(c: char) -> (r: Option<u8>)
    ensures
        match r {
            Some(n) => hex_value(c) == Some(n as int) && n < 16,
            None => hex_value(c) is None,
        },
{
    if '0' <= c && c <= '9' {
        Some((c as u32 - 48) as u8)
    } else if 'a' <= c && c <= 'f' {
        Some((c as u32 - 87) as u8)
    } else if 'A' <= c && c <= 'F' {
        Some((c as u32 - 55) as u8)
    } else {
        None
    }
}

/// Writes bytes in hexadecimal.
pub fn to_hex(b: &Vec<u8>) -> (r: String)
    ensures
        r@ == hex_of(b@),
{
    let mut out = String::new();
    let mut i: usize = 0;
    assert(out@ =~= hex_of(b@.take(0)));
    while i < b.len()
        invariant
            i <= b@.len(),
            out@ == hex_of(b@.take(i as int)),
        decreases b@.len() - i,
    {
        assert(b@.take(i + 1).drop_last() =~= b@.take(i as int));
        let ghost before = out@;
        let x: u8 = b[i] / 16;
        let y: u8 = b[i] % 16;
        out.push(digit_of(x));
        out.push(digit_of(y));
        assert(out@ =~= before + seq![hex_digit(x as int), hex_digit(y as int)]);
        i += 1;
    }
    assert(b@.take(b@.len() as int) =~= b@);
    out
}

proof fn lemma_bytes_prefix(s: Seq<char>, k: int)
    requires
        0 <= k <= s.len(),
        (s.len() - k) % 2 == 0,
        bytes_of(s.take(k)) is None,
    ensures
        bytes_of(s) is None,
    decreases s.len() - k,
{
    if k == s.len() {
        assert(s.take(k) =~= s);
    } else {
        let t = s.take(k + 2);
        assert(t.take(t.len() - 2) =~= s.take(k));
        assert(bytes_of(t) is None);
        lemma_bytes_prefix(s, k + 2);
    }
}

/// Reads bytes in hexadecimal. Nothing where the text is not that.
pub fn from_hex(s: &str) -> (r: Option<Vec<u8>>)
    ensures
        match r {
            Some(b) => bytes_of(s@) == Some(b@),
            None => bytes_of(s@) is None,
        },
{
    let v = chars_of(s);
    let n: usize = v.len();
    if n % 2 != 0 {
        proof {
            assert(v@.take(1).len() == 1);
            lemma_bytes_prefix(v@, 1);
        }
        return None;
    }
    let mut out: Vec<u8> = Vec::new();
    let mut i: usize = 0;
    assert(v@.take(0) =~= Seq::empty());
    while i < n
        invariant
            i <= n,
            n == v@.len(),
            n % 2 == 0,
            i % 2 == 0,
            v@ == s@,
            bytes_of(v@.take(i as int)) == Some(out@),
        decreases n - i,
    {
        let ghost t = v@.take(i + 2);
        assert(t.take(t.len() - 2) =~= v@.take(i as int));
        assert(t[t.len() - 2] == v@[i as int]);
        assert(t[t.len() - 1] == v@[i + 1]);
        let byte: u8 = match (value_of(v[i]), value_of(v[i + 1])) {
            (Some(x), Some(y)) => 16 * x + y,
            (None, Some(y)) => {
                if v[i] != '+' {
                    proof {
                        lemma_bytes_prefix(v@, i + 2);
                    }
                    return None;
                }
                y
            },
            _ => {
                proof {
                    lemma_bytes_prefix(v@, i + 2);
                }
                return None;
            },
        };
        let ghost before = out@;
        out.push(byte);
        assert(bytes_of(t) == Some(before.push(byte)));
        i += 2;
    }
    assert(v@.take(n as int) =~= v@);
    Some(out)
}

// ---------------------------------------------------------------------
// What replicates
// ---------------------------------------------------------------------

/// The portable key in a project's metadata: none where it is absent or null. A string
/// is the key, and an array or an object is one as it is written. A number or a boolean
/// is a key, but not one that has a text.
pub open spec fn key_in(meta: Seq<char>) -> Option<Option<Seq<char>>> {
    match (member_json(meta, "portable_key"@), member_str(meta, "portable_key"@)) {
        (Some(j), Some(s)) => Some(Some(s)),
        (Some(j), None) => if j == "null"@ {
            None
        } else if j.len() > 0 && (j[0] == '[' || j[0] == '{') {
            Some(Some(j))
        } else {
            Some(None)
        },
        (None, _) => None,
    }
}

/// Whether a project's metadata lets its memories replicate.
pub open spec fn syncs(meta: Seq<char>) -> bool {
    member_bool(meta, "sync"@) == Some(true) && key_in(meta) is Some
}

/// Whether the memories of a project replicate: it is enabled for it, and has a
/// portable key.
pub fn project_is_syncable(meta: &str) -> (r: bool)
    ensures
        r == syncs(meta@),
{
    read_bool(meta, "sync") == Some(true) && read_key(meta).is_some()
}

/// The view of a portable key.
pub open spec fn key_view(key: Option<Option<String>>) -> Option<Option<Seq<char>>> {
    match key {
        Some(k) => Some(text_of(k)),
        None => None,
    }
}

fn read_key(meta: &str) -> (r: Option<Option<String>>)
    ensures
        key_view(r) == key_in(meta@),
{
    match (read_json(meta, "portable_key"), read_str(meta, "portable_key")) {
        (Some(_), Some(s)) => Some(Some(s)),
        (Some(j), None) => if same(j.as_str(), "null") {
            None
        } else {
            let v = chars_of(j.as_str());
            if v.len() > 0 && (v[0] == '[' || v[0] == '{') {
                Some(Some(j))
            } else {
                Some(None)
            }
        },
        (None, _) => None,
    }
}

/// A project as replication sees it: its id and its metadata as JSON text.
#[derive(Debug, Clone)]
pub struct Project {
    pub id: i64,
    pub meta: String,
}

/// A stored node as replication sees it; its metadata as JSON text. Memories are what
/// replicates; a node of another kind may be an end of an edge, or have the uid of a
/// record that arrives.
#[derive(Debug, Clone)]
pub struct Memory {
    pub id: i64,
    pub uid: String,
    pub kind: Kind,
    pub subkind: Option<String>,
    pub project_id: Option<i64>,
    pub title: Option<String>,
    pub body: Option<String>,
    pub tags_text: String,
    pub pinned: bool,
    pub content_hash: Option<Vec<u8>>,
    pub meta: String,
    pub created_at: i64,
    pub updated_at: i64,
    pub deleted_at: Option<i64>,
}

/// A memory on the wire. `mtype` is its type, `content_hash` is in hexadecimal,
/// `deleted_at` is the tombstone, `project_key` is the portable key of its project
/// and absent for a global memory.
#[derive(Debug, Clone)]
pub struct SyncRecord {
    pub uid: String,
    pub mtype: Option<String>,
    pub title: Option<String>,
    pub body: Option<String>,
    pub tags: Vec<String>,
    pub pinned: bool,
    pub content_hash: Option<String>,
    pub meta: String,
    pub created_at: i64,
    pub updated_at: i64,
    pub deleted_at: Option<i64>,
    pub project_key: Option<String>,
}

/// The view of an optional text.
pub open spec fn text_of(s: Option<String>) -> Option<Seq<char>> {
    match s {
        Some(t) => Some(t@),
        None => None,
    }
}

/// The view of optional bytes.
pub open spec fn hash_of(h: Option<Vec<u8>>) -> Option<Seq<u8>> {
    match h {
        Some(b) => Some(b@),
        None => None,
    }
}

/// A stored node as the rules see it.
pub ghost struct MemoryView {
    pub id: i64,
    pub uid: Seq<char>,
    pub kind: Kind,
    pub subkind: Option<Seq<char>>,
    pub project_id: Option<i64>,
    pub title: Option<Seq<char>>,
    pub body: Option<Seq<char>>,
    pub tags_text: Seq<char>,
    pub pinned: bool,
    pub content_hash: Option<Seq<u8>>,
    pub meta: Seq<char>,
    pub created_at: i64,
    pub updated_at: i64,
    pub deleted_at: Option<i64>,
}

impl View for Memory {
    type V = MemoryView;

    open spec fn view(&self) -> MemoryView {
        MemoryView {
            id: self.id,
            uid: self.uid@,
            kind: self.kind,
            subkind: text_of(self.subkind),
            project_id: self.project_id,
            title: text_of(self.title),
            body: text_of(self.body),
            tags_text: self.tags_text@,
            pinned: self.pinned,
            content_hash: hash_of(self.content_hash),
            meta: self.meta@,
            created_at: self.created_at,
            updated_at: self.updated_at,
            deleted_at: self.deleted_at,
        }
    }
}

/// A memory on the wire as the rules see it.
pub ghost struct RecordView {
    pub uid: Seq<char>,
    pub mtype: Option<Seq<char>>,
    pub title: Option<Seq<char>>,
    pub body: Option<Seq<char>>,
    pub tags: Seq<Seq<char>>,
    pub pinned: bool,
    pub content_hash: Option<Seq<char>>,
    pub meta: Seq<char>,
    pub created_at: i64,
    pub updated_at: i64,
    pub deleted_at: Option<i64>,
    pub project_key: Option<Seq<char>>,
}

impl View for SyncRecord {
    type V = RecordView;

    open spec fn view(&self) -> RecordView {
        RecordView {
            uid: self.uid@,
            mtype: text_of(self.mtype),
            title: text_of(self.title),
            body: text_of(self.body),
            tags: texts(self.tags@),
            pinned: self.pinned,
            content_hash: text_of(self.content_hash),
            meta: self.meta@,
            created_at: self.created_at,
            updated_at: self.updated_at,
            deleted_at: self.deleted_at,
            project_key: text_of(self.project_key),
        }
    }
}

/// Stored memories as the rules see them.
pub open spec fn views(rows: Seq<Memory>) -> Seq<MemoryView> {
    Seq::new(rows.len(), |i: int| rows[i]@)
}

/// Memories on the wire as the rules see them.
pub open spec fn record_views(v: Seq<SyncRecord>) -> Seq<RecordView> {
    Seq::new(v.len(), |i: int| v[i]@)
}

/// When a memory was last written or deleted.
pub open spec fn activity(updated_at: i64, deleted_at: Option<i64>) -> int {
    let gone: int = match deleted_at {
        Some(t) => t as int,
        None => 0,
    };
    if updated_at >= gone {
        updated_at as int
    } else {
        gone
    }
}

fn activity_of(updated_at: i64, deleted_at: Option<i64>) -> (r: i64)
    ensures
        r == activity(updated_at, deleted_at),
{
    let gone: i64 = match deleted_at {
        Some(t) => t,
        None => 0,
    };
    if updated_at >= gone {
        updated_at
    } else {
        gone
    }
}

/// Projects of an id.
pub open spec fn is_project(id: i64) -> spec_fn(Project) -> bool {
    |p: Project| p.id == id
}

/// The portable key under which the memories of a project replicate, if they do.
pub open spec fn project_key(projects: Seq<Project>, id: i64) -> Option<Option<Seq<char>>> {
    match first_where(projects, is_project(id)) {
        Some(i) => if member_bool(projects[i].meta@, "sync"@) == Some(true) {
            key_in(projects[i].meta@)
        } else {
            None
        },
        None => None,
    }
}

/// Whether a memory replicates: it is global, or its project is enabled and keyed.
pub open spec fn is_syncable(projects: Seq<Project>, project_id: Option<i64>) -> bool {
    match project_id {
        Some(id) => project_key(projects, id) is Some,
        None => true,
    }
}

/// Whether a node replicates: a memory that is global, or whose project is enabled
/// and keyed.
pub open spec fn replicates(projects: Seq<Project>, m: Memory) -> bool {
    m.kind == Kind::Memory && is_syncable(projects, m.project_id)
}

/// The key that a memory carries on the wire.
pub open spec fn wire_key(projects: Seq<Project>, project_id: Option<i64>) -> Option<Seq<char>> {
    match project_id {
        Some(id) => match project_key(projects, id) {
            Some(k) => k,
            None => None,
        },
        None => None,
    }
}

/// Whether the key of a memory's project has no text that could be sent.
pub open spec fn is_keyed_by_no_text(projects: Seq<Project>, project_id: Option<i64>) -> bool {
    match project_id {
        Some(id) => project_key(projects, id) == Some(None::<Seq<char>>),
        None => false,
    }
}

/// The key of a project, if its memories replicate.
fn find_key(projects: &Vec<Project>, id: i64) -> (r: Option<Option<String>>)
    ensures
        key_view(r) == project_key(projects@, id),
{
    let mut i: usize = 0;
    while i < projects.len()
        invariant
            i <= projects@.len(),
            forall|k: int| 0 <= k < i ==> !is_project(id)(#[trigger] projects@[k]),
        decreases projects@.len() - i,
    {
        if projects[i].id == id {
            proof {
                lemma_first_where_is(projects@, is_project(id), i as int);
            }
            let meta = projects[i].meta.as_str();
            return if read_bool(meta, "sync") == Some(true) {
                read_key(meta)
            } else {
                None
            };
        }
        i += 1;
    }
    proof {
        lemma_first_where_none(projects@, is_project(id));
    }
    None
}

/// How a memory goes over the wire.
enum Sending {
    /// It does not replicate.
    Never,
    /// Its project's key has no text.
    Blocked,
    /// It replicates, under a key or as a global one.
    Under(Option<String>),
}

fn sending(projects: &Vec<Project>, m: &Memory) -> (r: Sending)
    ensures
        match r {
            Sending::Never => !replicates(projects@, *m),
            Sending::Blocked => replicates(projects@, *m) && is_keyed_by_no_text(
                projects@,
                m.project_id,
            ),
            Sending::Under(key) => replicates(projects@, *m) && !is_keyed_by_no_text(
                projects@,
                m.project_id,
            ) && text_of(key) == wire_key(projects@, m.project_id),
        },
{
    if m.kind != Kind::Memory {
        return Sending::Never;
    }
    match m.project_id {
        Some(id) => match find_key(projects, id) {
            Some(Some(key)) => Sending::Under(Some(key)),
            Some(None) => Sending::Blocked,
            None => Sending::Never,
        },
        None => Sending::Under(None),
    }
}

fn is_replicated(projects: &Vec<Project>, m: &Memory) -> (r: bool)
    ensures
        r == replicates(projects@, *m),
{
    match sending(projects, m) {
        Sending::Never => false,
        _ => true,
    }
}

/// A memory as it is sent.
pub open spec fn record_of(m: MemoryView, key: Option<Seq<char>>) -> RecordView {
    RecordView {
        uid: m.uid,
        mtype: m.subkind,
        title: m.title,
        body: m.body,
        tags: words(m.tags_text),
        pinned: m.pinned,
        content_hash: match m.content_hash {
            Some(h) => Some(hex_of(h)),
            None => None,
        },
        meta: m.meta,
        created_at: m.created_at,
        updated_at: m.updated_at,
        deleted_at: m.deleted_at,
        project_key: key,
    }
}

fn copied(s: &Option<String>) -> (r: Option<String>)
    ensures
        text_of(r) == text_of(*s),
{
    match s {
        Some(t) => Some(t.as_str().to_owned()),
        None => None,
    }
}

fn to_record(m: &Memory, key: Option<String>) -> (r: SyncRecord)
    ensures
        r@ == record_of(m@, text_of(key)),
{
    let content_hash = match &m.content_hash {
        Some(h) => Some(to_hex(h)),
        None => None,
    };
    SyncRecord {
        uid: m.uid.as_str().to_owned(),
        mtype: copied(&m.subkind),
        title: copied(&m.title),
        body: copied(&m.body),
        tags: split_fields(m.tags_text.as_str(), Delim::Space),
        pinned: m.pinned,
        content_hash,
        meta: m.meta.as_str().to_owned(),
        created_at: m.created_at,
        updated_at: m.updated_at,
        deleted_at: m.deleted_at,
        project_key: key,
    }
}

/// Sort keys: by activity.
pub open spec fn by_activity(rows: Seq<Memory>) -> Seq<Key> {
    Seq::new(
        rows.len(),
        |i: int|
            Key {
                first: activity(rows[i].updated_at, rows[i].deleted_at) as i128,
                second: 0,
                third: 0,
            },
    )
}

/// Memories that replicate and were active after `since`.
pub open spec fn is_change(rows: Seq<Memory>, projects: Seq<Project>, since: i64) -> spec_fn(
    int,
) -> bool {
    |i: int|
        0 <= i < rows.len() && replicates(projects, rows[i]) && activity(
            rows[i].updated_at,
            rows[i].deleted_at,
        ) > since
}

/// The changes since a time, the earliest activity first.
pub open spec fn changes(rows: Seq<Memory>, projects: Seq<Project>, since: i64) -> Seq<RecordView> {
    let order = kept(ranking(by_activity(rows)), is_change(rows, projects, since));
    Seq::new(
        order.len(),
        |k: int| record_of(rows[order[k]]@, wire_key(projects, rows[order[k]].project_id)),
    )
}

/// Whether a change cannot be sent: the key of its project has no text.
pub open spec fn is_blocked(rows: Seq<Memory>, projects: Seq<Project>, since: i64) -> bool {
    exists|i: int|
        is_change(rows, projects, since)(i) && is_keyed_by_no_text(
            projects,
            (#[trigger] rows[i]).project_id,
        )
}

fn collect_changes(rows: &Vec<Memory>, projects: &Vec<Project>, since: i64) -> (r: Option<
    Vec<SyncRecord>,
>)
    ensures
        match r {
            Some(v) => !is_blocked(rows@, projects@, since) && record_views(v@) == changes(
                rows@,
                projects@,
                since,
            ),
            None => is_blocked(rows@, projects@, since),
        },
{
    let ghost p = is_change(rows@, projects@, since);
    let mut keys: Vec<Key> = Vec::new();
    let mut keep: Vec<bool> = Vec::new();
    let mut i: usize = 0;
    while i < rows.len()
        invariant
            i <= rows@.len(),
            p == is_change(rows@, projects@, since),
            keys@.len() == i,
            keep@.len() == i,
            forall|k: int| 0 <= k < i ==> #[trigger] keys@[k] == by_activity(rows@)[k],
            forall|k: int| 0 <= k < i ==> #[trigger] keep@[k] == p(k),
            forall|k: int|
                0 <= k < i && p(k) ==> !is_keyed_by_no_text(
                    projects@,
                    (#[trigger] rows@[k]).project_id,
                ),
        decreases rows@.len() - i,
    {
        let at: i64 = activity_of(rows[i].updated_at, rows[i].deleted_at);
        keys.push(Key::of(at as i128));
        let kept_here = match sending(projects, &rows[i]) {
            Sending::Never => false,
            Sending::Blocked => {
                if at > since {
                    assert(p(i as int) && is_keyed_by_no_text(
                        projects@,
                        rows@[i as int].project_id,
                    ));
                    return None;
                }
                false
            },
            Sending::Under(_) => at > since,
        };
        keep.push(kept_here);
        i += 1;
    }
    assert(keys@ =~= by_activity(rows@));
    assert(marked(keep@) =~= p);
    let order = rank_where(&keys, &keep);
    let ghost o = as_ints(order@);
    let mut out: Vec<SyncRecord> = Vec::new();
    let mut k: usize = 0;
    while k < order.len()
        invariant
            k <= order@.len(),
            o == as_ints(order@),
            p == is_change(rows@, projects@, since),
            o == kept(ranking(by_activity(rows@)), p),
            forall|i: int| 0 <= i < order@.len() ==> #[trigger] order@[i] < rows@.len(),
            forall|k: int|
                0 <= k < rows@.len() && p(k) ==> !is_keyed_by_no_text(
                    projects@,
                    (#[trigger] rows@[k]).project_id,
                ),
            out@.len() == k,
            forall|j: int|
                0 <= j < k ==> (#[trigger] out@[j])@ == changes(rows@, projects@, since)[j],
        decreases order@.len() - k,
    {
        proof {
            crate::seqs::lemma_kept(ranking(by_activity(rows@)), p);
            assert(p(o[k as int]));
        }
        let row = &rows[order[k]];
        match sending(projects, row) {
            Sending::Under(key) => {
                let record = to_record(row, key);
                out.push(record);
            },
            _ => {
                assert(false);
            },
        }
        k += 1;
    }
    assert(record_views(out@) =~= changes(rows@, projects@, since));
    Some(out)
}

/// The newest activity of the first `n` memories that replicate, 0 where there is
/// none.
pub open spec fn newest(rows: Seq<Memory>, projects: Seq<Project>, n: int) -> Option<int>
    decreases n,
{
    if n <= 0 {
        None
    } else {
        let before = newest(rows, projects, n - 1);
        let at = activity(rows[n - 1].updated_at, rows[n - 1].deleted_at);
        if replicates(projects, rows[n - 1]) && (before is None || at > before->0) {
            Some(at)
        } else {
            before
        }
    }
}

/// The next watermark.
pub open spec fn watermark(rows: Seq<Memory>, projects: Seq<Project>) -> int {
    match newest(rows, projects, rows.len() as int) {
        Some(t) => t,
        None => 0,
    }
}

/// The newest activity among the memories that replicate: the next watermark.
pub fn current_high_watermark(rows: &Vec<Memory>, projects: &Vec<Project>) -> (r: i64)
    ensures
        r == watermark(rows@, projects@),
{
    let mut latest: Option<i64> = None;
    let mut i: usize = 0;
    while i < rows.len()
        invariant
            i <= rows@.len(),
            match latest {
                Some(t) => newest(rows@, projects@, i as int) == Some(t as int),
                None => newest(rows@, projects@, i as int) is None,
            },
        decreases rows@.len() - i,
    {
        if is_replicated(projects, &rows[i]) {
            let at: i64 = activity_of(rows[i].updated_at, rows[i].deleted_at);
            latest = match latest {
                Some(t) => if at > t {
                    Some(at)
                } else {
                    Some(t)
                },
                None => Some(at),
            };
        }
        i += 1;
    }
    match latest {
        Some(t) => t,
        None => 0,
    }
}

/// An edge on the wire, by the uids of its ends. The weight, a floating-point
/// number, travels as its bits.
#[derive(Debug, Clone)]
pub struct SyncEdge {
    pub src_uid: String,
    pub dst_uid: String,
    pub rel: String,
    pub weight_bits: u64,
    pub created_at: i64,
}

/// A stored edge.
#[derive(Debug, Clone)]
pub struct LocalEdge {
    pub src: i64,
    pub dst: i64,
    pub rel: String,
    pub weight_bits: u64,
    pub created_at: i64,
}

/// An edge on the wire as the rules see it.
pub ghost struct EdgeView {
    pub src_uid: Seq<char>,
    pub dst_uid: Seq<char>,
    pub rel: Seq<char>,
    pub weight_bits: u64,
    pub created_at: i64,
}

impl View for SyncEdge {
    type V = EdgeView;

    open spec fn view(&self) -> EdgeView {
        EdgeView {
            src_uid: self.src_uid@,
            dst_uid: self.dst_uid@,
            rel: self.rel@,
            weight_bits: self.weight_bits,
            created_at: self.created_at,
        }
    }
}

/// Edges on the wire as the rules see them.
pub open spec fn edge_views(v: Seq<SyncEdge>) -> Seq<EdgeView> {
    Seq::new(v.len(), |i: int| v[i]@)
}

/// A unit of replication: memories, edges, and the watermark that the sender had.
#[derive(Debug, Clone)]
pub struct SyncBatch {
    pub nodes: Vec<SyncRecord>,
    pub edges: Vec<SyncEdge>,
    pub watermark: i64,
}

/// Nodes of an id.
pub open spec fn has_id(id: i64) -> spec_fn(Memory) -> bool {
    |m: Memory| m.id == id
}

/// The uid of the node of an id, where it replicates.
pub open spec fn synced_uid(rows: Seq<Memory>, projects: Seq<Project>, id: i64) -> Option<Seq<char>> {
    match first_where(rows, has_id(id)) {
        Some(i) => if replicates(projects, rows[i]) {
            Some(rows[i].uid@)
        } else {
            None
        },
        None => None,
    }
}

fn find_uid(rows: &Vec<Memory>, projects: &Vec<Project>, id: i64) -> (r: Option<String>)
    ensures
        text_of(r) == synced_uid(rows@, projects@, id),
{
    let mut i: usize = 0;
    while i < rows.len()
        invariant
            i <= rows@.len(),
            forall|k: int| 0 <= k < i ==> !has_id(id)(#[trigger] rows@[k]),
        decreases rows@.len() - i,
    {
        if rows[i].id == id {
            proof {
                lemma_first_where_is(rows@, has_id(id), i as int);
            }
            return if is_replicated(projects, &rows[i]) {
                Some(rows[i].uid.as_str().to_owned())
            } else {
                None
            };
        }
        i += 1;
    }
    proof {
        lemma_first_where_none(rows@, has_id(id));
    }
    None
}

/// The first `n` edges whose two ends both replicate, as they are sent.
pub open spec fn edges_sent(
    edges: Seq<LocalEdge>,
    rows: Seq<Memory>,
    projects: Seq<Project>,
    n: int,
) -> Seq<EdgeView>
    decreases n,
{
    if n <= 0 {
        Seq::empty()
    } else {
        let before = edges_sent(edges, rows, projects, n - 1);
        let e = edges[n - 1];
        match (synced_uid(rows, projects, e.src), synced_uid(rows, projects, e.dst)) {
            (Some(s), Some(d)) => before.push(
                EdgeView {
                    src_uid: s,
                    dst_uid: d,
                    rel: e.rel@,
                    weight_bits: e.weight_bits,
                    created_at: e.created_at,
                },
            ),
            _ => before,
        }
    }
}

fn collect_edges(edges: &Vec<LocalEdge>, rows: &Vec<Memory>, projects: &Vec<Project>) -> (r: Vec<
    SyncEdge,
>)
    ensures
        edge_views(r@) == edges_sent(edges@, rows@, projects@, edges@.len() as int),
{
    let mut out: Vec<SyncEdge> = Vec::new();
    let mut i: usize = 0;
    assert(edge_views(out@) =~= Seq::empty());
    while i < edges.len()
        invariant
            i <= edges@.len(),
            edge_views(out@) == edges_sent(edges@, rows@, projects@, i as int),
        decreases edges@.len() - i,
    {
        let e = &edges[i];
        let ghost before = edge_views(out@);
        match (find_uid(rows, projects, e.src), find_uid(rows, projects, e.dst)) {
            (Some(src_uid), Some(dst_uid)) => {
                let sent = SyncEdge {
                    src_uid,
                    dst_uid,
                    rel: e.rel.as_str().to_owned(),
                    weight_bits: e.weight_bits,
                    created_at: e.created_at,
                };
                out.push(sent);
                assert(edge_views(out@) =~= before.push(sent@));
            },
            _ => {},
        }
        i += 1;
    }
    out
}

/// What is sent of a store: the changes since a time, the edges, and the watermark.
pub open spec fn is_batch_of(
    b: SyncBatch,
    rows: Seq<Memory>,
    projects: Seq<Project>,
    edges: Seq<LocalEdge>,
    since: i64,
) -> bool {
    &&& record_views(b.nodes@) == changes(rows, projects, since)
    &&& edge_views(b.edges@) == edges_sent(edges, rows, projects, edges.len() as int)
    &&& b.watermark == watermark(rows, projects)
}

/// What changed since `since`: the memories that replicate and were active later,
/// and every edge among those that replicate. Edges are few, and merging one again
/// changes nothing. Refused where the project of a changed memory has a key that is no
/// text.
pub fn changes_since(
    rows: &Vec<Memory>,
    projects: &Vec<Project>,
    edges: &Vec<LocalEdge>,
    since: i64,
) -> (r: Result<SyncBatch>)
    ensures
        match r {
            Ok(b) => !is_blocked(rows@, projects@, since) && is_batch_of(
                b,
                rows@,
                projects@,
                edges@,
                since,
            ),
            Err(e) => is_blocked(rows@, projects@, since) && e is Invalid && e.text()
                == "a portable key is not text"@,
        },
{
    match collect_changes(rows, projects, since) {
        Some(nodes) => Ok(
            SyncBatch {
                nodes,
                edges: collect_edges(edges, rows, projects),
                watermark: current_high_watermark(rows, projects),
            },
        ),
        None => Err(Error::Invalid("a portable key is not text".to_owned())),
    }
}

/// Everything that replicates, tombstones among it.
pub fn snapshot(rows: &Vec<Memory>, projects: &Vec<Project>, edges: &Vec<LocalEdge>) -> (r: Result<
    SyncBatch,
>)
    ensures
        match r {
            Ok(b) => !is_blocked(rows@, projects@, i64::MIN) && is_batch_of(
                b,
                rows@,
                projects@,
                edges@,
                i64::MIN,
            ),
            Err(e) => is_blocked(rows@, projects@, i64::MIN) && e is Invalid && e.text()
                == "a portable key is not text"@,
        },
{
    changes_since(rows, projects, edges, i64::MIN)
}

// ---------------------------------------------------------------------
// Merging
// ---------------------------------------------------------------------

/// What a merge did.
#[derive(Debug, Clone, Copy, PartialEq, Eq, Structural)]
pub struct ApplyStats {
    pub nodes_upserted: usize,
    pub nodes_skipped: usize,
    pub edges_upserted: usize,
    pub edges_skipped: usize,
    pub tombstones: usize,
}

impl Default for ApplyStats {
    fn default() -> (r: ApplyStats)
        ensures
            r == (ApplyStats {
                nodes_upserted: 0,
                nodes_skipped: 0,
                edges_upserted: 0,
                edges_skipped: 0,
                tombstones: 0,
            }),
    {
        ApplyStats {
            nodes_upserted: 0,
            nodes_skipped: 0,
            edges_upserted: 0,
            edges_skipped: 0,
            tombstones: 0,
        }
    }
}

/// Whether a record replaces a stored memory: it is newer, or as new and a deletion
/// of what is not deleted here.
pub open spec fn replaces(rec: RecordView, m: MemoryView) -> bool {
    let theirs = activity(rec.updated_at, rec.deleted_at);
    let ours = activity(m.updated_at, m.deleted_at);
    theirs > ours || (theirs == ours && rec.deleted_at is Some && m.deleted_at is None)
}

/// What a record makes of a node: what it says, under the local id, and with the local
/// kind and time of creation.
pub open spec fn received(
    rec: RecordView,
    id: i64,
    kind: Kind,
    project_id: Option<i64>,
    created_at: i64,
) -> MemoryView {
    MemoryView {
        id,
        uid: rec.uid,
        kind,
        subkind: rec.mtype,
        project_id,
        title: rec.title,
        body: rec.body,
        tags_text: join(rec.tags, " "@),
        pinned: rec.pinned,
        content_hash: match rec.content_hash {
            Some(s) => bytes_of(s),
            None => None,
        },
        meta: rec.meta,
        created_at,
        updated_at: rec.updated_at,
        deleted_at: rec.deleted_at,
    }
}

/// Nodes of a uid.
pub open spec fn has_uid(uid: Seq<char>) -> spec_fn(MemoryView) -> bool {
    |m: MemoryView| m.uid == uid
}

/// The store once a record is merged. `id` is the id of a new memory.
pub open spec fn merged(
    v: Seq<MemoryView>,
    rec: RecordView,
    project_id: Option<i64>,
    id: i64,
) -> Seq<MemoryView> {
    match first_where(v, has_uid(rec.uid)) {
        Some(i) => if replaces(rec, v[i]) {
            v.update(i, received(rec, v[i].id, v[i].kind, project_id, v[i].created_at))
        } else {
            v
        },
        None => v.push(received(rec, id, Kind::Memory, project_id, rec.created_at)),
    }
}

/// Whether merging a record writes.
pub open spec fn writes(v: Seq<MemoryView>, rec: RecordView) -> bool {
    match first_where(v, has_uid(rec.uid)) {
        Some(i) => replaces(rec, v[i]),
        None => true,
    }
}

/// The store once the first `k` records are merged. New memories are numbered from
/// `first_id`.
pub open spec fn merged_all(
    v: Seq<MemoryView>,
    recs: Seq<RecordView>,
    project_ids: Seq<Option<i64>>,
    first_id: int,
    k: int,
) -> Seq<MemoryView>
    decreases k,
{
    if k <= 0 {
        v
    } else {
        let before = merged_all(v, recs, project_ids, first_id, k - 1);
        merged(
            before,
            recs[k - 1],
            project_ids[k - 1],
            (first_id + before.len() - v.len()) as i64,
        )
    }
}

/// How many of the first `k` records write, and how many of those are deletions.
pub open spec fn written(
    v: Seq<MemoryView>,
    recs: Seq<RecordView>,
    project_ids: Seq<Option<i64>>,
    first_id: int,
    k: int,
) -> (int, int)
    decreases k,
{
    if k <= 0 {
        (0, 0)
    } else {
        let before = written(v, recs, project_ids, first_id, k - 1);
        if writes(merged_all(v, recs, project_ids, first_id, k - 1), recs[k - 1]) {
            (before.0 + 1, before.1 + if recs[k - 1].deleted_at is Some {
                1int
            } else {
                0
            })
        } else {
            before
        }
    }
}

fn find_memory(rows: &Vec<Memory>, uid: &str) -> (r: Option<usize>)
    ensures
        match r {
            Some(i) => i < rows@.len() && first_where(views(rows@), has_uid(uid@)) == Some(i as int),
            None => first_where(views(rows@), has_uid(uid@)) is None,
        },
{
    let ghost v = views(rows@);
    let mut i: usize = 0;
    while i < rows.len()
        invariant
            i <= rows@.len(),
            v == views(rows@),
            forall|k: int| 0 <= k < i ==> !has_uid(uid@)(#[trigger] v[k]),
        decreases rows@.len() - i,
    {
        assert(v[i as int] == rows@[i as int]@);
        if same(rows[i].uid.as_str(), uid) {
            proof {
                lemma_first_where_is(v, has_uid(uid@), i as int);
            }
            return Some(i);
        }
        i += 1;
    }
    proof {
        lemma_first_where_none(v, has_uid(uid@));
    }
    None
}

fn receive(
    rec: &SyncRecord,
    id: i64,
    kind: Kind,
    project_id: Option<i64>,
    created_at: i64,
) -> (r: Memory)
    ensures
        r@ == received(rec@, id, kind, project_id, created_at),
{
    let content_hash = match &rec.content_hash {
        Some(s) => from_hex(s.as_str()),
        None => None,
    };
    Memory {
        id,
        uid: rec.uid.as_str().to_owned(),
        kind,
        subkind: copied(&rec.mtype),
        project_id,
        title: copied(&rec.title),
        body: copied(&rec.body),
        tags_text: joined(&rec.tags, " "),
        pinned: rec.pinned,
        content_hash,
        meta: rec.meta.as_str().to_owned(),
        created_at,
        updated_at: rec.updated_at,
        deleted_at: rec.deleted_at,
    }
}

fn is_newer(rec: &SyncRecord, m: &Memory) -> (r: bool)
    ensures
        r == replaces(rec@, m@),
{
    let theirs: i64 = activity_of(rec.updated_at, rec.deleted_at);
    let ours: i64 = activity_of(m.updated_at, m.deleted_at);
    theirs > ours || (theirs == ours && rec.deleted_at.is_some() && m.deleted_at.is_none())
}

/// Merges one record. Says whether it wrote.
fn merge(rows: &mut Vec<Memory>, rec: &SyncRecord, project_id: Option<i64>, id: i64) -> (r: bool)
    ensures
        views(final(rows)@) == merged(views(old(rows)@), rec@, project_id, id),
        r == writes(views(old(rows)@), rec@),
{
    let ghost before = views(rows@);
    match find_memory(rows, rec.uid.as_str()) {
        Some(i) => {
            assert(before[i as int] == rows@[i as int]@);
            if is_newer(rec, &rows[i]) {
                let row = receive(rec, rows[i].id, rows[i].kind, project_id, rows[i].created_at);
                rows.set(i, row);
                assert(views(rows@) =~= before.update(i as int, row@));
                true
            } else {
                false
            }
        },
        None => {
            let row = receive(rec, id, Kind::Memory, project_id, rec.created_at);
            rows.push(row);
            assert(views(rows@) =~= before.push(row@));
            true
        },
    }
}

/// An edge to be stored.
#[derive(Debug, Clone, Copy)]
pub struct NewLink {
    pub src: i64,
    pub dst: i64,
    pub rel: Rel,
    pub weight_bits: u64,
}

/// Whether an edge on the wire is stored as `link`: both ends are here, as nodes of
/// whatever kind, and the relation is known.
pub open spec fn resolves(v: Seq<MemoryView>, e: EdgeView, link: NewLink) -> bool {
    match (first_where(v, has_uid(e.src_uid)), first_where(v, has_uid(e.dst_uid))) {
        (Some(i), Some(j)) => link.src == v[i].id && link.dst == v[j].id && link.rel.name() == e.rel
            && link.weight_bits == e.weight_bits,
        _ => false,
    }
}

/// Whether an edge on the wire can be stored.
pub open spec fn is_resolvable(v: Seq<MemoryView>, e: EdgeView) -> bool {
    first_where(v, has_uid(e.src_uid)) is Some && first_where(v, has_uid(e.dst_uid)) is Some
        && exists|rel: Rel| #[trigger] rel.name() == e.rel
}

/// The edges on the wire that can be stored, in order.
pub open spec fn resolvable(v: Seq<MemoryView>) -> spec_fn(EdgeView) -> bool {
    |e: EdgeView| is_resolvable(v, e)
}

fn resolve(rows: &Vec<Memory>, e: &SyncEdge) -> (r: Option<NewLink>)
    ensures
        match r {
            Some(link) => is_resolvable(views(rows@), e@) && resolves(views(rows@), e@, link),
            None => !is_resolvable(views(rows@), e@),
        },
{
    let ghost v = views(rows@);
    match (
        find_memory(rows, e.src_uid.as_str()),
        find_memory(rows, e.dst_uid.as_str()),
        Rel::from_name(e.rel.as_str()),
    ) {
        (Some(i), Some(j), Some(rel)) => {
            assert(v[i as int] == rows@[i as int]@);
            assert(v[j as int] == rows@[j as int]@);
            assert(rel.name() == e.rel@);
            Some(NewLink { src: rows[i].id, dst: rows[j].id, rel, weight_bits: e.weight_bits })
        },
        _ => None,
    }
}

/// What merging a batch wrote: the counts, and the edges to be stored.
#[derive(Debug)]
pub struct Applied {
    pub stats: ApplyStats,
    pub links: Vec<NewLink>,
}

/// Whether the links are those of the edges.
pub open spec fn are_links(
    links: Seq<NewLink>,
    v: Seq<MemoryView>,
    edges: Seq<EdgeView>,
) -> bool {
    links.len() == edges.len() && forall|i: int|
        0 <= i < links.len() ==> resolves(v, edges[i], #[trigger] links[i])
}

proof fn lemma_merged_len(
    v: Seq<MemoryView>,
    recs: Seq<RecordView>,
    project_ids: Seq<Option<i64>>,
    first_id: int,
    k: int,
)
    requires
        0 <= k,
    ensures
        v.len() <= merged_all(v, recs, project_ids, first_id, k).len() <= v.len() + k,
        0 <= written(v, recs, project_ids, first_id, k).1 <= written(
            v,
            recs,
            project_ids,
            first_id,
            k,
        ).0 <= k,
    decreases k,
{
    if k > 0 {
        lemma_merged_len(v, recs, project_ids, first_id, k - 1);
        let before = merged_all(v, recs, project_ids, first_id, k - 1);
        lemma_first_where(before, has_uid(recs[k - 1].uid));
    }
}

/// Merges a batch: last-write-wins by uid for the memories; an edge whose ends are
/// not both here, or whose relation is unknown, is skipped. `project_ids[i]` is the
/// local project of the i-th record, and new memories are numbered from `first_id`.
pub fn apply_changes(
    rows: &mut Vec<Memory>,
    batch: &SyncBatch,
    project_ids: &Vec<Option<i64>>,
    first_id: i64,
) -> (r: Applied)
    requires
        project_ids@.len() == batch.nodes@.len(),
        0 <= first_id,
        first_id + batch.nodes@.len() <= i64::MAX,
    ensures
        ({
            let recs = record_views(batch.nodes@);
            let n = recs.len() as int;
            let before = views(old(rows)@);
            let after = views(final(rows)@);
            let w = written(before, recs, project_ids@, first_id as int, n);
            let sent = kept(edge_views(batch.edges@), resolvable(after));
            &&& after == merged_all(before, recs, project_ids@, first_id as int, n)
            &&& r.stats.nodes_upserted == w.0
            &&& r.stats.tombstones == w.1
            &&& r.stats.nodes_upserted + r.stats.nodes_skipped == n
            &&& are_links(r.links@, after, sent)
            &&& r.stats.edges_upserted == sent.len()
            &&& r.stats.edges_upserted + r.stats.edges_skipped == batch.edges@.len()
        }),
{
    let ghost v0 = views(rows@);
    let ghost recs = record_views(batch.nodes@);
    let start: usize = rows.len();
    let mut stats = ApplyStats::default();
    let mut k: usize = 0;
    while k < batch.nodes.len()
        invariant
            k <= batch.nodes@.len(),
            project_ids@.len() == batch.nodes@.len(),
            0 <= first_id,
            first_id + batch.nodes@.len() <= i64::MAX,
            start == v0.len(),
            recs == record_views(batch.nodes@),
            views(rows@) == merged_all(v0, recs, project_ids@, first_id as int, k as int),
            stats.nodes_upserted == written(v0, recs, project_ids@, first_id as int, k as int).0,
            stats.tombstones == written(v0, recs, project_ids@, first_id as int, k as int).1,
            stats.nodes_upserted + stats.nodes_skipped == k,
            stats.tombstones <= stats.nodes_upserted,
            stats.edges_upserted == 0,
            stats.edges_skipped == 0,
        decreases batch.nodes@.len() - k,
    {
        proof {
            lemma_merged_len(v0, recs, project_ids@, first_id as int, k as int);
            assert(views(rows@).len() == rows@.len());
            assert(recs[k as int] == batch.nodes@[k as int]@);
        }
        let rec = &batch.nodes[k];
        let id: i64 = first_id + (rows.len() - start) as i64;
        if merge(rows, rec, project_ids[k], id) {
            stats.nodes_upserted += 1;
            if rec.deleted_at.is_some() {
                stats.tombstones += 1;
            }
        } else {
            stats.nodes_skipped += 1;
        }
        k += 1;
    }
    let ghost v = views(rows@);
    let ghost all = edge_views(batch.edges@);
    let mut links: Vec<NewLink> = Vec::new();
    let mut i: usize = 0;
    assert(all.take(0) =~= Seq::empty());
    while i < batch.edges.len()
        invariant
            i <= batch.edges@.len(),
            v == views(rows@),
            all == edge_views(batch.edges@),
            are_links(links@, v, kept(all.take(i as int), resolvable(v))),
            stats.edges_upserted == links@.len(),
            stats.edges_upserted + stats.edges_skipped == i,
            stats.nodes_upserted == written(
                v0,
                recs,
                project_ids@,
                first_id as int,
                recs.len() as int,
            ).0,
            stats.tombstones == written(
                v0,
                recs,
                project_ids@,
                first_id as int,
                recs.len() as int,
            ).1,
            stats.nodes_upserted + stats.nodes_skipped == recs.len(),
        decreases batch.edges@.len() - i,
    {
        assert(all.take(i + 1).drop_last() =~= all.take(i as int));
        assert(all.take(i + 1).last() == batch.edges@[i as int]@);
        let ghost sent = kept(all.take(i as int), resolvable(v));
        let ghost had = links@;
        match resolve(rows, &batch.edges[i]) {
            Some(link) => {
                links.push(link);
                stats.edges_upserted += 1;
                assert(kept(all.take(i + 1), resolvable(v)) == sent.push(all[i as int]));
                assert forall|j: int| 0 <= j < links@.len() implies resolves(
                    v,
                    sent.push(all[i as int])[j],
                    #[trigger] links@[j],
                ) by {
                    if j < had.len() {
                        assert(links@[j] == had[j]);
                    }
                }
            },
            None => {
                stats.edges_skipped += 1;
            },
        }
        i += 1;
    }
    assert(all.take(all.len() as int) =~= all);
    Applied { stats, links }
}

// ---------------------------------------------------------------------
// Watermarks and tokens
// ---------------------------------------------------------------------

/// What the keys of replication begin with.
pub const META_PREFIX: &'static str = "sync.";

/// The key under which a value of replication is stored.
pub fn meta_key(key: &str) -> (r: String)
    ensures
        r@ == META_PREFIX@ + key@,
{
    let mut out = META_PREFIX.to_owned();
    out.append(key);
    out
}

/// The watermark that a stored value means; 0 where it means none.
pub open spec fn watermark_in(value: Option<Seq<char>>) -> int {
    match value {
        Some(s) => match signed(s) {
            Some(n) => n,
            None => 0,
        },
        None => 0,
    }
}

/// Reads a stored watermark.
pub fn get_watermark(value: Option<&str>) -> (r: i64)
    ensures
        r == watermark_in(
            match value {
                Some(s) => Some(s@),
                None => None,
            },
        ),
{
    match value {
        Some(s) => match parse_signed(s) {
            Some(n) => n,
            None => 0,
        },
        None => 0,
    }
}

/// The text under which a watermark is stored.
pub fn set_watermark(value: i64) -> (r: String)
    ensures
        r@ == decimal(value as int),
{
    decimal_of(value)
}

/// Whether `s` is written as `ulid` writes an identifier: 26 characters of its
/// alphabet.
pub open spec fn is_ulid(s: Seq<char>) -> bool {
    s.len() == 26 && forall|i: int|
        0 <= i < s.len() ==> "0123456789ABCDEFGHJKMNPQRSTVWXYZ"@.contains(#[trigger] s[i])
}

/// A fresh random token, from `ulid::Ulid::new` and `Ulid::to_string`. Which one
/// comes is left to the clock and to chance; what is claimed is its form.
#[verifier::external_body]
pub fn new_token() -> (r: String)
    ensures
        is_ulid(r@),
{
    ulid::Ulid::new().to_string()
}

/// The id of this installation: the one on record, or a fresh one. Says whether it
/// has to be recorded.
pub fn machine_id(recorded: Option<String>) -> (r: (String, bool))
    ensures
        match recorded {
            Some(id) => r.0 == id && !r.1,
            None => is_ulid(r.0@) && r.1,
        },
{
    match recorded {
        Some(id) => (id, false),
        None => (new_token(), true),
    }
}

// ---------------------------------------------------------------------
// Laws
// ---------------------------------------------------------------------

/// Bytes that are written in hexadecimal read back as those bytes.
pub proof fn hex_reads_back(b: Seq<u8>)
    ensures
        bytes_of(hex_of(b)) == Some(b),
    decreases b.len(),
{
    if b.len() > 0 {
        hex_reads_back(b.drop_last());
        let s = hex_of(b);
        let n = b.last() as int;
        assert(s.take(s.len() - 2) =~= hex_of(b.drop_last()));
        assert(s[s.len() - 2] == hex_digit(n / 16));
        assert(s[s.len() - 1] == hex_digit(n % 16));
        lemma_digit_reads_back(n / 16);
        lemma_digit_reads_back(n % 16);
        assert(16 * (n / 16) + n % 16 == n);
        assert(b.drop_last().push(b.last()) =~= b);
    } else {
        assert(b =~= Seq::empty());
    }
}

proof fn lemma_digit_reads_back(n: int)
    requires
        0 <= n < 16,
    ensures
        hex_value(hex_digit(n)) == Some(n),
{
}

/// A watermark that is stored reads back as that watermark.
pub proof fn watermark_reads_back(n: i64)
    ensures
        watermark_in(Some(decimal(n as int))) == n,
{
    let s = decimal(n as int);
    if n < 0 {
        let d = crate::text::decimal_nat((-(n as int)) as nat);
        lemma_decimal_digits((-(n as int)) as nat);
        assert(s[0] == '-');
        assert(s.skip(1) =~= d);
    } else {
        lemma_decimal_digits(n as nat);
        assert(crate::text::is_digit(s[0]));
        assert(s[0] != '-');
    }
}

/// A memory that is sent, received and sent again is the same record: nothing of it
/// is lost on the way.
pub proof fn records_survive_the_wire(
    m: MemoryView,
    key: Option<Seq<char>>,
    id: i64,
    project_id: Option<i64>,
)
    ensures
        record_of(received(record_of(m, key), id, m.kind, project_id, m.created_at), key)
            == record_of(m, key),
{
    lemma_fields(m.tags_text, Delim::Space);
    lemma_words_of_join(words(m.tags_text));
    match m.content_hash {
        Some(h) => {
            hex_reads_back(h);
        },
        None => {},
    }
}

/// After a merge, the record that was merged no longer replaces anything: a memory
/// of its uid is here, and is at least as new.
pub open spec fn is_settled(v: Seq<MemoryView>, rec: RecordView) -> bool {
    !writes(v, rec)
}

/// Merging settles the record, and unsettles none.
pub proof fn merging_settles(
    v: Seq<MemoryView>,
    rec: RecordView,
    project_id: Option<i64>,
    id: i64,
    other: RecordView,
)
    ensures
        is_settled(merged(v, rec, project_id, id), rec),
        is_settled(v, other) ==> is_settled(merged(v, rec, project_id, id), other),
{
    let w = merged(v, rec, project_id, id);
    let p = has_uid(rec.uid);
    let q = has_uid(other.uid);
    lemma_first_where(v, p);
    lemma_first_where(v, q);
    match first_where(v, p) {
        Some(i) => {
            if replaces(rec, v[i]) {
                assert(w.len() == v.len());
                assert forall|k: int| 0 <= k < w.len() implies (#[trigger] w[k]).uid == v[k].uid by {}
                assert forall|k: int| 0 <= k < i implies !p(#[trigger] w[k]) by {
                    assert(!p(v[k]));
                }
                assert(p(w[i]));
                lemma_first_where_is(w, p, i);
                if is_settled(v, other) {
                    let j = first_where(v, q)->0;
                    assert forall|k: int| 0 <= k < j implies !q(#[trigger] w[k]) by {
                        assert(!q(v[k]));
                    }
                    assert(q(w[j]));
                    lemma_first_where_is(w, q, j);
                }
            }
        },
        None => {
            let n = v.len() as int;
            assert forall|k: int| 0 <= k < n implies !p(#[trigger] w[k]) by {
                assert(w[k] == v[k]);
            }
            assert(p(w[n]));
            lemma_first_where_is(w, p, n);
            if is_settled(v, other) {
                let j = first_where(v, q)->0;
                assert forall|k: int| 0 <= k < j implies !q(#[trigger] w[k]) by {
                    assert(w[k] == v[k]);
                }
                assert(w[j] == v[j]);
                assert(q(w[j]));
                lemma_first_where_is(w, q, j);
            }
        },
    }
}

proof fn lemma_all_settled(
    v: Seq<MemoryView>,
    recs: Seq<RecordView>,
    project_ids: Seq<Option<i64>>,
    first_id: int,
    k: int,
)
    requires
        0 <= k <= recs.len(),
    ensures
        forall|i: int|
            0 <= i < k ==> is_settled(
                merged_all(v, recs, project_ids, first_id, k),
                #[trigger] recs[i],
            ),
    decreases k,
{
    if k > 0 {
        lemma_all_settled(v, recs, project_ids, first_id, k - 1);
        let before = merged_all(v, recs, project_ids, first_id, k - 1);
        let id = (first_id + before.len() - v.len()) as i64;
        assert forall|i: int| 0 <= i < k implies is_settled(
            merged_all(v, recs, project_ids, first_id, k),
            #[trigger] recs[i],
        ) by {
            merging_settles(before, recs[k - 1], project_ids[k - 1], id, recs[i]);
        }
    }
}

proof fn lemma_settled_unchanged(
    v: Seq<MemoryView>,
    recs: Seq<RecordView>,
    project_ids: Seq<Option<i64>>,
    first_id: int,
    k: int,
)
    requires
        0 <= k <= recs.len(),
        forall|i: int| 0 <= i < recs.len() ==> is_settled(v, #[trigger] recs[i]),
    ensures
        merged_all(v, recs, project_ids, first_id, k) == v,
        written(v, recs, project_ids, first_id, k) == (0int, 0int),
    decreases k,
{
    if k > 0 {
        lemma_settled_unchanged(v, recs, project_ids, first_id, k - 1);
        assert(is_settled(v, recs[k - 1]));
    }
}

/// Merging is idempotent: a batch that is merged again changes nothing, and every
/// record of it is skipped.
pub proof fn merging_again_changes_nothing(
    v: Seq<MemoryView>,
    recs: Seq<RecordView>,
    project_ids: Seq<Option<i64>>,
    first_id: int,
    next_id: int,
)
    ensures
        ({
            let n = recs.len() as int;
            let once = merged_all(v, recs, project_ids, first_id, n);
            &&& merged_all(once, recs, project_ids, next_id, n) == once
            &&& written(once, recs, project_ids, next_id, n) == (0int, 0int)
        }),
{
    let n = recs.len() as int;
    lemma_all_settled(v, recs, project_ids, first_id, n);
    lemma_settled_unchanged(
        merged_all(v, recs, project_ids, first_id, n),
        recs,
        project_ids,
        next_id,
        n,
    );
}

/// The content of a memory: all of it but the local id and the local project.
pub open spec fn content(m: MemoryView) -> MemoryView {
    MemoryView { id: 0, project_id: None, ..m }
}

/// The content that a uid has in a store.
pub open spec fn content_of(v: Seq<MemoryView>, uid: Seq<char>) -> Option<MemoryView> {
    match first_where(v, has_uid(uid)) {
        Some(i) => Some(content(v[i])),
        None => None,
    }
}

/// The content after a record is merged: what was there, unless the record replaces
/// it.
pub open spec fn content_merged(m: Option<MemoryView>, rec: RecordView) -> Option<MemoryView> {
    match m {
        Some(old_one) => if replaces(rec, old_one) {
            Some(received(rec, 0, old_one.kind, None, old_one.created_at))
        } else {
            m
        },
        None => Some(received(rec, 0, Kind::Memory, None, rec.created_at)),
    }
}

/// A merge changes the content under the uid of the record, and under no other.
pub proof fn merging_is_by_uid(
    v: Seq<MemoryView>,
    rec: RecordView,
    project_id: Option<i64>,
    id: i64,
    uid: Seq<char>,
)
    ensures
        content_of(merged(v, rec, project_id, id), uid) == if uid == rec.uid {
            content_merged(content_of(v, uid), rec)
        } else {
            content_of(v, uid)
        },
{
    let w = merged(v, rec, project_id, id);
    let p = has_uid(rec.uid);
    let q = has_uid(uid);
    lemma_first_where(v, p);
    lemma_first_where(v, q);
    lemma_first_where(w, q);
    match first_where(v, p) {
        Some(i) => {
            if replaces(rec, v[i]) {
                assert forall|k: int| 0 <= k < w.len() implies q(#[trigger] w[k]) == q(v[k]) by {}
                match first_where(v, q) {
                    Some(j) => {
                        assert forall|k: int| 0 <= k < j implies !q(#[trigger] w[k]) by {
                            assert(!q(v[k]));
                        }
                        assert(q(w[j]));
                        lemma_first_where_is(w, q, j);
                    },
                    None => {
                        assert forall|k: int| 0 <= k < w.len() implies !q(#[trigger] w[k]) by {
                            assert(!q(v[k]));
                        }
                        lemma_first_where_none(w, q);
                    },
                }
            }
        },
        None => {
            let n = v.len() as int;
            assert forall|k: int| 0 <= k < n implies #[trigger] w[k] == v[k] by {}
            match first_where(v, q) {
                Some(j) => {
                    assert forall|k: int| 0 <= k < j implies !q(#[trigger] w[k]) by {
                        assert(!q(v[k]));
                    }
                    assert(q(w[j]));
                    lemma_first_where_is(w, q, j);
                },
                None => {
                    if uid == rec.uid {
                        assert(q(w[n]));
                        assert forall|k: int| 0 <= k < n implies !q(#[trigger] w[k]) by {
                            assert(!q(v[k]));
                        }
                        lemma_first_where_is(w, q, n);
                    } else {
                        assert forall|k: int| 0 <= k < w.len() implies !q(#[trigger] w[k]) by {
                            if k < n {
                                assert(!q(v[k]));
                            }
                        }
                        lemma_first_where_none(w, q);
                    }
                },
            }
        },
    }
}

/// Whether two records tie: as new, and both or neither a deletion. Of two that tie,
/// the one that arrives first stays.
pub open spec fn ties(a: RecordView, b: RecordView) -> bool {
    activity(a.updated_at, a.deleted_at) == activity(b.updated_at, b.deleted_at) && (
    a.deleted_at is Some) == (b.deleted_at is Some)
}

/// What a record leaves where nothing was.
pub open spec fn left_by(rec: RecordView) -> MemoryView {
    received(rec, 0, Kind::Memory, None, rec.created_at)
}

/// Merging converges: two records of one memory leave the same content in whichever
/// order they arrive, unless they tie, differ, and are news to the store.
pub proof fn order_of_arrival_does_not_matter(
    m: Option<MemoryView>,
    a: RecordView,
    b: RecordView,
)
    requires
        a.uid == b.uid,
        m is None ==> a.created_at == b.created_at,
        ties(a, b) ==> left_by(a) == left_by(b) || (m is Some && !replaces(a, m->0)),
    ensures
        content_merged(content_merged(m, a), b) == content_merged(content_merged(m, b), a),
{
}

/// Whether two records can be told which is newer, or say the same, where they are
/// of one memory.
pub open spec fn agree(a: RecordView, b: RecordView) -> bool {
    a.uid == b.uid ==> a.created_at == b.created_at && (ties(a, b) ==> left_by(a) == left_by(b))
}

/// The content of a memory after the first `k` records.
pub open spec fn content_after(
    m: Option<MemoryView>,
    recs: Seq<RecordView>,
    uid: Seq<char>,
    k: int,
) -> Option<MemoryView>
    decreases k,
{
    if k <= 0 {
        m
    } else {
        let before = content_after(m, recs, uid, k - 1);
        if recs[k - 1].uid == uid {
            content_merged(before, recs[k - 1])
        } else {
            before
        }
    }
}

proof fn lemma_content_after(
    v: Seq<MemoryView>,
    recs: Seq<RecordView>,
    project_ids: Seq<Option<i64>>,
    first_id: int,
    uid: Seq<char>,
    k: int,
)
    requires
        k <= recs.len(),
    ensures
        content_of(merged_all(v, recs, project_ids, first_id, k), uid) == content_after(
            content_of(v, uid),
            recs,
            uid,
            k,
        ),
    decreases k,
{
    if k > 0 {
        lemma_content_after(v, recs, project_ids, first_id, uid, k - 1);
        let before = merged_all(v, recs, project_ids, first_id, k - 1);
        merging_is_by_uid(
            before,
            recs[k - 1],
            project_ids[k - 1],
            (first_id + before.len() - v.len()) as i64,
            uid,
        );
    }
}

/// A record that arrives behind others may as well arrive before them.
proof fn lemma_record_moves_up(
    m: Option<MemoryView>,
    recs: Seq<RecordView>,
    rec: RecordView,
    k: int,
)
    requires
        k <= recs.len(),
        forall|i: int| 0 <= i < k ==> agree(#[trigger] recs[i], rec),
    ensures
        content_merged(content_after(m, recs, rec.uid, k), rec) == content_after(
            content_merged(m, rec),
            recs,
            rec.uid,
            k,
        ),
    decreases k,
{
    if k > 0 {
        lemma_record_moves_up(m, recs, rec, k - 1);
        let last = recs[k - 1];
        if last.uid == rec.uid {
            let before = content_after(m, recs, rec.uid, k - 1);
            assert(agree(last, rec));
            order_of_arrival_does_not_matter(before, last, rec);
        }
    }
}

proof fn lemma_batches_commute(
    m: Option<MemoryView>,
    a: Seq<RecordView>,
    b: Seq<RecordView>,
    uid: Seq<char>,
    k: int,
)
    requires
        k <= b.len(),
        forall|i: int, j: int|
            #![trigger a[i], b[j]]
            0 <= i < a.len() && 0 <= j < b.len() ==> agree(a[i], b[j]),
    ensures
        content_after(content_after(m, a, uid, a.len() as int), b, uid, k) == content_after(
            content_after(m, b, uid, k),
            a,
            uid,
            a.len() as int,
        ),
    decreases k,
{
    if k > 0 {
        lemma_batches_commute(m, a, b, uid, k - 1);
        let rec = b[k - 1];
        if rec.uid == uid {
            assert forall|i: int| 0 <= i < a.len() implies agree(#[trigger] a[i], rec) by {}
            lemma_record_moves_up(content_after(m, b, uid, k - 1), a, rec, a.len() as int);
        }
    }
}

/// Stores converge: two batches leave the same content of every memory in whichever
/// order they are merged, unless records of one memory tie and differ.
pub proof fn batches_commute(
    v: Seq<MemoryView>,
    a: Seq<RecordView>,
    a_projects: Seq<Option<i64>>,
    b: Seq<RecordView>,
    b_projects: Seq<Option<i64>>,
    ids: (int, int, int, int),
    uid: Seq<char>,
)
    requires
        forall|i: int, j: int|
            #![trigger a[i], b[j]]
            0 <= i < a.len() && 0 <= j < b.len() ==> agree(a[i], b[j]),
    ensures
        ({
            let (na, nb) = (a.len() as int, b.len() as int);
            let ab = merged_all(merged_all(v, a, a_projects, ids.0, na), b, b_projects, ids.1, nb);
            let ba = merged_all(merged_all(v, b, b_projects, ids.2, nb), a, a_projects, ids.3, na);
            content_of(ab, uid) == content_of(ba, uid)
        }),
{
    let (na, nb) = (a.len() as int, b.len() as int);
    let m = content_of(v, uid);
    lemma_content_after(v, a, a_projects, ids.0, uid, na);
    lemma_content_after(v, b, b_projects, ids.2, uid, nb);
    lemma_content_after(merged_all(v, a, a_projects, ids.0, na), b, b_projects, ids.1, uid, nb);
    lemma_content_after(merged_all(v, b, b_projects, ids.2, nb), a, a_projects, ids.3, uid, na);
    lemma_batches_commute(m, a, b, uid, nb);
}

/// A write that is not newer never brings a deleted memory back.
pub proof fn stale_writes_do_not_resurrect(m: MemoryView, rec: RecordView)
    requires
        m.deleted_at is Some,
        rec.deleted_at is None,
        activity(rec.updated_at, rec.deleted_at) <= activity(m.updated_at, m.deleted_at),
    ensures
        content_merged(Some(m), rec) == Some(m),
{
}

/// Everything that replicates is in a snapshot, but for a memory that was both
/// written and deleted at the least time there is.
pub proof fn snapshots_are_complete(rows: Seq<Memory>, projects: Seq<Project>, i: int)
    requires
        0 <= i < rows.len(),
        replicates(projects, rows[i]),
        activity(rows[i].updated_at, rows[i].deleted_at) != i64::MIN,
    ensures
        changes(rows, projects, i64::MIN).contains(
            record_of(rows[i]@, wire_key(projects, rows[i].project_id)),
        ),
{
    let keys = by_activity(rows);
    let p = is_change(rows, projects, i64::MIN);
    crate::order::ranking_is_sorted(keys, keys.len() as int);
    crate::order::lemma_ranking_has(ranking(keys), keys, i);
    let r = ranking(keys);
    let k = choose|k: int| 0 <= k < r.len() && r[k] == i;
    assert(p(r[k]));
    crate::seqs::lemma_kept_all(r, p, k);
    let order = kept(r, p);
    let j = choose|j: int| 0 <= j < order.len() && order[j] == i;
    assert(changes(rows, projects, i64::MIN)[j] == record_of(
        rows[i]@,
        wire_key(projects, rows[i].project_id),
    ));
}

/// Whether a project may sync and whether its memories replicate is one question: a
/// memory of a project replicates exactly where the project's metadata says so.
pub proof fn syncable_projects_replicate(projects: Seq<Project>, id: i64)
    ensures
        is_syncable(projects, Some(id)) == match first_where(projects, is_project(id)) {
            Some(i) => syncs(projects[i].meta@),
            None => false,
        },
{
}

/// Nodes of other kinds, and memories of a project that is not enabled or has no key,
/// are never sent.
pub proof fn unsynced_memories_stay_local(
    rows: Seq<Memory>,
    projects: Seq<Project>,
    since: i64,
    k: int,
)
    requires
        0 <= k < changes(rows, projects, since).len(),
    ensures
        exists|i: int|
            0 <= i < rows.len() && replicates(projects, #[trigger] rows[i])
                && changes(rows, projects, since)[k] == record_of(
                rows[i]@,
                wire_key(projects, rows[i].project_id),
            ),
{
    let p = is_change(rows, projects, since);
    let order = kept(ranking(by_activity(rows)), p);
    crate::seqs::lemma_kept(ranking(by_activity(rows)), p);
    let i = order[k];
    assert(p(i));
    assert(rows[i] == rows[i]);
}

/// A memory arrives as it was: of what is received of a record, every field is that of
/// the memory that was sent, and the tags are the same words.
pub proof fn a_memory_arrives_as_it_was(
    m: MemoryView,
    key: Option<Seq<char>>,
    id: i64,
    kind: Kind,
    project_id: Option<i64>,
    created_at: i64,
)
    ensures
        ({
            let r = received(record_of(m, key), id, kind, project_id, created_at);
            &&& r.uid == m.uid
            &&& r.subkind == m.subkind
            &&& r.title == m.title
            &&& r.body == m.body
            &&& r.pinned == m.pinned
            &&& r.content_hash == m.content_hash
            &&& r.meta == m.meta
            &&& r.updated_at == m.updated_at
            &&& r.deleted_at == m.deleted_at
            &&& words(r.tags_text) == words(m.tags_text)
            &&& r.id == id
            &&& r.kind == kind
            &&& r.project_id == project_id
            &&& r.created_at == created_at
        }),
        record_of(m, key).created_at == m.created_at,
        record_of(m, key).project_key == key,
{
    lemma_fields(m.tags_text, Delim::Space);
    lemma_words_of_join(words(m.tags_text));
    match m.content_hash {
        Some(h) => {
            hex_reads_back(h);
        },
        None => {},
    }
}

} // verus!
