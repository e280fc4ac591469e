//! Laws of nodes: when they are live, valid and expired, and what they say.

use vstd::prelude::*;

#[allow(unused_imports)]
use crate::model::{Kind, MemoryConfidence, NewNode, Node};
#[allow(unused_imports)]
use crate::text::{join, texts};
#[allow(unused_imports)]
use vstd::string::*;

verus! {

/// A memory is live while it is neither deleted nor superseded.
pub proof fn live_means_here_and_current(n: Node)
    ensures
        n.live_memory() <==> n.kind == Kind::Memory && n.deleted_at is None && n.superseded_by
            is None,
{
}

/// A fact holds from its start up to, and not at, its end; a bound that is not declared
/// is none. It is closed from its end on.
pub proof fn facts_hold_between_their_bounds(n: Node, at: int)
    ensures
        n.meta.valid_from is None && n.meta.valid_to is None ==> n.holds_at(at),
        n.meta.valid_from is Some && at < n.meta.valid_from->0 ==> !n.holds_at(at),
        n.meta.valid_to is Some && at >= n.meta.valid_to->0 ==> !n.holds_at(at),
        (n.meta.valid_from is None || at >= n.meta.valid_from->0) && (n.meta.valid_to is None || at
            < n.meta.valid_to->0) ==> n.holds_at(at),
        n.closed_by(at) <==> n.meta.valid_to is Some && at >= n.meta.valid_to->0,
        n.expired_by(at) <==> n.meta.expires_at is Some && at >= n.meta.expires_at->0,
{
}

/// A node says its body, and its title where the body is missing or empty.
pub proof fn a_node_says_its_body(n: Node)
    ensures
        n.body is Some && n.body->0@.len() > 0 ==> n.said() == n.body->0@,
        (n.body is None || n.body->0@.len() == 0) && n.title is Some ==> n.said() == n.title->0@,
        (n.body is None || n.body->0@.len() == 0) && n.title is None ==> n.said().len() == 0,
{
}

/// A declared confidence is read by its name, and other words are none.
pub proof fn confidence_is_read_by_name(n: Node)
    ensures
        n.meta.confidence is None ==> n.confidence_spec() is None,
        n.meta.confidence is Some && n.meta.confidence->0@ == "certain"@ ==> n.confidence_spec()
            == Some(MemoryConfidence::Certain),
        n.meta.confidence is Some && n.meta.confidence->0@ == "likely"@ ==> n.confidence_spec()
            == Some(MemoryConfidence::Likely),
        n.meta.confidence is Some && n.meta.confidence->0@ == "unsure"@ ==> n.confidence_spec()
            == Some(MemoryConfidence::Unsure),
        n.meta.confidence is Some && n.meta.confidence->0@ != "certain"@ && n.meta.confidence->0@
            != "likely"@ && n.meta.confidence->0@ != "unsure"@ ==> n.confidence_spec() is None,
{
    let c = MemoryConfidence::Certain;
    let l = MemoryConfidence::Likely;
    let u = MemoryConfidence::Unsure;
    if n.meta.confidence is Some {
        let s = n.meta.confidence->0@;
        assert(c.name() == "certain"@ && l.name() == "likely"@ && u.name() == "unsure"@);
        if exists|x: MemoryConfidence| #[trigger] x.name() == s {
            let x = choose|x: MemoryConfidence| #[trigger] x.name() == s;
            if s == "certain"@ {
                MemoryConfidence::names_are_distinct(x, c);
            }
            if s == "likely"@ {
                MemoryConfidence::names_are_distinct(x, l);
            }
            if s == "unsure"@ {
                MemoryConfidence::names_are_distinct(x, u);
            }
        }
    }
}

/// What is stored is what was made: every part of a new node is that of the stored one,
/// its tags one blank apart, and nothing has happened to it yet.
pub proof fn a_node_is_stored_as_made(m: NewNode, n: Node, id: i64, uid: Seq<char>, now: i64)
    requires
        m.is_stored_as(n, id, uid, now),
    ensures
        n.id == id,
        n.uid@ == uid,
        m.kind == Some(n.kind),
        n.subkind == m.subkind,
        n.title == m.title,
        n.body == m.body,
        n.path == m.path,
        n.project_id == m.project_id,
        n.collection_id == m.collection_id,
        n.parent_id == m.parent_id,
        n.span_start == m.span_start,
        n.span_end == m.span_end,
        n.lang == m.lang,
        n.content_hash == m.content_hash,
        n.tags_text@ == join(texts(m.tags@), " "@),
        m.meta is Some ==> n.meta == m.meta->0,
        n.created_at == now,
        n.updated_at == now,
        n.access_count == 0,
        n.last_accessed is None,
        !n.pinned,
        n.superseded_by is None,
        n.deleted_at is None,
        n.kind == Kind::Memory ==> n.live_memory(),
{
}

} // verus!
