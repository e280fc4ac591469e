//! Whether a memory is attached to something that can be checked.
//!
//! A memory is grounded when it links to an artifact indexed from disk. The
//! link is a claim that can fail: when every artifact it points at is gone, the
//! memory is stale.

use vstd::prelude::*;

use crate::model::{Kind, Node};
use crate::order::{flip, rank, Key};
#[allow(unused_imports)]
use crate::order::{as_ints, flipped, lemma_ranking_counts, ranking, ranking_is_sorted};
#[allow(unused_imports)]
use crate::seqs::{
    count_where, first_n, first_where, kept, lemma_first_where_is, lemma_first_where_none,
    lemma_kept, lemma_kept_prefix,
};
#[allow(unused_imports)]
use vstd::string::*;

verus! {

/// Kinds of artifacts whose existence is verified against disk.
pub open spec fn grounds(kind: Kind) -> bool {
    kind == Kind::Symbol || kind == Kind::CodeChunk || kind == Kind::Chunk || kind == Kind::File
}

/// What a memory is attached to, and whether that still exists.
#[derive(Debug, Clone, PartialEq, Eq)]
pub enum Grounding {
    /// Linked to an artifact that is still indexed.
    Grounded { kind: Kind, label: String },
    /// Linked only to artifacts that are gone.
    Stale { kind: Kind, label: String },
    /// Linked to nothing that can be checked.
    Ungrounded,
}

impl Grounding {
    /// Short display token.
    pub fn label(&self) -> (r: &'static str)
        ensures
            r@ == match *self {
                Grounding::Grounded { .. } => "grounded"@,
                Grounding::Stale { .. } => "stale"@,
                Grounding::Ungrounded => "ungrounded"@,
            },
    {
        match self {
            Grounding::Grounded { .. } => "grounded",
            Grounding::Stale { .. } => "stale",
            Grounding::Ungrounded => "ungrounded",
        }
    }

    /// Whether every artifact the memory points at is gone.
    pub fn is_stale(&self) -> (r: bool)
        ensures
            r == (*self is Stale),
    {
        match self {
            Grounding::Stale { .. } => true,
            _ => false,
        }
    }

    /// What it points at.
    pub fn target(&self) -> (r: Option<(Kind, &str)>)
        ensures
            match *self {
                Grounding::Grounded { kind, label } => r is Some && (r->0).0 == kind && (r->0).1@
                    == label@,
                Grounding::Stale { kind, label } => r is Some && (r->0).0 == kind && (r->0).1@
                    == label@,
                Grounding::Ungrounded => r is None,
            },
    {
        match self {
            Grounding::Grounded { kind, label } => Some((*kind, label.as_str())),
            Grounding::Stale { kind, label } => Some((*kind, label.as_str())),
            Grounding::Ungrounded => None,
        }
    }
}

/// An artifact at the other end of one of a memory's edges.
#[derive(Debug)]
pub struct Link {
    /// Name of the artifact's kind.
    pub kind: String,
    /// Its title, or its path, or nothing.
    pub label: String,
    /// Whether it is still indexed.
    pub alive: bool,
}

impl Link {
    /// Whether the artifact is of a kind that grounds.
    pub open spec fn checkable(self) -> bool {
        exists|k: Kind| grounds(k) && #[trigger] k.name() == self.kind@
    }
}

/// Links to artifacts that are still indexed.
pub open spec fn alive_link() -> spec_fn(Link) -> bool {
    |l: Link| l.checkable() && l.alive
}

/// Links to artifacts that are gone.
pub open spec fn dead_link() -> spec_fn(Link) -> bool {
    |l: Link| l.checkable() && !l.alive
}

/// Whether `g` is the grounding that the links give: the first live artifact,
/// else the first dead one, else nothing.
pub open spec fn is_grounding_of(g: Grounding, links: Seq<Link>) -> bool {
    match first_where(links, alive_link()) {
        Some(i) => g matches Grounding::Grounded { kind, label } && kind.name() == links[i].kind@
            && label@ == links[i].label@,
        None => match first_where(links, dead_link()) {
            Some(i) => g matches Grounding::Stale { kind, label } && kind.name() == links[i].kind@
                && label@ == links[i].label@,
            None => g is Ungrounded,
        },
    }
}

/// The kind of a link, where it is one that grounds.
fn grounding_kind(l: &Link) -> (r: Option<Kind>)
    ensures
        match r {
            Some(k) => l.checkable() && k.name() == l.kind@,
            None => !l.checkable(),
        },
{
    match Kind::from_name(l.kind.as_str()) {
        Some(k) => {
            let ok = k == Kind::Symbol || k == Kind::CodeChunk || k == Kind::Chunk || k
                == Kind::File;
            if ok {
                assert(grounds(k) && k.name() == l.kind@);
                Some(k)
            } else {
                proof {
                    if l.checkable() {
                        let j = choose|j: Kind| grounds(j) && #[trigger] j.name() == l.kind@;
                        Kind::names_are_distinct(j, k);
                    }
                }
                None
            }
        },
        None => None,
    }
}

/// Resolves a memory's grounding from its links. A live artifact wins over a
/// dead one.
pub fn grounding(links: &Vec<Link>) -> (r: Grounding)
    ensures
        is_grounding_of(r, links@),
{
    let ghost p = alive_link();
    let ghost q = dead_link();
    let mut stale: Option<(Kind, usize)> = None;
    let mut i: usize = 0;
    while i < links.len()
        invariant
            i <= links@.len(),
            p == alive_link(),
            q == dead_link(),
            forall|k: int| 0 <= k < i ==> !p(#[trigger] links@[k]),
            match stale {
                None => forall|k: int| 0 <= k < i ==> !q(#[trigger] links@[k]),
                Some((kind, at)) => at < i && q(links@[at as int]) && kind.name()
                    == links@[at as int].kind@ && forall|k: int|
                    0 <= k < at ==> !q(#[trigger] links@[k]),
            },
        decreases links@.len() - i,
    {
        let l = &links[i];
        match grounding_kind(l) {
            Some(kind) => {
                if l.alive {
                    proof {
                        lemma_first_where_is(links@, p, i as int);
                    }
                    return Grounding::Grounded { kind, label: l.label.clone() };
                }
                if stale.is_none() {
                    stale = Some((kind, i));
                }
            },
            None => {},
        }
        i += 1;
    }
    proof {
        lemma_first_where_none(links@, p);
    }
    match stale {
        Some((kind, at)) => {
            proof {
                lemma_first_where_is(links@, q, at as int);
            }
            Grounding::Stale { kind, label: links[at].label.clone() }
        },
        None => {
            proof {
                lemma_first_where_none(links@, q);
            }
            Grounding::Ungrounded
        },
    }
}

/// A live artifact grounds: no dead link makes a memory stale while one it
/// points at is still indexed.
pub proof fn live_link_grounds(g: Grounding, links: Seq<Link>, i: int)
    requires
        is_grounding_of(g, links),
        0 <= i < links.len(),
        links[i].checkable(),
        links[i].alive,
    ensures
        g is Grounded,
{
    crate::seqs::lemma_first_where(links, alive_link());
    assert(alive_link()(links[i]));
}

/// The numbers below `n`.
pub open spec fn places(n: nat) -> Seq<int> {
    Seq::new(n, |i: int| i)
}

/// Whether the node at an index is a live memory.
pub open spec fn live_at(nodes: Seq<Node>) -> spec_fn(int) -> bool {
    |i: int| nodes[i].live_memory()
}

/// Whether the node at an index is a live memory that is grounded.
pub open spec fn grounded_at(nodes: Seq<Node>, groundings: Seq<Grounding>) -> spec_fn(int) -> bool {
    |i: int| nodes[i].live_memory() && groundings[i] is Grounded
}

/// Whether the node at an index is a live memory that is ungrounded.
pub open spec fn ungrounded_at(nodes: Seq<Node>, groundings: Seq<Grounding>) -> spec_fn(
    int,
) -> bool {
    |i: int| nodes[i].live_memory() && groundings[i] is Ungrounded
}

/// How many live memories are grounded, stale and ungrounded. `groundings[i]` is the
/// grounding of `nodes[i]`.
pub fn tally(nodes: &Vec<Node>, groundings: &Vec<Grounding>) -> (r: (usize, usize, usize))
    requires
        nodes@.len() == groundings@.len(),
    ensures
        r.0 == count_where(places(nodes@.len()), grounded_at(nodes@, groundings@)),
        r.1 == count_where(places(nodes@.len()), stale_at(nodes@, groundings@)),
        r.2 == count_where(places(nodes@.len()), ungrounded_at(nodes@, groundings@)),
        r.0 + r.1 + r.2 == count_where(places(nodes@.len()), live_at(nodes@)),
{
    let ghost all = places(nodes@.len());
    let mut grounded: usize = 0;
    let mut stale: usize = 0;
    let mut ungrounded: usize = 0;
    let mut i: usize = 0;
    assert(all.take(0) =~= Seq::empty());
    while i < nodes.len()
        invariant
            i <= nodes@.len(),
            nodes@.len() == groundings@.len(),
            all == places(nodes@.len()),
            grounded + stale + ungrounded <= i,
            grounded == count_where(all.take(i as int), grounded_at(nodes@, groundings@)),
            stale == count_where(all.take(i as int), stale_at(nodes@, groundings@)),
            ungrounded == count_where(all.take(i as int), ungrounded_at(nodes@, groundings@)),
            grounded + stale + ungrounded == count_where(all.take(i as int), live_at(nodes@)),
        decreases nodes@.len() - i,
    {
        assert(all.take(i + 1).drop_last() =~= all.take(i as int));
        assert(all.take(i + 1).last() == i);
        if nodes[i].is_live_memory() {
            match &groundings[i] {
                Grounding::Grounded { .. } => {
                    grounded += 1;
                },
                Grounding::Stale { .. } => {
                    stale += 1;
                },
                Grounding::Ungrounded => {
                    ungrounded += 1;
                },
            }
        }
        i += 1;
    }
    assert(all.take(all.len() as int) =~= all);
    (grounded, stale, ungrounded)
}

/// Sort keys that put the newest node first.
pub open spec fn newest_keys(nodes: Seq<Node>) -> Seq<Key> {
    Seq::new(
        nodes.len(),
        |i: int| Key { first: flipped(nodes[i].created_at as int) as i128, second: 0, third: 0 },
    )
}

/// Sort keys that put the newest node first.
pub fn newest_first(nodes: &Vec<Node>) -> (r: Vec<usize>)
    ensures
        as_ints(r@) == ranking(newest_keys(nodes@)),
        forall|i: int| 0 <= i < r@.len() ==> #[trigger] r@[i] < nodes@.len(),
{
    let mut keys: Vec<Key> = Vec::new();
    let mut i: usize = 0;
    while i < nodes.len()
        invariant
            i <= nodes@.len(),
            keys@ == newest_keys(nodes@).take(i as int),
        decreases nodes@.len() - i,
    {
        keys.push(Key::of(flip(nodes[i].created_at)));
        assert(keys@ =~= newest_keys(nodes@).take(i + 1));
        i += 1;
    }
    assert(keys@ =~= newest_keys(nodes@));
    let order = rank(&keys);
    assert forall|i: int| 0 <= i < order@.len() implies #[trigger] order@[i] < nodes@.len() by {
        assert(as_ints(order@)[i] == order@[i]);
    }
    order
}

/// Whether the node at an index is a live memory that is stale.
pub open spec fn stale_at(nodes: Seq<Node>, groundings: Seq<Grounding>) -> spec_fn(int) -> bool {
    |i: int| nodes[i].live_memory() && groundings[i] is Stale
}

/// The live memories that are stale, newest first, at most `limit`.
pub open spec fn stale_list(nodes: Seq<Node>, groundings: Seq<Grounding>, limit: int) -> Seq<int> {
    first_n(kept(ranking(newest_keys(nodes)), stale_at(nodes, groundings)), limit)
}

/// What a stale memory pointed at: kind and label.
pub open spec fn stale_text(g: Grounding) -> Seq<char> {
    match g {
        Grounding::Stale { kind, label } => kind.name() + seq![' '] + label@,
        _ => Seq::empty(),
    }
}

/// The live memories whose grounding has failed, newest first, each with what
/// it pointed at. `groundings[i]` is the grounding of `nodes[i]`.
pub fn stale_memories(nodes: &Vec<Node>, groundings: &Vec<Grounding>, limit: usize) -> (r: Vec<
    (usize, String),
>)
    requires
        nodes@.len() == groundings@.len(),
    ensures
        r@.len() == stale_list(nodes@, groundings@, limit as int).len(),
        forall|k: int|
            0 <= k < r@.len() ==> (#[trigger] r@[k]).0 == stale_list(
                nodes@,
                groundings@,
                limit as int,
            )[k] && r@[k].0 < nodes@.len() && r@[k].1@ == stale_text(groundings@[r@[k].0 as int]),
{
    let order = newest_first(nodes);
    let ghost o = as_ints(order@);
    let ghost p = stale_at(nodes@, groundings@);
    let mut out: Vec<(usize, String)> = Vec::new();
    let mut k: usize = 0;
    assert(o.take(0) =~= Seq::empty());
    while k < order.len() && out.len() < limit
        invariant
            k <= order@.len(),
            nodes@.len() == groundings@.len(),
            o == as_ints(order@),
            p == stale_at(nodes@, groundings@),
            forall|i: int| 0 <= i < order@.len() ==> #[trigger] order@[i] < nodes@.len(),
            out@.len() <= limit,
            out@.len() == kept(o.take(k as int), p).len(),
            forall|i: int|
                0 <= i < out@.len() ==> (#[trigger] out@[i]).0 == kept(o.take(k as int), p)[i]
                    && out@[i].0 < nodes@.len() && out@[i].1@ == stale_text(
                    groundings@[out@[i].0 as int],
                ),
        decreases order@.len() - k,
    {
        assert(o.take(k + 1).drop_last() =~= o.take(k as int));
        assert(o.take(k + 1).last() == order@[k as int]);
        let j: usize = order[k];
        if nodes[j].is_live_memory() {
            if let Grounding::Stale { kind, label } = &groundings[j] {
                let mut text = String::new();
                text.append(kind.as_str());
                text.push(' ');
                text.append(label.as_str());
                assert(text@ =~= stale_text(groundings@[j as int]));
                out.push((j, text));
            }
        }
        k += 1;
    }
    proof {
        let whole = kept(o, p);
        lemma_kept_prefix(o, p, k as int);
        let part = kept(o.take(k as int), p);
        if k == order@.len() {
            assert(o.take(k as int) =~= o);
        }
        let want = first_n(whole, limit as int);
        assert(part =~= want);
    }
    out
}

/// The list and the count agree: where the limit leaves room for all of them, as many
/// memories are listed as stale as are counted as stale.
pub proof fn the_list_and_the_count_agree(
    nodes: Seq<Node>,
    groundings: Seq<Grounding>,
    limit: int,
)
    requires
        limit >= nodes.len(),
    ensures
        stale_list(nodes, groundings, limit).len() == count_where(
            places(nodes.len()),
            stale_at(nodes, groundings),
        ),
{
    let keys = newest_keys(nodes);
    let p = stale_at(nodes, groundings);
    lemma_ranking_counts(keys, p, keys.len() as int);
    ranking_is_sorted(keys, keys.len() as int);
    lemma_kept(ranking(keys), p);
    assert(places(nodes.len()) =~= Seq::new(keys.len(), |i: int| i));
}

} // verus!
