//! Learning from use: which memories fade, how fast, and how often a day a
//! signal counts. The strengths themselves are fractions and are computed by the
//! caller.

use vstd::prelude::*;

use crate::format::DAY_SECONDS;
use crate::model::{Kind, Node};
use crate::text::same;
#[allow(unused_imports)]
use crate::json::opt_view;
#[allow(unused_imports)]
use vstd::string::*;

verus! {

/// Days in which the strength of a node halves. Nothing: it never fades.
pub open spec fn half_life(kind: Kind, subkind: Option<Seq<char>>) -> Option<u32> {
    if kind != Kind::Memory {
        None
    } else {
        match subkind {
            None => Some(90u32),
            Some(s) => if s == "gotcha"@ {
                Some(180u32)
            } else if s == "decision"@ {
                Some(365u32)
            } else if s == "insight"@ {
                Some(120u32)
            } else if s == "note"@ {
                Some(90u32)
            } else if s == "idea"@ {
                Some(60u32)
            } else {
                None
            },
        }
    }
}

/// Days in which the strength of a node halves. Nothing: it never fades.
pub fn half_life_days(kind: Kind, subkind: Option<&str>) -> (r: Option<u32>)
    ensures
        r == half_life(
            kind,
            match subkind {
                Some(s) => Some(s@),
                None => None,
            },
        ),
{
    if kind != Kind::Memory {
        return None;
    }
    match subkind {
        None => Some(90),
        Some(s) => {
            if same(s, "gotcha") {
                Some(180)
            } else if same(s, "decision") {
                Some(365)
            } else if same(s, "insight") {
                Some(120)
            } else if same(s, "note") {
                Some(90)
            } else if same(s, "idea") {
                Some(60)
            } else {
                None
            }
        },
    }
}

/// Whether a type of memory has priority over others that match as well.
pub fn has_type_prior(subkind: Option<&str>) -> (r: bool)
    ensures
        r == (subkind is Some && ((subkind->0)@ == "gotcha"@ || (subkind->0)@ == "decision"@)),
{
    match subkind {
        Some(s) => same(s, "gotcha") || same(s, "decision"),
        None => false,
    }
}

/// Whether a node's strength fades: it has a half-life and is not pinned.
pub open spec fn fades(n: Node) -> bool {
    !n.pinned && half_life(n.kind, opt_view(n.subkind)) is Some
}

/// How a node's strength has faded by `now`: seconds since it was last used, or
/// else since it was made, and the days of its half-life. Nothing where it does
/// not fade.
pub open spec fn fading(n: Node, now: int) -> Option<(int, u32)> {
    if fades(n) {
        let reference = match n.last_accessed {
            Some(t) => t as int,
            None => n.created_at as int,
        };
        Some(
            (
                if now > reference {
                    now - reference
                } else {
                    0
                },
                half_life(n.kind, opt_view(n.subkind))->0,
            ),
        )
    } else {
        None
    }
}

fn half_life_of(n: &Node) -> (r: Option<u32>)
    ensures
        r == half_life(n.kind, opt_view(n.subkind)),
{
    match &n.subkind {
        Some(s) => half_life_days(n.kind, Some(s.as_str())),
        None => half_life_days(n.kind, None),
    }
}

/// How a node's strength has faded by `now`: the age in seconds that counts, and
/// the half-life in days.
pub fn decay(n: &Node, now: i64) -> (r: Option<(u64, u32)>)
    ensures
        match r {
            Some((age, days)) => fading(*n, now as int) == Some((age as int, days)),
            None => fading(*n, now as int) is None,
        },
{
    if n.pinned {
        return None;
    }
    match half_life_of(n) {
        Some(days) => {
            let reference: i64 = match n.last_accessed {
                Some(t) => t,
                None => n.created_at,
            };
            let age: u64 = if now > reference {
                (now as i128 - reference as i128) as u64
            } else {
                0
            };
            Some((age, days))
        },
        None => None,
    }
}

/// Use restarts the clock: a node used just now has not faded.
pub proof fn use_restarts_the_clock(n: Node, now: int)
    requires
        fades(n),
        n.last_accessed is Some,
        n.last_accessed->0 == now,
    ensures
        (fading(n, now)->0).0 == 0,
{
}

/// Something that happened to a node.
#[derive(Debug, Clone)]
pub struct Event {
    pub node_id: i64,
    pub name: String,
    pub at: i64,
}

/// The start of the day of `now`, in UTC.
pub open spec fn midnight(now: int) -> int {
    now - now % 86_400
}

/// Whether a node already had an event of this name on the day of `now`.
pub open spec fn had_today(events: Seq<Event>, node_id: i64, name: Seq<char>, now: int) -> bool {
    exists|i: int|
        0 <= i < events.len() && (#[trigger] events[i]).node_id == node_id && events[i].name@
            == name && events[i].at >= midnight(now)
}

/// Whether a node already had an event of this name today.
pub fn capped_today(events: &Vec<Event>, node_id: i64, name: &str, now: i64) -> (r: bool)
    ensures
        r == had_today(events@, node_id, name@, now as int),
{
    let at = now as i128;
    let start: i128 = if now >= 0 {
        at - at % (DAY_SECONDS as i128)
    } else {
        at + 1 + (-1 - at) % (DAY_SECONDS as i128) - DAY_SECONDS as i128
    };
    assert(start == midnight(now as int)) by {
        if now < 0 {
            let q = (-1 - now) / 86_400;
            let r = (-1 - now) % 86_400;
            assert(now == (-1 - q) * 86_400 + (86_399 - r));
        }
    }
    let mut i: usize = 0;
    while i < events.len()
        invariant
            i <= events@.len(),
            start == midnight(now as int),
            forall|k: int|
                0 <= k < i ==> !((#[trigger] events@[k]).node_id == node_id && events@[k].name@
                    == name@ && events@[k].at >= start),
        decreases events@.len() - i,
    {
        let e = &events[i];
        if e.node_id == node_id && same(e.name.as_str(), name) && e.at as i128 >= start {
            return true;
        }
        i += 1;
    }
    false
}

/// Records that a node was opened, and tells whether that counts: once a day.
pub fn record_opened(events: &mut Vec<Event>, node_id: i64, now: i64) -> (r: bool)
    ensures
        r == !had_today(old(events)@, node_id, "opened"@, now as int),
        final(events)@.len() == old(events)@.len() + 1,
        final(events)@.take(old(events)@.len() as int) == old(events)@,
        final(events)@.last().node_id == node_id,
        final(events)@.last().name@ == "opened"@,
        final(events)@.last().at == now,
{
    note(events, node_id, "opened", now)
}

/// Records an explicit mark, and tells whether it counts: once a day.
pub fn apply_mark(events: &mut Vec<Event>, node_id: i64, useful: bool, now: i64) -> (r: bool)
    ensures
        r == !had_today(old(events)@, node_id, mark_name(useful), now as int),
        final(events)@.len() == old(events)@.len() + 1,
        final(events)@.take(old(events)@.len() as int) == old(events)@,
        final(events)@.last().node_id == node_id,
        final(events)@.last().name@ == mark_name(useful),
        final(events)@.last().at == now,
{
    if useful {
        note(events, node_id, "useful", now)
    } else {
        note(events, node_id, "not_useful", now)
    }
}

/// The name that a mark is recorded under.
pub open spec fn mark_name(useful: bool) -> Seq<char> {
    if useful {
        "useful"@
    } else {
        "not_useful"@
    }
}

fn note(events: &mut Vec<Event>, node_id: i64, name: &str, now: i64) -> (r: bool)
    ensures
        r == !had_today(old(events)@, node_id, name@, now as int),
        final(events)@.len() == old(events)@.len() + 1,
        final(events)@.take(old(events)@.len() as int) == old(events)@,
        final(events)@.last().node_id == node_id,
        final(events)@.last().name@ == name@,
        final(events)@.last().at == now,
{
    let ghost was = events@;
    let first = !capped_today(events, node_id, name, now);
    events.push(Event { node_id, name: name.to_owned(), at: now });
    assert(events@.take(was.len() as int) =~= was);
    first
}

/// A signal counts once a day: after it was recorded, the same signal on the
/// same day does not count again.
pub proof fn signal_counts_once_a_day(
    events: Seq<Event>,
    node_id: i64,
    name: Seq<char>,
    now: int,
    later: int,
)
    requires
        events.len() > 0,
        events.last().node_id == node_id,
        events.last().name@ == name,
        events.last().at == now,
        midnight(later) == midnight(now),
    ensures
        had_today(events, node_id, name, later),
{
    assert(events[events.len() - 1].at >= midnight(later));
}

} // verus!
