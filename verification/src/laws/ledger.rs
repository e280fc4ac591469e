//! Laws of what is written down of a memory: findings, versions, changes, uses, and
//! what was saved.

use vstd::prelude::*;

#[allow(unused_imports)]
use crate::audit::{by_time as changes_by_time, is_about, latest_first, Mutation};
#[allow(unused_imports)]
use crate::context_guard::{guard_text, handoff, speaks, starts, SessionState};
#[allow(unused_imports)]
use crate::grounding::newest_keys;
#[allow(unused_imports)]
use crate::laws::order::selection_is_exact_and_sorted;
#[allow(unused_imports)]
use crate::learn::{fades, fading, had_today, half_life, mark_name, midnight, Event};
#[allow(unused_imports)]
use crate::memory::listing;
#[allow(unused_imports)]
use crate::model::{Kind, Node, Scope};
#[allow(unused_imports)]
use crate::order::ranking;
#[allow(unused_imports)]
use crate::review::{
    effect_of, enqueued, is_same_finding, is_unresolved, is_waiting, note_text, queue_keys,
    unresolved, Disposition, Effect, Finding, RowView,
};
#[allow(unused_imports)]
use crate::revision::{by_time as versions_by_time, is_of, rows_of, Row};
#[allow(unused_imports)]
use crate::savings::{
    count_of, counts, day_of, net, net_cost, saved_by, saved_on, sum_after, sum_before,
    SavingsEvent, Totals,
};
#[allow(unused_imports)]
use crate::seqs::{first_where, kept, lemma_first_where};
#[allow(unused_imports)]
use crate::text::{contains, decimal_nat, starts_with};
#[allow(unused_imports)]
use vstd::string::*;

verus! {

/// A finding that is new is queued as it is; one that waits is told again, now and with
/// what is known now; and one that was decided is left alone. Two findings are the same
/// where they are of one kind and about the same memories.
pub proof fn a_finding_is_queued_once(
    v: Seq<RowView>,
    id: i64,
    finding: Finding,
    node_id: i64,
    other_id: Option<i64>,
    detail: Option<Seq<char>>,
    now: i64,
    i: int,
)
    requires
        other_id != Some(-1i64),
        forall|k: int| 0 <= k < v.len() ==> (#[trigger] v[k]).other_id != Some(-1i64),
    ensures
        ({
            let r = enqueued(v, id, finding, node_id, other_id, detail, now);
            &&& (forall|k: int|
                0 <= k < v.len() ==> !((#[trigger] v[k]).finding == finding && v[k].node_id
                    == node_id && v[k].other_id == other_id)) ==> r == v.push(
                RowView { id, at: now, finding, node_id, other_id, detail, decided: None },
            )
            &&& 0 <= i < v.len() && v[i].finding == finding && v[i].node_id == node_id
                && v[i].other_id == other_id && (forall|k: int|
                0 <= k < i ==> !((#[trigger] v[k]).finding == finding && v[k].node_id == node_id
                    && v[k].other_id == other_id)) ==> if v[i].decided is Some {
                r == v
            } else {
                &&& r.len() == v.len()
                &&& r[i].at == now
                &&& r[i].detail == detail
                &&& r[i].id == v[i].id
                &&& r[i].finding == finding
                &&& r[i].node_id == node_id
                &&& r[i].other_id == other_id
                &&& r[i].decided is None
                &&& forall|k: int| 0 <= k < v.len() && k != i ==> #[trigger] r[k] == v[k]
            }
        }),
{
    let p = is_same_finding(finding, node_id, other_id);
    assert forall|k: int| 0 <= k < v.len() implies p(#[trigger] v[k]) == (v[k].finding == finding
        && v[k].node_id == node_id && v[k].other_id == other_id) by {}
    lemma_first_where(v, p);
    if 0 <= i < v.len() && p(v[i]) && (forall|k: int| 0 <= k < i ==> !p(#[trigger] v[k])) {
        crate::seqs::lemma_first_where_is(v, p, i);
    }
}

/// What waits for a person is what nobody has decided, all of it, the oldest first.
pub proof fn the_queue_is_oldest_first(v: Seq<RowView>) -> (at: Seq<int>)
    ensures
        at == kept(ranking(queue_keys(v)), is_waiting(v)),
        forall|k: int| 0 <= k < at.len() ==> 0 <= #[trigger] at[k] < v.len(),
        forall|i: int|
            #![trigger at.contains(i)]
            0 <= i < v.len() ==> (at.contains(i) <==> v[i].decided is None),
        forall|a: int, b: int|
            #![trigger at[a], at[b]]
            0 <= a < b < at.len() ==> v[at[a]].at < v[at[b]].at || (v[at[a]].at == v[at[b]].at
                && v[at[a]].id <= v[at[b]].id),
{
    let keys = queue_keys(v);
    selection_is_exact_and_sorted(keys, is_waiting(v));
    let at = kept(ranking(keys), is_waiting(v));
    assert forall|a: int, b: int|
        #![trigger at[a], at[b]]
        0 <= a < b < at.len() implies v[at[a]].at < v[at[b]].at || (v[at[a]].at == v[at[b]].at
        && v[at[a]].id <= v[at[b]].id) by {
        assert(keys[at[a]].less(keys[at[b]]) || keys[at[a]] == keys[at[b]]);
    }
    at
}

/// A memory is unresolved where it is not deleted, gives an end condition, and declared
/// an expiry that has passed; the newest come first.
pub proof fn past_expiry_with_a_condition_is_unresolved(
    nodes: Seq<Node>,
    now: int,
    i: int,
    a: int,
    b: int,
)
    requires
        0 <= i < nodes.len(),
    ensures
        nodes[i].kind == Kind::Memory && nodes[i].deleted_at is None
            && nodes[i].meta.resolves_when is Some && nodes[i].meta.expires_at is Some
            && nodes[i].meta.expires_at->0 <= now ==> unresolved(nodes, now).contains(i),
        unresolved(nodes, now).contains(i) ==> nodes[i].kind == Kind::Memory && nodes[i].deleted_at
            is None && (nodes[i].meta.resolves_when is Some || nodes[i].meta.other_condition) && (
        nodes[i].meta.expires_at is Some ==> nodes[i].meta.expires_at->0 <= now) && (
        nodes[i].meta.expires_at is None ==> nodes[i].meta.rough_expiry is Some
            && nodes[i].meta.rough_expiry->0 <= now),
        0 <= a < b < unresolved(nodes, now).len() ==> nodes[unresolved(nodes, now)[a]].created_at
            >= nodes[unresolved(nodes, now)[b]].created_at,
{
    let keys = newest_keys(nodes);
    let p = is_unresolved(nodes, now);
    selection_is_exact_and_sorted(keys, p);
    let r = unresolved(nodes, now);
    assert(r.contains(i) <==> p(i));
    if 0 <= a < b < r.len() {
        assert(keys[r[a]].less(keys[r[b]]) || keys[r[a]] == keys[r[b]]);
    }
}

/// Superseding retires the older of the two memories of a finding, and needs both; any
/// other decision retires none.
pub proof fn a_decision_retires_the_older(
    nodes: Seq<Node>,
    v: RowView,
    other: i64,
    i: int,
    j: int,
)
    requires
        v.other_id == Some(other),
        v.node_id != other,
        0 <= i < nodes.len(),
        0 <= j < nodes.len(),
        nodes[i].id == v.node_id,
        nodes[j].id == other,
        forall|x: int, y: int|
            #![trigger nodes[x], nodes[y]]
            0 <= x < y < nodes.len() ==> nodes[x].id != nodes[y].id,
    ensures
        nodes[i].created_at < nodes[j].created_at ==> effect_of(nodes, v, Disposition::Supersede)
            == Some(Effect::Supersede { older: v.node_id, newer: other }),
        nodes[i].created_at > nodes[j].created_at ==> effect_of(nodes, v, Disposition::Supersede)
            == Some(Effect::Supersede { older: other, newer: v.node_id }),
        effect_of(nodes, v, Disposition::Keep) == Some(Effect::Noted),
        effect_of(nodes, v, Disposition::Dismiss) == Some(Effect::Noted),
        effect_of(nodes, RowView { other_id: None, ..v }, Disposition::Supersede) is None,
{
    let p = crate::review::is_node(v.node_id);
    let q = crate::review::is_node(other);
    lemma_first_where(nodes, p);
    lemma_first_where(nodes, q);
    assert(p(nodes[i]) && q(nodes[j]));
    let a = first_where(nodes, p)->0;
    let b = first_where(nodes, q)->0;
    assert(nodes[a].id == nodes[i].id);
    assert(nodes[b].id == nodes[j].id);
    assert(a == i) by {
        if a < i {
            assert(nodes[a].id != nodes[i].id);
        } else if i < a {
            assert(nodes[i].id != nodes[a].id);
        }
    }
    assert(b == j) by {
        if b < j {
            assert(nodes[b].id != nodes[j].id);
        } else if j < b {
            assert(nodes[j].id != nodes[b].id);
        }
    }
}

/// The note of a decision names the finding, the decision and the reason.
pub proof fn a_note_names_the_decision(reason: Seq<char>)
    ensures
        note_text(Disposition::Keep, Finding::Contradiction, None) == "review: "@
            + "contradiction"@ + " — "@ + "keep"@,
        note_text(Disposition::Dismiss, Finding::StaleGrounding, Some(reason)) == "review: "@
            + "stale-grounding"@ + " — "@ + "dismiss"@ + " — "@ + reason,
        note_text(Disposition::Keep, Finding::Unresolved, Some(reason)) == "review: "@
            + "unresolved"@ + " — "@ + "keep"@ + " — "@ + reason,
{
}

/// The versions of a memory that ended after a time are all of them, the earliest first:
/// what it said at that time is the first.
pub proof fn versions_are_in_the_order_of_time(
    rows: Seq<Row>,
    node_id: i64,
    after: Option<i64>,
) -> (at: Seq<int>)
    ensures
        rows_of(rows, node_id, after).len() == at.len(),
        forall|k: int|
            0 <= k < at.len() ==> 0 <= #[trigger] at[k] < rows.len() && rows_of(
                rows,
                node_id,
                after,
            )[k] == rows[at[k]],
        forall|i: int|
            #![trigger at.contains(i)]
            0 <= i < rows.len() ==> (at.contains(i) <==> rows[i].node_id == node_id && (after
                is Some ==> rows[i].revision.at > after->0)),
        forall|a: int, b: int|
            #![trigger at[a], at[b]]
            0 <= a < b < at.len() ==> rows[at[a]].revision.at <= rows[at[b]].revision.at,
{
    let keys = versions_by_time(rows);
    let p = is_of(rows, node_id, after);
    selection_is_exact_and_sorted(keys, p);
    let at = kept(ranking(keys), p);
    assert forall|a: int, b: int|
        #![trigger at[a], at[b]]
        0 <= a < b < at.len() implies rows[at[a]].revision.at <= rows[at[b]].revision.at by {
        assert(keys[at[a]].less(keys[at[b]]) || keys[at[a]] == keys[at[b]]);
    }
    at
}

/// The history of a memory is every change of it, the earliest first; what happened
/// lately is every change, the latest first, and of one time the last written first.
pub proof fn histories_are_complete(ledger: Seq<Mutation>, node_id: i64) -> (r: (
    Seq<int>,
    Seq<int>,
))
    requires
        ledger.len() <= u64::MAX,
    ensures
        r.0 == kept(ranking(changes_by_time(ledger)), is_about(ledger, node_id)),
        r.1 == ranking(latest_first(ledger)),
        forall|k: int| 0 <= k < r.0.len() ==> 0 <= #[trigger] r.0[k] < ledger.len(),
        forall|i: int|
            #![trigger r.0.contains(i)]
            0 <= i < ledger.len() ==> (r.0.contains(i) <==> ledger[i].node_id == node_id),
        forall|a: int, b: int|
            #![trigger r.0[a], r.0[b]]
            0 <= a < b < r.0.len() ==> ledger[r.0[a]].at <= ledger[r.0[b]].at,
        forall|k: int| 0 <= k < r.1.len() ==> 0 <= #[trigger] r.1[k] < ledger.len(),
        r.1.len() == ledger.len(),
        forall|a: int, b: int|
            #![trigger r.1[a], r.1[b]]
            0 <= a < b < r.1.len() ==> ledger[r.1[a]].at > ledger[r.1[b]].at || (
            ledger[r.1[a]].at == ledger[r.1[b]].at && r.1[a] > r.1[b]),
{
    let keys = changes_by_time(ledger);
    let p = is_about(ledger, node_id);
    selection_is_exact_and_sorted(keys, p);
    let x = kept(ranking(keys), p);
    assert forall|a: int, b: int|
        #![trigger x[a], x[b]]
        0 <= a < b < x.len() implies ledger[x[a]].at <= ledger[x[b]].at by {
        assert(keys[x[a]].less(keys[x[b]]) || keys[x[a]] == keys[x[b]]);
    }
    let late = latest_first(ledger);
    crate::order::ranking_is_sorted(late, late.len() as int);
    let y = ranking(late);
    assert forall|a: int, b: int|
        #![trigger y[a], y[b]]
        0 <= a < b < y.len() implies ledger[y[a]].at > ledger[y[b]].at || (ledger[y[a]].at
        == ledger[y[b]].at && y[a] > y[b]) by {
        assert(late[y[a]].less(late[y[b]]) || (late[y[a]] == late[y[b]] && y[a] < y[b]));
    }
    (x, y)
}

/// Days in which the strength of a memory halves, by its type; what is pinned, what is
/// of another type, and what is no memory never fades.
pub proof fn half_lives(kind: Kind, s: Seq<char>, n: Node)
    ensures
        half_life(Kind::Memory, Some("gotcha"@)) == Some(180u32),
        half_life(Kind::Memory, Some("decision"@)) == Some(365u32),
        half_life(Kind::Memory, Some("insight"@)) == Some(120u32),
        half_life(Kind::Memory, Some("note"@)) == Some(90u32),
        half_life(Kind::Memory, Some("idea"@)) == Some(60u32),
        half_life(Kind::Memory, None) == Some(90u32),
        s != "gotcha"@ && s != "decision"@ && s != "insight"@ && s != "note"@ && s != "idea"@
            ==> half_life(kind, Some(s)) is None,
        kind != Kind::Memory ==> half_life(kind, Some(s)) is None && half_life(kind, None) is None,
        n.pinned ==> !fades(n),
        n.kind != Kind::Memory ==> !fades(n),
        !n.pinned && n.kind == Kind::Memory && n.subkind is None ==> fades(n),
{
    reveal_strlit("gotcha");
    reveal_strlit("decision");
    reveal_strlit("insight");
    reveal_strlit("note");
    reveal_strlit("idea");
    assert("gotcha"@.len() == 6 && "decision"@.len() == 8 && "insight"@.len() == 7);
    assert("note"@[0] == 'n' && "idea"@[0] == 'i');
    assert("note"@.len() == 4 && "idea"@.len() == 4);
}

/// A memory fades from its last use on, or from its creation where it was never used,
/// and never backwards.
pub proof fn fading_starts_at_the_last_use(n: Node, now: int)
    requires
        fades(n),
    ensures
        fading(n, now) is Some,
        n.last_accessed is Some && now >= n.last_accessed->0 ==> (fading(n, now)->0).0 == now
            - n.last_accessed->0,
        n.last_accessed is None && now >= n.created_at ==> (fading(n, now)->0).0 == now
            - n.created_at,
        (fading(n, now)->0).0 >= 0,
{
}

/// A day starts at midnight: the same signal counts again on the next day, and an event
/// of the day before is none of today.
pub proof fn a_day_starts_at_midnight(
    events: Seq<Event>,
    node_id: i64,
    name: Seq<char>,
    now: int,
)
    ensures
        midnight(now) <= now < midnight(now) + 86_400,
        midnight(now) % 86_400 == 0,
        had_today(events, node_id, name, now) <==> exists|i: int|
            0 <= i < events.len() && (#[trigger] events[i]).node_id == node_id && events[i].name@
                == name && events[i].at >= now - now % 86_400,
        mark_name(true) == "useful"@,
        mark_name(false) == "not_useful"@,
{
}

/// What an entry adds: a saving its difference, to the savings of every span that
/// reaches back to it; a brief its own cost, to the costs alone.
pub proof fn an_entry_counts_for_what_it_is(
    events: Seq<SavingsEvent>,
    e: SavingsEvent,
    since: int,
)
    ensures
        e.source@ != "brief"@ && e.at >= since ==> net(events.push(e), since) == net(events, since)
            + (e.before - e.after) && net_cost(events.push(e), since) == net_cost(events, since),
        e.source@ == "brief"@ && e.at >= since ==> net_cost(events.push(e), since) == net_cost(
            events,
            since,
        ) + (e.after - e.before) && net(events.push(e), since) == net(events, since),
        e.at < since ==> net(events.push(e), since) == net(events, since) && net_cost(
            events.push(e),
            since,
        ) == net_cost(events, since),
        net(Seq::empty(), since) == 0,
        net_cost(Seq::empty(), since) == 0,
        count_of(events.push(e), counts(false, since)) == count_of(events, counts(false, since))
            + if e.source@ != "brief"@ && e.at >= since {
            1int
        } else {
            0
        },
        sum_before(events.push(e), counts(false, since)) == sum_before(
            events,
            counts(false, since),
        ) + if e.source@ != "brief"@ && e.at >= since {
            e.before as int
        } else {
            0
        },
        sum_after(events.push(e), counts(false, since)) == sum_after(events, counts(false, since))
            + if e.source@ != "brief"@ && e.at >= since {
            e.after as int
        } else {
            0
        },
{
    assert(events.push(e).drop_last() =~= events);
}

/// What a source saved, and what was saved on a day, counts its own entries and no
/// others; a day has 86 400 seconds, counted from the epoch in both directions.
pub proof fn sources_and_days_count_their_own(
    events: Seq<SavingsEvent>,
    e: SavingsEvent,
    source: Seq<char>,
    day: int,
    since: int,
)
    ensures
        saved_by(events.push(e), source, since) == saved_by(events, source, since)
            + if e.source@ == source && e.at >= since {
            e.before - e.after
        } else {
            0
        },
        saved_on(events.push(e), day, since) == saved_on(events, day, since) + if e.source@
            != "brief"@ && e.at >= since && day * 86_400 <= e.at < (day + 1) * 86_400 {
            e.before - e.after
        } else {
            0
        },
        saved_by(Seq::empty(), source, since) == 0,
        saved_on(Seq::empty(), day, since) == 0,
{
    assert(events.push(e).drop_last() =~= events);
    let at = e.at as int;
    assert(day_of(at) == day <==> day * 86_400 <= at < (day + 1) * 86_400);
}

/// What was saved is the difference, and never less than nothing.
pub proof fn savings_are_not_negative(t: Totals)
    ensures
        t.before >= t.after ==> t.saved_spec() == t.before - t.after,
        t.before < t.after ==> t.saved_spec() == 0,
{
}

/// The guard speaks from the threshold on, the first time at once, and again only ten
/// points after it last spoke; and then it does.
pub proof fn the_guard_speaks_every_ten_points(
    state: SessionState,
    last: u8,
    pct: u8,
    threshold: u8,
)
    ensures
        pct < threshold ==> !speaks(state, pct, threshold),
        state.guard_last_pct is None && pct >= threshold ==> speaks(state, pct, threshold),
        state.guard_last_pct is Some && state.guard_last_pct->0@ == decimal_nat(last as nat) && pct
            >= threshold ==> (speaks(state, pct, threshold) <==> pct >= last + 10),
{
    crate::context_guard::written_numbers_read_back(last as nat, 255);
}

/// The guard says nothing below the threshold and in no other mode than its two; it
/// names the percentage, and what to do.
pub proof fn the_guard_says_what_to_do(pct: u8, threshold: u8, mode: Seq<char>)
    ensures
        pct < threshold ==> guard_text(pct, threshold, mode) is None,
        mode != "pause"@ && mode != "handoff"@ ==> guard_text(pct, threshold, mode) is None,
        pct >= threshold ==> guard_text(pct, threshold, "pause"@) is Some && guard_text(
            pct,
            threshold,
            "handoff"@,
        ) is Some,
        pct >= threshold ==> guard_text(pct, threshold, "pause"@) != guard_text(
            pct,
            threshold,
            "handoff"@,
        ),
        pct >= threshold ==> starts_with(
            guard_text(pct, threshold, "pause"@)->0,
            "[mimir context guard] This session's context is ~"@ + decimal_nat(pct as nat)
                + "% full. Consider"@,
        ),
        pct >= threshold ==> starts_with(
            guard_text(pct, threshold, "handoff"@)->0,
            "[mimir context guard] This session's context is ~"@ + decimal_nat(pct as nat)
                + "% full. Before"@,
        ),
{
    reveal_strlit("pause");
    reveal_strlit("handoff");
    assert("pause"@.len() != "handoff"@.len());
    reveal_strlit("% full. Consider");
    reveal_strlit("% full. Before");
    reveal_strlit(
        "% full. Consider a deliberate `/clear` or `/compact` now, on your own terms, rather than letting it happen mid-task. To keep continuity across the clear, save a handoff first: `mimir remember \"<what's in flight, next step>\" -t note --tags session-handoff`.",
    );
    reveal_strlit(
        "% full. Before anything else, write ONE structured handoff memory summarizing exactly what's in flight and the next concrete step:\n  mimir remember \"<handoff>\" -t note --tags session-handoff\nThen tell the user to run `/clear` — the next session auto-restores this handoff on SessionStart.",
    );
    if pct >= threshold {
        let head = "[mimir context guard] This session's context is ~"@ + decimal_nat(pct as nat);
        let a = guard_text(pct, threshold, "pause"@)->0;
        let b = guard_text(pct, threshold, "handoff"@)->0;
        let x = head + "% full. Consider"@;
        let y = head + "% full. Before"@;
        assert(a.subrange(0, x.len() as int) =~= x);
        assert(b.subrange(0, y.len() as int) =~= y);
        assert(a[head.len() as int + 8] == 'C');
        assert(b[head.len() as int + 8] == 'B');
    }
}

/// A startup forgets the session before; a clear or a compaction keeps the size of the
/// transcript then, and lets the guard speak again; any other start changes nothing.
pub proof fn starts_of_a_session(
    before: SessionState,
    after: SessionState,
    source: Seq<char>,
    bytes: u64,
)
    requires
        starts(before, after, source, bytes),
    ensures
        source == "startup"@ ==> after.transcript_marker is None && after.guard_last_pct is None,
        source == "clear"@ || source == "compact"@ ==> after.guard_last_pct is None
            && after.transcript_marker is Some && after.transcript_marker->0@ == decimal_nat(
            bytes as nat,
        ),
        source != "startup"@ && source != "clear"@ && source != "compact"@ ==> after == before,
{
    reveal_strlit("startup");
    reveal_strlit("clear");
    reveal_strlit("compact");
    assert("startup"@[0] == 's' && "clear"@[0] == 'c' && "compact"@[0] == 'c');
}

/// A handoff is the newest memory of the scope that carries its tag, told again under
/// its heading.
pub proof fn a_handoff_is_restored(nodes: Seq<Node>, scope: Scope)
    ensures
        ({
            let l = listing(nodes, scope, None, Some("session-handoff"@));
            &&& l.len() == 0 ==> handoff(nodes, scope) is None
            &&& l.len() > 0 && l[0].body is Some ==> handoff(nodes, scope) == Some(
                "Restored session handoff:\n"@ + l[0].body->0@,
            )
            &&& l.len() > 0 && l[0].body is None ==> handoff(nodes, scope) is None
        }),
{
}

} // verus!
