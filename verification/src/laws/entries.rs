//! Laws of entries: of reviews, of the ledger, of savings and of what is read from a
//! node's metadata.

use vstd::prelude::*;

#[allow(unused_imports)]
use crate::audit::{is_actor_named, is_entry, is_op_named, Mutation};
#[allow(unused_imports)]
use crate::consolidate::store::{is_mem_of, superseded_node, winner};
#[allow(unused_imports)]
use crate::consolidate::{are_labels, are_summaries, label, marks_distilled, Distilled, Mem};
#[allow(unused_imports)]
use crate::context_guard::guard_head;
#[allow(unused_imports)]
use crate::format::lowered;
#[allow(unused_imports)]
use crate::grounding::{stale_text, Grounding};
#[allow(unused_imports)]
use crate::index::{chunks_for, content_unchanged, stat_unchanged, Indexer};
#[allow(unused_imports)]
use crate::inject::{combined_overlap, content_words, hay_set};
#[allow(unused_imports)]
use crate::json::{member_i64, member_json, member_list, only_strings};
#[allow(unused_imports)]
use crate::memory::{normalized, token_seq};
#[allow(unused_imports)]
use crate::model::{
    archived_in, list_read, rough_expiry_in, short_form, stamp_of, tail_chars, Actor, Kind, Meta,
    MutationOp, NewNode, Node,
};
#[allow(unused_imports)]
use crate::number::second_of;
#[allow(unused_imports)]
use crate::order::{ranking, ranking_is_sorted};
#[allow(unused_imports)]
use crate::replicate::is_ulid;
#[allow(unused_imports)]
use crate::review::{
    condition_details, effect_of, enqueued, ids_at, is_decision_entry, is_open_row, is_queued,
    not_open_text, note_text, nothing_text, raised, stale_details, subject_of, Disposition, Effect,
    Finding, RowView,
};
#[allow(unused_imports)]
use crate::savings::{
    count_of, has_day, is_from, is_since, is_source_row, saved_by, saver_keys, source_names,
    SavingsEvent, Totals,
};
#[allow(unused_imports)]
use crate::text::{ascii_lower, decimal, decimal_nat, join, texts};
#[allow(unused_imports)]
use vstd::string::*;

verus! {

// ---------------------------------------------------------------------
// Reviews
// ---------------------------------------------------------------------

/// A decision is noted with what was found, what was decided and, where it was given, why.
pub proof fn a_decision_is_noted(d: Disposition, f: Finding, reason: Seq<char>)
    ensures
        note_text(d, f, None) == "review: "@ + f.name() + " — "@ + d.name(),
        note_text(d, f, Some(reason)) == "review: "@ + f.name() + " — "@ + d.name() + " — "@ + reason,
        forall|id: i64| #[trigger] not_open_text(id) == "no open review item #"@ + decimal(
            id as int,
        ),
        forall|id: i64| #[trigger]
            nothing_text(id, f) == "review #"@ + decimal(id as int) + " is a "@ + f.name()
                + " finding with nothing to supersede it with"@,
{
}

/// A scan raises up to twenty-five new findings, and refreshes those that wait already.
pub proof fn a_scan_raises_twenty_five(
    v: Seq<RowView>,
    first_id: int,
    start: int,
    finding: Finding,
    ids: Seq<i64>,
    details: Seq<Option<Seq<char>>>,
    now: i64,
    k: int,
)
    requires
        0 < k <= ids.len(),
    ensures
        ({
            let a = raised(v, first_id, start, finding, ids, details, now, k - 1);
            let b = raised(v, first_id, start, finding, ids, details, now, k);
            let waits = is_queued(a, finding, ids[k - 1], None);
            &&& waits || a.len() < v.len() + 25 ==> b == enqueued(
                a,
                (first_id + a.len() - start) as i64,
                finding,
                ids[k - 1],
                None,
                details[k - 1],
                now,
            )
            &&& !waits && a.len() >= v.len() + 25 ==> b == a
        }),
        raised(v, first_id, start, finding, ids, details, now, 0) == v,
{
}

/// A finding is raised on the node it is of: a stale grounding with what is gone, an
/// unresolved one with its condition.
pub proof fn findings_are_raised_on_their_nodes(
    nodes: Seq<Node>,
    groundings: Seq<Grounding>,
    places: Seq<int>,
    i: int,
)
    requires
        0 <= i < places.len(),
    ensures
        ids_at(nodes, places).len() == places.len(),
        ids_at(nodes, places)[i] == nodes[places[i]].id,
        stale_details(groundings, places)[i] == Some(stale_text(groundings[places[i]])),
        nodes[places[i]].meta.resolves_when is Some ==> condition_details(nodes, places)[i] == Some(
            nodes[places[i]].meta.resolves_when->0@,
        ),
        nodes[places[i]].meta.resolves_when is None ==> condition_details(nodes, places)[i] is None,
{
}

/// A decision is entered in the ledger as a human's: a supersession on the memory that is
/// retired, anything else as a review of the one it is about.
pub proof fn a_decision_is_entered(
    m: Mutation,
    nodes: Seq<Node>,
    v: RowView,
    older: i64,
    newer: i64,
    disposition: Disposition,
    reason: Option<Seq<char>>,
    now: i64,
)
    ensures
        is_decision_entry(
            m,
            nodes,
            v,
            Effect::Supersede { older, newer },
            disposition,
            reason,
            now,
        ) ==> m.node_id == older && m.op is Supersede && m.actor is Human && m.at == now && (reason
            is Some ==> m.reason is Some && m.reason->0@ == reason->0) && (reason is None
            ==> m.reason is None) && m.after_hash is None,
        is_decision_entry(m, nodes, v, Effect::Noted, disposition, reason, now) ==> m.node_id
            == v.node_id && m.op is Review && m.actor is Human && m.at == now && m.reason is Some
            && m.reason->0@ == note_text(disposition, v.finding, reason) && m.before_hash is None
            && m.after_hash is None,
        subject_of(v, Effect::Supersede { older, newer }) == older,
        subject_of(v, Effect::Noted) == v.node_id,
{
}

/// An entry says when, on what, what was done, by whom, why, and what was there before and
/// after.
pub proof fn an_entry_says_what_was_done(
    m: Mutation,
    at: i64,
    node_id: i64,
    op: MutationOp,
    actor: Actor,
    reason: Seq<char>,
    before: Seq<u8>,
    after: Seq<u8>,
)
    ensures
        is_entry(m, at, node_id, op, actor, Some(reason), Some(before), Some(after)) <==> m.at == at
            && m.node_id == node_id && m.op == op && m.actor == actor && m.reason is Some
            && m.reason->0@ == reason && m.before_hash is Some && m.before_hash->0@ == before
            && m.after_hash is Some && m.after_hash->0@ == after,
        is_entry(m, at, node_id, op, actor, None, None, None) <==> m.at == at && m.node_id == node_id
            && m.op == op && m.actor == actor && m.reason is None && m.before_hash is None
            && m.after_hash is None,
{
}

/// A name that is not known is read as an edit, or as the system's.
pub proof fn unknown_names_in_the_ledger(op: MutationOp, actor: Actor, s: Seq<char>)
    ensures
        op.name() == s ==> is_op_named(op, s),
        (forall|v: MutationOp| #[trigger] v.name() != s) ==> (is_op_named(op, s) <==> op is Edit),
        actor.name() == s ==> is_actor_named(actor, s),
        (forall|v: Actor| #[trigger] v.name() != s) ==> (is_actor_named(actor, s) <==> actor
            is System),
        is_op_named(op, s) && op.name() != s ==> op is Edit,
        is_actor_named(actor, s) && actor.name() != s ==> actor is System,
{
}

// ---------------------------------------------------------------------
// Savings
// ---------------------------------------------------------------------

/// Every source that wrote since the given time has a row, and no other has.
pub proof fn every_source_has_a_row(events: Seq<SavingsEvent>, since: int, name: Seq<char>)
    ensures
        source_names(events, since).contains(name) <==> exists|i: int|
            0 <= i < events.len() && (#[trigger] events[i]).source@ == name && events[i].at >= since,
        source_names(events, since).no_duplicates(),
{
    let p = is_since(since);
    let k = crate::seqs::kept(events, p);
    let s = crate::savings::sources(k);
    super::engine::the_first_of_each_is_kept(s, name);
    crate::seqs::lemma_kept(events, p);
    if s.contains(name) {
        let j = choose|j: int| 0 <= j < s.len() && s[j] == name;
        assert(p(k[j]));
        assert(events.contains(k[j]));
        let i = choose|i: int| 0 <= i < events.len() && events[i] == k[j];
        assert(events[i].source@ == name);
    }
    if exists|i: int| 0 <= i < events.len() && (#[trigger] events[i]).source@ == name && events[i].at
        >= since {
        let i = choose|i: int|
            0 <= i < events.len() && (#[trigger] events[i]).source@ == name && events[i].at >= since;
        crate::seqs::lemma_kept_all(events, p, i);
        let j = choose|j: int| 0 <= j < k.len() && k[j] == events[i];
        assert(s[j] == name);
    }
}

/// The source that saved most comes first.
pub proof fn the_best_saver_comes_first(
    events: Seq<SavingsEvent>,
    names: Seq<Seq<char>>,
    since: int,
)
    requires
        forall|i: int|
            0 <= i < names.len() ==> i64::MIN <= saved_by(events, #[trigger] names[i], since)
                <= i64::MAX,
    ensures
        ({
            let r = ranking(saver_keys(events, names, since));
            &&& r.len() == names.len()
            &&& forall|a: int, b: int|
                #![trigger r[a], r[b]]
                0 <= a < b < r.len() ==> saved_by(events, names[r[a]], since) >= saved_by(
                    events,
                    names[r[b]],
                    since,
                )
        }),
{
    let keys = saver_keys(events, names, since);
    ranking_is_sorted(keys, keys.len() as int);
    let r = ranking(keys);
    assert forall|a: int, b: int|
        #![trigger r[a], r[b]]
        0 <= a < b < r.len() implies saved_by(events, names[r[a]], since) >= saved_by(
        events,
        names[r[b]],
        since,
    ) by {
        assert(keys[r[a]].less(keys[r[b]]) || (keys[r[a]] == keys[r[b]] && r[a] < r[b]));
        assert(i64::MIN <= saved_by(events, names[r[a]], since) <= i64::MAX);
        assert(i64::MIN <= saved_by(events, names[r[b]], since) <= i64::MAX);
    }
}

/// A source's row counts its own entries.
pub proof fn a_row_counts_its_own(
    row: (String, Totals),
    events: Seq<SavingsEvent>,
    e: SavingsEvent,
    name: Seq<char>,
    since: int,
)
    ensures
        is_source_row(row, events, name, since) ==> row.0@ == name && row.1.before - row.1.after
            == saved_by(events, name, since) && row.1.events == count_of(
            events,
            is_from(name, since),
        ),
        count_of(events.push(e), is_from(name, since)) == count_of(events, is_from(name, since))
            + if e.source@ == name && e.at >= since {
            1int
        } else {
            0
        },
{
    assert(events.push(e).drop_last() =~= events);
}

/// A day has an entry where one of its time falls on it, that is no cost.
pub proof fn a_day_has_its_entries(events: Seq<SavingsEvent>, since: int, n: int, day: int)
    requires
        0 <= n <= events.len(),
    ensures
        has_day(events, since, n, day) <==> exists|i: int|
            0 <= i < n && (#[trigger] events[i]).source@ != "brief"@ && events[i].at >= since && day
                * 86_400 <= events[i].at < (day + 1) * 86_400,
{
    if has_day(events, since, n, day) {
        let i = choose|i: int|
            0 <= i < n && crate::savings::counts(false, since)(#[trigger] events[i])
                && crate::savings::day_of(events[i].at as int) == day;
        assert(events[i].at >= since);
    }
    if exists|i: int| 0 <= i < n && (#[trigger] events[i]).source@ != "brief"@ && events[i].at
        >= since && day * 86_400 <= events[i].at < (day + 1) * 86_400 {
        let i = choose|i: int|
            0 <= i < n && (#[trigger] events[i]).source@ != "brief"@ && events[i].at >= since && day
                * 86_400 <= events[i].at < (day + 1) * 86_400;
        assert(crate::savings::counts(false, since)(events[i]));
        assert(crate::savings::day_of(events[i].at as int) == day);
    }
}

// ---------------------------------------------------------------------
// Consolidation
// ---------------------------------------------------------------------

/// A memory is consolidated as what it is.
pub proof fn a_memory_is_consolidated_as_it_is(m: Mem, n: Node)
    requires
        is_mem_of(m, n),
    ensures
        m.id == n.id,
        m.uid@ == n.uid@,
        n.title is Some ==> m.title@ == n.title->0@,
        n.title is None ==> m.title@.len() == 0,
        n.body is Some ==> m.body@ == n.body->0@,
        n.body is None ==> m.body@.len() == 0,
        n.subkind is Some ==> m.subkind@ == n.subkind->0@,
        n.subkind is None ==> m.subkind@.len() == 0,
        m.project_id == n.project_id,
        m.created_at == n.created_at,
        m.pinned == n.pinned,
{
}

/// A memory is superseded by the last that is named for it, and changes in nothing else;
/// one that is not named stays as it is.
pub proof fn a_superseded_memory_names_its_successor(
    n: Node,
    pairs: Seq<(i64, i64)>,
    loser: i64,
    next: i64,
)
    ensures
        winner(Seq::empty(), n.id) is None,
        winner(pairs.push((n.id, next)), n.id) == Some(next),
        loser != n.id ==> winner(pairs.push((loser, next)), n.id) == winner(pairs, n.id),
        winner(pairs, n.id) is None ==> superseded_node(n, pairs) == n,
        winner(pairs, n.id) matches Some(w) ==> superseded_node(n, pairs).superseded_by == Some(w)
            && superseded_node(n, pairs) == (Node { superseded_by: Some(w), ..n }),
{
    assert(pairs.push((n.id, next)).drop_last() =~= pairs);
    assert(pairs.push((loser, next)).drop_last() =~= pairs);
}

/// A report names its pairs by their labels, a summary its members by their ids.
pub proof fn reports_name_what_they_are_of(
    labels: Seq<(String, String)>,
    pairs: Seq<(int, int)>,
    found: Seq<Distilled>,
    due: Seq<Seq<int>>,
    mems: Seq<Mem>,
    stop: Seq<Seq<char>>,
    i: int,
    k: int,
)
    requires
        are_labels(labels, mems, pairs),
        are_summaries(found, mems, due, stop),
    ensures
        labels.len() == pairs.len(),
        0 <= i < pairs.len() ==> labels[i].0@ == short_form(Kind::Memory, mems[pairs[i].0].uid@)
            + " "@ + mems[pairs[i].0].title@ && labels[i].1@ == short_form(
            Kind::Memory,
            mems[pairs[i].1].uid@,
        ) + " "@ + mems[pairs[i].1].title@,
        found.len() == due.len(),
        0 <= i < due.len() ==> found[i].members@.len() == due[i].len() && (0 <= k < due[i].len()
            ==> found[i].members@[k] == mems[due[i][k]].id),
{
    if 0 <= i < due.len() {
        assert(found[i].members@ == crate::consolidate::member_ids(mems, due[i]));
    }
    if 0 <= i < pairs.len() {
        assert(labels[i].0@ == label(mems[pairs[i].0]));
    }
}

/// A summary is marked as distilled and carries no other mark.
pub proof fn a_summary_is_marked_as_distilled(m: Meta)
    ensures
        marks_distilled(m) ==> m.distilled == Some(true) && m.expires_at is None && m.confidence
            is None && m.archived is None && m.anchors is None && m.fires_when is None
            && m.resolves_when is None && m.valid_from is None && m.valid_to is None,
{
}

// ---------------------------------------------------------------------
// Metadata
// ---------------------------------------------------------------------

/// A memory is archived where its mark is true or one; any other number is kept as it is.
pub proof fn a_mark_of_the_archive(text: Seq<char>)
    ensures
        member_json(text, "archived"@) == Some("true"@) ==> archived_in(text) == Some(1i64),
        member_json(text, "archived"@) == Some("1.0"@) ==> archived_in(text) == Some(1i64),
        member_json(text, "archived"@) != Some("true"@) && member_json(text, "archived"@) != Some(
            "1.0"@,
        ) ==> archived_in(text) == member_i64(text, "archived"@),
{
}

/// An expiry that is no whole number is rounded; a whole one is not read so.
pub proof fn an_expiry_that_is_no_integer(text: Seq<char>, j: Seq<char>)
    ensures
        member_i64(text, "expires_at"@) is Some ==> rough_expiry_in(text) is None,
        member_i64(text, "expires_at"@) is None && member_json(text, "expires_at"@) == Some(j)
            ==> rough_expiry_in(text) == second_of(j),
        member_json(text, "expires_at"@) is None ==> rough_expiry_in(text) is None,
{
}

/// A list is read as the texts among its members, where there is one.
pub proof fn a_list_is_read_as_its_texts(list: Option<Vec<String>>, text: Seq<char>, key: Seq<char>)
    requires
        list_read(list, text, key),
    ensures
        list is Some <==> member_list(text, key) is Some,
        list matches Some(v) ==> texts(v@) == only_strings(member_list(text, key)->0),
{
}

/// Only the texts of a list are kept, in order.
pub proof fn only_texts_are_kept(v: Seq<Option<Seq<char>>>, x: Option<Seq<char>>)
    ensures
        x is Some ==> only_strings(v.push(x)) == only_strings(v).push(x->0),
        x is None ==> only_strings(v.push(x)) == only_strings(v),
        only_strings(Seq::empty()).len() == 0,
{
    assert(v.push(x).drop_last() =~= v);
}

/// A memory lapses at its expiry, rounded where it is no whole number; a condition is one
/// whatever its form.
pub proof fn when_a_memory_lapses(m: Meta)
    ensures
        m.expires_at is Some ==> m.lapses_at() == m.expires_at,
        m.expires_at is None ==> m.lapses_at() == m.rough_expiry,
        m.has_condition() <==> m.resolves_when is Some || m.other_condition,
{
}

/// A new node of a kind has nothing but its kind.
pub proof fn a_new_node_is_bare(n: NewNode, kind: Kind)
    ensures
        n.is_bare(kind) ==> n.kind == Some(kind) && n.subkind is None && n.project_id is None
            && n.collection_id is None && n.parent_id is None && n.title is None && n.body is None
            && n.path is None && n.span_start is None && n.span_end is None && n.lang is None
            && n.tags@.len() == 0 && n.content_hash is None && n.meta is None,
{
}

/// The time is what the clock says, or zero where it says nothing; the tail of a text is
/// its last characters.
pub proof fn the_clock_and_the_tail(s: u64, t: Seq<char>, n: int)
    requires
        s <= i64::MAX,
        0 <= n,
    ensures
        stamp_of(Some(s)) == s,
        stamp_of(None) == 0,
        t.len() <= n ==> tail_chars(t, n) == t,
        t.len() > n ==> tail_chars(t, n).len() == n && forall|i: int|
            0 <= i < n ==> #[trigger] tail_chars(t, n)[i] == t[t.len() - n + i],
{
}

/// A uid has twenty-six characters: digits and capitals without I, L, O and U.
pub proof fn uids_are_of_one_alphabet(s: Seq<char>, i: int)
    requires
        is_ulid(s),
        0 <= i < s.len(),
    ensures
        s.len() == 26,
        '0' <= s[i] <= '9' || 'A' <= s[i] <= 'Z',
        s[i] != 'I' && s[i] != 'L' && s[i] != 'O' && s[i] != 'U',
{
    reveal_strlit("0123456789ABCDEFGHJKMNPQRSTVWXYZ");
    let a = "0123456789ABCDEFGHJKMNPQRSTVWXYZ"@;
    assert(a.contains(s[i]));
    let k = choose|k: int| 0 <= k < a.len() && a[k] == s[i];
    assert(a.len() == 32);
}

// ---------------------------------------------------------------------
// The rest
// ---------------------------------------------------------------------

/// Texts are compared by their tokens, with one space between them.
pub proof fn texts_are_compared_by_their_tokens(text: Seq<char>)
    ensures
        normalized(text) == join(token_seq(text), " "@),
{
    reveal_strlit(" ");
    assert(" "@ =~= seq![' ']);
}

/// The words that prompt and surroundings share with a memory are counted once each.
pub proof fn shared_words_are_counted_once(
    n: Node,
    prompt: Seq<char>,
    enrich: Seq<char>,
    stop: Seq<Seq<char>>,
)
    ensures
        combined_overlap(n, prompt, enrich, stop) == (content_words(prompt, stop) + content_words(
            enrich,
            stop,
        )).to_set().intersect(hay_set(n)).len(),
{
}

/// The guard says how full the context is.
pub proof fn the_guard_says_how_full(pct: u8)
    ensures
        guard_head(pct) == "[mimir context guard] This session's context is ~"@ + decimal_nat(
            pct as nat,
        ),
{
}

/// A text is searched for matches in small letters, as far as its first twenty thousand
/// characters.
pub proof fn a_text_is_searched_from_its_start(text: Seq<char>, i: int)
    requires
        0 <= i < text.len(),
    ensures
        text.len() <= 20_000 ==> lowered(text, 20_000).len() == text.len(),
        text.len() > 20_000 ==> lowered(text, 20_000).len() == 20_000,
        i < 20_000 ==> lowered(text, 20_000)[i] == ascii_lower(text[i]),
        crate::format::MATCH_SCAN_CHARS == 20_000,
        crate::inject::TOKEN_BUDGET == 200,
{
}

/// A file that is met counts as seen, and as unchanged where time and size are as
/// recorded; one that is read counts as indexed or as unchanged, and its chunks with it.
pub proof fn files_are_counted_as_what_they_are(
    before: Indexer,
    met: Indexer,
    after: Indexer,
    rel: Seq<char>,
    existing: Option<Node>,
    content: Seq<char>,
    mtime: i64,
    size: i64,
)
    ensures
        met.has_met(before, rel, existing, mtime, size) ==> texts(met.seen@) == texts(
            before.seen@,
        ).push(rel) && met.stats.seen == met.seen@.len() && (stat_unchanged(existing, mtime, size)
            ==> met.stats.unchanged == before.stats.unchanged + 1) && (!stat_unchanged(
            existing,
            mtime,
            size,
        ) ==> met.stats.unchanged == before.stats.unchanged) && met.stats.indexed
            == before.stats.indexed && met.stats.chunks == before.stats.chunks && met.stats.removed
            == before.stats.removed,
        after.has_read(met, rel, existing, content) ==> after.seen@ == met.seen@ && (
        content_unchanged(existing, content) ==> after.stats.unchanged == met.stats.unchanged + 1
            && after.stats.chunks == met.stats.chunks) && (!content_unchanged(existing, content)
            ==> after.stats.indexed == met.stats.indexed + 1 && (met.stats.chunks + chunks_for(
            rel,
            content,
        ).len() <= usize::MAX ==> after.stats.chunks == met.stats.chunks + chunks_for(
            rel,
            content,
        ).len())),
        before.is_fresh() ==> before.seen@.len() == 0 && before.stats.seen == 0
            && before.stats.indexed == 0 && before.stats.unchanged == 0 && before.stats.removed == 0
            && before.stats.chunks == 0,
{
}

/// Of two memories of one age the one that the finding is on counts as the older. Only a
/// finding that still waits can be decided.
pub proof fn of_one_age_the_first_is_older(
    nodes: Seq<Node>,
    v: RowView,
    other: i64,
    i: int,
    j: int,
    id: i64,
)
    requires
        v.other_id == Some(other),
        0 <= i < nodes.len(),
        0 <= j < nodes.len(),
        nodes[i].id == v.node_id,
        nodes[j].id == other,
        nodes[i].created_at == nodes[j].created_at,
        forall|x: int, y: int|
            #![trigger nodes[x], nodes[y]]
            0 <= x < y < nodes.len() ==> nodes[x].id != nodes[y].id,
    ensures
        effect_of(nodes, v, Disposition::Supersede) == Some(
            Effect::Supersede { older: v.node_id, newer: other },
        ),
        is_open_row(id)(v) <==> v.id == id && v.decided is None,
{
    let (p, q) = (crate::review::is_node(v.node_id), crate::review::is_node(other));
    assert forall|k: int| 0 <= k < i implies !p(#[trigger] nodes[k]) by {
        assert(nodes[k].id != nodes[i].id);
    }
    assert forall|k: int| 0 <= k < j implies !q(#[trigger] nodes[k]) by {
        assert(nodes[k].id != nodes[j].id);
    }
    crate::seqs::lemma_first_where_is(nodes, p, i);
    crate::seqs::lemma_first_where_is(nodes, q, j);
}

} // verus!
