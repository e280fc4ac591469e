//! The ledger of tokens saved: what each context-shrinking operation was spared
//! the agent, and what injected context cost.

use vstd::prelude::*;

#[allow(unused_imports)]
use crate::order::{as_ints, flipped, is_ranking, ranking};
use crate::order::{rank, Key};
#[allow(unused_imports)]
use crate::seqs::kept;
use crate::sets::distinct;
#[allow(unused_imports)]
use crate::sets::first_seen;
use crate::text::same;
#[allow(unused_imports)]
use crate::text::texts;
#[allow(unused_imports)]
use vstd::string::*;

verus! {

/// One entry of the ledger.
#[derive(Debug, Clone)]
pub struct SavingsEvent {
    pub at: i64,
    pub source: String,
    pub before: i64,
    pub after: i64,
}

/// Counters over some entries.
#[derive(Debug, Clone, Copy, PartialEq, Eq, Structural)]
pub struct Totals {
    pub events: i64,
    pub before: i64,
    pub after: i64,
}

impl Default for Totals {
    fn default() -> (r: Totals)
        ensures
            r == (Totals { events: 0, before: 0, after: 0 }),
    {
        Totals { events: 0, before: 0, after: 0 }
    }
}

impl Totals {
    /// Tokens saved, never below zero.
    pub open spec fn saved_spec(self) -> int {
        if self.before > self.after {
            self.before - self.after
        } else {
            0
        }
    }

    /// Tokens saved, never below zero.
    pub fn saved(&self) -> (r: i64)
        requires
            self.before - self.after <= i64::MAX,
        ensures
            r == self.saved_spec(),
    {
        if self.before > self.after {
            self.before - self.after
        } else {
            0
        }
    }
}

/// Savings over the usual windows.
#[derive(Debug, Clone, Copy, PartialEq, Eq, Structural)]
pub struct Summary {
    pub day: i64,
    pub week: i64,
    pub month: i64,
    pub all: Totals,
}

/// Costs over the usual windows.
#[derive(Debug, Clone, Copy, PartialEq, Eq, Structural)]
pub struct Spent {
    pub day: i64,
    pub week: i64,
    pub month: i64,
    pub all: i64,
    pub events: i64,
}

impl Default for Spent {
    fn default() -> (r: Spent)
        ensures
            r == (Spent { day: 0, week: 0, month: 0, all: 0, events: 0 }),
    {
        Spent { day: 0, week: 0, month: 0, all: 0, events: 0 }
    }
}

/// Entries that are pure cost: tokens injected, nothing shrunk.
pub open spec fn is_cost(e: SavingsEvent) -> bool {
    e.source@ == "brief"@
}

/// The wanted entries since `since`: costs, or all others.
pub open spec fn counts(cost: bool, since: int) -> spec_fn(SavingsEvent) -> bool {
    |e: SavingsEvent| is_cost(e) == cost && e.at >= since
}

/// Tokens before, over the entries that count.
pub open spec fn sum_before(events: Seq<SavingsEvent>, p: spec_fn(SavingsEvent) -> bool) -> int
    decreases events.len(),
{
    if events.len() == 0 {
        0
    } else {
        sum_before(events.drop_last(), p) + if p(events.last()) {
            events.last().before as int
        } else {
            0
        }
    }
}

/// Tokens after, over the entries that count.
pub open spec fn sum_after(events: Seq<SavingsEvent>, p: spec_fn(SavingsEvent) -> bool) -> int
    decreases events.len(),
{
    if events.len() == 0 {
        0
    } else {
        sum_after(events.drop_last(), p) + if p(events.last()) {
            events.last().after as int
        } else {
            0
        }
    }
}

/// Size of a number.
pub open spec fn size(n: int) -> int {
    if n < 0 {
        -n
    } else {
        n
    }
}

/// What all entries of a ledger come to, signs left out.
pub open spec fn volume(events: Seq<SavingsEvent>) -> int
    decreases events.len(),
{
    if events.len() == 0 {
        0
    } else {
        volume(events.drop_last()) + size(events.last().before as int) + size(
            events.last().after as int,
        )
    }
}

/// A ledger whose sums a machine integer can hold.
pub open spec fn summable(events: Seq<SavingsEvent>) -> bool {
    volume(events) <= i64::MAX && events.len() <= i64::MAX
}

proof fn lemma_volume_take(events: Seq<SavingsEvent>, n: int)
    requires
        0 <= n <= events.len(),
    ensures
        0 <= volume(events.take(n)) <= volume(events),
    decreases events.len() - n,
{
    if n < events.len() {
        assert(events.take(n + 1).drop_last() =~= events.take(n));
        lemma_volume_take(events, n + 1);
        lemma_volume_positive(events.take(n));
    } else {
        assert(events.take(n) =~= events);
        lemma_volume_positive(events);
    }
}

proof fn lemma_volume_positive(events: Seq<SavingsEvent>)
    ensures
        volume(events) >= 0,
    decreases events.len(),
{
    if events.len() > 0 {
        lemma_volume_positive(events.drop_last());
    }
}

proof fn lemma_sums_bounded(events: Seq<SavingsEvent>, p: spec_fn(SavingsEvent) -> bool)
    ensures
        size(sum_before(events, p)) + size(sum_after(events, p)) <= volume(events),
    decreases events.len(),
{
    if events.len() > 0 {
        lemma_sums_bounded(events.drop_last(), p);
    }
}

/// How many entries count.
pub open spec fn count_of(events: Seq<SavingsEvent>, p: spec_fn(SavingsEvent) -> bool) -> int
    decreases events.len(),
{
    if events.len() == 0 {
        0
    } else {
        count_of(events.drop_last(), p) + if p(events.last()) {
            1int
        } else {
            0
        }
    }
}

/// Counters over the marked entries, those that `p` counts.
fn count_marked(
    events: &Vec<SavingsEvent>,
    marks: &Vec<bool>,
    Ghost(p): Ghost<spec_fn(SavingsEvent) -> bool>,
) -> (r: Totals)
    requires
        summable(events@),
        marks@.len() == events@.len(),
        forall|i: int| 0 <= i < marks@.len() ==> #[trigger] marks@[i] == p(events@[i]),
    ensures
        r.events == count_of(events@, p),
        r.before == sum_before(events@, p),
        r.after == sum_after(events@, p),
{
    let mut t = Totals::default();
    let mut i: usize = 0;
    assert(events@.take(0) =~= Seq::empty());
    while i < events.len()
        invariant
            i <= events@.len(),
            summable(events@),
            marks@.len() == events@.len(),
            forall|i: int| 0 <= i < marks@.len() ==> #[trigger] marks@[i] == p(events@[i]),
            0 <= t.events <= i,
            t.events == count_of(events@.take(i as int), p),
            t.before == sum_before(events@.take(i as int), p),
            t.after == sum_after(events@.take(i as int), p),
        decreases events@.len() - i,
    {
        let e = &events[i];
        proof {
            assert(events@.take(i + 1).drop_last() =~= events@.take(i as int));
            assert(events@.take(i + 1).last() == *e);
            lemma_volume_take(events@, i + 1);
            lemma_sums_bounded(events@.take(i + 1), p);
        }
        if marks[i] {
            t.events = t.events + 1;
            t.before = t.before + e.before;
            t.after = t.after + e.after;
        }
        i += 1;
    }
    assert(events@.take(events@.len() as int) =~= events@);
    t
}

/// Counters over the wanted entries since `since`.
fn count_events(events: &Vec<SavingsEvent>, cost: bool, since: i128) -> (r: Totals)
    requires
        summable(events@),
    ensures
        r.events == count_of(events@, counts(cost, since as int)),
        r.before == sum_before(events@, counts(cost, since as int)),
        r.after == sum_after(events@, counts(cost, since as int)),
{
    let ghost p = counts(cost, since as int);
    let mut marks: Vec<bool> = Vec::new();
    let mut i: usize = 0;
    while i < events.len()
        invariant
            i <= events@.len(),
            marks@.len() == i,
            p == counts(cost, since as int),
            forall|k: int| 0 <= k < i ==> #[trigger] marks@[k] == p(events@[k]),
        decreases events@.len() - i,
    {
        let e = &events[i];
        marks.push(same(e.source.as_str(), "brief") == cost && e.at as i128 >= since);
        i += 1;
    }
    count_marked(events, &marks, Ghost(p))
}

/// Net savings over the wanted entries since `since`.
pub open spec fn net(events: Seq<SavingsEvent>, since: int) -> int {
    sum_before(events, counts(false, since)) - sum_after(events, counts(false, since))
}

/// Net costs since `since`.
pub open spec fn net_cost(events: Seq<SavingsEvent>, since: int) -> int {
    sum_after(events, counts(true, since)) - sum_before(events, counts(true, since))
}

/// Earlier than any time.
pub const EVER: i128 = -0x1_0000_0000_0000_0000;

/// Savings of the last day, week and month, and of all time. Costs are not
/// netted against them.
pub fn summary(events: &Vec<SavingsEvent>, now: i64) -> (r: Summary)
    requires
        summable(events@),
    ensures
        r.day == net(events@, now - 86_400),
        r.week == net(events@, now - 7 * 86_400),
        r.month == net(events@, now - 30 * 86_400),
        r.all.events == count_of(events@, counts(false, EVER as int)),
        r.all.before == sum_before(events@, counts(false, EVER as int)),
        r.all.after == sum_after(events@, counts(false, EVER as int)),
{
    let n = now as i128;
    let day = count_events(events, false, n - 86_400);
    let week = count_events(events, false, n - 7 * 86_400);
    let month = count_events(events, false, n - 30 * 86_400);
    let all = count_events(events, false, EVER);
    proof {
        lemma_sums_bounded(events@, counts(false, now - 86_400));
        lemma_sums_bounded(events@, counts(false, now - 7 * 86_400));
        lemma_sums_bounded(events@, counts(false, now - 30 * 86_400));
    }
    Summary {
        day: day.before - day.after,
        week: week.before - week.after,
        month: month.before - month.after,
        all,
    }
}

/// Costs of the last day, week and month, and of all time.
pub fn spent(events: &Vec<SavingsEvent>, now: i64) -> (r: Spent)
    requires
        summable(events@),
    ensures
        r.day == net_cost(events@, now - 86_400),
        r.week == net_cost(events@, now - 7 * 86_400),
        r.month == net_cost(events@, now - 30 * 86_400),
        r.all == net_cost(events@, EVER as int),
        r.events == count_of(events@, counts(true, EVER as int)),
{
    let n = now as i128;
    let day = count_events(events, true, n - 86_400);
    let week = count_events(events, true, n - 7 * 86_400);
    let month = count_events(events, true, n - 30 * 86_400);
    let all = count_events(events, true, EVER);
    proof {
        lemma_sums_bounded(events@, counts(true, now - 86_400));
        lemma_sums_bounded(events@, counts(true, now - 7 * 86_400));
        lemma_sums_bounded(events@, counts(true, now - 30 * 86_400));
        lemma_sums_bounded(events@, counts(true, EVER as int));
    }
    Spent {
        day: day.after - day.before,
        week: week.after - week.before,
        month: month.after - month.before,
        all: all.after - all.before,
        events: all.events,
    }
}

/// The time from which entries count: `since`, or all time.
pub open spec fn start(since: Option<i64>) -> int {
    match since {
        Some(t) => t as int,
        None => EVER as int,
    }
}

fn start_of(since: Option<i64>) -> (r: i128)
    ensures
        r == start(since),
{
    match since {
        Some(t) => t as i128,
        None => EVER,
    }
}

/// Counters over everything but costs since `since`, or of all time.
pub fn totals(events: &Vec<SavingsEvent>, since: Option<i64>) -> (r: Totals)
    requires
        summable(events@),
    ensures
        ({
            let p = counts(false, start(since));
            &&& r.events == count_of(events@, p)
            &&& r.before == sum_before(events@, p)
            &&& r.after == sum_after(events@, p)
        }),
{
    count_events(events, false, start_of(since))
}

// ---------------------------------------------------------------------
// By source and by day
// ---------------------------------------------------------------------

/// Entries since `since`, whatever their source.
pub open spec fn is_since(since: int) -> spec_fn(SavingsEvent) -> bool {
    |e: SavingsEvent| e.at >= since
}

/// Entries of a source since `since`.
pub open spec fn is_from(source: Seq<char>, since: int) -> spec_fn(SavingsEvent) -> bool {
    |e: SavingsEvent| e.source@ == source && e.at >= since
}

/// The sources of some entries.
pub open spec fn sources(events: Seq<SavingsEvent>) -> Seq<Seq<char>> {
    Seq::new(events.len(), |i: int| events[i].source@)
}

/// The sources of the entries since `since`, each once.
pub open spec fn source_names(events: Seq<SavingsEvent>, since: int) -> Seq<Seq<char>> {
    first_seen(sources(kept(events, is_since(since))))
}

/// What a source saved since `since`.
pub open spec fn saved_by(events: Seq<SavingsEvent>, source: Seq<char>, since: int) -> int {
    sum_before(events, is_from(source, since)) - sum_after(events, is_from(source, since))
}

/// Sort keys: the best saver first.
pub open spec fn saver_keys(events: Seq<SavingsEvent>, names: Seq<Seq<char>>, since: int) -> Seq<
    Key,
> {
    Seq::new(
        names.len(),
        |i: int|
            Key {
                first: flipped(saved_by(events, names[i], since)) as i128,
                second: 0,
                third: 0,
            },
    )
}

/// Whether a row holds a source and its counters since `since`.
pub open spec fn is_source_row(
    row: (String, Totals),
    events: Seq<SavingsEvent>,
    name: Seq<char>,
    since: int,
) -> bool {
    &&& row.0@ == name
    &&& row.1.events == count_of(events, is_from(name, since))
    &&& row.1.before == sum_before(events, is_from(name, since))
    &&& row.1.after == sum_after(events, is_from(name, since))
}

fn list_sources(events: &Vec<SavingsEvent>, since: i128) -> (r: Vec<String>)
    ensures
        texts(r@) == source_names(events@, since as int),
{
    let ghost p = is_since(since as int);
    let mut all: Vec<String> = Vec::new();
    let mut i: usize = 0;
    assert(texts(all@) =~= sources(kept(events@.take(0), p)));
    while i < events.len()
        invariant
            i <= events@.len(),
            p == is_since(since as int),
            texts(all@) == sources(kept(events@.take(i as int), p)),
        decreases events@.len() - i,
    {
        assert(events@.take(i + 1).drop_last() =~= events@.take(i as int));
        assert(events@.take(i + 1).last() == events@[i as int]);
        let ghost before = texts(all@);
        if events[i].at as i128 >= since {
            let name = events[i].source.as_str().to_owned();
            all.push(name);
            assert(texts(all@) =~= before.push(name@));
            assert(sources(kept(events@.take(i + 1), p)) =~= before.push(name@));
        }
        i += 1;
    }
    assert(events@.take(events@.len() as int) =~= events@);
    distinct(&all)
}

fn count_source(events: &Vec<SavingsEvent>, name: &str, since: i128) -> (r: Totals)
    requires
        summable(events@),
    ensures
        r.events == count_of(events@, is_from(name@, since as int)),
        r.before == sum_before(events@, is_from(name@, since as int)),
        r.after == sum_after(events@, is_from(name@, since as int)),
{
    let ghost p = is_from(name@, since as int);
    let mut marks: Vec<bool> = Vec::new();
    let mut i: usize = 0;
    while i < events.len()
        invariant
            i <= events@.len(),
            marks@.len() == i,
            p == is_from(name@, since as int),
            forall|k: int| 0 <= k < i ==> #[trigger] marks@[k] == p(events@[k]),
        decreases events@.len() - i,
    {
        marks.push(same(events[i].source.as_str(), name) && events[i].at as i128 >= since);
        i += 1;
    }
    count_marked(events, &marks, Ghost(p))
}

/// What each source saved since `since`, or of all time, best savers first.
/// Costs are among them.
pub fn by_source(events: &Vec<SavingsEvent>, since: Option<i64>) -> (r: Vec<(String, Totals)>)
    requires
        summable(events@),
    ensures
        ({
            let from = start(since);
            let names = source_names(events@, from);
            let order = ranking(saver_keys(events@, names, from));
            &&& r@.len() == names.len()
            &&& order.len() == names.len()
            &&& forall|i: int|
                0 <= i < r@.len() ==> is_source_row(#[trigger] r@[i], events@, names[order[i]], from)
        }),
{
    let from: i128 = start_of(since);
    let names = list_sources(events, from);
    let ghost ns = texts(names@);
    let mut counted: Vec<Totals> = Vec::new();
    let mut keys: Vec<Key> = Vec::new();
    let mut i: usize = 0;
    while i < names.len()
        invariant
            i <= names@.len(),
            summable(events@),
            ns == texts(names@),
            counted@.len() == i,
            keys@.len() == i,
            forall|k: int|
                0 <= k < i ==> {
                    let t = #[trigger] counted@[k];
                    let p = is_from(ns[k], from as int);
                    &&& t.events == count_of(events@, p)
                    &&& t.before == sum_before(events@, p)
                    &&& t.after == sum_after(events@, p)
                },
            forall|k: int|
                0 <= k < i ==> #[trigger] keys@[k] == saver_keys(events@, ns, from as int)[k],
        decreases names@.len() - i,
    {
        assert(ns[i as int] == names@[i as int]@);
        let t = count_source(events, names[i].as_str(), from);
        let saved: i128 = t.before as i128 - t.after as i128;
        counted.push(t);
        keys.push(Key::of(-1 - saved));
        i += 1;
    }
    assert(keys@ =~= saver_keys(events@, ns, from as int));
    let order = rank(&keys);
    let mut out: Vec<(String, Totals)> = Vec::new();
    let mut k: usize = 0;
    while k < order.len()
        invariant
            k <= order@.len(),
            ns == texts(names@),
            counted@.len() == ns.len(),
            keys@.len() == ns.len(),
            is_ranking(as_ints(order@), keys@, keys@.len() as int),
            forall|k: int|
                0 <= k < ns.len() ==> {
                    let t = #[trigger] counted@[k];
                    let p = is_from(ns[k], from as int);
                    &&& t.events == count_of(events@, p)
                    &&& t.before == sum_before(events@, p)
                    &&& t.after == sum_after(events@, p)
                },
            out@.len() == k,
            forall|j: int|
                0 <= j < k ==> is_source_row(
                    #[trigger] out@[j],
                    events@,
                    ns[as_ints(order@)[j]],
                    from as int,
                ),
        decreases order@.len() - k,
    {
        assert(as_ints(order@)[k as int] == order@[k as int]);
        assert(0 <= as_ints(order@)[k as int] < keys@.len());
        let place: usize = order[k];
        let row = (names[place].as_str().to_owned(), counted[place]);
        assert(ns[place as int] == names@[place as int]@);
        assert(is_source_row(row, events@, ns[as_ints(order@)[k as int]], from as int));
        out.push(row);
        k += 1;
    }
    out
}

/// The day of a time, counted from the epoch.
pub open spec fn day_of(at: int) -> int {
    at / 86_400
}

fn day_index(at: i64) -> (r: i64)
    ensures
        r == day_of(at as int),
{
    if at >= 0 {
        at / 86_400
    } else {
        -((-(at + 1)) / 86_400) - 1
    }
}

/// Savings of a day since `since`.
pub open spec fn is_on(day: int, since: int) -> spec_fn(SavingsEvent) -> bool {
    |e: SavingsEvent| counts(false, since)(e) && day_of(e.at as int) == day
}

/// What was saved on a day since `since`.
pub open spec fn saved_on(events: Seq<SavingsEvent>, day: int, since: int) -> int {
    sum_before(events, is_on(day, since)) - sum_after(events, is_on(day, since))
}

/// Whether something was saved on a day, among the first `n` entries since `since`.
pub open spec fn has_day(events: Seq<SavingsEvent>, since: int, n: int, day: int) -> bool {
    exists|i: int|
        0 <= i < n && counts(false, since)(#[trigger] events[i]) && day_of(events[i].at as int)
            == day
}

/// In ascending order, each once.
pub open spec fn ascending(days: Seq<i64>) -> bool {
    forall|i: int, j: int| 0 <= i < j < days.len() ==> #[trigger] days[i] < #[trigger] days[j]
}

fn insert_day(days: &mut Vec<i64>, day: i64)
    requires
        ascending(old(days)@),
    ensures
        ascending(final(days)@),
        forall|x: i64| #[trigger]
            final(days)@.contains(x) == (old(days)@.contains(x) || x == day),
{
    let ghost before = days@;
    let mut i: usize = 0;
    while i < days.len() && days[i] < day
        invariant
            i <= days@.len(),
            before == days@,
            forall|k: int| 0 <= k < i ==> #[trigger] before[k] < day,
        decreases days@.len() - i,
    {
        i += 1;
    }
    if i < days.len() && days[i] == day {
        assert(before[i as int] == day);
        return;
    }
    days.insert(i, day);
    let ghost after = days@;
    proof {
        assert(after == before.insert(i as int, day));
        assert forall|a: int, b: int| 0 <= a < b < after.len() implies #[trigger] after[a]
            < #[trigger] after[b] by {
            let x = if a < i {
                a
            } else {
                a - 1
            };
            let y = if b < i {
                b
            } else {
                b - 1
            };
            if a == i {
                assert(after[b] == before[y]);
                assert(before[i as int] > day);
            } else if b == i {
                assert(after[a] == before[x]);
            } else {
                assert(after[a] == before[x]);
                assert(after[b] == before[y]);
            }
        }
        assert forall|x: i64| #[trigger] after.contains(x) == (before.contains(x) || x == day) by {
            if before.contains(x) {
                let k = choose|k: int| 0 <= k < before.len() && before[k] == x;
                if k < i {
                    assert(after[k] == x);
                } else {
                    assert(after[k + 1] == x);
                }
            }
            if x == day {
                assert(after[i as int] == x);
            }
            if after.contains(x) {
                let k = choose|k: int| 0 <= k < after.len() && after[k] == x;
                if k < i {
                    assert(before[k] == x);
                } else if k > i {
                    assert(before[k - 1] == x);
                }
            }
        }
    }
}

fn list_days(events: &Vec<SavingsEvent>, since: i128) -> (r: Vec<i64>)
    ensures
        ascending(r@),
        forall|d: i64| #[trigger]
            r@.contains(d) == has_day(events@, since as int, events@.len() as int, d as int),
{
    let mut out: Vec<i64> = Vec::new();
    let mut i: usize = 0;
    while i < events.len()
        invariant
            i <= events@.len(),
            ascending(out@),
            forall|d: i64| #[trigger]
                out@.contains(d) == has_day(events@, since as int, i as int, d as int),
        decreases events@.len() - i,
    {
        let e = &events[i];
        let ghost before = out@;
        let day: i64 = day_index(e.at);
        let counted = !same(e.source.as_str(), "brief") && e.at as i128 >= since;
        if counted {
            insert_day(&mut out, day);
        }
        proof {
            let p = counts(false, since as int);
            assert(counted == p(events@[i as int]));
            assert forall|d: i64| #[trigger] out@.contains(d) == has_day(
                events@,
                since as int,
                i + 1,
                d as int,
            ) by {
                assert(before.contains(d) == has_day(events@, since as int, i as int, d as int));
                if has_day(events@, since as int, i as int, d as int) {
                    let k = choose|k: int|
                        0 <= k < i && p(#[trigger] events@[k]) && day_of(events@[k].at as int) == d;
                    assert(p(events@[k]));
                }
                if has_day(events@, since as int, i + 1, d as int) {
                    let k = choose|k: int|
                        0 <= k < i + 1 && p(#[trigger] events@[k]) && day_of(events@[k].at as int)
                            == d;
                    assert(p(events@[k]));
                }
                if counted && d == day {
                    assert(has_day(events@, since as int, i + 1, d as int));
                }
            }
        }
        i += 1;
    }
    out
}

fn count_day(events: &Vec<SavingsEvent>, day: i64, since: i128) -> (r: Totals)
    requires
        summable(events@),
    ensures
        r.before == sum_before(events@, is_on(day as int, since as int)),
        r.after == sum_after(events@, is_on(day as int, since as int)),
{
    let ghost p = is_on(day as int, since as int);
    let mut marks: Vec<bool> = Vec::new();
    let mut i: usize = 0;
    while i < events.len()
        invariant
            i <= events@.len(),
            marks@.len() == i,
            p == is_on(day as int, since as int),
            forall|k: int| 0 <= k < i ==> #[trigger] marks@[k] == p(events@[k]),
        decreases events@.len() - i,
    {
        let e = &events[i];
        marks.push(
            !same(e.source.as_str(), "brief") && e.at as i128 >= since && day_index(e.at) == day,
        );
        i += 1;
    }
    count_marked(events, &marks, Ghost(p))
}

/// What was saved on each of the last `days` days, by day since the epoch. Days
/// without entries are left out.
pub fn daily_saved(events: &Vec<SavingsEvent>, days: i64, now: i64) -> (r: Vec<(i64, i64)>)
    requires
        summable(events@),
    ensures
        ({
            let since = now - days * 86_400;
            &&& forall|i: int, j: int|
                0 <= i < j < r@.len() ==> (#[trigger] r@[i]).0 < (#[trigger] r@[j]).0
            &&& forall|i: int|
                0 <= i < r@.len() ==> has_day(
                    events@,
                    since,
                    events@.len() as int,
                    (#[trigger] r@[i]).0 as int,
                ) && r@[i].1 == saved_on(events@, r@[i].0 as int, since)
            &&& forall|d: i64|
                #[trigger] has_day(events@, since, events@.len() as int, d as int) ==> exists|i: int|
                    0 <= i < r@.len() && (#[trigger] r@[i]).0 == d
        }),
{
    let since: i128 = now as i128 - days as i128 * 86_400;
    let list = list_days(events, since);
    let mut out: Vec<(i64, i64)> = Vec::new();
    let mut k: usize = 0;
    while k < list.len()
        invariant
            k <= list@.len(),
            summable(events@),
            out@.len() == k,
            forall|j: int|
                0 <= j < k ==> (#[trigger] out@[j]).0 == list@[j] && out@[j].1 == saved_on(
                    events@,
                    list@[j] as int,
                    since as int,
                ),
        decreases list@.len() - k,
    {
        let t = count_day(events, list[k], since);
        proof {
            lemma_sums_bounded(events@, is_on(list@[k as int] as int, since as int));
        }
        out.push((list[k], t.before - t.after));
        k += 1;
    }
    proof {
        assert forall|i: int| 0 <= i < out@.len() implies has_day(
            events@,
            since as int,
            events@.len() as int,
            (#[trigger] out@[i]).0 as int,
        ) by {
            assert(list@.contains(list@[i]));
        }
        assert forall|d: i64|
            #[trigger] has_day(events@, since as int, events@.len() as int, d as int) implies exists|i: int|
            0 <= i < out@.len() && (#[trigger] out@[i]).0 == d by {
            assert(list@.contains(d));
            let i = choose|i: int| 0 <= i < list@.len() && list@[i] == d;
            assert(out@[i].0 == d);
        }
    }
    out
}

// ---------------------------------------------------------------------
// Laws
// ---------------------------------------------------------------------

/// Costs and savings are kept apart: an entry counts on one side only.
pub proof fn costs_never_net_against_savings(e: SavingsEvent, a: int, b: int)
    ensures
        !(counts(true, a)(e) && counts(false, b)(e)),
{
}

/// Recording a cost leaves every savings figure as it was.
pub proof fn cost_leaves_savings_alone(events: Seq<SavingsEvent>, e: SavingsEvent, since: int)
    requires
        is_cost(e),
    ensures
        net(events.push(e), since) == net(events, since),
{
    assert(events.push(e).drop_last() =~= events);
}

} // verus!
