//! Does a forgotten fact stay forgotten? The scorecard of a deletion.
//!
//! Two arms are counted apart: obligations, what the store must do, and negative
//! invariants, what must not leak. A store that keeps nothing passes every negative
//! invariant, so the two are never pooled.

use vstd::prelude::*;

use crate::audit::Mutation;
use crate::model::{Actor, MutationOp};
use crate::sets::is_member;
use crate::text::{byte_len, chars_of, decimal_of_u64, has, padded_right, same, without_prefix};
#[allow(unused_imports)]
use crate::text::{contains, decimal_nat, pad_right, starts_with, texts, utf8_len};
#[allow(unused_imports)]
use vstd::string::*;

verus! {

/// A fact that is written, deliberately forgotten, and then offered again.
#[derive(Debug, Clone, Copy)]
pub struct Attack {
    pub category: &'static str,
    /// What is written and then forgotten.
    pub original: &'static str,
    /// How it comes back.
    pub variant: &'static str,
    /// Whether the variant is the same fact, and must be refused. Another fact must
    /// be accepted: a guard that refuses everything is no guard.
    pub same_fact: bool,
}

/// The shapes in which a forgotten fact comes back, each with a near miss that must
/// be accepted where there is one: category, original, variant, and whether the
/// variant is the same fact.
pub const ATTACKS: [(&'static str, &'static str, &'static str, bool); 16] = [
    (
        "substring_trap",
        "the deploy token rotates on Sundays",
        "the deploy token rotates on Sundays at 03:00",
        true,
    ),
    (
        "substring_trap",
        "the deploy token rotates weekly",
        "the backup token rotates weekly",
        false,
    ),
    (
        "prefix_collision",
        "postgres max_connections is 200 in staging",
        "postgres max_connections is 200 in staging environments",
        true,
    ),
    (
        "prefix_collision",
        "postgres max_connections is 200 in staging",
        "postgres max_connections is 500 in production",
        false,
    ),
    (
        "paraphrase_supersession",
        "SCRAM auth rejects non-ASCII passwords at 03:00 UTC",
        "scram auth rejects non-ascii passwords at 03:00 utc.",
        true,
    ),
    (
        "paraphrase_supersession",
        "redis listens on port 6379",
        "postgres listens on port 5432",
        false,
    ),
    (
        "negation",
        "the staging cluster has autoscaling enabled",
        "the staging cluster does not have autoscaling enabled",
        false,
    ),
    (
        "temporal_qualifier",
        "the ops cron runs at 03:00 UTC",
        "the ops cron runs at 03:00 UTC daily",
        true,
    ),
    (
        "temporal_qualifier",
        "the ops cron runs at 03:00 UTC",
        "the ops cron runs at 04:00 UTC",
        false,
    ),
    (
        "shared_attribute",
        "the metrics box has 64 GB of RAM",
        "the metrics box has 64 GB of RAM installed",
        true,
    ),
    (
        "shared_attribute",
        "the metrics box has 64 GB of RAM",
        "the metrics box has 16 CPU cores",
        false,
    ),
    (
        "compound_fact",
        "the proxy strips cache breakpoints above four and dedups requests",
        "The proxy strips cache breakpoints above four, and dedups requests.",
        true,
    ),
    (
        "identifier_obfuscation",
        "retry_with_backoff caps at five attempts",
        "retry_with_backoff caps at five attempts.",
        true,
    ),
    (
        "identifier_obfuscation",
        "retry_with_backoff caps at five attempts",
        "retry_immediately caps at five attempts",
        false,
    ),
    (
        "cross_lingual",
        "the cache expires after thirty seconds",
        "le cache expire apres trente secondes",
        false,
    ),
    (
        "recursive_supersession",
        "deploys go to eu-west-1",
        "deploys go to eu-west-1 only",
        true,
    ),
];

/// The attacks.
pub fn attacks() -> (r: Vec<Attack>)
    ensures
        r@.len() == 16,
        forall|i: int|
            0 <= i < 16 ==> {
                let a = #[trigger] r@[i];
                &&& a.category@ == ATTACKS@[i].0@
                &&& a.original@ == ATTACKS@[i].1@
                &&& a.variant@ == ATTACKS@[i].2@
                &&& a.same_fact == ATTACKS@[i].3
            },
{
    let mut out: Vec<Attack> = Vec::new();
    let mut i: usize = 0;
    while i < 16
        invariant
            i <= 16,
            out@.len() == i,
            forall|k: int|
                0 <= k < i ==> {
                    let a = #[trigger] out@[k];
                    &&& a.category@ == ATTACKS@[k].0@
                    &&& a.original@ == ATTACKS@[k].1@
                    &&& a.variant@ == ATTACKS@[k].2@
                    &&& a.same_fact == ATTACKS@[k].3
                },
        decreases 16 - i,
    {
        let row = ATTACKS[i];
        out.push(
            Attack { category: row.0, original: row.1, variant: row.2, same_fact: row.3 },
        );
        i += 1;
    }
    out
}

/// One arm of the scorecard.
#[derive(Debug, Clone, Copy, PartialEq, Eq, Structural)]
pub struct Score {
    pub passed: usize,
    pub total: usize,
}

impl Default for Score {
    fn default() -> (r: Score)
        ensures
            r == (Score { passed: 0, total: 0 }),
    {
        Score { passed: 0, total: 0 }
    }
}

impl Score {
    /// The score with one more verdict.
    pub open spec fn with(self, ok: bool) -> (int, int) {
        (self.passed + if ok {
            1int
        } else {
            0
        }, self.total + 1)
    }

    /// Counts a verdict.
    pub fn record(&mut self, ok: bool)
        requires
            old(self).total < usize::MAX,
            old(self).passed <= old(self).total,
        ensures
            (final(self).passed as int, final(self).total as int) == old(self).with(ok),
            final(self).passed <= final(self).total,
    {
        self.total += 1;
        if ok {
            self.passed += 1;
        }
    }

    /// Whether everything passed.
    pub fn is_clean(&self) -> (r: bool)
        ensures
            r == (self.passed == self.total),
    {
        self.passed == self.total
    }
}

/// The verdicts of an evaluation.
#[derive(Debug, Clone)]
pub struct Scorecard {
    /// Things the store must do.
    pub obligation: Score,
    /// Things that must not happen.
    pub negative: Score,
    /// Label, verdict, and whether it is an obligation.
    pub rows: Vec<(String, bool, bool)>,
}

impl Default for Scorecard {
    fn default() -> (r: Scorecard)
        ensures
            r.obligation == (Score { passed: 0, total: 0 }),
            r.negative == (Score { passed: 0, total: 0 }),
            r.rows@.len() == 0,
    {
        Scorecard { obligation: Score::default(), negative: Score::default(), rows: Vec::new() }
    }
}

/// A row as the rules see it.
pub open spec fn row_view(row: (String, bool, bool)) -> (Seq<char>, bool, bool) {
    (row.0@, row.1, row.2)
}

/// The rows as the rules see them.
pub open spec fn row_views(rows: Seq<(String, bool, bool)>) -> Seq<(Seq<char>, bool, bool)> {
    Seq::new(rows.len(), |i: int| row_view(rows[i]))
}

/// The width of the column of labels: the longest label in bytes, at least that of
/// the heading, and two more. 42 where there is no row.
pub open spec fn label_width(rows: Seq<(Seq<char>, bool, bool)>) -> nat {
    let longest = longest_label(rows);
    if rows.len() == 0 {
        42
    } else if longest < 4 {
        6
    } else {
        longest + 2
    }
}

/// The most bytes of a label.
pub open spec fn longest_label(rows: Seq<(Seq<char>, bool, bool)>) -> nat
    decreases rows.len(),
{
    if rows.len() == 0 {
        0
    } else {
        let before = longest_label(rows.drop_last());
        let n = utf8_len(rows.last().0);
        if n > before {
            n
        } else {
            before
        }
    }
}

/// A line of the matrix.
pub open spec fn row_line(row: (Seq<char>, bool, bool), width: nat) -> Seq<char> {
    pad_right(row.0, width, ' ') + pad_right(
        if row.2 {
            "obligation"@
        } else {
            "negative"@
        },
        12,
        ' ',
    ) + (if row.1 {
        "pass"@
    } else {
        "FAIL"@
    }) + "\n"@
}

/// The heading of the matrix.
pub open spec fn head_line(width: nat) -> Seq<char> {
    pad_right("step"@, width, ' ') + pad_right("arm"@, 12, ' ') + "verdict\n"@
}

/// The heading and the first `n` lines of the matrix.
pub open spec fn matrix(rows: Seq<(Seq<char>, bool, bool)>, width: nat, n: int) -> Seq<char>
    decreases n,
{
    if n <= 0 {
        head_line(width)
    } else {
        matrix(rows, width, n - 1) + row_line(rows[n - 1], width)
    }
}

/// The counts below the matrix.
pub open spec fn tally_text(obligation: Score, negative: Score) -> Seq<char> {
    "\nobligations "@ + decimal_nat(obligation.passed as nat) + "/"@ + decimal_nat(
        obligation.total as nat,
    ) + "   negative invariants "@ + decimal_nat(negative.passed as nat) + "/"@ + decimal_nat(
        negative.total as nat,
    )
        + "\n(kept apart deliberately: a store that keeps nothing passes every negative invariant)\n"@
}

fn line_of(label: &str, ok: bool, is_obligation: bool, width: usize) -> (r: String)
    ensures
        r@ == row_line((label@, ok, is_obligation), width as nat),
{
    let mut out = padded_right(label, width, ' ');
    out.append(
        padded_right(
            if is_obligation {
                "obligation"
            } else {
                "negative"
            },
            12,
            ' ',
        ).as_str(),
    );
    out.append(
        if ok {
            "pass"
        } else {
            "FAIL"
        },
    );
    out.append("\n");
    out
}

fn head_of(width: usize) -> (r: String)
    ensures
        r@ == head_line(width as nat),
{
    let mut out = padded_right("step", width, ' ');
    out.append(padded_right("arm", 12, ' ').as_str());
    out.append("verdict\n");
    out
}

fn tally_of(obligation: Score, negative: Score) -> (r: String)
    ensures
        r@ == tally_text(obligation, negative),
{
    let mut out = "\nobligations ".to_owned();
    out.append(decimal_of_u64(obligation.passed as u64).as_str());
    out.append("/");
    out.append(decimal_of_u64(obligation.total as u64).as_str());
    out.append("   negative invariants ");
    out.append(decimal_of_u64(negative.passed as u64).as_str());
    out.append("/");
    out.append(decimal_of_u64(negative.total as u64).as_str());
    out.append(
        "\n(kept apart deliberately: a store that keeps nothing passes every negative invariant)\n",
    );
    out
}

impl Scorecard {
    /// The counts and the number of rows are in step, and far from overflowing.
    pub open spec fn counts(self) -> bool {
        &&& self.obligation.passed <= self.obligation.total < usize::MAX
        &&& self.negative.passed <= self.negative.total < usize::MAX
    }

    /// Whether `after` is this card with one more verdict on an arm.
    pub open spec fn gains(
        self,
        after: Scorecard,
        label: Seq<char>,
        ok: bool,
        is_obligation: bool,
    ) -> bool {
        &&& row_views(after.rows@) == row_views(self.rows@).push((label, ok, is_obligation))
        &&& (after.obligation.passed as int, after.obligation.total as int) == if is_obligation {
            self.obligation.with(ok)
        } else {
            (self.obligation.passed as int, self.obligation.total as int)
        }
        &&& (after.negative.passed as int, after.negative.total as int) == if is_obligation {
            (self.negative.passed as int, self.negative.total as int)
        } else {
            self.negative.with(ok)
        }
    }

    /// Adds a verdict on something the store must do.
    pub fn obligation(&mut self, label: &str, ok: bool)
        requires
            old(self).counts(),
        ensures
            old(self).gains(*final(self), label@, ok, true),
            final(self).obligation.passed <= final(self).obligation.total,
    {
        let ghost before = self.rows@;
        self.obligation.record(ok);
        let row = (label.to_owned(), ok, true);
        self.rows.push(row);
        assert(row_views(self.rows@) =~= row_views(before).push((label@, ok, true)));
    }

    /// Adds a verdict on something that must not happen.
    pub fn negative(&mut self, label: &str, ok: bool)
        requires
            old(self).counts(),
        ensures
            old(self).gains(*final(self), label@, ok, false),
            final(self).negative.passed <= final(self).negative.total,
    {
        let ghost before = self.rows@;
        self.negative.record(ok);
        let row = (label.to_owned(), ok, false);
        self.rows.push(row);
        assert(row_views(self.rows@) =~= row_views(before).push((label@, ok, false)));
    }

    /// The scorecard as a table.
    pub open spec fn text(self) -> Seq<char> {
        let rows = row_views(self.rows@);
        matrix(rows, label_width(rows), rows.len() as int) + tally_text(
            self.obligation,
            self.negative,
        )
    }

    /// The scorecard as a table: a verdict for each step, never a percentage.
    pub fn render(&self) -> (r: String)
        requires
            longest_label(row_views(self.rows@)) <= usize::MAX - 2,
        ensures
            r@ == self.text(),
    {
        let ghost rows = row_views(self.rows@);
        let mut longest: usize = 0;
        let mut i: usize = 0;
        while i < self.rows.len()
            invariant
                i <= self.rows@.len(),
                rows == row_views(self.rows@),
                longest == longest_label(rows.take(i as int)),
            decreases self.rows@.len() - i,
        {
            assert(rows.take(i + 1).drop_last() =~= rows.take(i as int));
            assert(rows.take(i + 1).last() == row_view(self.rows@[i as int]));
            let n: usize = byte_len(self.rows[i].0.as_str());
            if n > longest {
                longest = n;
            }
            i += 1;
        }
        assert(rows.take(rows.len() as int) =~= rows);
        let width: usize = if self.rows.len() == 0 {
            42
        } else if longest < 4 {
            6
        } else {
            longest + 2
        };
        let mut out = head_of(width);
        let mut k: usize = 0;
        while k < self.rows.len()
            invariant
                k <= self.rows@.len(),
                rows == row_views(self.rows@),
                out@ == matrix(rows, width as nat, k as int),
            decreases self.rows@.len() - k,
        {
            let row = &self.rows[k];
            let line = line_of(row.0.as_str(), row.1, row.2, width);
            assert(rows[k as int] == (row.0@, row.1, row.2));
            out.append(line.as_str());
            k += 1;
        }
        out.append(tally_of(self.obligation, self.negative).as_str());
        out
    }
}

// ---------------------------------------------------------------------
// Leaks
// ---------------------------------------------------------------------

/// The text cells of a table, row by row.
#[derive(Debug)]
pub struct Table {
    pub name: String,
    pub rows: Vec<Vec<String>>,
}

/// Whether a cell of the table holds `token`.
pub open spec fn leaks(t: Table, token: Seq<char>) -> bool {
    exists|i: int, j: int|
        0 <= i < t.rows@.len() && 0 <= j < t.rows@[i]@.len() && contains(
            (#[trigger] t.rows@[i]@[j])@,
            token,
        )
}

fn leaks_in(t: &Table, token: &str) -> (r: bool)
    ensures
        r == leaks(*t, token@),
{
    let mut i: usize = 0;
    while i < t.rows.len()
        invariant
            i <= t.rows@.len(),
            forall|a: int, b: int|
                0 <= a < i && 0 <= b < t.rows@[a]@.len() ==> !contains(
                    (#[trigger] t.rows@[a]@[b])@,
                    token@,
                ),
        decreases t.rows@.len() - i,
    {
        let row = &t.rows[i];
        let mut j: usize = 0;
        while j < row.len()
            invariant
                i < t.rows@.len(),
                *row == t.rows@[i as int],
                j <= row@.len(),
                forall|b: int|
                    0 <= b < j ==> !contains((#[trigger] t.rows@[i as int]@[b])@, token@),
            decreases row@.len() - j,
        {
            if has(row[j].as_str(), token) {
                assert(contains((t.rows@[i as int]@[j as int])@, token@));
                return true;
            }
            j += 1;
        }
        i += 1;
    }
    false
}

/// Whether `a` comes before `b`, compared character by character.
pub open spec fn text_less(a: Seq<char>, b: Seq<char>) -> bool
    decreases a.len(),
{
    if b.len() == 0 {
        false
    } else if a.len() == 0 {
        true
    } else if a[0] != b[0] {
        a[0] < b[0]
    } else {
        text_less(a.skip(1), b.skip(1))
    }
}

proof fn lemma_less_total(a: Seq<char>, b: Seq<char>)
    ensures
        text_less(a, b) || text_less(b, a) || a == b,
        !(text_less(a, b) && text_less(b, a)),
        a == b ==> !text_less(a, b),
    decreases a.len(),
{
    if a.len() > 0 && b.len() > 0 && a[0] == b[0] {
        lemma_less_total(a.skip(1), b.skip(1));
        if a.skip(1) == b.skip(1) {
            assert(a =~= seq![a[0]] + a.skip(1));
            assert(b =~= seq![b[0]] + b.skip(1));
        }
    } else if a.len() == 0 && b.len() == 0 {
        assert(a =~= b);
    }
}

proof fn lemma_less_trans(a: Seq<char>, b: Seq<char>, c: Seq<char>)
    requires
        text_less(a, b),
        text_less(b, c),
    ensures
        text_less(a, c),
    decreases a.len(),
{
    if a.len() > 0 && a[0] == b[0] && b[0] == c[0] {
        lemma_less_trans(a.skip(1), b.skip(1), c.skip(1));
    }
}

fn is_less(a: &str, b: &str) -> (r: bool)
    ensures
        r == text_less(a@, b@),
{
    let x = chars_of(a);
    let y = chars_of(b);
    let mut i: usize = 0;
    assert(x@.skip(0) =~= x@);
    assert(y@.skip(0) =~= y@);
    while i < x.len() && i < y.len() && x[i] == y[i]
        invariant
            i <= x@.len(),
            i <= y@.len(),
            text_less(x@.skip(i as int), y@.skip(i as int)) == text_less(a@, b@),
        decreases x@.len() - i,
    {
        assert(x@.skip(i as int).skip(1) =~= x@.skip(i + 1));
        assert(y@.skip(i as int).skip(1) =~= y@.skip(i + 1));
        i += 1;
    }
    if i >= y.len() {
        false
    } else if i >= x.len() {
        true
    } else {
        x[i] < y[i]
    }
}

/// In order, each once.
pub open spec fn is_sorted(s: Seq<Seq<char>>) -> bool {
    forall|i: int, j: int| 0 <= i < j < s.len() ==> text_less(#[trigger] s[i], #[trigger] s[j])
}

fn insert_sorted(names: &mut Vec<String>, name: &str)
    requires
        is_sorted(texts(old(names)@)),
    ensures
        is_sorted(texts(final(names)@)),
        forall|x: Seq<char>| #[trigger]
            texts(final(names)@).contains(x) == (texts(old(names)@).contains(x) || x == name@),
{
    let ghost before = texts(names@);
    let mut i: usize = 0;
    while i < names.len() && is_less(names[i].as_str(), name)
        invariant
            i <= names@.len(),
            before == texts(names@),
            forall|k: int| 0 <= k < i ==> text_less(#[trigger] before[k], name@),
        decreases names@.len() - i,
    {
        assert(before[i as int] == names@[i as int]@);
        i += 1;
    }
    if i < names.len() && same(names[i].as_str(), name) {
        assert(before[i as int] == name@);
        return;
    }
    proof {
        if i < names.len() {
            assert(before[i as int] == names@[i as int]@);
            lemma_less_total(before[i as int], name@);
        }
    }
    let owned = name.to_owned();
    names.insert(i, owned);
    let ghost after = texts(names@);
    proof {
        assert(after =~= before.insert(i as int, name@));
        assert forall|a: int, b: int| 0 <= a < b < after.len() implies text_less(
            #[trigger] after[a],
            #[trigger] after[b],
        ) by {
            if a == i {
                assert(after[b] == before[b - 1]);
                if b - 1 > i {
                    lemma_less_trans(name@, before[i as int], before[b - 1]);
                }
            } else if b == i {
                assert(after[a] == before[a]);
            } else {
                let x = if a < i {
                    a
                } else {
                    a - 1
                };
                let y = if b < i {
                    b
                } else {
                    b - 1
                };
                assert(after[a] == before[x]);
                assert(after[b] == before[y]);
            }
        }
        assert forall|x: Seq<char>| #[trigger] after.contains(x) == (before.contains(x) || x
            == name@) by {
            if before.contains(x) {
                let k = choose|k: int| 0 <= k < before.len() && before[k] == x;
                if k < i {
                    assert(after[k] == x);
                } else {
                    assert(after[k + 1] == x);
                }
            }
            if x == name@ {
                assert(after[i as int] == x);
            }
            if after.contains(x) {
                let k = choose|k: int| 0 <= k < after.len() && after[k] == x;
                if k < i {
                    assert(before[k] == x);
                } else if k > i {
                    assert(before[k - 1] == x);
                }
            }
        }
    }
}

/// Whether `x` names one of the first `n` tables that leak.
pub open spec fn leaks_among(tables: Seq<Table>, token: Seq<char>, n: int, x: Seq<char>) -> bool {
    exists|i: int|
        0 <= i < n && leaks(#[trigger] tables[i], token) && tables[i].name@ == x
}

/// The names of the tables in which `token` turns up in any cell, sorted, each once.
pub fn leaks_anywhere(tables: &Vec<Table>, token: &str) -> (r: Vec<String>)
    ensures
        is_sorted(texts(r@)),
        forall|x: Seq<char>| #[trigger]
            texts(r@).contains(x) == leaks_among(tables@, token@, tables@.len() as int, x),
{
    let mut out: Vec<String> = Vec::new();
    let mut i: usize = 0;
    while i < tables.len()
        invariant
            i <= tables@.len(),
            is_sorted(texts(out@)),
            forall|x: Seq<char>| #[trigger]
                texts(out@).contains(x) == leaks_among(tables@, token@, i as int, x),
        decreases tables@.len() - i,
    {
        let ghost before = texts(out@);
        if leaks_in(&tables[i], token) {
            insert_sorted(&mut out, tables[i].name.as_str());
        }
        assert forall|x: Seq<char>| #[trigger] texts(out@).contains(x) == leaks_among(
            tables@,
            token@,
            i + 1,
            x,
        ) by {
            assert(before.contains(x) == leaks_among(tables@, token@, i as int, x));
            if leaks_among(tables@, token@, i as int, x) {
                let k = choose|k: int|
                    0 <= k < i && leaks(#[trigger] tables@[k], token@) && tables@[k].name@ == x;
                assert(leaks(tables@[k], token@));
            }
            if leaks_among(tables@, token@, i + 1, x) {
                let k = choose|k: int|
                    0 <= k < i + 1 && leaks(#[trigger] tables@[k], token@) && tables@[k].name@ == x;
                assert(leaks(tables@[k], token@));
            }
            if leaks(tables@[i as int], token@) && x == tables@[i as int].name@ {
                assert(leaks_among(tables@, token@, i + 1, x));
            }
        }
        i += 1;
    }
    out
}

/// Whether a leak lies beyond the tombstone: neither the row itself nor its text
/// index.
pub open spec fn is_beyond(table: Seq<char>) -> bool {
    table != "node"@ && !starts_with(table, "node_fts"@)
}

/// Whether any of the tables lies beyond the tombstone.
pub open spec fn any_beyond(tables: Seq<Seq<char>>) -> bool {
    exists|i: int| 0 <= i < tables.len() && is_beyond(#[trigger] tables[i])
}

fn leaks_beyond(tables: &Vec<String>) -> (r: bool)
    ensures
        r == any_beyond(texts(tables@)),
{
    let mut i: usize = 0;
    while i < tables.len()
        invariant
            i <= tables@.len(),
            forall|k: int| 0 <= k < i ==> !is_beyond(#[trigger] texts(tables@)[k]),
        decreases tables@.len() - i,
    {
        let name = tables[i].as_str();
        if !same(name, "node") && without_prefix(name, "node_fts").is_none() {
            assert(is_beyond(texts(tables@)[i as int]));
            return true;
        }
        i += 1;
    }
    false
}

// ---------------------------------------------------------------------
// Durability
// ---------------------------------------------------------------------

/// What was seen while a fact was written, edited, deleted, offered again and
/// replicated, next to a twin that is never forgotten.
#[derive(Debug)]
pub struct Observed {
    pub canary_before: bool,
    pub twin_before: bool,
    /// Whether the wording before the edit was kept.
    pub prior_kept: bool,
    pub canary_deleted: bool,
    pub twin_deleted: bool,
    /// Whether the fact, offered again by another path, was refused as forgotten.
    pub refused: bool,
    pub canary_offered: bool,
    pub canary_jobs: bool,
    pub twin_jobs: bool,
    /// Tables that hold the fact's token.
    pub leaking: Vec<String>,
    /// Whether prior wordings are left after the deletion.
    pub prior_left: bool,
    /// The ledger's entries about the fact.
    pub ledger: Vec<Mutation>,
    pub canary_synced: bool,
    pub twin_synced: bool,
}

/// Whether a mutation is a deletion by a person who gave a reason.
pub open spec fn is_accountable(m: Mutation) -> bool {
    (m.op == MutationOp::Forget || m.op == MutationOp::HardDelete) && m.actor == Actor::Human
        && m.reason is Some
}

/// Whether the ledger accounts for the deletion.
pub open spec fn accounts(ledger: Seq<Mutation>) -> bool {
    exists|i: int| 0 <= i < ledger.len() && is_accountable(#[trigger] ledger[i])
}

fn is_accounted(ledger: &Vec<Mutation>) -> (r: bool)
    ensures
        r == accounts(ledger@),
{
    let mut i: usize = 0;
    while i < ledger.len()
        invariant
            i <= ledger@.len(),
            forall|k: int| 0 <= k < i ==> !is_accountable(#[trigger] ledger@[k]),
        decreases ledger@.len() - i,
    {
        let m = &ledger[i];
        if (m.op == MutationOp::Forget || m.op == MutationOp::HardDelete) && m.actor == Actor::Human
            && m.reason.is_some() {
            assert(is_accountable(ledger@[i as int]));
            return true;
        }
        i += 1;
    }
    false
}

/// The verdicts before and at the deletion.
pub open spec fn rows_until_delete(o: Observed) -> Seq<(Seq<char>, bool, bool)> {
    seq![
        ("1. canary retrievable before delete"@, o.canary_before, true),
        ("2. twin retrievable before delete"@, o.twin_before, true),
        ("3. prior wording kept before delete"@, o.prior_kept, true),
        ("4. canary not retrievable"@, !o.canary_deleted, false),
        ("4b. twin still retrievable"@, o.twin_deleted, true),
    ]
}

/// The verdicts on the fact being offered again. A hard delete removes the
/// tombstone, and with it the only thing that could recognise the offer; the card
/// says so without counting it.
pub open spec fn rows_of_offer(hard: bool, o: Observed) -> Seq<(Seq<char>, bool, bool)> {
    if hard {
        seq![("5. re-feed guard traded away by --hard (stated limit)"@, true, true)]
    } else {
        seq![
            ("5. re-feed by another path refused"@, o.refused, true),
            ("6. canary still not retrievable"@, !o.canary_offered, false),
        ]
    }
}

/// The verdicts after the background jobs, and on the derived stores. A hard delete
/// claims absence everywhere, a soft one that nothing but the tombstone holds the
/// text.
pub open spec fn rows_of_jobs(hard: bool, o: Observed) -> Seq<(Seq<char>, bool, bool)> {
    seq![
        ("8. still not retrievable after background jobs"@, !o.canary_jobs, false),
        ("8b. twin survived background jobs"@, o.twin_jobs, true),
    ] + if hard {
        seq![("9. no derived store holds the value"@, o.leaking@.len() == 0, false)]
    } else {
        seq![
            ("9. nothing beyond the tombstone holds it"@, !any_beyond(texts(o.leaking@)), false),
            ("9b. prior wordings purged with the delete"@, !o.prior_left, false),
        ]
    }
}

/// The verdicts on the ledger and on replication.
pub open spec fn rows_of_record(o: Observed) -> Seq<(Seq<char>, bool, bool)> {
    seq![
        ("10. deletion recorded with actor and reason"@, accounts(o.ledger@), true),
        (
            "10b. audit does not quote the deleted value"@,
            !texts(o.leaking@).contains("mutation"@),
            false,
        ),
        ("13. unreachable from the synced second scope"@, !o.canary_synced, false),
        ("13b. twin reached the second scope"@, o.twin_synced, true),
    ]
}

/// All verdicts, in order.
pub open spec fn verdicts(hard: bool, o: Observed) -> Seq<(Seq<char>, bool, bool)> {
    rows_until_delete(o) + rows_of_offer(hard, o) + rows_of_jobs(hard, o) + rows_of_record(o)
}

/// How many of the verdicts on one arm there are, and how many passed.
pub open spec fn tallied(rows: Seq<(Seq<char>, bool, bool)>, is_obligation: bool) -> (int, int)
    decreases rows.len(),
{
    if rows.len() == 0 {
        (0, 0)
    } else {
        let before = tallied(rows.drop_last(), is_obligation);
        if rows.last().2 != is_obligation {
            before
        } else if rows.last().1 {
            (before.0 + 1, before.1 + 1)
        } else {
            (before.0, before.1 + 1)
        }
    }
}

/// The verdicts that count: all but the limit that a hard delete states.
pub open spec fn counted(hard: bool, o: Observed) -> Seq<(Seq<char>, bool, bool)> {
    rows_until_delete(o) + (if hard {
        Seq::empty()
    } else {
        rows_of_offer(hard, o)
    }) + rows_of_jobs(hard, o) + rows_of_record(o)
}

/// Whether a card holds the verdicts in `rows`, and counts those in `counting`.
spec fn is_card(
    card: Scorecard,
    rows: Seq<(Seq<char>, bool, bool)>,
    counting: Seq<(Seq<char>, bool, bool)>,
) -> bool {
    &&& row_views(card.rows@) == rows
    &&& (card.obligation.passed as int, card.obligation.total as int) == tallied(counting, true)
    &&& (card.negative.passed as int, card.negative.total as int) == tallied(counting, false)
    &&& counting.len() <= 20
    &&& card.obligation.passed <= card.obligation.total <= counting.len()
    &&& card.negative.passed <= card.negative.total <= counting.len()
}

fn judge(
    card: &mut Scorecard,
    label: &str,
    ok: bool,
    is_obligation: bool,
    Ghost(rows): Ghost<Seq<(Seq<char>, bool, bool)>>,
    Ghost(counting): Ghost<Seq<(Seq<char>, bool, bool)>>,
)
    requires
        is_card(*old(card), rows, counting),
        counting.len() < 20,
    ensures
        is_card(
            *final(card),
            rows.push((label@, ok, is_obligation)),
            counting.push((label@, ok, is_obligation)),
        ),
{
    let ghost row = (label@, ok, is_obligation);
    assert(counting.push(row).drop_last() =~= counting);
    if is_obligation {
        card.obligation(label, ok);
    } else {
        card.negative(label, ok);
    }
}

fn judge_until_delete(o: &Observed) -> (card: Scorecard)
    ensures
        is_card(card, rows_until_delete(*o), rows_until_delete(*o)),
{
    let ghost r0 = Seq::<(Seq<char>, bool, bool)>::empty();
    let mut card = Scorecard::default();
    assert(row_views(card.rows@) =~= r0);
    let ghost r1 = r0.push(("1. canary retrievable before delete"@, o.canary_before, true));
    judge(
        &mut card,
        "1. canary retrievable before delete",
        o.canary_before,
        true,
        Ghost(r0),
        Ghost(r0),
    );
    let ghost r2 = r1.push(("2. twin retrievable before delete"@, o.twin_before, true));
    judge(
        &mut card,
        "2. twin retrievable before delete",
        o.twin_before,
        true,
        Ghost(r1),
        Ghost(r1),
    );
    let ghost r3 = r2.push(("3. prior wording kept before delete"@, o.prior_kept, true));
    judge(
        &mut card,
        "3. prior wording kept before delete",
        o.prior_kept,
        true,
        Ghost(r2),
        Ghost(r2),
    );
    let ghost r4 = r3.push(("4. canary not retrievable"@, !o.canary_deleted, false));
    judge(&mut card, "4. canary not retrievable", !o.canary_deleted, false, Ghost(r3), Ghost(r3));
    let ghost r5 = r4.push(("4b. twin still retrievable"@, o.twin_deleted, true));
    judge(&mut card, "4b. twin still retrievable", o.twin_deleted, true, Ghost(r4), Ghost(r4));
    assert(r5 =~= rows_until_delete(*o));
    card
}

fn judge_offer(
    card: &mut Scorecard,
    hard: bool,
    o: &Observed,
    Ghost(rows): Ghost<Seq<(Seq<char>, bool, bool)>>,
)
    requires
        is_card(*old(card), rows, rows),
        rows.len() == 5,
    ensures
        is_card(
            *final(card),
            rows + rows_of_offer(hard, *o),
            if hard {
                rows
            } else {
                rows + rows_of_offer(hard, *o)
            },
        ),
{
    if hard {
        let ghost row = ("5. re-feed guard traded away by --hard (stated limit)"@, true, true);
        let ghost before = card.rows@;
        card.rows.push(
            ("5. re-feed guard traded away by --hard (stated limit)".to_owned(), true, true),
        );
        assert(row_views(card.rows@) =~= row_views(before).push(row));
        assert(rows.push(row) =~= rows + rows_of_offer(hard, *o));
    } else {
        let ghost r1 = rows.push(("5. re-feed by another path refused"@, o.refused, true));
        judge(
            card,
            "5. re-feed by another path refused",
            o.refused,
            true,
            Ghost(rows),
            Ghost(rows),
        );
        let ghost r2 = r1.push(("6. canary still not retrievable"@, !o.canary_offered, false));
        judge(
            card,
            "6. canary still not retrievable",
            !o.canary_offered,
            false,
            Ghost(r1),
            Ghost(r1),
        );
        assert(r2 =~= rows + rows_of_offer(hard, *o));
    }
}

fn judge_jobs(
    card: &mut Scorecard,
    hard: bool,
    o: &Observed,
    Ghost(rows): Ghost<Seq<(Seq<char>, bool, bool)>>,
    Ghost(counting): Ghost<Seq<(Seq<char>, bool, bool)>>,
)
    requires
        is_card(*old(card), rows, counting),
        counting.len() <= 7,
    ensures
        is_card(
            *final(card),
            rows + rows_of_jobs(hard, *o),
            counting + rows_of_jobs(hard, *o),
        ),
{
    let ghost row1 = ("8. still not retrievable after background jobs"@, !o.canary_jobs, false);
    judge(
        card,
        "8. still not retrievable after background jobs",
        !o.canary_jobs,
        false,
        Ghost(rows),
        Ghost(counting),
    );
    let ghost r1 = rows.push(row1);
    let ghost c1 = counting.push(row1);
    let ghost row2 = ("8b. twin survived background jobs"@, o.twin_jobs, true);
    judge(
        card,
        "8b. twin survived background jobs",
        o.twin_jobs,
        true,
        Ghost(r1),
        Ghost(c1),
    );
    let ghost r2 = r1.push(row2);
    let ghost c2 = c1.push(row2);
    if hard {
        let none = o.leaking.len() == 0;
        let ghost row3 = ("9. no derived store holds the value"@, none, false);
        judge(card, "9. no derived store holds the value", none, false, Ghost(r2), Ghost(c2));
        assert(r2.push(row3) =~= rows + rows_of_jobs(hard, *o));
        assert(c2.push(row3) =~= counting + rows_of_jobs(hard, *o));
    } else {
        let none = !leaks_beyond(&o.leaking);
        let ghost row3 = ("9. nothing beyond the tombstone holds it"@, none, false);
        judge(card, "9. nothing beyond the tombstone holds it", none, false, Ghost(r2), Ghost(c2));
        let ghost r3 = r2.push(row3);
        let ghost c3 = c2.push(row3);
        let ghost row4 = ("9b. prior wordings purged with the delete"@, !o.prior_left, false);
        judge(
            card,
            "9b. prior wordings purged with the delete",
            !o.prior_left,
            false,
            Ghost(r3),
            Ghost(c3),
        );
        assert(r3.push(row4) =~= rows + rows_of_jobs(hard, *o));
        assert(c3.push(row4) =~= counting + rows_of_jobs(hard, *o));
    }
}

fn judge_record(
    card: &mut Scorecard,
    o: &Observed,
    Ghost(rows): Ghost<Seq<(Seq<char>, bool, bool)>>,
    Ghost(counting): Ghost<Seq<(Seq<char>, bool, bool)>>,
)
    requires
        is_card(*old(card), rows, counting),
        counting.len() <= 12,
    ensures
        is_card(*final(card), rows + rows_of_record(*o), counting + rows_of_record(*o)),
{
    let recorded = is_accounted(&o.ledger);
    let ghost row1 = ("10. deletion recorded with actor and reason"@, recorded, true);
    judge(
        card,
        "10. deletion recorded with actor and reason",
        recorded,
        true,
        Ghost(rows),
        Ghost(counting),
    );
    let ghost r1 = rows.push(row1);
    let ghost c1 = counting.push(row1);
    let silent = !is_member(&o.leaking, "mutation");
    let ghost row2 = ("10b. audit does not quote the deleted value"@, silent, false);
    judge(
        card,
        "10b. audit does not quote the deleted value",
        silent,
        false,
        Ghost(r1),
        Ghost(c1),
    );
    let ghost r2 = r1.push(row2);
    let ghost c2 = c1.push(row2);
    let ghost row3 = ("13. unreachable from the synced second scope"@, !o.canary_synced, false);
    judge(
        card,
        "13. unreachable from the synced second scope",
        !o.canary_synced,
        false,
        Ghost(r2),
        Ghost(c2),
    );
    let ghost r3 = r2.push(row3);
    let ghost c3 = c2.push(row3);
    let ghost row4 = ("13b. twin reached the second scope"@, o.twin_synced, true);
    judge(
        card,
        "13b. twin reached the second scope",
        o.twin_synced,
        true,
        Ghost(r3),
        Ghost(c3),
    );
    assert(r3.push(row4) =~= rows + rows_of_record(*o));
    assert(c3.push(row4) =~= counting + rows_of_record(*o));
}

/// The scorecard of a deletion, soft or hard, from what was seen.
pub fn durability(hard: bool, o: &Observed) -> (card: Scorecard)
    ensures
        row_views(card.rows@) == verdicts(hard, *o),
        (card.obligation.passed as int, card.obligation.total as int) == tallied(
            counted(hard, *o),
            true,
        ),
        (card.negative.passed as int, card.negative.total as int) == tallied(
            counted(hard, *o),
            false,
        ),
{
    let mut card = judge_until_delete(o);
    let ghost r1 = rows_until_delete(*o);
    judge_offer(&mut card, hard, o, Ghost(r1));
    let ghost r2 = r1 + rows_of_offer(hard, *o);
    let ghost c2 = if hard {
        r1
    } else {
        r2
    };
    assert(c2 =~= r1 + (if hard {
        Seq::empty()
    } else {
        rows_of_offer(hard, *o)
    }));
    judge_jobs(&mut card, hard, o, Ghost(r2), Ghost(c2));
    judge_record(
        &mut card,
        o,
        Ghost(r2 + rows_of_jobs(hard, *o)),
        Ghost(c2 + rows_of_jobs(hard, *o)),
    );
    card
}

// ---------------------------------------------------------------------
// Laws
// ---------------------------------------------------------------------

/// A store in which nothing is ever found, nothing is kept and nothing is recorded.
pub open spec fn is_empty_store(o: Observed) -> bool {
    &&& !o.canary_before
    &&& !o.twin_before
    &&& !o.prior_kept
    &&& !o.canary_deleted
    &&& !o.twin_deleted
    &&& !o.refused
    &&& !o.canary_offered
    &&& !o.canary_jobs
    &&& !o.twin_jobs
    &&& o.leaking@.len() == 0
    &&& !o.prior_left
    &&& o.ledger@.len() == 0
    &&& !o.canary_synced
    &&& !o.twin_synced
}

proof fn lemma_tally(rows: Seq<(Seq<char>, bool, bool)>, is_obligation: bool, ok: bool)
    requires
        forall|i: int|
            0 <= i < rows.len() && (#[trigger] rows[i]).2 == is_obligation ==> rows[i].1 == ok,
    ensures
        tallied(rows, is_obligation).0 == if ok {
            tallied(rows, is_obligation).1
        } else {
            0
        },
    decreases rows.len(),
{
    if rows.len() > 0 {
        let t = rows.drop_last();
        assert forall|i: int| 0 <= i < t.len() && (#[trigger] t[i]).2 == is_obligation implies t[i].1
            == ok by {
            assert(t[i] == rows[i]);
        }
        lemma_tally(t, is_obligation, ok);
        assert(rows[rows.len() - 1] == rows.last());
    }
}

/// Why the two arms are kept apart: a store that keeps nothing passes every negative
/// invariant, and fails every obligation.
pub proof fn an_empty_store_fails_every_obligation(hard: bool, o: Observed)
    requires
        is_empty_store(o),
    ensures
        tallied(counted(hard, o), true).0 == 0,
        tallied(counted(hard, o), false).0 == tallied(counted(hard, o), false).1,
{
    let rows = counted(hard, o);
    let a = rows_until_delete(o);
    let b = if hard {
        Seq::empty()
    } else {
        rows_of_offer(hard, o)
    };
    let c = rows_of_jobs(hard, o);
    let d = rows_of_record(o);
    assert(forall|i: int| 0 <= i < a.len() ==> (#[trigger] a[i]).2 ==> !a[i].1);
    assert forall|i: int| 0 <= i < rows.len() implies (#[trigger] rows[i]).1 == !rows[i].2 by {
        if i < a.len() {
            assert(rows[i] == a[i]);
        } else if i < a.len() + b.len() {
            assert(rows[i] == b[i - a.len()]);
        } else if i < a.len() + b.len() + c.len() {
            assert(rows[i] == c[i - a.len() - b.len()]);
        } else {
            assert(rows[i] == d[i - a.len() - b.len() - c.len()]);
        }
    }
    lemma_tally(rows, true, false);
    lemma_tally(rows, false, true);
}

} // verus!
