//! Laws of the test of forgetting.

use vstd::prelude::*;

#[allow(unused_imports)]
use crate::audit::Mutation;
#[allow(unused_imports)]
use crate::eval::forget::{
    accounts, any_beyond, counted, is_accountable, is_beyond, label_width, leaks, leaks_among,
    longest_label, matrix, row_views, tallied, tally_text, text_less, verdicts, Observed, Score,
    Scorecard, Table,
};
#[allow(unused_imports)]
use crate::text::{contains, decimal_nat, pad_right, starts_with, texts, utf8_len};
#[allow(unused_imports)]
use vstd::string::*;

verus! {

/// What is asked before the deletion and right after it.
pub proof fn what_is_asked_around_the_deletion(hard: bool, o: Observed)
    ensures
        ({
            let v = verdicts(hard, o);
            &&& v.len() >= 5
            &&& v[0] == ("1. canary retrievable before delete"@, o.canary_before, true)
            &&& v[1] == ("2. twin retrievable before delete"@, o.twin_before, true)
            &&& v[2] == ("3. prior wording kept before delete"@, o.prior_kept, true)
            &&& v[3] == ("4. canary not retrievable"@, !o.canary_deleted, false)
            &&& v[4] == ("4b. twin still retrievable"@, o.twin_deleted, true)
        }),
{
}

/// What is asked of a soft deletion from then on.
pub proof fn what_is_asked_of_a_soft_deletion(o: Observed)
    ensures
        ({
            let v = verdicts(false, o);
            &&& v.len() == 15
            &&& v[5] == ("5. re-feed by another path refused"@, o.refused, true)
            &&& v[6] == ("6. canary still not retrievable"@, !o.canary_offered, false)
            &&& v[7] == ("8. still not retrievable after background jobs"@, !o.canary_jobs, false)
            &&& v[8] == ("8b. twin survived background jobs"@, o.twin_jobs, true)
            &&& v[9].0 == "9. nothing beyond the tombstone holds it"@ && !v[9].2
            &&& v[9].1 <==> forall|i: int|
                0 <= i < o.leaking@.len() ==> (#[trigger] o.leaking@[i])@ == "node"@ || starts_with(
                    o.leaking@[i]@,
                    "node_fts"@,
                )
            &&& v[10] == ("9b. prior wordings purged with the delete"@, !o.prior_left, false)
            &&& v[11].0 == "10. deletion recorded with actor and reason"@ && v[11].2
            &&& v[12].0 == "10b. audit does not quote the deleted value"@ && !v[12].2
            &&& v[12].1 <==> forall|i: int|
                0 <= i < o.leaking@.len() ==> (#[trigger] o.leaking@[i])@ != "mutation"@
            &&& v[13] == ("13. unreachable from the synced second scope"@, !o.canary_synced, false)
            &&& v[14] == ("13b. twin reached the second scope"@, o.twin_synced, true)
        }),
{
    lemma_leaking(o);
}

/// What is asked of a hard deletion from then on.
pub proof fn what_is_asked_of_a_hard_deletion(o: Observed)
    ensures
        ({
            let v = verdicts(true, o);
            &&& v.len() == 13
            &&& v[5] == ("5. re-feed guard traded away by --hard (stated limit)"@, true, true)
            &&& v[6] == ("8. still not retrievable after background jobs"@, !o.canary_jobs, false)
            &&& v[7] == ("8b. twin survived background jobs"@, o.twin_jobs, true)
            &&& v[8] == ("9. no derived store holds the value"@, o.leaking@.len() == 0, false)
            &&& v[9].0 == "10. deletion recorded with actor and reason"@ && v[9].2
            &&& v[10].0 == "10b. audit does not quote the deleted value"@ && !v[10].2
            &&& v[10].1 <==> forall|i: int|
                0 <= i < o.leaking@.len() ==> (#[trigger] o.leaking@[i])@ != "mutation"@
            &&& v[11] == ("13. unreachable from the synced second scope"@, !o.canary_synced, false)
            &&& v[12] == ("13b. twin reached the second scope"@, o.twin_synced, true)
        }),
{
    lemma_leaking(o);
}

proof fn lemma_leaking(o: Observed)
    ensures
        !any_beyond(texts(o.leaking@)) <==> forall|i: int|
            0 <= i < o.leaking@.len() ==> (#[trigger] o.leaking@[i])@ == "node"@ || starts_with(
                o.leaking@[i]@,
                "node_fts"@,
            ),
        !texts(o.leaking@).contains("mutation"@) <==> forall|i: int|
            0 <= i < o.leaking@.len() ==> (#[trigger] o.leaking@[i])@ != "mutation"@,
{
    let t = texts(o.leaking@);
    if any_beyond(t) {
        let i = choose|i: int| 0 <= i < t.len() && is_beyond(#[trigger] t[i]);
        assert(o.leaking@[i]@ == t[i]);
    } else {
        assert forall|i: int| 0 <= i < o.leaking@.len() implies (#[trigger] o.leaking@[i])@
            == "node"@ || starts_with(o.leaking@[i]@, "node_fts"@) by {
            assert(!is_beyond(t[i]));
        }
    }
    if t.contains("mutation"@) {
        let i = choose|i: int| 0 <= i < t.len() && t[i] == "mutation"@;
        assert(o.leaking@[i]@ == t[i]);
    } else {
        assert forall|i: int| 0 <= i < o.leaking@.len() implies (#[trigger] o.leaking@[i])@
            != "mutation"@ by {
            assert(t[i] != "mutation"@);
        }
    }
}

/// A deletion is accounted for by an entry of the ledger that says a human did it and why.
pub proof fn a_deletion_is_accounted_for(ledger: Seq<Mutation>)
    ensures
        accounts(ledger) <==> exists|i: int|
            0 <= i < ledger.len() && ((#[trigger] ledger[i]).op is Forget || ledger[i].op
                is HardDelete) && ledger[i].actor is Human && ledger[i].reason is Some,
{
    if accounts(ledger) {
        let i = choose|i: int| 0 <= i < ledger.len() && is_accountable(#[trigger] ledger[i]);
        assert(ledger[i].actor is Human);
    }
    if exists|i: int| 0 <= i < ledger.len() && ((#[trigger] ledger[i]).op is Forget
        || ledger[i].op is HardDelete) && ledger[i].actor is Human && ledger[i].reason is Some {
        let i = choose|i: int|
            0 <= i < ledger.len() && ((#[trigger] ledger[i]).op is Forget || ledger[i].op
                is HardDelete) && ledger[i].actor is Human && ledger[i].reason is Some;
        assert(is_accountable(ledger[i]));
    }
}

/// Every verdict counts, but for the one that a hard deletion trades away.
pub proof fn every_verdict_counts(hard: bool, o: Observed)
    ensures
        !hard ==> counted(hard, o) == verdicts(hard, o),
        hard ==> counted(hard, o) == verdicts(hard, o).take(5) + verdicts(hard, o).skip(6),
{
    if hard {
        assert(counted(hard, o) =~= verdicts(hard, o).take(5) + verdicts(hard, o).skip(6));
    }
}

/// Obligations and things that must not happen are counted apart: each verdict of the one
/// sort once, and among the passed where it passed.
pub proof fn verdicts_are_counted_apart(
    rows: Seq<(Seq<char>, bool, bool)>,
    row: (Seq<char>, bool, bool),
    sort: bool,
)
    ensures
        ({
            let a = tallied(rows, sort);
            let b = tallied(rows.push(row), sort);
            &&& row.2 != sort ==> b == a
            &&& row.2 == sort && row.1 ==> b.0 == a.0 + 1 && b.1 == a.1 + 1
            &&& row.2 == sort && !row.1 ==> b.0 == a.0 && b.1 == a.1 + 1
        }),
        tallied(Seq::empty(), sort) == (0int, 0int),
{
    assert(rows.push(row).drop_last() =~= rows);
}

/// A card gains one row, and one count of the row's sort.
pub proof fn a_card_gains_a_row(
    before: Scorecard,
    after: Scorecard,
    label: Seq<char>,
    ok: bool,
    is_obligation: bool,
)
    requires
        before.gains(after, label, ok, is_obligation),
    ensures
        row_views(after.rows@) == row_views(before.rows@).push((label, ok, is_obligation)),
        is_obligation ==> after.obligation.total == before.obligation.total + 1
            && after.negative.total == before.negative.total && after.negative.passed
            == before.negative.passed,
        is_obligation && ok ==> after.obligation.passed == before.obligation.passed + 1,
        is_obligation && !ok ==> after.obligation.passed == before.obligation.passed,
        !is_obligation ==> after.negative.total == before.negative.total + 1
            && after.obligation.total == before.obligation.total && after.obligation.passed
            == before.obligation.passed,
        !is_obligation && ok ==> after.negative.passed == before.negative.passed + 1,
        !is_obligation && !ok ==> after.negative.passed == before.negative.passed,
{
}

proof fn lemma_longest(rows: Seq<(Seq<char>, bool, bool)>)
    ensures
        forall|i: int| 0 <= i < rows.len() ==> utf8_len((#[trigger] rows[i]).0) <= longest_label(rows),
        rows.len() > 0 ==> longest_label(rows) == 0 || exists|i: int|
            0 <= i < rows.len() && utf8_len((#[trigger] rows[i]).0) == longest_label(rows),
    decreases rows.len(),
{
    if rows.len() > 0 {
        let t = rows.drop_last();
        lemma_longest(t);
        assert forall|i: int| 0 <= i < rows.len() implies utf8_len((#[trigger] rows[i]).0)
            <= longest_label(rows) by {
            if i < t.len() {
                assert(t[i] == rows[i]);
            }
        }
        if longest_label(rows) == utf8_len(rows.last().0) {
            assert(utf8_len(rows[rows.len() - 1].0) == longest_label(rows));
        } else if longest_label(rows) > 0 {
            assert(t.len() > 0);
            let i = choose|i: int|
                0 <= i < t.len() && utf8_len((#[trigger] t[i]).0) == longest_label(t);
            assert(rows[i] == t[i]);
        }
    }
}

/// The first column is two wider than the longest label.
pub proof fn the_first_column_fits(rows: Seq<(Seq<char>, bool, bool)>)
    ensures
        rows.len() == 0 ==> label_width(rows) == 42,
        forall|i: int|
            0 <= i < rows.len() ==> label_width(rows) >= utf8_len((#[trigger] rows[i]).0) + 2,
        rows.len() > 0 ==> label_width(rows) == 6 || exists|i: int|
            0 <= i < rows.len() && label_width(rows) == utf8_len((#[trigger] rows[i]).0) + 2,
{
    lemma_longest(rows);
}

/// A row says its label, its sort and its verdict; the head says what the columns are.
pub proof fn a_row_says_its_verdict(
    rows: Seq<(Seq<char>, bool, bool)>,
    width: nat,
    n: int,
)
    requires
        0 < n <= rows.len(),
    ensures
        ({
            let row = rows[n - 1];
            let sort = if row.2 {
                "obligation"@
            } else {
                "negative"@
            };
            let verdict = if row.1 {
                "pass"@
            } else {
                "FAIL"@
            };
            matrix(rows, width, n) == matrix(rows, width, n - 1) + (pad_right(row.0, width, ' ')
                + pad_right(sort, 12, ' ') + verdict + "\n"@)
        }),
        matrix(rows, width, 0) == pad_right("step"@, width, ' ') + pad_right("arm"@, 12, ' ')
            + "verdict\n"@,
{
}

/// The tally says both counts, passed of all.
pub proof fn the_tally_says_both_counts(a: Score, b: Score)
    ensures
        tally_text(a, b) == "\nobligations "@ + decimal_nat(a.passed as nat) + "/"@ + decimal_nat(
            a.total as nat,
        ) + "   negative invariants "@ + decimal_nat(b.passed as nat) + "/"@ + decimal_nat(
            b.total as nat,
        )
            + "\n(kept apart deliberately: a store that keeps nothing passes every negative invariant)\n"@,
{
}

/// A table leaks where a cell of it holds the token.
pub proof fn a_table_leaks_by_a_cell(t: Table, token: Seq<char>, i: int, j: int)
    ensures
        0 <= i < t.rows@.len() && 0 <= j < t.rows@[i]@.len() && contains(
            t.rows@[i]@[j]@,
            token,
        ) ==> leaks(t, token),
        (forall|a: int, b: int|
            0 <= a < t.rows@.len() && 0 <= b < t.rows@[a]@.len() ==> !contains(
                (#[trigger] t.rows@[a]@[b])@,
                token,
            )) ==> !leaks(t, token),
{
}

/// The tables that leak are told by name.
pub proof fn leaking_tables_are_told_by_name(
    tables: Seq<Table>,
    token: Seq<char>,
    n: int,
    x: Seq<char>,
)
    ensures
        leaks_among(tables, token, n, x) <==> exists|i: int|
            0 <= i < n && (#[trigger] tables[i]).name@ == x && leaks(tables[i], token),
{
    if leaks_among(tables, token, n, x) {
        let i = choose|i: int|
            0 <= i < n && leaks(#[trigger] tables[i], token) && tables[i].name@ == x;
        assert(tables[i].name@ == x);
    }
    if exists|i: int| 0 <= i < n && (#[trigger] tables[i]).name@ == x && leaks(tables[i], token) {
        let i = choose|i: int|
            0 <= i < n && (#[trigger] tables[i]).name@ == x && leaks(tables[i], token);
        assert(leaks(tables[i], token));
    }
}

/// Texts are ordered by the first character in which they differ; the shorter comes first
/// where there is none.
pub proof fn texts_are_ordered_by_their_characters(
    p: Seq<char>,
    a: Seq<char>,
    b: Seq<char>,
    x: char,
    y: char,
)
    ensures
        x < y ==> text_less(p + seq![x] + a, p + seq![y] + b) && !text_less(
            p + seq![y] + b,
            p + seq![x] + a,
        ),
        text_less(p, p + seq![y] + b),
        !text_less(p, p),
        !text_less(p + seq![y] + b, p),
    decreases p.len(),
{
    let (s, t) = (p + seq![x] + a, p + seq![y] + b);
    if p.len() > 0 {
        let q = p.skip(1);
        texts_are_ordered_by_their_characters(q, a, b, x, y);
        assert(s.skip(1) =~= q + seq![x] + a);
        assert(t.skip(1) =~= q + seq![y] + b);
        assert(s[0] == p[0] && t[0] == p[0]);
    } else {
        assert(s[0] == x && t[0] == y);
    }
}

} // verus!
