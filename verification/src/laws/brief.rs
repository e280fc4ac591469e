//! Laws of the session brief: who may be in it, in which order, and how it reads.

use vstd::prelude::*;

#[allow(unused_imports)]
use crate::brief::{
    age_days, age_tag, best_score, brief_keys, brief_line, filled, in_rules, is_candidate,
    is_pooled, is_shown, normal, own_words, passes_gate, shares_word, signature_up_to,
};
#[allow(unused_imports)]
use crate::config::BriefConfig;
#[allow(unused_imports)]
use crate::format::truncated;
#[allow(unused_imports)]
use crate::laws::order::selection_is_exact_and_sorted;
#[allow(unused_imports)]
use crate::memory::gist;
#[allow(unused_imports)]
use crate::model::{short_form, Kind, Node, Scope};
#[allow(unused_imports)]
use crate::order::ranking;
#[allow(unused_imports)]
use crate::seqs::kept;
#[allow(unused_imports)]
use crate::text::{contains, decimal, join, lowercase, words};
#[allow(unused_imports)]
use vstd::string::*;

verus! {

/// In a brief are the gotchas and decisions that are neither deleted nor superseded: of
/// a project its own and the global ones, of the global scope those without a project,
/// of all scopes every one.
pub proof fn briefs_draw_on_live_guards(n: Node, id: i64)
    ensures
        ({
            let guard = n.kind == Kind::Memory && n.deleted_at is None && n.superseded_by is None
                && n.subkind is Some && (n.subkind->0@ == "gotcha"@ || n.subkind->0@
                == "decision"@);
            &&& is_candidate(n, Scope::All) <==> guard
            &&& is_candidate(n, Scope::Global) <==> guard && n.project_id is None
            &&& is_candidate(n, Scope::Project(id)) <==> guard && (n.project_id is None
                || n.project_id == Some(id))
        }),
{
}

/// In the pool is a candidate that is let through and that the rules do not say yet;
/// without rules and without a gate, every candidate.
pub proof fn the_pool_is_what_may_be_shown(
    n: Node,
    scope: Scope,
    rules: Option<Seq<char>>,
    gate: Option<Seq<Seq<char>>>,
    stop: Seq<Seq<char>>,
)
    ensures
        is_pooled(scope, None, None, stop)(n) <==> is_candidate(n, scope),
        is_pooled(scope, rules, gate, stop)(n) ==> is_candidate(n, scope) && passes_gate(
            n,
            scope,
            gate,
            stop,
        ) && (rules is Some ==> !in_rules(n, normal(rules->0))),
        is_candidate(n, scope) && passes_gate(n, scope, gate, stop) && (rules is Some ==> !in_rules(
            n,
            normal(rules->0),
        )) ==> is_pooled(scope, rules, gate, stop)(n),
{
}

/// Where a project is briefed, a global memory that is not pinned passes exactly where
/// it has a word of the project's signature; a memory of a project passes, and outside
/// of a project everything does.
pub proof fn the_gate_asks_for_a_common_word(
    n: Node,
    id: i64,
    sig: Seq<Seq<char>>,
    stop: Seq<Seq<char>>,
)
    ensures
        n.project_id is Some ==> passes_gate(n, Scope::Project(id), Some(sig), stop),
        n.project_id is None && !n.pinned ==> (passes_gate(n, Scope::Project(id), Some(sig), stop)
            <==> exists|w: Seq<char>| #[trigger] own_words(n, stop).contains(w) && sig.contains(w)),
        passes_gate(n, Scope::Global, Some(sig), stop),
        passes_gate(n, Scope::All, Some(sig), stop),
        passes_gate(n, Scope::Project(id), None, stop),
{
    let o = own_words(n, stop);
    if shares_word(n, sig, stop) {
        let i = choose|i: int| 0 <= i < o.len() && sig.contains(#[trigger] o[i]);
        assert(o.contains(o[i]) && sig.contains(o[i]));
    }
    if exists|w: Seq<char>| #[trigger] o.contains(w) && sig.contains(w) {
        let w = choose|w: Seq<char>| #[trigger] o.contains(w) && sig.contains(w);
        let i = choose|i: int| 0 <= i < o.len() && o[i] == w;
        assert(sig.contains(o[i]));
    }
}

/// The words of a memory are the longer words of its tags, then those of its title.
pub proof fn own_words_are_of_tags_and_title(n: Node, stop: Seq<Seq<char>>)
    ensures
        n.title is None ==> own_words(n, stop) == gist(n.tags_text@, stop),
        n.title is Some ==> own_words(n, stop) == gist(n.tags_text@, stop) + gist(
            n.title->0@,
            stop,
        ),
{
    assert(gist(n.tags_text@, stop) + Seq::<Seq<char>>::empty() =~= gist(n.tags_text@, stop));
}

/// A project is about its title and about the words of its own live memories: a word is
/// in its signature exactly where one of these has it.
pub proof fn a_signature_is_of_the_project(
    title: Seq<char>,
    nodes: Seq<Node>,
    project_id: i64,
    stop: Seq<Seq<char>>,
    k: int,
    w: Seq<char>,
)
    requires
        0 <= k <= nodes.len(),
    ensures
        signature_up_to(title, nodes, project_id, stop, k).contains(w) <==> gist(
            title,
            stop,
        ).contains(w) || exists|i: int|
            0 <= i < k && (#[trigger] nodes[i]).kind == Kind::Memory && nodes[i].deleted_at is None
                && nodes[i].superseded_by is None && nodes[i].project_id == Some(project_id)
                && own_words(nodes[i], stop).contains(w),
    decreases k,
{
    if k > 0 {
        a_signature_is_of_the_project(title, nodes, project_id, stop, k - 1, w);
        let before = signature_up_to(title, nodes, project_id, stop, k - 1);
        let n = nodes[k - 1];
        let more = own_words(n, stop);
        lemma_in_concat(before, more, w);
    }
}

proof fn lemma_in_concat(a: Seq<Seq<char>>, b: Seq<Seq<char>>, w: Seq<char>)
    ensures
        (a + b).contains(w) <==> a.contains(w) || b.contains(w),
{
    if a.contains(w) {
        let i = choose|i: int| 0 <= i < a.len() && a[i] == w;
        assert((a + b)[i] == w);
    }
    if b.contains(w) {
        let i = choose|i: int| 0 <= i < b.len() && b[i] == w;
        assert((a + b)[a.len() + i] == w);
    }
    if (a + b).contains(w) {
        let i = choose|i: int| 0 <= i < (a + b).len() && (a + b)[i] == w;
        if i < a.len() {
            assert(a[i] == w);
        } else {
            assert(b[i - a.len()] == w);
        }
    }
}

/// The rules say a memory already where the first eighty characters of its body, in
/// lower case and with single blanks, stand in them.
pub proof fn the_rules_say_it_already(n: Node, rules: Seq<char>)
    ensures
        n.body is None ==> !in_rules(n, rules),
        n.body is Some ==> ({
            let b = lowercase(join(words(n.body->0@), " "@));
            &&& b.len() == 0 ==> !in_rules(n, rules)
            &&& 0 < b.len() <= 80 ==> (in_rules(n, rules) <==> contains(rules, b))
            &&& b.len() > 80 ==> (in_rules(n, rules) <==> contains(rules, b.take(80)))
        }),
{
    reveal_strlit(" ");
    assert(" "@ =~= seq![' ']);
}

proof fn lemma_best(scores: Seq<i64>, i: int)
    requires
        0 <= i < scores.len(),
    ensures
        scores[i] <= best_score(scores),
        scores.contains(best_score(scores) as i64),
        i64::MIN <= best_score(scores) <= i64::MAX,
    decreases scores.len(),
{
    let t = scores.drop_last();
    if scores.len() > 1 {
        lemma_best(t, if i < t.len() {
            i
        } else {
            0
        });
        let k = choose|k: int| 0 <= k < t.len() && t[k] == best_score(t) as i64;
        assert(scores[k] == t[k]);
        assert(scores[scores.len() - 1] == scores.last());
        if i < t.len() {
            assert(t[i] == scores[i]);
        }
    } else {
        assert(scores[0] == scores[0]);
    }
}

/// A brief goes by score, the best first; of equal scores the later change first, and
/// then the lower id. Shown is what is not excluded and reaches the floor, so many
/// millionths of the best score of all; a floor of nothing keeps nothing out.
pub proof fn the_best_come_first(
    nodes: Seq<Node>,
    scores: Seq<i64>,
    exclude: Seq<i64>,
    floor: u32,
) -> (at: Seq<int>)
    requires
        nodes.len() == scores.len(),
    ensures
        at == kept(
            ranking(brief_keys(nodes, scores)),
            is_shown(nodes, scores, exclude, floor),
        ),
        forall|k: int| 0 <= k < at.len() ==> 0 <= #[trigger] at[k] < nodes.len(),
        forall|a: int, b: int|
            #![trigger at[a], at[b]]
            0 <= a < b < at.len() ==> {
                let (x, y) = (at[a], at[b]);
                ||| scores[x] > scores[y]
                ||| scores[x] == scores[y] && nodes[x].updated_at > nodes[y].updated_at
                ||| scores[x] == scores[y] && nodes[x].updated_at == nodes[y].updated_at
                    && nodes[x].id <= nodes[y].id
            },
        forall|i: int|
            #![trigger at.contains(i)]
            0 <= i < nodes.len() && floor == 0 ==> (at.contains(i) <==> !exclude.contains(
                nodes[i].id,
            )),
        forall|i: int|
            #![trigger at.contains(i)]
            0 <= i < nodes.len() && floor > 0 ==> (at.contains(i) <==> !exclude.contains(
                nodes[i].id,
            ) && forall|j: int|
                0 <= j < scores.len() ==> scores[i] * 1_000_000 >= floor * (#[trigger] scores[j])),
{
    let keys = brief_keys(nodes, scores);
    let p = is_shown(nodes, scores, exclude, floor);
    selection_is_exact_and_sorted(keys, p);
    let at = kept(ranking(keys), p);
    assert forall|a: int, b: int|
        #![trigger at[a], at[b]]
        0 <= a < b < at.len() implies {
        let (x, y) = (at[a], at[b]);
        ||| scores[x] > scores[y]
        ||| scores[x] == scores[y] && nodes[x].updated_at > nodes[y].updated_at
        ||| scores[x] == scores[y] && nodes[x].updated_at == nodes[y].updated_at && nodes[x].id
            <= nodes[y].id
    } by {
        assert(keys[at[a]].less(keys[at[b]]) || keys[at[a]] == keys[at[b]]);
    }
    assert forall|i: int|
        #![trigger at.contains(i)]
        0 <= i < nodes.len() && floor > 0 implies (at.contains(i) <==> !exclude.contains(
        nodes[i].id,
    ) && forall|j: int|
        0 <= j < scores.len() ==> scores[i] * 1_000_000 >= floor * (#[trigger] scores[j])) by {
        lemma_best(scores, i);
        let best = best_score(scores);
        let f = floor as int;
        let k = choose|k: int| 0 <= k < scores.len() && scores[k] == best as i64;
        assert forall|j: int| 0 <= j < scores.len() implies f * (#[trigger] scores[j]) <= f
            * best by {
            lemma_best(scores, j);
            let s = scores[j] as int;
            assert(f * s <= f * best) by (nonlinear_arith)
                requires
                    s <= best,
                    0 <= f,
            ;
        }
        assert(scores[k] == best);
    }
    at
}

/// A line is made of the announcement, the short name, the age and the wording; the
/// wording is the body, or the title where there is no body, on one line and cut to
/// the given length.
pub proof fn a_line_names_and_quotes(n: Node, line_chars: int, now: int)
    ensures
        n.body is None && n.title is None ==> brief_line(n, line_chars, now).len() == 0,
        ({
            let raw = match n.body {
                Some(b) => b@,
                None => match n.title {
                    Some(t) => t@,
                    None => Seq::empty(),
                },
            };
            let said = truncated(join(words(raw), " "@), line_chars);
            let head = if n.subkind is Some && n.subkind->0@ == "decision"@ {
                "- DECISION ["@
            } else {
                "- GOTCHA ["@
            };
            &&& (n.body is Some || n.title is Some) && said.len() > 0 ==> brief_line(
                n,
                line_chars,
                now,
            ) == head + short_form(n.kind, n.uid@) + "]"@ + age_tag(age_days(n, now)) + ": "@
                + said
            &&& said.len() == 0 ==> brief_line(n, line_chars, now).len() == 0
        }),
{
    reveal_strlit(" ");
    assert(" "@ =~= seq![' ']);
    reveal_strlit("- ");
    reveal_strlit(" [");
    reveal_strlit("GOTCHA");
    reveal_strlit("DECISION");
    reveal_strlit("- GOTCHA [");
    reveal_strlit("- DECISION [");
    assert("- "@ + "GOTCHA"@ + " ["@ =~= "- GOTCHA ["@);
    assert("- "@ + "DECISION"@ + " ["@ =~= "- DECISION ["@);
}

/// The age of a memory is shown from the ninety-first day on, in months of thirty days,
/// and from twelve of those on in years.
pub proof fn old_lines_show_their_age(n: Node, now: int)
    ensures
        ({
            let days = (now - n.updated_at) / 86_400;
            &&& now - n.updated_at < 91 * 86_400 ==> age_tag(age_days(n, now)).len() == 0
            &&& days >= 91 && days < 360 ==> age_tag(age_days(n, now)) == " ("@ + decimal(
                days / 30,
            ) + "mo)"@
            &&& days >= 360 ==> age_tag(age_days(n, now)) == " ("@ + decimal(days / 30 / 12)
                + "y)"@
        }),
{
}

/// A brief is its heading and, below it, the line of each memory that it shows, in the
/// order in which they were offered.
pub proof fn a_brief_is_its_lines(
    nodes: Seq<Node>,
    costs: Seq<usize>,
    cfg: BriefConfig,
    budget: int,
    now: int,
    k: int,
) -> (at: Seq<int>)
    requires
        0 <= k <= nodes.len(),
        costs.len() == nodes.len(),
    ensures
        ({
            let f = filled(nodes, costs, cfg, budget, now, k);
            &&& at.len() == f.shown.len()
            &&& at.len() == 0 ==> f.text.len() == 0
            &&& at.len() > 0 ==> f.text == join(
                seq!["Mimir guards (do not violate):"@] + Seq::new(
                    at.len(),
                    |i: int| brief_line(nodes[at[i]], cfg.line_chars as int, now),
                ),
                "\n"@,
            )
            &&& forall|i: int|
                0 <= i < at.len() ==> 0 <= #[trigger] at[i] < k && f.shown[i] == nodes[at[i]].id
                    && costs[at[i]] <= budget
            &&& forall|i: int, j: int| 0 <= i < j < at.len() ==> #[trigger] at[i] < #[trigger] at[j]
            &&& f.shown.len() < cfg.max_items ==> forall|i: int|
                0 <= i < k && !at.contains(i) && brief_line(
                    #[trigger] nodes[i],
                    cfg.line_chars as int,
                    now,
                ).len() > 0 ==> costs[i] > budget
        }),
    decreases k,
{
    if k <= 0 {
        Seq::empty()
    } else {
        let before = a_brief_is_its_lines(nodes, costs, cfg, budget, now, k - 1);
        let f = filled(nodes, costs, cfg, budget, now, k - 1);
        let g = filled(nodes, costs, cfg, budget, now, k);
        let line = brief_line(nodes[k - 1], cfg.line_chars as int, now);
        if f.shown.len() < cfg.max_items && line.len() > 0 && costs[k - 1] <= budget {
            let at = before.push(k - 1);
            let head = seq!["Mimir guards (do not violate):"@];
            let a = head + Seq::new(
                before.len(),
                |i: int| brief_line(nodes[before[i]], cfg.line_chars as int, now),
            );
            let b = head + Seq::new(
                at.len(),
                |i: int| brief_line(nodes[at[i]], cfg.line_chars as int, now),
            );
            assert(b.drop_last() =~= a);
            assert(b.last() == line);
            if before.len() == 0 {
                assert(a =~= head);
            }
            assert(join(b, "\n"@) == join(a, "\n"@) + "\n"@ + line);
            assert(g.text == join(b, "\n"@));
            assert forall|i: int| 0 <= i < at.len() implies 0 <= #[trigger] at[i] < k && g.shown[i]
                == nodes[at[i]].id && costs[at[i]] <= budget by {
                if i < before.len() {
                    assert(at[i] == before[i]);
                }
            }
            assert forall|i: int, j: int| 0 <= i < j < at.len() implies #[trigger] at[i]
                < #[trigger] at[j] by {
                assert(at[i] == before[i]);
                if j < before.len() {
                    assert(at[j] == before[j]);
                }
            }
            assert forall|i: int|
                g.shown.len() < cfg.max_items && 0 <= i < k && !at.contains(i) && brief_line(
                    #[trigger] nodes[i],
                    cfg.line_chars as int,
                    now,
                ).len() > 0 implies costs[i] > budget by {
                assert(at[at.len() - 1] == k - 1);
                if before.contains(i) {
                    let x = choose|x: int| 0 <= x < before.len() && before[x] == i;
                    assert(at[x] == i);
                }
            }
            at
        } else {
            before
        }
    }
}

} // verus!
