//! The session brief: a hard-capped digest of the memories that prevent the most
//! mistakes, for the start of a session.

use vstd::prelude::*;

use crate::config::BriefConfig;
use crate::format::{collapse_ws, truncate_chars, DAY_SECONDS};
#[allow(unused_imports)]
use crate::format::{collapsed, truncated};
use crate::model::{short_uid, Kind, Node, Scope};
#[allow(unused_imports)]
use crate::model::short_form;
use crate::memory::gist_of;
#[allow(unused_imports)]
use crate::memory::gist;
use crate::order::{flip, rank_where, Key};
#[allow(unused_imports)]
use crate::order::{as_ints, deref_all, flipped, marked, ranking};
#[allow(unused_imports)]
use crate::seqs::{first_n, kept};
use crate::sets::{is_member, push_all};
use crate::text::{chars_of, decimal_of, has, same, string_of};
#[allow(unused_imports)]
use crate::text::{contains, decimal, lowercase, texts};
#[allow(unused_imports)]
use vstd::string::*;

verus! {

/// The line that a brief begins with.
pub const HEADER: &'static str = "Mimir guards (do not violate):";

/// Days after which a memory's line shows its age.
pub const STALE_AFTER_DAYS: i64 = 90;

/// A composed brief: its text, empty where there is nothing to print, and the
/// ids of the memories in it.
#[derive(Debug)]
pub struct Brief {
    pub text: String,
    pub shown: Vec<i64>,
}

// ---------------------------------------------------------------------
// Candidates
// ---------------------------------------------------------------------

/// What a brief of a scope draws on: of a project, its own memories and the global
/// ones.
pub open spec fn in_reach(scope: Scope, project_id: Option<i64>) -> bool {
    match scope {
        Scope::All => true,
        Scope::Global => project_id is None,
        Scope::Project(id) => project_id is None || project_id == Some(id),
    }
}

fn reaches(scope: Scope, project_id: Option<i64>) -> (r: bool)
    ensures
        r == in_reach(scope, project_id),
{
    match scope {
        Scope::All => true,
        Scope::Global => project_id.is_none(),
        Scope::Project(id) => match project_id {
            Some(p) => p == id,
            None => true,
        },
    }
}

/// Memories that may be in a brief: live gotchas and decisions in reach. A pin
/// admits nothing.
pub open spec fn is_candidate(n: Node, scope: Scope) -> bool {
    &&& n.live_memory()
    &&& n.subkind is Some
    &&& n.subkind->0@ == "gotcha"@ || n.subkind->0@ == "decision"@
    &&& in_reach(scope, n.project_id)
}

/// Whether a memory may be in a brief.
pub fn admits(n: &Node, scope: Scope) -> (r: bool)
    ensures
        r == is_candidate(*n, scope),
{
    n.is_live_memory() && reaches(scope, n.project_id) && (match &n.subkind {
        Some(s) => same(s.as_str(), "gotcha") || same(s.as_str(), "decision"),
        None => false,
    })
}

// ---------------------------------------------------------------------
// Relevance of global memories
// ---------------------------------------------------------------------

/// The words of a memory's tags and title.
pub open spec fn own_words(n: Node, stop: Seq<Seq<char>>) -> Seq<Seq<char>> {
    gist(n.tags_text@, stop) + match n.title {
        Some(t) => gist(t@, stop),
        None => Seq::empty(),
    }
}

fn words_of_node(n: &Node, stop: &Vec<String>) -> (r: Vec<String>)
    ensures
        texts(r@) == own_words(*n, texts(stop@)),
{
    let mut out = gist_of(n.tags_text.as_str(), stop);
    match &n.title {
        Some(t) => {
            let more = gist_of(t.as_str(), stop);
            push_all(&mut out, &more);
        },
        None => {
            assert(texts(out@) + Seq::empty() =~= texts(out@));
        },
    }
    out
}

/// What a project is about: the words of its title, and of the tags and titles of
/// its first `k` live memories.
pub open spec fn signature_up_to(
    title: Seq<char>,
    nodes: Seq<Node>,
    project_id: i64,
    stop: Seq<Seq<char>>,
    k: int,
) -> Seq<Seq<char>>
    decreases k,
{
    if k <= 0 {
        gist(title, stop)
    } else {
        let before = signature_up_to(title, nodes, project_id, stop, k - 1);
        if nodes[k - 1].live_memory() && nodes[k - 1].project_id == Some(project_id) {
            before + own_words(nodes[k - 1], stop)
        } else {
            before
        }
    }
}

/// What a project is about, by its title and by the tags and titles of its live
/// memories.
pub fn signature(title: &str, nodes: &Vec<Node>, project_id: i64, stop: &Vec<String>) -> (r: Vec<
    String,
>)
    ensures
        texts(r@) == signature_up_to(
            title@,
            nodes@,
            project_id,
            texts(stop@),
            nodes@.len() as int,
        ),
{
    let mut out = gist_of(title, stop);
    let mut i: usize = 0;
    while i < nodes.len()
        invariant
            i <= nodes@.len(),
            texts(out@) == signature_up_to(title@, nodes@, project_id, texts(stop@), i as int),
        decreases nodes@.len() - i,
    {
        let own = match nodes[i].project_id {
            Some(p) => p == project_id,
            None => false,
        };
        if own && nodes[i].is_live_memory() {
            let more = words_of_node(&nodes[i], stop);
            push_all(&mut out, &more);
        }
        i += 1;
    }
    out
}

/// Whether a memory has a word in common with a project.
pub open spec fn shares_word(n: Node, sig: Seq<Seq<char>>, stop: Seq<Seq<char>>) -> bool {
    exists|i: int| 0 <= i < own_words(n, stop).len() && sig.contains(#[trigger] own_words(n, stop)[i])
}

fn has_common_word(n: &Node, sig: &Vec<String>, stop: &Vec<String>) -> (r: bool)
    ensures
        r == shares_word(*n, texts(sig@), texts(stop@)),
{
    let words = words_of_node(n, stop);
    let ghost ws = own_words(*n, texts(stop@));
    let mut i: usize = 0;
    while i < words.len()
        invariant
            i <= words@.len(),
            ws == texts(words@),
            ws == own_words(*n, texts(stop@)),
            forall|k: int| 0 <= k < i ==> !texts(sig@).contains(#[trigger] ws[k]),
        decreases words@.len() - i,
    {
        assert(ws[i as int] == words@[i as int]@);
        if is_member(sig, words[i].as_str()) {
            return true;
        }
        i += 1;
    }
    false
}

/// Whether a memory is let through. Where a project is briefed and its signature
/// counts, a global memory has to be pinned or to share a word with the signature;
/// everything else passes.
pub open spec fn passes_gate(
    n: Node,
    scope: Scope,
    gate: Option<Seq<Seq<char>>>,
    stop: Seq<Seq<char>>,
) -> bool {
    match (scope, gate) {
        (Scope::Project(id), Some(sig)) => n.project_id is Some || n.pinned || shares_word(
            n,
            sig,
            stop,
        ),
        _ => true,
    }
}

fn is_let_through(n: &Node, scope: Scope, gate: Option<&Vec<String>>, stop: &Vec<String>) -> (r:
    bool)
    ensures
        r == passes_gate(*n, scope, gate_view(gate), texts(stop@)),
{
    match (scope, gate) {
        (Scope::Project(_), Some(sig)) => n.project_id.is_some() || n.pinned || has_common_word(
            n,
            sig,
            stop,
        ),
        _ => true,
    }
}

/// The signature that global memories are held against, where one is.
pub open spec fn gate_view(gate: Option<&Vec<String>>) -> Option<Seq<Seq<char>>> {
    match gate {
        Some(v) => Some(texts(v@)),
        None => None,
    }
}

// ---------------------------------------------------------------------
// Selection
// ---------------------------------------------------------------------

/// Case and whitespace folded.
pub open spec fn normal(s: Seq<char>) -> Seq<char> {
    lowercase(collapsed(s))
}

/// Case and whitespace folded.
pub fn normalize(s: &str) -> (r: String)
    ensures
        r@ == normal(s@),
{
    collapse_ws(s).as_str().to_lowercase()
}

/// Whether the rules already say what a memory says: the first 80 characters of
/// its folded body stand in them.
pub open spec fn in_rules(n: Node, rules_norm: Seq<char>) -> bool {
    n.body is Some && {
        let prefix = first_n(normal(n.body->0@), 80);
        prefix.len() > 0 && contains(rules_norm, prefix)
    }
}

/// Whether the rules, folded, already say what a memory says.
pub fn duplicates_rules(n: &Node, rules_norm: &str) -> (r: bool)
    ensures
        r == in_rules(*n, rules_norm@),
{
    match &n.body {
        Some(b) => {
            let v = chars_of(normalize(b.as_str()).as_str());
            let k: usize = if v.len() <= 80 {
                v.len()
            } else {
                80
            };
            let prefix = string_of(&v, 0, k);
            assert(prefix@ =~= first_n(v@, 80));
            !prefix.as_str().is_empty() && has(rules_norm, prefix.as_str())
        },
        None => false,
    }
}

/// Whether a memory is in the pool: a candidate that is let through and that
/// the rules do not already say.
pub open spec fn is_pooled(
    scope: Scope,
    rules: Option<Seq<char>>,
    gate: Option<Seq<Seq<char>>>,
    stop: Seq<Seq<char>>,
) -> spec_fn(Node) -> bool {
    |n: Node|
        {
            &&& is_candidate(n, scope)
            &&& passes_gate(n, scope, gate, stop)
            &&& rules is Some ==> !in_rules(n, normal(rules->0))
        }
}

fn is_excluded(exclude: &Vec<i64>, id: i64) -> (r: bool)
    ensures
        r == exclude@.contains(id),
{
    let mut i: usize = 0;
    while i < exclude.len()
        invariant
            i <= exclude@.len(),
            forall|k: int| 0 <= k < i ==> exclude@[k] != id,
        decreases exclude@.len() - i,
    {
        if exclude[i] == id {
            return true;
        }
        i += 1;
    }
    false
}

/// The memories that the brief chooses from, in the given order. `gate` is the
/// project's signature, where global memories are held against it.
pub fn select<'a>(
    nodes: &'a Vec<Node>,
    scope: Scope,
    rules_body: Option<&str>,
    gate: Option<&Vec<String>>,
    stop: &Vec<String>,
) -> (r: Vec<&'a Node>)
    ensures
        deref_all(r@) == kept(
            nodes@,
            is_pooled(
                scope,
                match rules_body {
                    Some(s) => Some(s@),
                    None => None,
                },
                gate_view(gate),
                texts(stop@),
            ),
        ),
{
    let ghost rules = match rules_body {
        Some(s) => Some(s@),
        None => None,
    };
    let ghost p = is_pooled(scope, rules, gate_view(gate), texts(stop@));
    let rules_norm = match rules_body {
        Some(s) => Some(normalize(s)),
        None => None,
    };
    let mut out: Vec<&Node> = Vec::new();
    let mut i: usize = 0;
    assert(nodes@.take(0) =~= Seq::empty());
    assert(deref_all(out@) =~= Seq::empty());
    while i < nodes.len()
        invariant
            i <= nodes@.len(),
            p == is_pooled(scope, rules, gate_view(gate), texts(stop@)),
            match rules_norm {
                Some(s) => rules is Some && s@ == normal(rules->0),
                None => rules is None,
            },
            deref_all(out@) == kept(nodes@.take(i as int), p),
        decreases nodes@.len() - i,
    {
        assert(nodes@.take(i + 1).drop_last() =~= nodes@.take(i as int));
        assert(nodes@.take(i + 1).last() == nodes@[i as int]);
        let n = &nodes[i];
        let ghost before = deref_all(out@);
        let said = match &rules_norm {
            Some(s) => duplicates_rules(n, s.as_str()),
            None => false,
        };
        if admits(n, scope) && is_let_through(n, scope, gate, stop) && !said {
            out.push(n);
            assert(deref_all(out@) =~= before.push(*n));
        }
        i += 1;
    }
    assert(nodes@.take(nodes@.len() as int) =~= nodes@);
    out
}

/// Sort keys: the highest score first, then the latest change, then the lowest
/// id.
pub open spec fn brief_keys(nodes: Seq<Node>, scores: Seq<i64>) -> Seq<Key> {
    Seq::new(
        nodes.len(),
        |i: int|
            Key {
                first: flipped(scores[i] as int) as i128,
                second: flipped(nodes[i].updated_at as int) as i128,
                third: nodes[i].id as i128,
            },
    )
}

/// The best of some scores.
pub open spec fn best_score(scores: Seq<i64>) -> int
    decreases scores.len(),
{
    if scores.len() == 0 {
        0
    } else if scores.len() == 1 {
        scores[0] as int
    } else {
        let before = best_score(scores.drop_last());
        if scores.last() > before {
            scores.last() as int
        } else {
            before
        }
    }
}

fn find_best(scores: &Vec<i64>) -> (r: i64)
    ensures
        r == best_score(scores@),
{
    if scores.len() == 0 {
        return 0;
    }
    let mut best: i64 = scores[0];
    let mut i: usize = 1;
    assert(scores@.take(1)[0] == scores@[0]);
    while i < scores.len()
        invariant
            1 <= i <= scores@.len(),
            best == best_score(scores@.take(i as int)),
        decreases scores@.len() - i,
    {
        assert(scores@.take(i + 1).drop_last() =~= scores@.take(i as int));
        if scores[i] > best {
            best = scores[i];
        }
        i += 1;
    }
    assert(scores@.take(scores@.len() as int) =~= scores@);
    best
}

/// Whether a score is at least the given fraction, in millionths, of the best. A
/// floor of nothing is none.
pub open spec fn above_floor(score: int, best: int, floor: int) -> bool {
    floor == 0 || score * 1_000_000 >= floor * best
}

/// Places of the pool that may be shown: not excluded, and above the floor. The
/// floor is measured against the whole pool, so that excluding the strong does not
/// make the weak the best there is.
pub open spec fn is_shown(
    nodes: Seq<Node>,
    scores: Seq<i64>,
    exclude: Seq<i64>,
    floor: u32,
) -> spec_fn(int) -> bool {
    |i: int|
        {
            &&& 0 <= i < nodes.len()
            &&& !exclude.contains(nodes[i].id)
            &&& above_floor(scores[i] as int, best_score(scores), floor as int)
        }
}

/// The order of the brief: by score, then by the latest change, then by id; without
/// what is excluded, and without what scores below `floor` millionths of the best.
/// `scores[i]` is the score of `nodes[i]`.
pub fn rank(nodes: &Vec<&Node>, scores: &Vec<i64>, exclude: &Vec<i64>, floor: u32) -> (r: Vec<usize>)
    requires
        nodes@.len() == scores@.len(),
    ensures
        as_ints(r@) == kept(
            ranking(brief_keys(deref_all(nodes@), scores@)),
            is_shown(deref_all(nodes@), scores@, exclude@, floor),
        ),
        forall|i: int| 0 <= i < r@.len() ==> #[trigger] r@[i] < nodes@.len(),
{
    let ghost all = deref_all(nodes@);
    let ghost want = brief_keys(all, scores@);
    let ghost p = is_shown(all, scores@, exclude@, floor);
    let best: i128 = find_best(scores) as i128;
    let mut keys: Vec<Key> = Vec::new();
    let mut keep: Vec<bool> = Vec::new();
    let mut i: usize = 0;
    while i < nodes.len()
        invariant
            i <= nodes@.len(),
            nodes@.len() == scores@.len(),
            all == deref_all(nodes@),
            want == brief_keys(all, scores@),
            p == is_shown(all, scores@, exclude@, floor),
            best == best_score(scores@),
            i64::MIN <= best <= i64::MAX,
            keys@.len() == i,
            keep@.len() == i,
            forall|k: int| 0 <= k < i ==> #[trigger] keys@[k] == want[k],
            forall|k: int| 0 <= k < i ==> #[trigger] keep@[k] == p(k),
        decreases nodes@.len() - i,
    {
        let n = nodes[i];
        assert(all[i as int] == *n);
        keys.push(
            Key { first: flip(scores[i]), second: flip(n.updated_at), third: n.id as i128 },
        );
        let part: i128 = floor as i128;
        proof {
            assert(-0x1_0000_0000 * 0x8000_0000_0000_0000 <= part * best <= 0x1_0000_0000
                * 0x8000_0000_0000_0000) by (nonlinear_arith)
                requires
                    0 <= part < 0x1_0000_0000,
                    -0x8000_0000_0000_0000 <= best < 0x8000_0000_0000_0000,
            ;
        }
        let high = part == 0 || scores[i] as i128 * 1_000_000 >= part * best;
        keep.push(!is_excluded(exclude, n.id) && high);
        i += 1;
    }
    assert(keys@ =~= want);
    assert(marked(keep@) =~= p);
    rank_where(&keys, &keep)
}

// ---------------------------------------------------------------------
// Rendering
// ---------------------------------------------------------------------

/// What a line quotes: the body, or else the title.
pub open spec fn quoted(n: Node) -> Option<Seq<char>> {
    match n.body {
        Some(b) => Some(b@),
        None => match n.title {
            Some(t) => Some(t@),
            None => None,
        },
    }
}

/// Whole days since a memory was changed, none for a change in the future.
pub open spec fn age_days(n: Node, now: int) -> int {
    if now > n.updated_at {
        (now - n.updated_at) / 86_400
    } else {
        0
    }
}

/// The age of a memory, where it is old enough to be shown.
pub open spec fn age_tag(days: int) -> Seq<char> {
    if days > STALE_AFTER_DAYS {
        let months = days / 30;
        if months >= 12 {
            " ("@ + decimal(months / 12) + "y)"@
        } else {
            " ("@ + decimal(months) + "mo)"@
        }
    } else {
        Seq::empty()
    }
}

/// How a memory is announced.
pub open spec fn label_of(n: Node) -> Seq<char> {
    if n.subkind is Some && n.subkind->0@ == "decision"@ {
        "DECISION"@
    } else {
        "GOTCHA"@
    }
}

/// One line for a memory; nothing where it says nothing.
pub open spec fn brief_line(n: Node, line_chars: int, now: int) -> Seq<char> {
    match quoted(n) {
        Some(raw) => {
            let body = truncated(collapsed(raw), line_chars);
            if body.len() == 0 {
                Seq::empty()
            } else {
                "- "@ + label_of(n) + " ["@ + short_form(n.kind, n.uid@) + "]"@ + age_tag(
                    age_days(n, now),
                ) + ": "@ + body
            }
        },
        None => Seq::empty(),
    }
}

fn age_part(n: &Node, now: i64) -> (r: String)
    ensures
        r@ == age_tag(age_days(*n, now as int)),
{
    let days: i64 = if now > n.updated_at {
        ((now as i128 - n.updated_at as i128) / (DAY_SECONDS as i128)) as i64
    } else {
        0
    };
    if days <= STALE_AFTER_DAYS {
        return String::new();
    }
    let months: i64 = days / 30;
    let mut out = " (".to_owned();
    if months >= 12 {
        out.append(decimal_of(months / 12).as_str());
        out.append("y)");
    } else {
        out.append(decimal_of(months).as_str());
        out.append("mo)");
    }
    out
}

/// One line for a memory.
pub fn render_line(n: &Node, line_chars: usize, now: i64) -> (r: String)
    ensures
        r@ == brief_line(*n, line_chars as int, now as int),
{
    let raw = match &n.body {
        Some(b) => b.as_str(),
        None => match &n.title {
            Some(t) => t.as_str(),
            None => {
                return String::new();
            },
        },
    };
    let body = truncate_chars(collapse_ws(raw).as_str(), line_chars);
    if body.as_str().is_empty() {
        return String::new();
    }
    let decision = match &n.subkind {
        Some(s) => same(s.as_str(), "decision"),
        None => false,
    };
    let mut out = "- ".to_owned();
    out.append(if decision {
        "DECISION"
    } else {
        "GOTCHA"
    });
    out.append(" [");
    out.append(short_uid(n.kind, n.uid.as_str()).as_str());
    out.append("]");
    out.append(age_part(n, now).as_str());
    out.append(": ");
    out.append(body.as_str());
    out
}

// ---------------------------------------------------------------------
// Filling the budget
// ---------------------------------------------------------------------

/// A brief being filled: text and ids.
#[verifier::ext_equal]
pub struct Fill {
    pub text: Seq<char>,
    pub shown: Seq<i64>,
}

/// The text with one more line.
pub open spec fn with_line(f: Fill, line: Seq<char>) -> Seq<char> {
    if f.shown.len() == 0 {
        HEADER@ + "\n"@ + line
    } else {
        f.text + "\n"@ + line
    }
}

/// Whether the next memory is asked about: the brief has room for a line, and
/// the memory has one.
pub open spec fn is_asked(f: Fill, line: Seq<char>, max_items: int) -> bool {
    f.shown.len() < max_items && line.len() > 0
}

/// The brief after the first `k` memories, `costs[i]` being the tokens of the
/// text that memory `i` would make: a line that fits is added, one that does not
/// is passed over.
pub open spec fn filled(
    nodes: Seq<Node>,
    costs: Seq<usize>,
    cfg: BriefConfig,
    budget: int,
    now: int,
    k: int,
) -> Fill
    decreases k,
{
    if k <= 0 {
        Fill { text: Seq::empty(), shown: Seq::empty() }
    } else {
        let f = filled(nodes, costs, cfg, budget, now, k - 1);
        let line = brief_line(nodes[k - 1], cfg.line_chars as int, now);
        if is_asked(f, line, cfg.max_items as int) && costs[k - 1] <= budget {
            Fill { text: with_line(f, line), shown: f.shown.push(nodes[k - 1].id) }
        } else {
            f
        }
    }
}

/// Whether `count` may say that `text` takes `n` tokens.
pub open spec fn may_cost<F: Fn(&str) -> usize>(count: F, text: Seq<char>, n: usize) -> bool {
    exists|s: &str| s@ == text && #[trigger] call_ensures(count, (s,), n)
}

/// Whether the costs are what `count` says of the texts that it is asked about.
pub open spec fn are_costs<F: Fn(&str) -> usize>(
    count: F,
    nodes: Seq<Node>,
    costs: Seq<usize>,
    cfg: BriefConfig,
    budget: int,
    now: int,
) -> bool {
    costs.len() == nodes.len() && forall|k: int|
        #![trigger costs[k]]
        0 <= k < nodes.len() ==> ({
            let f = filled(nodes, costs, cfg, budget, now, k);
            let line = brief_line(nodes[k], cfg.line_chars as int, now);
            is_asked(f, line, cfg.max_items as int) ==> may_cost(
                count,
                with_line(f, line),
                costs[k],
            )
        })
}

proof fn lemma_filled_prefix(
    nodes: Seq<Node>,
    a: Seq<usize>,
    b: Seq<usize>,
    cfg: BriefConfig,
    budget: int,
    now: int,
    k: int,
)
    requires
        forall|i: int| 0 <= i < k ==> a[i] == b[i],
    ensures
        filled(nodes, a, cfg, budget, now, k) == filled(nodes, b, cfg, budget, now, k),
    decreases k,
{
    if k > 0 {
        lemma_filled_prefix(nodes, a, b, cfg, budget, now, k - 1);
    }
}

/// Composes a brief from ranked memories within a token budget, best first. A
/// line that does not fit is passed over for shorter ones behind it. `count`
/// tells how many tokens a text takes.
pub fn compose<F: Fn(&str) -> usize>(
    ranked: &Vec<&Node>,
    cfg: &BriefConfig,
    budget_tokens: usize,
    now: i64,
    count: F,
) -> (r: Brief)
    requires
        forall|s: &str| call_requires(count, (s,)),
    ensures
        exists|costs: Seq<usize>| #[trigger]
            are_costs(
                count,
                deref_all(ranked@),
                costs,
                *cfg,
                budget_tokens as int,
                now as int,
            ) && r.text@ == filled(
                deref_all(ranked@),
                costs,
                *cfg,
                budget_tokens as int,
                now as int,
                ranked@.len() as int,
            ).text && r.shown@ == filled(
                deref_all(ranked@),
                costs,
                *cfg,
                budget_tokens as int,
                now as int,
                ranked@.len() as int,
            ).shown,
{
    let ghost nodes = deref_all(ranked@);
    let ghost c = *cfg;
    let ghost budget = budget_tokens as int;
    let ghost at = now as int;
    let ghost mut costs: Seq<usize> = Seq::empty();
    let mut text = String::new();
    let mut shown: Vec<i64> = Vec::new();
    let mut i: usize = 0;
    assert(text@ =~= Seq::empty());
    assert(shown@ =~= Seq::empty());
    while i < ranked.len()
        invariant
            i <= ranked@.len(),
            nodes == deref_all(ranked@),
            c == *cfg,
            budget == budget_tokens,
            at == now,
            forall|s: &str| call_requires(count, (s,)),
            costs.len() == i,
            text@ == filled(nodes, costs, c, budget, at, i as int).text,
            shown@ == filled(nodes, costs, c, budget, at, i as int).shown,
            forall|k: int|
                #![trigger costs[k]]
                0 <= k < i ==> ({
                    let f = filled(nodes, costs, c, budget, at, k);
                    let line = brief_line(nodes[k], c.line_chars as int, at);
                    is_asked(f, line, c.max_items as int) ==> may_cost(
                        count,
                        with_line(f, line),
                        costs[k],
                    )
                }),
        decreases ranked@.len() - i,
    {
        let ghost old_costs = costs;
        let ghost f = filled(nodes, costs, c, budget, at, i as int);
        let n = ranked[i];
        assert(nodes[i as int] == *n);
        let line = render_line(n, cfg.line_chars, now);
        if shown.len() < cfg.max_items && !line.as_str().is_empty() {
            let mut next = if shown.len() == 0 {
                HEADER.to_owned()
            } else {
                text.clone()
            };
            next.append("\n");
            next.append(line.as_str());
            assert(next@ == with_line(f, line@));
            let cost = count(next.as_str());
            proof {
                assert(may_cost(count, next@, cost));
                costs = costs.push(cost);
                assert(costs.take(i as int) =~= old_costs);
                lemma_costs_extend(count, nodes, old_costs, costs, c, budget, at, i as int);
            }
            if cost <= budget_tokens {
                text = next;
                shown.push(n.id);
            }
        } else {
            proof {
                costs = costs.push(0);
                assert(costs.take(i as int) =~= old_costs);
                lemma_costs_extend(count, nodes, old_costs, costs, c, budget, at, i as int);
            }
        }
        i += 1;
    }
    assert(are_costs(count, nodes, costs, c, budget, at));
    Brief { text, shown }
}

proof fn lemma_costs_extend<F: Fn(&str) -> usize>(
    count: F,
    nodes: Seq<Node>,
    a: Seq<usize>,
    b: Seq<usize>,
    c: BriefConfig,
    budget: int,
    at: int,
    n: int,
)
    requires
        a.len() == n,
        b.len() == n + 1,
        b.take(n) == a,
        0 <= n,
        forall|k: int|
            #![trigger a[k]]
            0 <= k < n ==> ({
                let f = filled(nodes, a, c, budget, at, k);
                let line = brief_line(nodes[k], c.line_chars as int, at);
                is_asked(f, line, c.max_items as int) ==> may_cost(count, with_line(f, line), a[k])
            }),
    ensures
        filled(nodes, a, c, budget, at, n) == filled(nodes, b, c, budget, at, n),
        forall|k: int|
            #![trigger b[k]]
            0 <= k < n ==> ({
                let f = filled(nodes, b, c, budget, at, k);
                let line = brief_line(nodes[k], c.line_chars as int, at);
                is_asked(f, line, c.max_items as int) ==> may_cost(count, with_line(f, line), b[k])
            }),
{
    assert forall|k: int| 0 <= k < n implies a[k] == b[k] by {
        assert(b.take(n)[k] == b[k]);
    }
    lemma_filled_prefix(nodes, a, b, c, budget, at, n);
    assert forall|k: int|
        #![trigger b[k]]
        0 <= k < n implies ({
        let f = filled(nodes, b, c, budget, at, k);
        let line = brief_line(nodes[k], c.line_chars as int, at);
        is_asked(f, line, c.max_items as int) ==> may_cost(count, with_line(f, line), b[k])
    }) by {
        lemma_filled_prefix(nodes, a, b, c, budget, at, k);
        assert(a[k] == b[k]);
    }
}

// ---------------------------------------------------------------------
// Laws
// ---------------------------------------------------------------------

/// The caps hold: a brief has at most `max_items` lines, and where it has any,
/// its text was found to fit the budget.
pub proof fn brief_keeps_its_caps<F: Fn(&str) -> usize>(
    count: F,
    nodes: Seq<Node>,
    costs: Seq<usize>,
    cfg: BriefConfig,
    budget: int,
    now: int,
    k: int,
)
    requires
        are_costs(count, nodes, costs, cfg, budget, now),
        0 <= k <= nodes.len(),
    ensures
        ({
            let f = filled(nodes, costs, cfg, budget, now, k);
            &&& f.shown.len() <= cfg.max_items
            &&& f.shown.len() == 0 ==> f.text.len() == 0
            &&& f.shown.len() > 0 ==> exists|n: usize| n <= budget && may_cost(count, f.text, n)
        }),
    decreases k,
{
    if k > 0 {
        brief_keeps_its_caps(count, nodes, costs, cfg, budget, now, k - 1);
        let f = filled(nodes, costs, cfg, budget, now, k - 1);
        let line = brief_line(nodes[k - 1], cfg.line_chars as int, now);
        if is_asked(f, line, cfg.max_items as int) && costs[k - 1] <= budget {
            let c = costs[k - 1];
            let g = filled(nodes, costs, cfg, budget, now, k);
            assert(may_cost(count, with_line(f, line), c));
            assert(g.text == with_line(f, line));
            assert(c <= budget && may_cost(count, g.text, c));
        }
    }
}

/// Superseded and deleted memories, those of other projects, and types that prevent
/// nothing, are never in a brief, pinned or not.
pub proof fn forbidden_never_pooled(
    n: Node,
    scope: Scope,
    rules: Option<Seq<char>>,
    gate: Option<Seq<Seq<char>>>,
    stop: Seq<Seq<char>>,
)
    requires
        n.superseded_by is Some || n.deleted_at is Some || n.kind != Kind::Memory || !in_reach(
            scope,
            n.project_id,
        ) || n.subkind is None || (n.subkind->0@ != "gotcha"@ && n.subkind->0@ != "decision"@),
    ensures
        !is_pooled(scope, rules, gate, stop)(n),
{
}

/// A project without any signal of its own admits no global memory that is not
/// pinned: relevance that cannot be judged counts as none.
pub proof fn silence_beats_filler(
    n: Node,
    id: i64,
    rules: Option<Seq<char>>,
    stop: Seq<Seq<char>>,
)
    requires
        n.project_id is None,
        !n.pinned,
    ensures
        !is_pooled(Scope::Project(id), rules, Some(Seq::empty()), stop)(n),
{
}

/// A pinned global memory is let through whatever the project is about.
pub proof fn a_pin_bypasses_the_gate(
    n: Node,
    scope: Scope,
    gate: Option<Seq<Seq<char>>>,
    stop: Seq<Seq<char>>,
)
    requires
        n.pinned,
    ensures
        passes_gate(n, scope, gate, stop),
{
}

/// What was shown does not lower the bar: whatever is excluded, a memory below the
/// floor stays below it.
pub proof fn the_weak_tail_stays_out(
    nodes: Seq<Node>,
    scores: Seq<i64>,
    some: Seq<i64>,
    more: Seq<i64>,
    floor: u32,
    i: int,
)
    requires
        0 <= i < nodes.len(),
        !is_shown(nodes, scores, some, floor)(i),
        !some.contains(nodes[i].id),
    ensures
        !is_shown(nodes, scores, more, floor)(i),
{
}

/// A line shows at most `line_chars` characters of a memory and an ellipsis, so
/// that whether it fits is decided of the whole bounded line.
pub proof fn lines_are_bounded(n: Node, line_chars: int, now: int)
    requires
        0 <= line_chars,
        quoted(n) is Some,
    ensures
        truncated(collapsed(quoted(n)->0), line_chars).len() <= line_chars + 1,
{
}

/// A line announces the type of its memory, and quotes it: behind the announcement
/// stand the short name of the memory and, last, as much of its wording as fits.
pub proof fn a_line_announces_its_type(n: Node, line_chars: int, now: int)
    requires
        brief_line(n, line_chars, now).len() > 0,
    ensures
        n.subkind is Some && n.subkind->0@ == "gotcha"@ ==> brief_line(
            n,
            line_chars,
            now,
        ).len() >= 10 && brief_line(n, line_chars, now).take(10) == "- GOTCHA ["@,
        n.subkind is Some && n.subkind->0@ == "decision"@ ==> brief_line(
            n,
            line_chars,
            now,
        ).len() >= 12 && brief_line(n, line_chars, now).take(12) == "- DECISION ["@,
{
    reveal_strlit("gotcha");
    reveal_strlit("decision");
    reveal_strlit("- ");
    reveal_strlit(" [");
    reveal_strlit("GOTCHA");
    reveal_strlit("DECISION");
    reveal_strlit("- GOTCHA [");
    reveal_strlit("- DECISION [");
    assert("gotcha"@.len() != "decision"@.len());
    let line = brief_line(n, line_chars, now);
    if n.subkind is Some && n.subkind->0@ == "gotcha"@ {
        assert(line.take(10) =~= "- GOTCHA ["@);
    }
    if n.subkind is Some && n.subkind->0@ == "decision"@ {
        assert(line.take(12) =~= "- DECISION ["@);
    }
}

} // verus!
