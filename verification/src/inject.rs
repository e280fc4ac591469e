//! Per-prompt recall injection: which memory, if any, is put in front of an
//! agent that is about to answer a prompt.
//!
//! A wrong memory is worse than none, so a candidate has to clear a floor.

use std::collections::HashMap;

use vstd::prelude::*;
use vstd::utf8::encode_utf8;

use crate::format::agent_line;
#[allow(unused_imports)]
use crate::format::{line_text, project_name_of, truncated};
use crate::memory::{blake3_hash, tokens};
#[allow(unused_imports)]
use crate::memory::{blake3_of, token_seq};
use crate::model::{Kind, Node};
#[allow(unused_imports)]
use crate::seqs::{
    first_where, kept, lemma_first_where, lemma_first_where_is, lemma_first_where_none,
};
use crate::sets::{common, distinct, is_member};
#[allow(unused_imports)]
use crate::sets::set_of;
use crate::text::{has, same, split_fields, trimmed, Delim};
#[allow(unused_imports)]
use crate::text::{contains, lowercase, texts, trim, words};
#[allow(unused_imports)]
use vstd::string::*;

verus! {

/// Tokens that an injection may take.
pub const TOKEN_BUDGET: usize = 200;

/// Words that prompt and candidate must have in common.
pub const MIN_OVERLAP: usize = 2;

/// How deep in the vector ranking a candidate must stand to be agreed on.
pub const LEG_TOP_K: usize = 10;

/// How many of the ranked candidates are held against the floor.
pub const TOP_CANDIDATES: usize = 1;

/// A candidate that a search returned. Its score, which the ranking code keeps,
/// plays no part here.
#[derive(Debug, Clone)]
pub struct Hit {
    pub node: Node,
}

// ---------------------------------------------------------------------
// Words
// ---------------------------------------------------------------------

/// Words that the search does not ignore.
pub open spec fn not_stopped(stop: Seq<Seq<char>>) -> spec_fn(Seq<char>) -> bool {
    |t: Seq<char>| !stop.contains(t)
}

/// The tokens of a text that the search does not ignore.
pub open spec fn content_words(text: Seq<char>, stop: Seq<Seq<char>>) -> Seq<Seq<char>> {
    kept(token_seq(text), not_stopped(stop))
}

fn drop_stopped(list: &Vec<String>, stop: &Vec<String>) -> (r: Vec<String>)
    ensures
        texts(r@) == kept(texts(list@), not_stopped(texts(stop@))),
{
    let ghost all = texts(list@);
    let ghost p = not_stopped(texts(stop@));
    let mut out: Vec<String> = Vec::new();
    let mut i: usize = 0;
    assert(all.take(0) =~= Seq::empty());
    assert(texts(out@) =~= Seq::empty());
    while i < list.len()
        invariant
            i <= list@.len(),
            all == texts(list@),
            p == not_stopped(texts(stop@)),
            texts(out@) == kept(all.take(i as int), p),
        decreases list@.len() - i,
    {
        assert(all.take(i + 1).drop_last() =~= all.take(i as int));
        assert(all.take(i + 1).last() == list@[i as int]@);
        let ghost before = texts(out@);
        if !is_member(stop, list[i].as_str()) {
            let s = list[i].clone();
            out.push(s);
            assert(texts(out@) =~= before.push(s@));
        }
        i += 1;
    }
    assert(all.take(list@.len() as int) =~= all);
    out
}

fn append_all(a: Vec<String>, b: &Vec<String>) -> (r: Vec<String>)
    ensures
        texts(r@) == texts(a@) + texts(b@),
{
    let ghost ta = texts(a@);
    let ghost tb = texts(b@);
    let mut out = a;
    let mut i: usize = 0;
    assert(ta + tb.take(0) =~= ta);
    while i < b.len()
        invariant
            i <= b@.len(),
            tb == texts(b@),
            texts(out@) == ta + tb.take(i as int),
        decreases b@.len() - i,
    {
        let ghost before = texts(out@);
        let s = b[i].clone();
        out.push(s);
        assert(texts(out@) =~= before.push(s@));
        assert(tb[i as int] == s@);
        assert(ta + tb.take(i + 1) =~= before.push(s@));
        i += 1;
    }
    assert(tb.take(tb.len() as int) =~= tb);
    out
}

// ---------------------------------------------------------------------
// Declared triggers
// ---------------------------------------------------------------------

/// Whether a trigger phrase fires: it stands in the prompt as it is, or the
/// prompt has all of its words, of which there is at least one.
pub open spec fn phrase_fires(
    phrase: Seq<char>,
    prompt_lower: Seq<char>,
    prompt_words: Seq<Seq<char>>,
    stop: Seq<Seq<char>>,
) -> bool {
    let w = kept(words(phrase), not_stopped(stop));
    ||| phrase.len() > 0 && contains(prompt_lower, phrase)
    ||| w.len() > 0 && forall|i: int| 0 <= i < w.len() ==> prompt_words.contains(#[trigger] w[i])
}

/// Whether a trigger phrase fires.
pub fn fires_when_matches(
    phrase: &str,
    prompt_lower: &str,
    prompt_words: &Vec<String>,
    stop: &Vec<String>,
) -> (r: bool)
    ensures
        r == phrase_fires(phrase@, prompt_lower@, texts(prompt_words@), texts(stop@)),
{
    if !phrase.is_empty() && has(prompt_lower, phrase) {
        return true;
    }
    let all = split_fields(phrase, Delim::Space);
    let list = drop_stopped(&all, stop);
    let ghost w = kept(words(phrase@), not_stopped(texts(stop@)));
    assert(texts(list@) == w);
    if list.len() == 0 {
        return false;
    }
    let mut i: usize = 0;
    while i < list.len()
        invariant
            i <= list@.len(),
            texts(list@) == w,
            w == kept(words(phrase@), not_stopped(texts(stop@))),
            !(phrase@.len() > 0 && contains(prompt_lower@, phrase@)),
            forall|k: int| 0 <= k < i ==> texts(prompt_words@).contains(#[trigger] w[k]),
        decreases list@.len() - i,
    {
        assert(w[i as int] == list@[i as int]@);
        if !is_member(prompt_words, list[i].as_str()) {
            return false;
        }
        i += 1;
    }
    true
}

/// Whether the vector ranking has the candidate near its top.
pub open spec fn vector_agrees(legs: Seq<Vec<i64>>, id: i64) -> bool {
    legs.len() > 1 && exists|k: int|
        0 <= k < legs[1]@.len() && k < LEG_TOP_K && #[trigger] legs[1]@[k] == id
}

/// Whether the vector ranking, where there is one, agrees.
pub open spec fn not_contradicted(legs: Seq<Vec<i64>>, id: i64) -> bool {
    legs.len() > 1 ==> vector_agrees(legs, id)
}

fn agrees(legs: &Vec<Vec<i64>>, id: i64) -> (r: bool)
    ensures
        r == vector_agrees(legs@, id),
{
    if legs.len() <= 1 {
        return false;
    }
    let leg = &legs[1];
    let mut k: usize = 0;
    while k < leg.len() && k < LEG_TOP_K
        invariant
            legs@.len() > 1,
            *leg == legs@[1],
            k <= leg@.len(),
            k <= LEG_TOP_K,
            forall|j: int| 0 <= j < k ==> #[trigger] legs@[1]@[j] != id,
        decreases leg@.len() - k,
    {
        if leg[k] == id {
            return true;
        }
        k += 1;
    }
    false
}

/// Whether a candidate's author declared a trigger that fires, and the vector
/// ranking does not contradict it.
pub open spec fn trigger_clears(
    n: Node,
    prompt: Seq<char>,
    enrich: Seq<char>,
    legs: Seq<Vec<i64>>,
    stop: Seq<Seq<char>>,
) -> bool {
    &&& n.meta.fires_when is Some
    &&& exists|k: int|
        0 <= k < n.meta.fires_when->0@.len() && phrase_fires(
            #[trigger] texts(n.meta.fires_when->0@)[k],
            lowercase(prompt) + " "@ + lowercase(enrich),
            content_words(prompt, stop) + content_words(enrich, stop),
            stop,
        )
    &&& not_contradicted(legs, n.id)
}

/// Whether a candidate's declared triggers let it pass.
pub fn fires_when_clears(
    n: &Node,
    prompt: &str,
    enrich: &str,
    legs: &Vec<Vec<i64>>,
    stop: &Vec<String>,
) -> (r: bool)
    ensures
        r == trigger_clears(*n, prompt@, enrich@, legs@, texts(stop@)),
{
    let phrases = match &n.meta.fires_when {
        Some(p) => p,
        None => {
            return false;
        },
    };
    let mut low = prompt.to_lowercase();
    low.append(" ");
    low.append(enrich.to_lowercase().as_str());
    let a = drop_stopped(&tokens(prompt), stop);
    let b = drop_stopped(&tokens(enrich), stop);
    let all = append_all(a, &b);
    let mut matched = false;
    let mut i: usize = 0;
    while i < phrases.len() && !matched
        invariant
            i <= phrases@.len(),
            n.meta.fires_when == Some(*phrases),
            low@ == lowercase(prompt@) + " "@ + lowercase(enrich@),
            texts(all@) == content_words(prompt@, texts(stop@)) + content_words(
                enrich@,
                texts(stop@),
            ),
            !matched ==> forall|k: int|
                0 <= k < i ==> !phrase_fires(
                    #[trigger] texts(phrases@)[k],
                    low@,
                    texts(all@),
                    texts(stop@),
                ),
            matched ==> exists|k: int|
                0 <= k < phrases@.len() && phrase_fires(
                    #[trigger] texts(phrases@)[k],
                    low@,
                    texts(all@),
                    texts(stop@),
                ),
        decreases
            phrases@.len() - i,
            (if matched {
                0int
            } else {
                1
            }),
    {
        assert(texts(phrases@)[i as int] == phrases@[i as int]@);
        if fires_when_matches(phrases[i].as_str(), low.as_str(), &all, stop) {
            matched = true;
        } else {
            i += 1;
        }
    }
    if !matched {
        return false;
    }
    legs.len() <= 1 || agrees(legs, n.id)
}

// ---------------------------------------------------------------------
// The floor
// ---------------------------------------------------------------------

/// Types of memories that prevent mistakes.
pub open spec fn is_preventer(n: Node) -> bool {
    n.subkind is Some && (n.subkind->0@ == "gotcha"@ || n.subkind->0@ == "decision"@)
}

/// What a candidate's words are looked for in: title, body and tags.
pub open spec fn haystack(n: Node) -> Seq<char> {
    n.title_or_empty() + " "@ + (match n.body {
        Some(b) => b@,
        None => Seq::empty(),
    }) + " "@ + n.tags_text@
}

/// The words of the prompt.
pub open spec fn prompt_set(text: Seq<char>, stop: Seq<Seq<char>>) -> Set<Seq<char>> {
    content_words(text, stop).to_set()
}

/// The words of a candidate.
pub open spec fn hay_set(n: Node) -> Set<Seq<char>> {
    token_seq(haystack(n)).to_set()
}

/// How many of the prompt's own words the candidate has.
pub open spec fn raw_overlap(n: Node, prompt: Seq<char>, stop: Seq<Seq<char>>) -> nat {
    prompt_set(prompt, stop).intersect(hay_set(n)).len()
}

/// How many words of the prompt and of the working tree the candidate has.
pub open spec fn combined_overlap(
    n: Node,
    prompt: Seq<char>,
    enrich: Seq<char>,
    stop: Seq<Seq<char>>,
) -> nat {
    (content_words(prompt, stop) + content_words(enrich, stop)).to_set().intersect(hay_set(n)).len()
}

/// The floor: a memory that is a preventer or pinned; enough words in common; no contradiction
/// by the vector ranking; and, where no word of the prompt itself counts, a
/// vector ranking that agrees and is long enough to tell candidates apart.
pub open spec fn floor_cleared(
    n: Node,
    prompt: Seq<char>,
    enrich: Seq<char>,
    legs: Seq<Vec<i64>>,
    stop: Seq<Seq<char>>,
) -> bool {
    &&& n.kind == Kind::Memory
    &&& is_preventer(n) || n.pinned
    &&& combined_overlap(n, prompt, enrich, stop) >= MIN_OVERLAP
    &&& not_contradicted(legs, n.id)
    &&& raw_overlap(n, prompt, stop) == 0 ==> vector_agrees(legs, n.id) && legs[1]@.len()
        > LEG_TOP_K
}

fn hay_text(n: &Node) -> (r: String)
    ensures
        r@ == haystack(*n),
{
    let mut out = match &n.title {
        Some(t) => t.clone(),
        None => String::new(),
    };
    out.append(" ");
    let body = match &n.body {
        Some(b) => b.clone(),
        None => String::new(),
    };
    out.append(body.as_str());
    out.append(" ");
    out.append(n.tags_text.as_str());
    out
}

/// Whether a candidate clears the floor.
pub fn clears_floor(
    n: &Node,
    prompt: &str,
    enrich: &str,
    legs: &Vec<Vec<i64>>,
    stop: &Vec<String>,
) -> (r: bool)
    ensures
        r == floor_cleared(*n, prompt@, enrich@, legs@, texts(stop@)),
{
    let preventer = match &n.subkind {
        Some(s) => same(s.as_str(), "gotcha") || same(s.as_str(), "decision"),
        None => false,
    };
    if n.kind != Kind::Memory || (!preventer && !n.pinned) {
        return false;
    }
    let a = drop_stopped(&tokens(prompt), stop);
    let b = drop_stopped(&tokens(enrich), stop);
    let raw = distinct(&a);
    let all = append_all(a, &b);
    let both = distinct(&all);
    let hay = distinct(&tokens(hay_text(n).as_str()));
    proof {
        assert(set_of(hay@) == hay_set(*n));
        assert(set_of(raw@) == prompt_set(prompt@, texts(stop@)));
    }
    let raw_count = common(&raw, &hay);
    let both_count = common(&both, &hay);
    if both_count < MIN_OVERLAP {
        return false;
    }
    let agreed = agrees(legs, n.id);
    if legs.len() > 1 && !agreed {
        return false;
    }
    if raw_count == 0 && !(agreed && legs[1].len() > LEG_TOP_K) {
        return false;
    }
    true
}

// ---------------------------------------------------------------------
// Selection
// ---------------------------------------------------------------------

/// Hits whose declared triggers let them pass, and that have not been seen.
pub open spec fn trigger_pick(
    prompt: Seq<char>,
    enrich: Seq<char>,
    legs: Seq<Vec<i64>>,
    stop: Seq<Seq<char>>,
    seen: Seq<i64>,
) -> spec_fn(Hit) -> bool {
    |h: Hit|
        trigger_clears(h.node, prompt, enrich, legs, stop) && !seen.contains(h.node.id)
}

/// Hits that clear the floor, and that have not been seen.
pub open spec fn floor_pick(
    prompt: Seq<char>,
    enrich: Seq<char>,
    legs: Seq<Vec<i64>>,
    stop: Seq<Seq<char>>,
    seen: Seq<i64>,
) -> spec_fn(Hit) -> bool {
    |h: Hit|
        floor_cleared(h.node, prompt, enrich, legs, stop) && !seen.contains(h.node.id)
}

/// Whether a hit qualifies as the top one: it clears the floor, or a declared trigger
/// lets it pass and it has been seen.
pub open spec fn qualifies(
    h: Hit,
    prompt: Seq<char>,
    enrich: Seq<char>,
    legs: Seq<Vec<i64>>,
    stop: Seq<Seq<char>>,
    seen: Seq<i64>,
) -> bool {
    ||| floor_cleared(h.node, prompt, enrich, legs, stop)
    ||| trigger_clears(h.node, prompt, enrich, legs, stop) && seen.contains(h.node.id)
}

/// Whether one of the top hits qualifies.
pub open spec fn top_qualifies(
    hits: Seq<Hit>,
    prompt: Seq<char>,
    enrich: Seq<char>,
    legs: Seq<Vec<i64>>,
    stop: Seq<Seq<char>>,
    seen: Seq<i64>,
) -> bool {
    exists|k: int|
        0 <= k < hits.len() && k < TOP_CANDIDATES && qualifies(
            #[trigger] hits[k],
            prompt,
            enrich,
            legs,
            stop,
            seen,
        )
}

/// The position of the hit that is injected: the first that a declared trigger
/// lets pass; else, where a top hit qualifies, the first that clears the floor. Hits
/// that have been seen are passed over, which alone leads past the top.
pub open spec fn selection(
    hits: Seq<Hit>,
    prompt: Seq<char>,
    enrich: Seq<char>,
    legs: Seq<Vec<i64>>,
    stop: Seq<Seq<char>>,
    seen: Seq<i64>,
) -> Option<int> {
    match first_where(hits, trigger_pick(prompt, enrich, legs, stop, seen)) {
        Some(i) => Some(i),
        None => if top_qualifies(hits, prompt, enrich, legs, stop, seen) {
            first_where(hits, floor_pick(prompt, enrich, legs, stop, seen))
        } else {
            None
        },
    }
}

fn was_seen(seen: &Vec<i64>, id: i64) -> (r: bool)
    ensures
        r == seen@.contains(id),
{
    let mut i: usize = 0;
    while i < seen.len()
        invariant
            i <= seen@.len(),
            forall|k: int| 0 <= k < i ==> seen@[k] != id,
        decreases seen@.len() - i,
    {
        if seen[i] == id {
            return true;
        }
        i += 1;
    }
    false
}

fn top_hit_qualifies(
    hits: &Vec<Hit>,
    prompt: &str,
    enrich: &str,
    legs: &Vec<Vec<i64>>,
    stop: &Vec<String>,
    seen: &Vec<i64>,
) -> (r: bool)
    ensures
        r == top_qualifies(hits@, prompt@, enrich@, legs@, texts(stop@), seen@),
{
    let mut k: usize = 0;
    while k < hits.len() && k < TOP_CANDIDATES
        invariant
            k <= hits@.len(),
            k <= TOP_CANDIDATES,
            forall|j: int|
                0 <= j < k ==> !qualifies(
                    #[trigger] hits@[j],
                    prompt@,
                    enrich@,
                    legs@,
                    texts(stop@),
                    seen@,
                ),
        decreases hits@.len() - k,
    {
        let n = &hits[k].node;
        if clears_floor(n, prompt, enrich, legs, stop) || (fires_when_clears(
            n,
            prompt,
            enrich,
            legs,
            stop,
        ) && was_seen(seen, n.id)) {
            return true;
        }
        k += 1;
    }
    false
}

fn select(
    hits: &Vec<Hit>,
    prompt: &str,
    enrich: &str,
    legs: &Vec<Vec<i64>>,
    stop: &Vec<String>,
    seen: &Vec<i64>,
) -> (r: Option<usize>)
    ensures
        match r {
            Some(i) => i < hits@.len() && selection(
                hits@,
                prompt@,
                enrich@,
                legs@,
                texts(stop@),
                seen@,
            ) == Some(i as int),
            None => selection(hits@, prompt@, enrich@, legs@, texts(stop@), seen@) is None,
        },
{
    let ghost p = trigger_pick(prompt@, enrich@, legs@, texts(stop@), seen@);
    let ghost q = floor_pick(prompt@, enrich@, legs@, texts(stop@), seen@);
    let mut i: usize = 0;
    while i < hits.len()
        invariant
            i <= hits@.len(),
            p == trigger_pick(prompt@, enrich@, legs@, texts(stop@), seen@),
            forall|k: int| 0 <= k < i ==> !p(#[trigger] hits@[k]),
        decreases hits@.len() - i,
    {
        let n = &hits[i].node;
        if fires_when_clears(n, prompt, enrich, legs, stop) && !was_seen(seen, n.id) {
            proof {
                lemma_first_where_is(hits@, p, i as int);
            }
            return Some(i);
        }
        i += 1;
    }
    proof {
        lemma_first_where_none(hits@, p);
    }
    if !top_hit_qualifies(hits, prompt, enrich, legs, stop, seen) {
        return None;
    }
    i = 0;
    while i < hits.len()
        invariant
            i <= hits@.len(),
            p == trigger_pick(prompt@, enrich@, legs@, texts(stop@), seen@),
            q == floor_pick(prompt@, enrich@, legs@, texts(stop@), seen@),
            first_where(hits@, p) is None,
            top_qualifies(hits@, prompt@, enrich@, legs@, texts(stop@), seen@),
            forall|k: int| 0 <= k < i ==> !q(#[trigger] hits@[k]),
        decreases hits@.len() - i,
    {
        let n = &hits[i].node;
        if clears_floor(n, prompt, enrich, legs, stop) && !was_seen(seen, n.id) {
            proof {
                lemma_first_where_is(hits@, q, i as int);
            }
            return Some(i);
        }
        i += 1;
    }
    proof {
        lemma_first_where_none(hits@, q);
    }
    None
}

/// The hit that is injected, without regard to what has been seen: declared
/// triggers are looked for in every hit, the floor is asked of the first alone.
pub fn select_injection<'h>(
    hits: &'h Vec<Hit>,
    prompt: &str,
    enrich: &str,
    legs: &Vec<Vec<i64>>,
    stop: &Vec<String>,
) -> (r: Option<&'h Hit>)
    ensures
        match selection(
            hits@,
            prompt@,
            enrich@,
            legs@,
            texts(stop@),
            Seq::empty(),
        ) {
            Some(i) => r == Some(&hits@[i]),
            None => r is None,
        },
{
    let none: Vec<i64> = Vec::new();
    assert(none@ =~= Seq::empty());
    match select(hits, prompt, enrich, legs, stop, &none) {
        Some(i) => Some(&hits[i]),
        None => None,
    }
}

/// The hit that is injected in a session: as without one, but what has been shown
/// in it is passed over for the next that clears the floor.
pub fn select_unseen_injection<'h>(
    hits: &'h Vec<Hit>,
    prompt: &str,
    enrich: &str,
    legs: &Vec<Vec<i64>>,
    stop: &Vec<String>,
    seen: &Vec<i64>,
) -> (r: Option<&'h Hit>)
    ensures
        match selection(
            hits@,
            prompt@,
            enrich@,
            legs@,
            texts(stop@),
            seen@,
        ) {
            Some(i) => r == Some(&hits@[i]),
            None => r is None,
        },
{
    match select(hits, prompt, enrich, legs, stop, seen) {
        Some(i) => Some(&hits[i]),
        None => None,
    }
}

// ---------------------------------------------------------------------
// The injection
// ---------------------------------------------------------------------

/// `text`, or its first `4 * budget` characters and an ellipsis.
pub fn truncate_to_token_budget(text: &str, budget: usize) -> (r: String)
    requires
        budget <= usize::MAX / 4,
    ensures
        r@ == truncated(text@, budget * 4),
{
    crate::format::truncate_chars(text, budget * 4)
}

/// What is searched for: the prompt, and behind it the stems of the working
/// tree where there are any. Nothing for an empty prompt.
pub open spec fn search_text_of(prompt: Seq<char>, enrich: Seq<char>) -> Option<Seq<char>> {
    let p = trim(prompt);
    if p.len() == 0 {
        None
    } else if trim(enrich).len() == 0 {
        Some(p)
    } else {
        Some(p + " "@ + enrich)
    }
}

/// What is searched for.
pub fn search_text(prompt: &str, enrich: &str) -> (r: Option<String>)
    ensures
        match r {
            Some(s) => search_text_of(prompt@, enrich@) == Some(s@),
            None => search_text_of(prompt@, enrich@) is None,
        },
{
    let p = trimmed(prompt);
    if p.as_str().is_empty() {
        return None;
    }
    if trimmed(enrich).as_str().is_empty() {
        return Some(p);
    }
    let mut out = p;
    out.append(" ");
    out.append(enrich);
    Some(out)
}

/// What is injected for a memory, within the token budget.
pub open spec fn injection_text(n: Node, projects: Map<i64, String>, snippet: int) -> Seq<char> {
    truncated(
        "Relevant memory: "@ + line_text(n, project_name_of(n, projects), Seq::empty(), snippet),
        TOKEN_BUDGET * 4,
    )
}

/// An injection: the memory, the text, and the hash under which the impression
/// is recorded.
#[derive(Debug)]
pub struct Injection {
    pub node_id: i64,
    pub text: String,
    pub query_hash: Vec<u8>,
}

/// The hit that is injected for a prompt, given what the session has seen, if
/// there is a session.
pub open spec fn chosen(
    hits: Seq<Hit>,
    prompt: Seq<char>,
    enrich: Seq<char>,
    legs: Seq<Vec<i64>>,
    stop: Seq<Seq<char>>,
    seen: Option<Seq<i64>>,
) -> Option<int> {
    let p = trim(prompt);
    if p.len() == 0 {
        None
    } else {
        match seen {
            Some(s) => selection(hits, p, enrich, legs, stop, s),
            None => selection(hits, p, enrich, legs, stop, Seq::empty()),
        }
    }
}

/// At most one memory for a prompt: `hits` are what a search for
/// [`search_text`] returned, `legs` the rankings it was fused from, `seen` the
/// memories shown in this session, which the chosen one is added to.
pub fn compute_with_session(
    hits: &Vec<Hit>,
    legs: &Vec<Vec<i64>>,
    prompt: &str,
    enrich: &str,
    stop: &Vec<String>,
    seen: &mut Option<Vec<i64>>,
    projects: &HashMap<i64, String>,
    snippet_chars: usize,
) -> (r: Option<Injection>)
    ensures
        match chosen(hits@, prompt@, enrich@, legs@, texts(stop@), seen_view(*old(seen))) {
            Some(i) => {
                &&& r is Some
                &&& r->0.node_id == hits@[i].node.id
                &&& r->0.text@ == injection_text(hits@[i].node, projects@, snippet_chars as int)
                &&& r->0.query_hash@ == blake3_of(encode_utf8(trim(prompt@)))
                &&& seen_view(*final(seen)) == match seen_view(*old(seen)) {
                    Some(s) => Some(s.push(hits@[i].node.id)),
                    None => None,
                }
            },
            None => r is None && *final(seen) == *old(seen),
        },
{
    broadcast use vstd::std_specs::hash::group_hash_axioms;

    let p = trimmed(prompt);
    if p.as_str().is_empty() {
        return None;
    }
    let picked = match &*seen {
        Some(s) => select(hits, p.as_str(), enrich, legs, stop, s),
        None => {
            let none: Vec<i64> = Vec::new();
            assert(none@ =~= Seq::empty());
            select(hits, p.as_str(), enrich, legs, stop, &none)
        },
    };
    let i: usize = match picked {
        Some(i) => i,
        None => {
            return None;
        },
    };
    let n = &hits[i].node;
    let project = match n.project_id {
        Some(id) => match projects.get(&id) {
            Some(name) => Some(name.as_str()),
            None => None,
        },
        None => None,
    };
    let mut text = "Relevant memory: ".to_owned();
    text.append(agent_line(n, project, snippet_chars).as_str());
    let short = truncate_to_token_budget(text.as_str(), TOKEN_BUDGET);
    let query_hash = blake3_hash(p.as_str());
    if let Some(mut s) = seen.take() {
        s.push(n.id);
        *seen = Some(s);
    }
    Some(Injection { node_id: n.id, text: short, query_hash })
}

/// The memories a session has seen.
pub open spec fn seen_view(seen: Option<Vec<i64>>) -> Option<Seq<i64>> {
    match seen {
        Some(v) => Some(v@),
        None => None,
    }
}

// ---------------------------------------------------------------------
// Laws
// ---------------------------------------------------------------------

/// What is injected has earned it: a declared trigger fires or the floor is
/// cleared, the vector ranking does not contradict it, and it is new to the
/// session.
pub proof fn selection_is_earned(
    hits: Seq<Hit>,
    prompt: Seq<char>,
    enrich: Seq<char>,
    legs: Seq<Vec<i64>>,
    stop: Seq<Seq<char>>,
    seen: Seq<i64>,
)
    requires
        selection(hits, prompt, enrich, legs, stop, seen) is Some,
    ensures
        ({
            let i = selection(hits, prompt, enrich, legs, stop, seen)->0;
            let n = hits[i].node;
            &&& 0 <= i < hits.len()
            &&& trigger_clears(n, prompt, enrich, legs, stop) || floor_cleared(
                n,
                prompt,
                enrich,
                legs,
                stop,
            )
            &&& not_contradicted(legs, n.id)
            &&& !seen.contains(n.id)
        }),
{
    lemma_first_where(hits, trigger_pick(prompt, enrich, legs, stop, seen));
    lemma_first_where(hits, floor_pick(prompt, enrich, legs, stop, seen));
}

/// Nothing is injected by the floor where the top hit has not qualified, whatever a
/// session has seen: a weaker hit never stands in for it. What is injected then is a
/// hit that a declared trigger lets pass.
pub proof fn the_top_hit_gates(
    hits: Seq<Hit>,
    prompt: Seq<char>,
    enrich: Seq<char>,
    legs: Seq<Vec<i64>>,
    stop: Seq<Seq<char>>,
    seen: Seq<i64>,
)
    requires
        hits.len() > 0,
        !qualifies(hits[0], prompt, enrich, legs, stop, seen),
    ensures
        match selection(hits, prompt, enrich, legs, stop, seen) {
            Some(i) => trigger_clears(hits[i].node, prompt, enrich, legs, stop),
            None => true,
        },
{
    lemma_first_where(hits, trigger_pick(prompt, enrich, legs, stop, seen));
}

/// A session is not silent for having been told: where the top hit qualifies and has
/// been shown, and another hit clears the floor and has not, something is injected.
pub proof fn a_told_session_moves_on(
    hits: Seq<Hit>,
    prompt: Seq<char>,
    enrich: Seq<char>,
    legs: Seq<Vec<i64>>,
    stop: Seq<Seq<char>>,
    seen: Seq<i64>,
    k: int,
)
    requires
        0 <= k < hits.len(),
        qualifies(hits[0], prompt, enrich, legs, stop, seen),
        seen.contains(hits[0].node.id),
        floor_cleared(hits[k].node, prompt, enrich, legs, stop),
        !seen.contains(hits[k].node.id),
    ensures
        selection(hits, prompt, enrich, legs, stop, seen) is Some,
{
    let q = floor_pick(prompt, enrich, legs, stop, seen);
    lemma_first_where(hits, q);
    assert(q(hits[k]));
}

/// A session that has seen nothing is told what anyone is told: the first hit that a
/// trigger lets pass, else the top hit.
pub proof fn a_fresh_session_changes_nothing(
    hits: Seq<Hit>,
    prompt: Seq<char>,
    enrich: Seq<char>,
    legs: Seq<Vec<i64>>,
    stop: Seq<Seq<char>>,
)
    ensures
        chosen(hits, prompt, enrich, legs, stop, Some(Seq::empty())) == chosen(
            hits,
            prompt,
            enrich,
            legs,
            stop,
            None,
        ),
        ({
            let i = chosen(hits, prompt, enrich, legs, stop, None);
            i is Some && !trigger_clears(hits[i->0].node, trim(prompt), enrich, legs, stop)
                ==> i->0 < TOP_CANDIDATES
        }),
{
    let p = trim(prompt);
    let t = trigger_pick(p, enrich, legs, stop, Seq::empty());
    let q = floor_pick(p, enrich, legs, stop, Seq::empty());
    lemma_first_where(hits, t);
    lemma_first_where(hits, q);
}

/// The working tree alone never licenses an injection: without one word of the
/// prompt in common, the floor is cleared only where a vector ranking that can
/// tell candidates apart agrees.
pub proof fn enrichment_alone_is_not_enough(
    n: Node,
    prompt: Seq<char>,
    enrich: Seq<char>,
    legs: Seq<Vec<i64>>,
    stop: Seq<Seq<char>>,
)
    requires
        raw_overlap(n, prompt, stop) == 0,
        legs.len() <= 1 || legs[1]@.len() <= LEG_TOP_K,
    ensures
        !floor_cleared(n, prompt, enrich, legs, stop),
{
}

/// An ordinary note never clears the floor, however well it matches.
pub proof fn plain_notes_stay_silent(
    n: Node,
    prompt: Seq<char>,
    enrich: Seq<char>,
    legs: Seq<Vec<i64>>,
    stop: Seq<Seq<char>>,
)
    requires
        !is_preventer(n),
        !n.pinned,
    ensures
        !floor_cleared(n, prompt, enrich, legs, stop),
{
}

/// An injection says what it is, and stays within its budget, four characters to the
/// token and one for the ellipsis.
pub proof fn injection_is_marked_and_bounded(n: Node, projects: Map<i64, String>, snippet: int)
    ensures
        injection_text(n, projects, snippet).len() <= TOKEN_BUDGET * 4 + 1,
        injection_text(n, projects, snippet).len() >= "Relevant memory: "@.len(),
        injection_text(n, projects, snippet).take("Relevant memory: "@.len() as int)
            == "Relevant memory: "@,
{
    reveal_strlit("Relevant memory: ");
    let head = "Relevant memory: "@;
    let all = head + line_text(n, project_name_of(n, projects), Seq::empty(), snippet);
    assert(all.take(head.len() as int) =~= head);
    let text = injection_text(n, projects, snippet);
    assert(text.take(head.len() as int) =~= head);
}

/// A blank prompt injects nothing.
pub proof fn a_blank_prompt_is_silent(
    hits: Seq<Hit>,
    prompt: Seq<char>,
    enrich: Seq<char>,
    legs: Seq<Vec<i64>>,
    stop: Seq<Seq<char>>,
    seen: Option<Seq<i64>>,
)
    requires
        trim(prompt).len() == 0,
    ensures
        chosen(hits, prompt, enrich, legs, stop, seen) is None,
        search_text_of(prompt, enrich) is None,
{
}

/// A prompt of a session, with what the search for it returned.
pub ghost struct Turn {
    pub hits: Seq<Hit>,
    pub prompt: Seq<char>,
    pub enrich: Seq<char>,
    pub legs: Seq<Vec<i64>>,
    pub stop: Seq<Seq<char>>,
}

/// The memory that a turn shows, given what the session has seen.
pub open spec fn shown(t: Turn, seen: Seq<i64>) -> Option<i64> {
    match chosen(t.hits, t.prompt, t.enrich, t.legs, t.stop, Some(seen)) {
        Some(i) => Some(t.hits[i].node.id),
        None => None,
    }
}

/// What a session has seen after `k` turns.
pub open spec fn ledger(turns: Seq<Turn>, start: Seq<i64>, k: int) -> Seq<i64>
    decreases k,
{
    if k <= 0 {
        start
    } else {
        let before = ledger(turns, start, k - 1);
        match shown(turns[k - 1], before) {
            Some(id) => before.push(id),
            None => before,
        }
    }
}

proof fn lemma_ledger_grows(turns: Seq<Turn>, start: Seq<i64>, j: int, k: int, id: i64)
    requires
        0 <= j <= k,
        ledger(turns, start, j).contains(id),
    ensures
        ledger(turns, start, k).contains(id),
    decreases k,
{
    if j < k {
        lemma_ledger_grows(turns, start, j, k - 1, id);
        let before = ledger(turns, start, k - 1);
        let i = choose|i: int| 0 <= i < before.len() && before[i] == id;
        assert(ledger(turns, start, k)[i] == id);
    }
}

/// A session shows no memory twice: what a turn shows was not in the ledger, is in it
/// from then on, and is shown by no later turn.
pub proof fn a_session_never_repeats(turns: Seq<Turn>, start: Seq<i64>, j: int, k: int)
    requires
        0 <= j < k < turns.len(),
        shown(turns[j], ledger(turns, start, j)) is Some,
    ensures
        ({
            let id = shown(turns[j], ledger(turns, start, j))->0;
            &&& !ledger(turns, start, j).contains(id)
            &&& ledger(turns, start, j + 1).contains(id)
            &&& shown(turns[k], ledger(turns, start, k)) != Some(id)
        }),
{
    let before = ledger(turns, start, j);
    let id = shown(turns[j], before)->0;
    lemma_chosen_is_new(turns[j], before);
    let after = ledger(turns, start, j + 1);
    assert(after[before.len() as int] == id);
    lemma_ledger_grows(turns, start, j + 1, k, id);
    lemma_chosen_is_new(turns[k], ledger(turns, start, k));
}

proof fn lemma_chosen_is_new(t: Turn, seen: Seq<i64>)
    ensures
        shown(t, seen) is Some ==> !seen.contains(shown(t, seen)->0),
{
    if shown(t, seen) is Some {
        selection_is_earned(t.hits, trim(t.prompt), t.enrich, t.legs, t.stop, seen);
    }
}

/// A vector ranking agrees on exactly its first ten: a candidate that stands among them
/// is not contradicted, whatever else is ranked, and one that does not neither clears
/// the floor nor passes by a trigger. Without a vector ranking nothing is contradicted.
pub proof fn the_first_ten_are_agreed_on(
    n: Node,
    prompt: Seq<char>,
    enrich: Seq<char>,
    legs: Seq<Vec<i64>>,
    stop: Seq<Seq<char>>,
)
    ensures
        legs.len() <= 1 ==> not_contradicted(legs, n.id),
        legs.len() > 1 ==> (not_contradicted(legs, n.id) <==> legs[1]@.take(
            if legs[1]@.len() < 10 {
                legs[1]@.len() as int
            } else {
                10
            },
        ).contains(n.id)),
        legs.len() > 1 && legs[1]@.len() > 0 && legs[1]@[0] == n.id ==> not_contradicted(
            legs,
            n.id,
        ),
        legs.len() > 1 && !legs[1]@.take(
            if legs[1]@.len() < 10 {
                legs[1]@.len() as int
            } else {
                10
            },
        ).contains(n.id) ==> !floor_cleared(n, prompt, enrich, legs, stop) && !trigger_clears(
            n,
            prompt,
            enrich,
            legs,
            stop,
        ),
{
    if legs.len() > 1 {
        let top = legs[1]@.take(
            if legs[1]@.len() < 10 {
                legs[1]@.len() as int
            } else {
                10
            },
        );
        if vector_agrees(legs, n.id) {
            let k = choose|k: int|
                0 <= k < legs[1]@.len() && k < LEG_TOP_K && #[trigger] legs[1]@[k] == n.id;
            assert(top[k] == n.id);
        }
        if top.contains(n.id) {
            let k = choose|k: int| 0 <= k < top.len() && top[k] == n.id;
            assert(legs[1]@[k] == n.id);
        }
    }
}

} // verus!
