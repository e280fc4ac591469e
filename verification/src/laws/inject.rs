//! Laws of the injection: what a candidate has to be, and which one is put in front.

use vstd::prelude::*;

#[allow(unused_imports)]
use crate::format::{line_text, project_name_of};
#[allow(unused_imports)]
use crate::inject::{
    content_words, floor_cleared, floor_pick, hay_set, haystack, injection_text, not_stopped,
    phrase_fires, raw_overlap, search_text_of, selection, trigger_clears, trigger_pick,
    vector_agrees, Hit,
};
#[allow(unused_imports)]
use crate::laws::order::keeping_loses_nothing;
#[allow(unused_imports)]
use crate::memory::{token_seq, tokens_of_joined_texts};
#[allow(unused_imports)]
use crate::model::{Kind, Node};
#[allow(unused_imports)]
use crate::seqs::{first_where, kept, lemma_first_where};
#[allow(unused_imports)]
use crate::text::{contains, lowercase, texts, trim, words};
#[allow(unused_imports)]
use vstd::string::*;

verus! {

/// The words that count are the tokens of a text that the search does not ignore.
pub proof fn content_words_are_tokens(text: Seq<char>, stop: Seq<Seq<char>>, w: Seq<char>)
    ensures
        content_words(text, stop).contains(w) <==> token_seq(text).contains(w) && !stop.contains(w),
{
    keeping_loses_nothing(token_seq(text), not_stopped(stop), w);
}

/// A candidate has the words of its title, of its body and of its tags, and no others.
pub proof fn a_candidate_has_its_own_words(n: Node, w: Seq<char>)
    ensures
        hay_set(n).contains(w) <==> {
            ||| n.title is Some && token_seq(n.title->0@).contains(w)
            ||| n.body is Some && token_seq(n.body->0@).contains(w)
            ||| token_seq(n.tags_text@).contains(w)
        },
{
    reveal_strlit(" ");
    assert(" "@ =~= seq![' ']);
    let t = match n.title {
        Some(t) => t@,
        None => Seq::empty(),
    };
    let b = match n.body {
        Some(b) => b@,
        None => Seq::empty(),
    };
    tokens_of_joined_texts(t, b);
    tokens_of_joined_texts(t + seq![' '] + b, n.tags_text@);
    let e = Seq::<char>::empty();
    assert(crate::text::split(e, crate::text::Delim::NonToken) =~= seq![e]);
    assert(seq![e].drop_last() =~= Seq::<Seq<char>>::empty());
    assert(crate::text::nonempty(seq![e].drop_last()) =~= Seq::<Seq<char>>::empty());
    assert(crate::text::fields(e, crate::text::Delim::NonToken) =~= Seq::<Seq<char>>::empty());
    assert(token_seq(e).len() == 0);
    let x = token_seq(t);
    let y = token_seq(b);
    let z = token_seq(n.tags_text@);
    assert(token_seq(haystack(n)) == x + y + z);
    lemma_in_concat(x, y, w);
    lemma_in_concat(x + y, z, w);
}

proof fn lemma_in_concat(a: Seq<Seq<char>>, b: Seq<Seq<char>>, w: Seq<char>)
    ensures
        (a + b).contains(w) <==> a.contains(w) || b.contains(w),
{
    if a.contains(w) {
        let i = choose|i: int| 0 <= i < a.len() && a[i] == w;
        assert((a + b)[i] == w);
    }
    if b.contains(w) {
        let i = choose|i: int| 0 <= i < b.len() && b[i] == w;
        assert((a + b)[a.len() + i] == w);
    }
    if (a + b).contains(w) {
        let i = choose|i: int| 0 <= i < (a + b).len() && (a + b)[i] == w;
        if i < a.len() {
            assert(a[i] == w);
        } else {
            assert(b[i - a.len()] == w);
        }
    }
}

/// A declared trigger fires where it stands in the prompt as it is, or where the prompt
/// has every word of it that the search does not ignore, of which there is one. It fires
/// nowhere else, and an empty one never.
pub proof fn a_trigger_fires_on_its_words(
    phrase: Seq<char>,
    prompt: Seq<char>,
    have: Seq<Seq<char>>,
    stop: Seq<Seq<char>>,
)
    ensures
        phrase.len() > 0 && contains(prompt, phrase) ==> phrase_fires(phrase, prompt, have, stop),
        (exists|w: Seq<char>| #[trigger] words(phrase).contains(w) && !stop.contains(w)) && (forall|
            w: Seq<char>,
        |
            #[trigger] words(phrase).contains(w) && !stop.contains(w) ==> have.contains(w))
            ==> phrase_fires(phrase, prompt, have, stop),
        !contains(prompt, phrase) && (exists|w: Seq<char>| #[trigger]
            words(phrase).contains(w) && !stop.contains(w) && !have.contains(w)) ==> !phrase_fires(
            phrase,
            prompt,
            have,
            stop,
        ),
        !contains(prompt, phrase) && (forall|w: Seq<char>| #[trigger]
            words(phrase).contains(w) ==> stop.contains(w)) ==> !phrase_fires(
            phrase,
            prompt,
            have,
            stop,
        ),
{
    let all = words(phrase);
    let w = kept(all, not_stopped(stop));
    crate::seqs::lemma_kept(all, not_stopped(stop));
    if exists|x: Seq<char>| #[trigger] all.contains(x) && !stop.contains(x) {
        let x = choose|x: Seq<char>| #[trigger] all.contains(x) && !stop.contains(x);
        keeping_loses_nothing(all, not_stopped(stop), x);
        assert(w.len() > 0);
    }
    if exists|x: Seq<char>| #[trigger] all.contains(x) && !stop.contains(x) && !have.contains(x) {
        let x = choose|x: Seq<char>| #[trigger]
            all.contains(x) && !stop.contains(x) && !have.contains(x);
        keeping_loses_nothing(all, not_stopped(stop), x);
        let k = choose|k: int| 0 <= k < w.len() && w[k] == x;
        assert(!have.contains(w[k]));
    }
    if forall|x: Seq<char>| #[trigger] all.contains(x) ==> stop.contains(x) {
        if w.len() > 0 {
            assert(all.contains(w[0]));
        }
    }
    assert forall|i: int| 0 <= i < w.len() implies all.contains(#[trigger] w[i]) && !stop.contains(
        w[i],
    ) by {}
}

/// Without a vector ranking, and without a working tree, what clears the floor is a
/// gotcha, a decision or a pinned memory that has at least two words of the prompt.
pub proof fn two_common_words_clear_the_floor(
    n: Node,
    prompt: Seq<char>,
    legs: Seq<Vec<i64>>,
    stop: Seq<Seq<char>>,
)
    requires
        legs.len() <= 1,
    ensures
        floor_cleared(n, prompt, Seq::empty(), legs, stop) <==> n.kind == Kind::Memory && (n.pinned
            || (n.subkind is Some && (n.subkind->0@ == "gotcha"@ || n.subkind->0@ == "decision"@)))
            && content_words(prompt, stop).to_set().intersect(hay_set(n)).len() >= 2,
{
    let e = Seq::<char>::empty();
    assert(crate::text::split(e, crate::text::Delim::NonToken) =~= seq![e]);
    assert(seq![e].drop_last() =~= Seq::<Seq<char>>::empty());
    assert(crate::text::nonempty(seq![e].drop_last()) =~= Seq::<Seq<char>>::empty());
    assert(crate::text::fields(e, crate::text::Delim::NonToken) =~= Seq::<Seq<char>>::empty());
    assert(token_seq(e) =~= Seq::<Seq<char>>::empty());
    assert(content_words(e, stop) =~= Seq::<Seq<char>>::empty());
    let w = content_words(prompt, stop);
    assert(w + content_words(e, stop) =~= w);
}

/// With a vector ranking the same two words clear the floor for a candidate among its
/// first ten; and words of the working tree count beside those of the prompt.
pub proof fn words_of_the_working_tree_count(
    n: Node,
    prompt: Seq<char>,
    enrich: Seq<char>,
    legs: Seq<Vec<i64>>,
    stop: Seq<Seq<char>>,
)
    requires
        n.kind == Kind::Memory,
        n.subkind is Some && n.subkind->0@ == "gotcha"@,
        raw_overlap(n, prompt, stop) > 0,
        (content_words(prompt, stop) + content_words(enrich, stop)).to_set().intersect(
            hay_set(n),
        ).len() >= 2,
        legs.len() <= 1 || (legs[1]@.len() > 0 && legs[1]@[0] == n.id),
    ensures
        floor_cleared(n, prompt, enrich, legs, stop),
{
    if legs.len() > 1 {
        assert(vector_agrees(legs, n.id));
    }
}

/// The overlap counts the words that prompt and candidate both have.
pub proof fn the_overlap_is_of_common_words(n: Node, prompt: Seq<char>, stop: Seq<Seq<char>>)
    ensures
        raw_overlap(n, prompt, stop) == content_words(prompt, stop).to_set().intersect(
            hay_set(n),
        ).len(),
{
}

/// A candidate passes by a trigger where one of its declared phrases fires on the prompt
/// in lower case, and the vector ranking, where there is one, has it among its first
/// ten. What declares no trigger passes by none.
pub proof fn declared_triggers_decide(
    n: Node,
    prompt: Seq<char>,
    enrich: Seq<char>,
    legs: Seq<Vec<i64>>,
    stop: Seq<Seq<char>>,
    k: int,
)
    ensures
        n.meta.fires_when is None ==> !trigger_clears(n, prompt, enrich, legs, stop),
        n.meta.fires_when is Some && 0 <= k < n.meta.fires_when->0@.len() && phrase_fires(
            n.meta.fires_when->0@[k]@,
            lowercase(prompt) + " "@ + lowercase(enrich),
            content_words(prompt, stop) + content_words(enrich, stop),
            stop,
        ) && (legs.len() <= 1 || (legs[1]@.len() > 0 && legs[1]@[0] == n.id)) ==> trigger_clears(
            n,
            prompt,
            enrich,
            legs,
            stop,
        ),
        n.meta.fires_when matches Some(phrases) ==> (forall|i: int|
            0 <= i < phrases@.len() ==> !phrase_fires(
                (#[trigger] phrases@[i])@,
                lowercase(prompt) + " "@ + lowercase(enrich),
                content_words(prompt, stop) + content_words(enrich, stop),
                stop,
            )) ==> !trigger_clears(n, prompt, enrich, legs, stop),
{
    if trigger_clears(n, prompt, enrich, legs, stop) {
        let phrases = n.meta.fires_when->0;
        let i = choose|i: int|
            0 <= i < phrases@.len() && phrase_fires(
                #[trigger] texts(phrases@)[i],
                lowercase(prompt) + " "@ + lowercase(enrich),
                content_words(prompt, stop) + content_words(enrich, stop),
                stop,
            );
        assert(texts(phrases@)[i] == phrases@[i]@);
    }
    if n.meta.fires_when is Some && 0 <= k < n.meta.fires_when->0@.len() {
        assert(texts(n.meta.fires_when->0@)[k] == n.meta.fires_when->0@[k]@);
    }
    if legs.len() > 1 && legs[1]@.len() > 0 && legs[1]@[0] == n.id {
        assert(vector_agrees(legs, n.id));
    }
}

/// What is injected is the first of the hits that earns it: a hit that passes by its
/// trigger and is new goes before one that clears the floor, and before every such hit
/// behind it.
pub proof fn the_first_that_earns_it_is_injected(
    hits: Seq<Hit>,
    prompt: Seq<char>,
    enrich: Seq<char>,
    legs: Seq<Vec<i64>>,
    stop: Seq<Seq<char>>,
    seen: Seq<i64>,
    i: int,
)
    requires
        0 <= i < hits.len(),
        trigger_clears(hits[i].node, prompt, enrich, legs, stop),
        !seen.contains(hits[i].node.id),
    ensures
        selection(hits, prompt, enrich, legs, stop, seen) is Some,
        selection(hits, prompt, enrich, legs, stop, seen)->0 <= i,
        trigger_clears(
            hits[selection(hits, prompt, enrich, legs, stop, seen)->0].node,
            prompt,
            enrich,
            legs,
            stop,
        ),
{
    let p = trigger_pick(prompt, enrich, legs, stop, seen);
    lemma_first_where(hits, p);
    assert(p(hits[i]));
}

/// Where no hit passes by a trigger, a top hit that clears the floor and is new is what
/// is injected.
pub proof fn a_top_hit_is_injected(
    hits: Seq<Hit>,
    prompt: Seq<char>,
    enrich: Seq<char>,
    legs: Seq<Vec<i64>>,
    stop: Seq<Seq<char>>,
    seen: Seq<i64>,
)
    requires
        hits.len() > 0,
        floor_cleared(hits[0].node, prompt, enrich, legs, stop),
        !seen.contains(hits[0].node.id),
        forall|k: int|
            0 <= k < hits.len() ==> !trigger_clears(
                (#[trigger] hits[k]).node,
                prompt,
                enrich,
                legs,
                stop,
            ),
    ensures
        selection(hits, prompt, enrich, legs, stop, seen) == Some(0int),
{
    lemma_first_where(hits, trigger_pick(prompt, enrich, legs, stop, seen));
    let q = floor_pick(prompt, enrich, legs, stop, seen);
    lemma_first_where(hits, q);
    assert(q(hits[0]));
    assert(crate::inject::qualifies(hits[0], prompt, enrich, legs, stop, seen));
}

/// What is injected: the first hit that is new and passes by a trigger; where there is
/// none, and the top hit clears the floor or was passed by a trigger before, the first
/// that is new and clears the floor; otherwise nothing.
pub proof fn what_is_injected(
    hits: Seq<Hit>,
    prompt: Seq<char>,
    enrich: Seq<char>,
    legs: Seq<Vec<i64>>,
    stop: Seq<Seq<char>>,
    seen: Seq<i64>,
    i: int,
)
    ensures
        ({
            let fires = |k: int|
                0 <= k < hits.len() && trigger_clears(hits[k].node, prompt, enrich, legs, stop)
                    && !seen.contains(hits[k].node.id);
            let clears = |k: int|
                0 <= k < hits.len() && floor_cleared(hits[k].node, prompt, enrich, legs, stop)
                    && !seen.contains(hits[k].node.id);
            let top = hits.len() > 0 && (floor_cleared(hits[0].node, prompt, enrich, legs, stop) || (
            trigger_clears(hits[0].node, prompt, enrich, legs, stop) && seen.contains(
                hits[0].node.id,
            )));
            let r = selection(hits, prompt, enrich, legs, stop, seen);
            &&& fires(i) && (forall|k: int| k < i ==> !#[trigger] fires(k)) ==> r == Some(i)
            &&& (forall|k: int| !#[trigger] fires(k)) && !top ==> r is None
            &&& (forall|k: int| !#[trigger] fires(k)) && top && clears(i) && (forall|k: int|
                k < i ==> !#[trigger] clears(k)) ==> r == Some(i)
            &&& (forall|k: int| !#[trigger] fires(k)) && (forall|k: int| !#[trigger] clears(k))
                ==> r is None
        }),
{
    let fires = |k: int|
        0 <= k < hits.len() && trigger_clears(hits[k].node, prompt, enrich, legs, stop)
            && !seen.contains(hits[k].node.id);
    let clears = |k: int|
        0 <= k < hits.len() && floor_cleared(hits[k].node, prompt, enrich, legs, stop)
            && !seen.contains(hits[k].node.id);
    let p = trigger_pick(prompt, enrich, legs, stop, seen);
    let q = floor_pick(prompt, enrich, legs, stop, seen);
    lemma_first_where(hits, p);
    lemma_first_where(hits, q);
    if fires(i) && (forall|k: int| k < i ==> !#[trigger] fires(k)) {
        assert(p(hits[i]));
        let k = first_where(hits, p)->0;
        if k < i {
            assert(!fires(k));
        }
    }
    if forall|k: int| !#[trigger] fires(k) {
        if let Some(k) = first_where(hits, p) {
            assert(!fires(k));
        }
        if clears(i) && (forall|k: int| k < i ==> !#[trigger] clears(k)) {
            assert(q(hits[i]));
            let k = first_where(hits, q)->0;
            if k < i {
                assert(!clears(k));
            }
        }
        if forall|k: int| !#[trigger] clears(k) {
            if let Some(k) = first_where(hits, q) {
                assert(!clears(k));
            }
        }
        if hits.len() > 0 {
            assert(crate::inject::qualifies(hits[0], prompt, enrich, legs, stop, seen) <==> (
            floor_cleared(hits[0].node, prompt, enrich, legs, stop) || (trigger_clears(
                hits[0].node,
                prompt,
                enrich,
                legs,
                stop,
            ) && seen.contains(hits[0].node.id))));
        }
    }
}

/// What is searched for is the prompt without the blanks around it, and behind it the
/// words of the working tree, where it has any.
pub proof fn the_prompt_is_searched_for(prompt: Seq<char>, enrich: Seq<char>)
    ensures
        trim(prompt).len() > 0 && trim(enrich).len() == 0 ==> search_text_of(prompt, enrich)
            == Some(trim(prompt)),
        trim(prompt).len() > 0 && trim(enrich).len() > 0 ==> search_text_of(prompt, enrich) == Some(
            trim(prompt) + " "@ + enrich,
        ),
        trim(prompt).len() == 0 ==> search_text_of(prompt, enrich) is None,
{
}

/// What is injected is the line of the memory behind its mark, whole up to eight hundred
/// characters, and cut there with an ellipsis.
pub proof fn an_injection_quotes_its_memory(n: Node, projects: Map<i64, String>, snippet: int)
    ensures
        ({
            let all = "Relevant memory: "@ + line_text(
                n,
                project_name_of(n, projects),
                Seq::empty(),
                snippet,
            );
            &&& all.len() <= 800 ==> injection_text(n, projects, snippet) == all
            &&& all.len() > 800 ==> injection_text(n, projects, snippet) == all.take(800).push('…')
        }),
{
}

} // verus!
