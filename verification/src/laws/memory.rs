//! Laws of storing, refusing, changing and listing memories.

use vstd::prelude::*;

#[allow(unused_imports)]
use crate::grounding::newest_keys;
#[allow(unused_imports)]
use crate::json::opt_view;
#[allow(unused_imports)]
use crate::laws::order::selection_is_exact_and_sorted;
#[allow(unused_imports)]
use crate::memory::{
    bare_token, clean_tag, clean_tags, clean_trigger, comparison_set, content_hash_of,
    deletion_keys, deliberate_at, digit_run, expiry_of, forgotten, gist, hash_at, is_edited,
    is_exact, is_listed, is_node_for, kept_triggers, listing, near_duplicate, nearly_said, reworded,
    reworded_at, strip_back, strip_front, title_of, token_seq, tombstones, verdict, without_markup,
    Edit, Edited, Remember, Verdict,
};
#[allow(unused_imports)]
use crate::model::{Kind, MemoryType, NewNode, Node, Scope};
#[allow(unused_imports)]
use crate::order::ranking;
#[allow(unused_imports)]
use crate::seqs::{first_n, first_where, kept, lemma_first_where};
#[allow(unused_imports)]
use crate::text::{
    all_digits, decimal_nat, is_digit, join, lemma_decimal_digits, lines, lowercase, texts, trim,
    utf8_len, words,
};
#[allow(unused_imports)]
use vstd::string::*;

verus! {

/// Characters that HTML gives a meaning are dropped from a tag, every other stays in
/// its place.
pub proof fn tags_lose_markup_only(a: Seq<char>, b: Seq<char>, c: char)
    ensures
        without_markup(a + b) == without_markup(a) + without_markup(b),
        without_markup(seq![c]) == (if c == '<' || c == '>' || c == '&' || c == '"' || c == '\'' {
            Seq::empty()
        } else {
            seq![c]
        }),
        clean_tag(a) == trim(without_markup(a)),
    decreases b.len(),
{
    let e = Seq::<char>::empty();
    assert(seq![c].drop_last() =~= e);
    assert(without_markup(e) =~= e);
    assert(e.push(c) =~= seq![c]);
    if b.len() == 0 {
        assert(a + b =~= a);
        assert(without_markup(a) + without_markup(b) =~= without_markup(a));
    } else {
        tags_lose_markup_only(a, b.drop_last(), c);
        assert((a + b).drop_last() =~= a + b.drop_last());
        assert(without_markup(a + b) =~= without_markup(a) + without_markup(b));
    }
}

/// A tag that is a tag already is stored as it is, in its place among the others.
pub proof fn a_clean_tag_stays(tags: Seq<Seq<char>>, tag: Seq<char>)
    requires
        clean_tag(tag) == tag,
        tag.len() > 0,
    ensures
        clean_tags(tags.push(tag)) == clean_tags(tags).push(tag),
{
    let all = Seq::new(tags.len(), |i: int| clean_tag(tags[i]));
    let more = Seq::new(tags.push(tag).len(), |i: int| clean_tag(tags.push(tag)[i]));
    assert(more.drop_last() =~= all);
}

/// A trigger phrase is kept where it has words, and no more than six; at most eight are
/// kept, the first.
pub proof fn trigger_phrases_are_bounded(phrases: Seq<Seq<char>>, p: Seq<char>)
    ensures
        clean_trigger(p).len() > 0 && words(clean_trigger(p)).len() <= 6 ==> kept_triggers(
            phrases.push(p),
        ) == kept_triggers(phrases).push(clean_trigger(p)),
        clean_trigger(p).len() == 0 || words(clean_trigger(p)).len() > 6 ==> kept_triggers(
            phrases.push(p),
        ) == kept_triggers(phrases),
        clean_trigger(p) == lowercase(join(words(p), " "@)),
        first_n(kept_triggers(phrases), crate::memory::MAX_TRIGGERS as int).len() <= 8,
        kept_triggers(phrases).len() <= 8 ==> first_n(
            kept_triggers(phrases),
            crate::memory::MAX_TRIGGERS as int,
        ) == kept_triggers(phrases),
        kept_triggers(Seq::empty()).len() == 0,
{
    assert(phrases.push(p).drop_last() =~= phrases);
    reveal_strlit(" ");
    assert(" "@ =~= seq![' ']);
}

/// The title of a text is its first line without the blanks around it: all of it up to
/// eighty characters, and of a longer one the first eighty and an ellipsis.
pub proof fn a_title_is_the_first_line(text: Seq<char>)
    ensures
        lines(text).len() == 0 ==> title_of(text) == trim(Seq::empty()),
        lines(text).len() > 0 && trim(lines(text)[0]).len() <= 80 ==> title_of(text) == trim(
            lines(text)[0],
        ),
        lines(text).len() > 0 && trim(lines(text)[0]).len() > 80 ==> title_of(text) == trim(
            lines(text)[0],
        ).take(80).push('…'),
{
}

proof fn lemma_digit_run_of(d: Seq<char>, u: Seq<char>)
    requires
        all_digits(d),
        u.len() > 0,
        !is_digit(u[0]),
    ensures
        digit_run(d + u) == d.len(),
    decreases d.len(),
{
    if d.len() == 0 {
        assert(d + u =~= u);
    } else {
        assert(is_digit(d[0]));
        assert((d + u).skip(1) =~= d.skip(1) + u);
        assert forall|i: int| 0 <= i < d.skip(1).len() implies is_digit(#[trigger] d.skip(1)[i]) by {
            assert(d.skip(1)[i] == d[i + 1]);
        }
        lemma_digit_run_of(d.skip(1), u);
    }
}

/// A relative expiry counts in hours, days and weeks: a number directly followed by its
/// unit lies that many seconds after now, where that is a time there is.
pub proof fn an_expiry_counts_its_units(text: Seq<char>, n: nat, unit: Seq<char>, now: int)
    requires
        lowercase(trim(text)) == decimal_nat(n) + unit,
        unit.len() > 0,
        !is_digit(unit[0]),
    ensures
        ({
            let hours = unit == "h"@ || unit == "hr"@ || unit == "hrs"@ || unit == "hour"@ || unit
                == "hours"@;
            let days = unit == "d"@ || unit == "day"@ || unit == "days"@;
            let weeks = unit == "w"@ || unit == "wk"@ || unit == "wks"@ || unit == "week"@ || unit
                == "weeks"@;
            &&& hours && 0 < n && n * 3600 <= i64::MAX && n * 3600 + now <= i64::MAX ==> expiry_of(
                text,
                now,
            ) == Some(now + n * 3600)
            &&& days && 0 < n && n * 86400 <= i64::MAX && n * 86400 + now <= i64::MAX ==> expiry_of(
                text,
                now,
            ) == Some(now + n * 86400)
            &&& weeks && 0 < n && n * 604800 <= i64::MAX && n * 604800 + now <= i64::MAX
                ==> expiry_of(text, now) == Some(now + n * 604800)
            &&& n == 0 || !(hours || days || weeks) ==> expiry_of(text, now) is None
        }),
{
    let d = decimal_nat(n);
    lemma_decimal_digits(n);
    lemma_digit_run_of(d, unit);
    assert((d + unit).take(d.len() as int) =~= d);
    assert((d + unit).skip(d.len() as int) =~= unit);
    lemma_units_differ();
}

proof fn lemma_units_differ()
    ensures
        "d"@ != "h"@ && "d"@ != "hr"@ && "d"@ != "hrs"@ && "d"@ != "hour"@ && "d"@ != "hours"@,
        "day"@ != "h"@ && "day"@ != "hr"@ && "day"@ != "hrs"@ && "day"@ != "hour"@ && "day"@
            != "hours"@,
        "days"@ != "h"@ && "days"@ != "hr"@ && "days"@ != "hrs"@ && "days"@ != "hour"@ && "days"@
            != "hours"@,
        "w"@ != "h"@ && "w"@ != "hr"@ && "w"@ != "hrs"@ && "w"@ != "hour"@ && "w"@ != "hours"@
            && "w"@ != "d"@ && "w"@ != "day"@ && "w"@ != "days"@,
        "wk"@ != "h"@ && "wk"@ != "hr"@ && "wk"@ != "hrs"@ && "wk"@ != "hour"@ && "wk"@ != "hours"@
            && "wk"@ != "d"@ && "wk"@ != "day"@ && "wk"@ != "days"@,
        "wks"@ != "h"@ && "wks"@ != "hr"@ && "wks"@ != "hrs"@ && "wks"@ != "hour"@ && "wks"@
            != "hours"@ && "wks"@ != "d"@ && "wks"@ != "day"@ && "wks"@ != "days"@,
        "week"@ != "h"@ && "week"@ != "hr"@ && "week"@ != "hrs"@ && "week"@ != "hour"@ && "week"@
            != "hours"@ && "week"@ != "d"@ && "week"@ != "day"@ && "week"@ != "days"@,
        "weeks"@ != "h"@ && "weeks"@ != "hr"@ && "weeks"@ != "hrs"@ && "weeks"@ != "hour"@
            && "weeks"@ != "hours"@ && "weeks"@ != "d"@ && "weeks"@ != "day"@ && "weeks"@
            != "days"@,
{
    reveal_strlit("h");
    reveal_strlit("hr");
    reveal_strlit("hrs");
    reveal_strlit("hour");
    reveal_strlit("hours");
    reveal_strlit("d");
    reveal_strlit("day");
    reveal_strlit("days");
    reveal_strlit("w");
    reveal_strlit("wk");
    reveal_strlit("wks");
    reveal_strlit("week");
    reveal_strlit("weeks");
    assert("h"@[0] == 'h' && "hr"@[0] == 'h' && "hrs"@[0] == 'h' && "hour"@[0] == 'h'
        && "hours"@[0] == 'h');
    assert("d"@[0] == 'd' && "day"@[0] == 'd' && "days"@[0] == 'd');
    assert("w"@[0] == 'w' && "wk"@[0] == 'w' && "wks"@[0] == 'w' && "week"@[0] == 'w'
        && "weeks"@[0] == 'w');
}

/// Two texts nearly repeat each other where both have words and at least 85 in 100 of
/// all their words are common to both.
pub proof fn near_means_85_in_100(a: Seq<char>, b: Seq<char>)
    ensures
        ({
            let x = token_seq(a).to_set();
            let y = token_seq(b).to_set();
            near_duplicate(a, b) <==> x.len() > 0 && y.len() > 0 && 100 * x.intersect(y).len()
                >= 85 * x.union(y).len()
        }),
{
}

/// A text says another again where their words are the same, or those of one are among
/// those of the other, which has at most three more, or they nearly repeat each other;
/// and nowhere else.
pub proof fn a_reword_adds_or_drops_up_to_three(a: Seq<char>, b: Seq<char>)
    ensures
        ({
            let x = comparison_set(a);
            let y = comparison_set(b);
            &&& x.len() > 0 && x.subset_of(y) && y.len() <= x.len() + 3 ==> reworded(a, b)
            &&& y.len() > 0 && y.subset_of(x) && x.len() <= y.len() + 3 ==> reworded(a, b)
            &&& x.len() > 0 && y.len() > 0 && near_duplicate(a, b) ==> reworded(a, b)
            &&& x.len() == 0 || y.len() == 0 ==> !reworded(a, b)
            &&& reworded(a, b) ==> near_duplicate(a, b) || (x.subset_of(y) && y.len() <= x.len()
                + 3) || (y.subset_of(x) && x.len() <= y.len() + 3)
        }),
{
    let x = comparison_set(a);
    let y = comparison_set(b);
    vstd::seq_lib::seq_to_set_is_finite(crate::memory::comparison_seq(a));
    vstd::seq_lib::seq_to_set_is_finite(crate::memory::comparison_seq(b));
    if x.subset_of(y) {
        vstd::set_lib::lemma_len_subset(x, y);
    }
    if y.subset_of(x) {
        vstd::set_lib::lemma_len_subset(y, x);
    }
}

/// What is compared of a token begins and ends with no full stop, hyphen or underscore,
/// and is the token but for those at its ends.
pub proof fn compared_tokens_are_bare(s: Seq<char>) -> (r: (int, int))
    ensures
        0 <= r.0 <= r.1 <= s.len(),
        bare_token(s) == s.subrange(r.0, r.1),
        forall|i: int|
            0 <= i < s.len() && (i < r.0 || r.1 <= i) ==> (#[trigger] s[i] == '.' || s[i] == '-'
                || s[i] == '_'),
        r.0 < r.1 ==> s[r.0] != '.' && s[r.0] != '-' && s[r.0] != '_',
        r.0 < r.1 ==> s[r.1 - 1] != '.' && s[r.1 - 1] != '-' && s[r.1 - 1] != '_',
{
    let a = lemma_strip_front(s);
    let t = strip_front(s);
    let b = lemma_strip_back(t);
    assert(t == s.skip(a));
    assert(bare_token(s) == t.take(b));
    assert(t.take(b) =~= s.subrange(a, a + b));
    assert forall|i: int| 0 <= i < s.len() && (i < a || a + b <= i) implies (#[trigger] s[i] == '.'
        || s[i] == '-' || s[i] == '_') by {
        if i >= a + b {
            assert(t[i - a] == s[i]);
        }
    }
    if b > 0 {
        assert(t[b - 1] == s[a + b - 1]);
        assert(t[0] == s[a]);
    }
    (a, a + b)
}

proof fn lemma_strip_front(s: Seq<char>) -> (a: int)
    ensures
        0 <= a <= s.len(),
        strip_front(s) == s.skip(a),
        forall|i: int|
            0 <= i < a ==> (#[trigger] s[i] == '.' || s[i] == '-' || s[i] == '_'),
        a < s.len() ==> s[a] != '.' && s[a] != '-' && s[a] != '_',
    decreases s.len(),
{
    if s.len() > 0 && (s[0] == '.' || s[0] == '-' || s[0] == '_') {
        let t = s.skip(1);
        let a = lemma_strip_front(t);
        assert(t.skip(a) =~= s.skip(a + 1));
        assert forall|i: int| 0 <= i < a + 1 implies (#[trigger] s[i] == '.' || s[i] == '-' || s[i]
            == '_') by {
            if i > 0 {
                assert(t[i - 1] == s[i]);
            }
        }
        if a < t.len() {
            assert(t[a] == s[a + 1]);
        }
        a + 1
    } else {
        assert(s.skip(0) =~= s);
        0
    }
}

proof fn lemma_strip_back(s: Seq<char>) -> (b: int)
    ensures
        0 <= b <= s.len(),
        strip_back(s) == s.take(b),
        forall|i: int|
            b <= i < s.len() ==> (#[trigger] s[i] == '.' || s[i] == '-' || s[i] == '_'),
        b > 0 ==> s[b - 1] != '.' && s[b - 1] != '-' && s[b - 1] != '_',
    decreases s.len(),
{
    if s.len() > 0 && (s.last() == '.' || s.last() == '-' || s.last() == '_') {
        let t = s.drop_last();
        let b = lemma_strip_back(t);
        assert(t.take(b) =~= s.take(b));
        assert forall|i: int| b <= i < s.len() implies (#[trigger] s[i] == '.' || s[i] == '-'
            || s[i] == '_') by {
            if i < t.len() {
                assert(t[i] == s[i]);
            }
        }
        b
    } else {
        assert(s.take(s.len() as int) =~= s);
        s.len() as int
    }
}

/// What nothing repeats is stored: no live memory has its hash, no memory that was
/// deleted on purpose has its hash or says it in other words, and no similar memory
/// nearly repeats it.
pub proof fn what_is_new_is_stored(
    text: Seq<char>,
    live: Seq<Node>,
    deleted: Seq<Node>,
    similar: Seq<Node>,
)
    requires
        forall|i: int|
            0 <= i < live.len() && (#[trigger] live[i]).kind == Kind::Memory && live[i].deleted_at
                is None && live[i].content_hash is Some ==> live[i].content_hash->0@
                != content_hash_of(text),
        forall|i: int|
            0 <= i < deleted.len() && (#[trigger] deleted[i]).kind == Kind::Memory
                && deleted[i].deleted_at is Some && deleted[i].meta.archived != Some(1i64) ==> (
            deleted[i].content_hash is Some ==> deleted[i].content_hash->0@ != content_hash_of(
                text,
            )) && !reworded(text, deleted[i].said()),
        forall|i: int|
            0 <= i < similar.len() ==> !near_duplicate(text, (#[trigger] similar[i]).said()),
    ensures
        verdict(text, false, live, deleted, similar) == (Verdict::Create { revived: false }),
        verdict(text, true, live, deleted, similar) == (Verdict::Create { revived: false }),
{
    lemma_first_where(live, is_exact(content_hash_of(text)));
    lemma_first_where(similar, nearly_said(text));
    selection_is_exact_and_sorted(deletion_keys(deleted), deliberate_at(deleted));
    let t = tombstones(deleted);
    lemma_first_where(t, hash_at(deleted, content_hash_of(text)));
    let scan = first_n(t, crate::memory::FORGOTTEN_SCAN_LIMIT as int);
    lemma_first_where(scan, reworded_at(deleted, text));
    assert forall|k: int| 0 <= k < t.len() implies !hash_at(deleted, content_hash_of(text))(
        #[trigger] t[k],
    ) && !reworded_at(deleted, text)(t[k]) by {
        assert(deliberate_at(deleted)(t[k]));
        assert(deleted[t[k]].kind == Kind::Memory);
    }
    match first_where(t, hash_at(deleted, content_hash_of(text))) {
        Some(k) => {
            assert(!hash_at(deleted, content_hash_of(text))(t[k]));
        },
        None => {},
    }
    match first_where(scan, reworded_at(deleted, text)) {
        Some(k) => {
            assert(scan[k] == t[k]);
            assert(!reworded_at(deleted, text)(t[k]));
        },
        None => {},
    }
}

/// What refuses a text says it: a duplicate is a live memory of the same hash or one
/// that the text nearly repeats, and a tombstone is a memory that was deleted on
/// purpose, of the same hash or in other words.
pub proof fn a_refusal_has_a_reason(
    text: Seq<char>,
    live: Seq<Node>,
    deleted: Seq<Node>,
    similar: Seq<Node>,
)
    ensures
        match verdict(text, false, live, deleted, similar) {
            Verdict::Create { revived } => !revived,
            Verdict::Duplicate(n) => (live.contains(n) && n.kind == Kind::Memory && n.deleted_at
                is None && n.content_hash is Some && n.content_hash->0@ == content_hash_of(text))
                || (similar.contains(n) && near_duplicate(text, n.said())),
            Verdict::Forgotten(n) => deleted.contains(n) && n.kind == Kind::Memory && n.deleted_at
                is Some && n.meta.archived != Some(1i64) && ((n.content_hash is Some
                && n.content_hash->0@ == content_hash_of(text)) || reworded(text, n.said())),
        },
{
    lemma_first_where(live, is_exact(content_hash_of(text)));
    lemma_first_where(similar, nearly_said(text));
    selection_is_exact_and_sorted(deletion_keys(deleted), deliberate_at(deleted));
    let t = tombstones(deleted);
    lemma_first_where(t, hash_at(deleted, content_hash_of(text)));
    let scan = first_n(t, crate::memory::FORGOTTEN_SCAN_LIMIT as int);
    lemma_first_where(scan, reworded_at(deleted, text));
    match forgotten(deleted, text) {
        Some(i) => {
            assert(deliberate_at(deleted)(i)) by {
                match first_where(t, hash_at(deleted, content_hash_of(text))) {
                    Some(k) => {
                        assert(deliberate_at(deleted)(t[k]));
                    },
                    None => {
                        let k = first_where(scan, reworded_at(deleted, text))->0;
                        assert(scan[k] == t[k]);
                        assert(deliberate_at(deleted)(t[k]));
                    },
                }
            }
        },
        None => {},
    }
}

/// Of two memories that were deleted on purpose, the one deleted later is looked at
/// first.
pub proof fn the_latest_deletion_comes_first(deleted: Seq<Node>, a: int, b: int)
    requires
        0 <= a < b < tombstones(deleted).len(),
    ensures
        ({
            let t = tombstones(deleted);
            &&& 0 <= t[a] < deleted.len()
            &&& 0 <= t[b] < deleted.len()
            &&& deleted[t[a]].deleted_at is Some
            &&& deleted[t[b]].deleted_at is Some
            &&& deleted[t[a]].deleted_at->0 >= deleted[t[b]].deleted_at->0
        }),
{
    let keys = deletion_keys(deleted);
    selection_is_exact_and_sorted(keys, deliberate_at(deleted));
    let t = tombstones(deleted);
    assert(deliberate_at(deleted)(t[a]) && deliberate_at(deleted)(t[b]));
    assert(keys[t[a]].less(keys[t[b]]) || keys[t[a]] == keys[t[b]]);
}

/// A memory is stored as it was given: its wording whole, under its type and project,
/// titled by its first line.
pub proof fn a_memory_is_stored_as_given(n: NewNode, args: Remember)
    requires
        is_node_for(n, args),
    ensures
        n.kind == Some(Kind::Memory),
        n.body is Some && n.body->0@ == args.text@,
        n.project_id == args.project_id,
        n.title is Some && n.title->0@ == title_of(args.text@),
        n.subkind is Some,
        args.mtype == MemoryType::Gotcha ==> n.subkind->0@ == "gotcha"@,
        args.mtype == MemoryType::Decision ==> n.subkind->0@ == "decision"@,
        args.mtype == MemoryType::Note ==> n.subkind->0@ == "note"@,
        args.mtype == MemoryType::Insight ==> n.subkind->0@ == "insight"@,
        args.mtype == MemoryType::Idea ==> n.subkind->0@ == "idea"@,
        args.mtype == MemoryType::Person ==> n.subkind->0@ == "person"@,
        args.mtype == MemoryType::Summary ==> n.subkind->0@ == "summary"@,
        texts(n.tags@) == clean_tags(texts(args.tags@)),
        n.content_hash is Some && n.content_hash->0@ == content_hash_of(args.text@),
        n.meta is None,
        n.collection_id is None && n.parent_id is None && n.path is None,
{
}

/// An edit changes what it names and nothing else: a new wording takes the memory's
/// title and hash with it unless the title is given too.
pub proof fn an_edit_changes_what_it_names(r: Edited, node: Node, change: Edit)
    requires
        is_edited(r, node, change),
    ensures
        change.text is None ==> opt_view(r.body) == opt_view(node.body),
        change.text is None ==> crate::memory::hash_view(r.content_hash)
            == crate::memory::hash_view(node.content_hash),
        change.text is None && change.title is None ==> opt_view(r.title) == opt_view(node.title),
        change.mtype is None ==> opt_view(r.subkind) == opt_view(node.subkind),
        change.tags is None ==> r.tags_text@ == node.tags_text@,
        change.text is Some ==> opt_view(r.body) == Some(change.text->0@),
        change.text is Some ==> crate::memory::hash_view(r.content_hash) == Some(
            content_hash_of(change.text->0@),
        ),
        change.title is Some ==> opt_view(r.title) == Some(change.title->0@),
        change.text is Some && change.title is None ==> opt_view(r.title) == Some(
            title_of(change.text->0@),
        ),
        change.mtype is Some ==> opt_view(r.subkind) == Some(change.mtype->0.name()),
        change.tags is Some ==> r.tags_text@ == join(clean_tags(texts(change.tags->0@)), " "@),
{
    reveal_strlit(" ");
    assert(" "@ =~= seq![' ']);
}

/// The gist of a text is its tokens of more than three bytes that the search does not
/// ignore.
pub proof fn a_gist_is_the_longer_words(text: Seq<char>, stop: Seq<Seq<char>>, t: Seq<char>)
    ensures
        gist(text, stop).contains(t) <==> token_seq(text).contains(t) && utf8_len(t) >= 4
            && !stop.contains(t),
{
    crate::laws::order::keeping_loses_nothing(
        token_seq(text),
        crate::memory::is_meaningful(stop),
        t,
    );
}

/// A listing holds the memories that are not deleted, of the scope, the type and the
/// tag that are asked for, all of them, the newest first.
pub proof fn a_listing_is_complete_and_newest_first(
    nodes: Seq<Node>,
    scope: Scope,
    mtype: Option<MemoryType>,
    tag: Option<Seq<char>>,
) -> (at: Seq<int>)
    ensures
        at.len() == listing(nodes, scope, mtype, tag).len(),
        forall|k: int|
            0 <= k < at.len() ==> 0 <= #[trigger] at[k] < nodes.len() && listing(
                nodes,
                scope,
                mtype,
                tag,
            )[k] == nodes[at[k]],
        forall|i: int|
            #![trigger at.contains(i)]
            0 <= i < nodes.len() ==> (at.contains(i) <==> nodes[i].kind == Kind::Memory
                && nodes[i].deleted_at is None && scope.admits(nodes[i].project_id) && (mtype is Some
                ==> nodes[i].subkind is Some && nodes[i].subkind->0@ == mtype->0.name()) && (tag
                is Some ==> crate::memory::is_tagged(nodes[i], tag->0))),
        forall|a: int, b: int|
            #![trigger at[a], at[b]]
            0 <= a < b < at.len() ==> nodes[at[a]].created_at >= nodes[at[b]].created_at,
{
    let keys = newest_keys(nodes);
    let p = is_listed(nodes, scope, mtype, tag);
    selection_is_exact_and_sorted(keys, p);
    let at = kept(ranking(keys), p);
    assert forall|a: int, b: int|
        #![trigger at[a], at[b]]
        0 <= a < b < at.len() implies nodes[at[a]].created_at >= nodes[at[b]].created_at by {
        assert(keys[at[a]].less(keys[at[b]]) || keys[at[a]] == keys[at[b]]);
    }
    at
}

} // verus!
