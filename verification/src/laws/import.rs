//! Laws of what is imported.

use vstd::prelude::*;

#[allow(unused_imports)]
use crate::calendar::{day_number, valid_date};
#[allow(unused_imports)]
use crate::import::{
    completed, declared_as, declared_type, file_memories, file_memory, frontmatter, header_of,
    header_of_inside, header_of_rest, listed, listing, reading, stored, topic_tags, type_of, us_day,
    us_time, Header, IncomingView, Listing, Reading,
};
#[allow(unused_imports)]
use crate::memory::RememberOutcome;
#[allow(unused_imports)]
use crate::model::MemoryType;
#[allow(unused_imports)]
use crate::text::{
    decimal_nat, ends_with, find_in, is_digit, is_space, join, lemma_decimal_digits, lemma_split_at,
    lines, lowercase, occurs_at, replaced, split, starts_with, trim, trim_end, trim_start,
    trim_suffixes, utf8_len, Delim,
};
#[allow(unused_imports)]
use vstd::string::*;

verus! {

/// What stands for the type of an imported thought.
pub proof fn imported_types(word: Seq<char>, kind: Option<Seq<char>>)
    ensures
        type_of("observation"@) == MemoryType::Insight,
        type_of("idea"@) == MemoryType::Idea,
        type_of("person_note"@) == MemoryType::Person,
        word != "observation"@ && word != "idea"@ && word != "person_note"@ ==> type_of(word)
            == MemoryType::Note,
        declared_as(Some("feedback"@)) == MemoryType::Insight,
        declared_as(Some("user"@)) == MemoryType::Person,
        kind != Some("feedback"@) && kind != Some("user"@) ==> declared_as(kind)
            == MemoryType::Note,
{
    reveal_strlit("observation");
    reveal_strlit("idea");
    reveal_strlit("person_note");
    reveal_strlit("feedback");
    reveal_strlit("user");
    assert("observation"@.len() == 11);
    assert("idea"@.len() == 4);
    assert("person_note"@[0] == 'p');
    assert("observation"@[0] == 'o');
    assert("feedback"@.len() == 8);
    assert("user"@.len() == 4);
}

/// A topic becomes a tag in small letters with a hyphen for each space; what is blank
/// becomes none.
pub proof fn a_topic_becomes_a_tag(topics: Seq<Seq<char>>, t: Seq<char>)
    ensures
        ({
            let tag = lowercase(
                Seq::new(
                    trim(t).len(),
                    |i: int|
                        if trim(t)[i] == ' ' {
                            '-'
                        } else {
                            trim(t)[i]
                        },
                ),
            );
            &&& tag.len() > 0 ==> topic_tags(topics.push(t)) == topic_tags(topics).push(tag)
            &&& tag.len() == 0 ==> topic_tags(topics.push(t)) == topic_tags(topics)
        }),
        topic_tags(Seq::empty()).len() == 0,
{
    assert(topics.push(t).drop_last() =~= topics);
    assert(replaced(trim(t), ' ', '-') =~= Seq::new(
        trim(t).len(),
        |i: int|
            if trim(t)[i] == ' ' {
                '-'
            } else {
                trim(t)[i]
            },
    ));
}

proof fn lemma_trimmed(s: Seq<char>)
    requires
        s.len() > 0,
        !is_space(s[0]),
        !is_space(s.last()),
    ensures
        trim(s) == s,
        trim_start(s) == s,
{
    let (i, j) = super::text::trimming_takes_blanks_off(s);
    assert(i == 0) by {
        if i > 0 {
            assert(is_space(s[0]));
        }
    }
    assert(j == s.len()) by {
        if j < s.len() {
            assert(is_space(s[s.len() - 1]));
        }
    }
    assert(s.subrange(0, s.len() as int) =~= s);
    assert(s.skip(0) =~= s);
}

proof fn lemma_unsplit(s: Seq<char>, c: char)
    requires
        forall|k: int| 0 <= k < s.len() ==> #[trigger] s[k] != c,
    ensures
        split(s, Delim::Char(c)) == seq![s],
{
    let d = Delim::Char(c);
    let e = Seq::<char>::empty();
    crate::text::lemma_split_append(e, s, d);
    assert(e + s =~= s);
    assert(split(e, d) =~= seq![e]);
    assert(split(s, d) =~= seq![s]);
}

/// A date is read as month, day and year with slashes between them: the time is the
/// midnight at which that day begins.
pub proof fn a_date_is_month_day_year(y: nat, m: nat, d: nat)
    requires
        valid_date(y as int, m as int, d as int),
        1 <= y <= 9999,
    ensures
        us_time(decimal_nat(m) + seq!['/'] + decimal_nat(d) + seq!['/'] + decimal_nat(y)) == Some(
            day_number(y as int, m as int, d as int) * 86_400,
        ),
{
    let (a, b, c) = (decimal_nat(m), decimal_nat(d), decimal_nat(y));
    lemma_decimal_digits(m);
    lemma_decimal_digits(d);
    lemma_decimal_digits(y);
    let s = a + seq!['/'] + b + seq!['/'] + c;
    assert(is_digit(a[0]));
    assert(is_digit(c[c.len() - 1]));
    assert(s[0] == a[0]);
    assert(s.last() == c.last());
    lemma_trimmed(s);
    let e = Delim::Char('/');
    lemma_split_at(a + seq!['/'] + b, '/', c, e);
    lemma_split_at(a, '/', b, e);
    assert forall|k: int| 0 <= k < a.len() implies #[trigger] a[k] != '/' by {
        assert(is_digit(a[k]));
    }
    assert forall|k: int| 0 <= k < b.len() implies #[trigger] b[k] != '/' by {
        assert(is_digit(b[k]));
    }
    assert forall|k: int| 0 <= k < c.len() implies #[trigger] c[k] != '/' by {
        assert(is_digit(c[k]));
    }
    lemma_unsplit(a, '/');
    lemma_unsplit(b, '/');
    lemma_unsplit(c, '/');
    let parts = split(s, e);
    assert(parts =~= seq![a, b, c]);
    assert(d <= 31);
    super::text::numbers_read_back(m, i64::MAX as int);
    super::text::numbers_read_back(d, i64::MAX as int);
    super::text::numbers_read_back(y, i64::MAX as int);
    crate::import::existing_dates_are_read_exactly(y as int, m as int, d as int);
    crate::calendar::lemma_day_of_march_year(y as int, m as int, d as int);
    let z = day_number(y as int, m as int, d as int);
    assert(us_day(y as int, m as int, d as int) == z);
    assert(-1_000_000 <= z <= 4_000_000);
}

/// What stands in parentheses is the type, and behind a hyphen the topics; a time that is
/// not after 1970 is taken for none.
pub proof fn a_header_says_type_and_topics(date: Option<int>, a: Seq<char>, b: Seq<char>)
    requires
        forall|k: int| 0 <= k < a.len() ==> #[trigger] a[k] != '-',
        date matches Some(t) ==> i64::MIN <= t <= i64::MAX,
    ensures
        ({
            let h = header_of_inside(date, a + " - "@ + b);
            &&& h.mtype == type_of(trim(a))
            &&& h.tags == topic_tags(split(b, Delim::Char(',')))
            &&& date matches Some(t) ==> (t > 0 ==> h.created_at is Some && h.created_at->0 == t)
                && (t <= 0 ==> h.created_at is None)
            &&& date is None ==> h.created_at is None
        }),
        header_of_inside(date, a).mtype == type_of(trim(a)),
        date matches Some(t) && t > 0 ==> header_of_inside(date, a).created_at is Some
            && header_of_inside(date, a).created_at->0 == date->0,
{
    reveal_strlit(" - ");
    let sep = " - "@;
    assert(sep.len() == 3 && sep[0] == ' ' && sep[1] == '-' && sep[2] == ' ');
    let s = a + sep + b;
    super::text::the_first_occurrence_is_found(s, sep, 0);
    let n = a.len() as int;
    assert(s.subrange(n, n + 3) =~= sep);
    match find_in(s, sep, 0) {
        Some(k) => {
            if k > n {
                assert(s.subrange(n, n + sep.len()) != sep);
            } else if k < n {
                assert(s.subrange(k, k + 3)[1] == s[k + 1]);
                if k + 1 < n {
                    assert(s[k + 1] == a[k + 1]);
                } else {
                    assert(s[k + 1] == sep[0]);
                }
            }
            assert(k == n);
        },
        None => {
            assert(s.subrange(n, n + sep.len()) != sep);
        },
    }
    assert(s.take(n) =~= a);
    assert(s.skip(n + 3) =~= b);
    super::text::the_first_occurrence_is_found(a, sep, 0);
    if let Some(k) = find_in(a, sep, 0) {
        assert(a.subrange(k, k + 3)[1] == a[k + 1]);
    }
}

proof fn lemma_found(s: Seq<char>, x: Seq<char>, from: int, at: int)
    requires
        0 <= from <= at,
        x.len() > 0,
        at + x.len() <= s.len(),
        s.subrange(at, at + x.len()) == x,
        forall|k: int| from <= k < at ==> #[trigger] s[k] != x[0],
    ensures
        find_in(s, x, from) == Some(at),
{
    super::text::the_first_occurrence_is_found(s, x, from);
    match find_in(s, x, from) {
        Some(k) => {
            if k > at {
                assert(s.subrange(at, at + x.len()) != x);
            } else if k < at {
                assert(s.subrange(k, k + x.len())[0] == s[k]);
            }
        },
        None => {
            assert(s.subrange(at, at + x.len()) != x);
        },
    }
}

proof fn lemma_header_rest(date: Seq<char>, inside: Seq<char>)
    requires
        forall|k: int| 0 <= k < date.len() ==> #[trigger] date[k] != ']',
        forall|k: int| 0 <= k < inside.len() ==> #[trigger] inside[k] != ')',
    ensures
        header_of_rest(date + seq![']', ' ', '('] + inside + seq![')']) == Some(
            header_of_inside(us_time(date), inside),
        ),
{
    reveal_strlit(")");
    reveal_strlit("(");
    reveal_strlit("]");
    let mid = seq![']', ' ', '('];
    let after = date + mid + inside + seq![')'];
    assert(")"@ =~= seq![')']);
    assert("]"@ =~= seq![']']);
    assert("("@ =~= seq!['(']);
    let b = date.len() as int;
    let c = b + 3 + inside.len();
    assert(find_in(after, "]"@, 0) == Some(b)) by {
        assert(after.subrange(b, b + 1) =~= seq![']']);
        assert forall|k: int| 0 <= k < b implies #[trigger] after[k] != ']' by {
            assert(after[k] == date[k]);
        }
        lemma_found(after, "]"@, 0, b);
    }
    assert(find_in(after, "("@, b) == Some(b + 2)) by {
        assert(after.subrange(b + 2, b + 3) =~= seq!['(']);
        assert(after[b] == ']' && after[b + 1] == ' ');
        lemma_found(after, "("@, b, b + 2);
    }
    assert(find_in(after, ")"@, b + 2) == Some(c)) by {
        assert(after.subrange(c, c + 1) =~= seq![')']);
        assert forall|k: int| b + 2 <= k < c implies #[trigger] after[k] != ')' by {
            if k == b + 2 {
                assert(after[k] == '(');
            } else {
                assert(after[k] == inside[k - b - 3]);
            }
        }
        lemma_found(after, ")"@, b + 2, c);
    }
    assert(after.take(b) =~= date);
    assert(after.subrange(b + 3, c) =~= inside);
}

proof fn lemma_header_number(n: nat, after: Seq<char>)
    requires
        n <= usize::MAX,
        after.len() > 0,
        after.last() == ')',
    ensures
        header_of(decimal_nat(n) + seq!['.', ' ', '['] + after) == header_of_rest(after),
{
    let num = decimal_nat(n);
    lemma_decimal_digits(n);
    let dot = seq!['.', ' ', '['];
    assert(". ["@ =~= dot) by {
        reveal_strlit(". [");
    }
    let line = num + dot + after;
    let a = num.len() as int;
    assert(trim_start(line) == line) by {
        assert(is_digit(num[0]));
        assert(line[0] == num[0]);
        assert(line.last() == after.last());
        lemma_trimmed(line);
    }
    assert(find_in(line, dot, 0) == Some(a)) by {
        assert(line.subrange(a, a + 3) =~= dot);
        assert forall|k: int| 0 <= k < a implies #[trigger] line[k] != '.' by {
            assert(line[k] == num[k]);
            assert(is_digit(num[k]));
        }
        lemma_found(line, dot, 0, a);
    }
    assert(line.take(a) =~= num);
    assert(line.skip(a + 3) =~= after);
    super::text::numbers_read_back(n, usize::MAX as int);
}

/// A thought begins with its number, its date in brackets, and its type and topics in
/// parentheses.
pub proof fn a_thought_begins_with_its_header(n: nat, date: Seq<char>, inside: Seq<char>)
    requires
        n <= usize::MAX,
        forall|k: int| 0 <= k < date.len() ==> #[trigger] date[k] != ']',
        forall|k: int| 0 <= k < inside.len() ==> #[trigger] inside[k] != ')',
    ensures
        header_of(
            decimal_nat(n) + seq!['.', ' ', '['] + (date + seq![']', ' ', '('] + inside + seq![')']),
        ) == Some(header_of_inside(us_time(date), inside)),
{
    lemma_header_rest(date, inside);
    lemma_header_number(n, date + seq![']', ' ', '('] + inside + seq![')']);
}

/// A header ends the thought before it and begins the next; every other line belongs to
/// the thought it stands in, without an indent of three, and what stands before the first
/// header to none.
pub proof fn lines_belong_to_the_header_above(ls: Seq<Seq<char>>, n: int)
    requires
        0 < n <= ls.len(),
    ensures
        ({
            let a = reading(ls, n - 1);
            let b = reading(ls, n);
            let line = ls[n - 1];
            &&& header_of(line) matches Some(h) ==> b.current == Some((h, Seq::<Seq<char>>::empty()))
                && b.items == completed(a)
            &&& header_of(line) is None && a.current is None ==> b == a
            &&& header_of(line) is None ==> (a.current matches Some((h, body)) ==> b.items
                == a.items && b.current is Some && ({
                let (same, more) = b.current->0;
                &&& same == h
                &&& more.len() == body.len() + 1
                &&& more.drop_last() == body
                &&& starts_with(line, "   "@) ==> more.last() == line.skip(3)
                &&& !starts_with(line, "   "@) ==> more.last() == line
            }))
        }),
        reading(ls, 0).items.len() == 0,
        reading(ls, 0).current is None,
{
    let a = reading(ls, n - 1);
    if header_of(ls[n - 1]) is None {
        if let Some((h, body)) = a.current {
            let b = reading(ls, n);
            let (same, more) = b.current->0;
            assert(more.drop_last() =~= body);
        }
    }
}

/// A thought is its lines without the blanks around them, under its header; one that says
/// nothing is left out.
pub proof fn a_thought_is_its_lines(items: Seq<IncomingView>, h: Header, body: Seq<Seq<char>>)
    ensures
        ({
            let r = completed(Reading { items, current: Some((h, body)) });
            let text = trim(join(body, "\n"@));
            &&& text.len() == 0 ==> r == items
            &&& text.len() > 0 ==> r.len() == items.len() + 1 && r.drop_last() == items
                && r.last().text == text && r.last().mtype == h.mtype && r.last().tags == h.tags
                && r.last().created_at == h.created_at
        }),
        completed(Reading { items, current: None }) == items,
{
    let r = completed(Reading { items, current: Some((h, body)) });
    if trim(join(body, "\n"@)).len() > 0 {
        assert(r.drop_last() =~= items);
    }
}

/// The type is declared by the first line that begins with `type:`, and is what follows.
pub proof fn the_first_type_line_declares(ls: Seq<Seq<char>>, i: int, from: int)
    requires
        0 <= from <= i < ls.len(),
        starts_with(trim(ls[i]), "type:"@),
        forall|k: int| from <= k < i ==> !starts_with(trim(#[trigger] ls[k]), "type:"@),
    ensures
        declared_type(ls, from) == Some(trim(trim(ls[i]).skip(5))),
    decreases i - from,
{
    if from < i {
        assert(!starts_with(trim(ls[from]), "type:"@));
        the_first_type_line_declares(ls, i, from + 1);
    }
}

/// Where no line begins with `type:` none is declared.
pub proof fn without_a_type_line_none_is_declared(ls: Seq<Seq<char>>, from: int)
    requires
        forall|k: int| from <= k < ls.len() ==> !starts_with(trim(#[trigger] ls[k]), "type:"@),
    ensures
        declared_type(ls, from) is None,
    decreases ls.len() - from,
{
    if 0 <= from < ls.len() {
        assert(!starts_with(trim(ls[from]), "type:"@));
        without_a_type_line_none_is_declared(ls, from + 1);
    }
}

/// Front matter stands between lines of three hyphens at the top of a file; what follows
/// it is the body. A file that does not begin so, or does not end it, is body as a whole.
pub proof fn front_matter_stands_on_top(raw: Seq<char>, k: int)
    ensures
        !starts_with(raw, "---"@) ==> frontmatter(raw).0 is None && frontmatter(raw).1 == raw,
        starts_with(raw, "---"@) && 0 <= k && occurs_at(raw.skip(3), "\n---"@, k) && (forall|j: int|
            0 <= j < k ==> !#[trigger] occurs_at(raw.skip(3), "\n---"@, j)) ==> frontmatter(raw).0
            == declared_type(lines(raw.skip(3).take(k)), 0) && frontmatter(raw).1 == raw.skip(3).skip(
            k + 4,
        ),
        starts_with(raw, "---"@) && (forall|j: int|
            0 <= j ==> !#[trigger] occurs_at(raw.skip(3), "\n---"@, j)) ==> frontmatter(raw).0 is None
            && frontmatter(raw).1 == raw,
{
    let rest = raw.skip(3);
    let x = "\n---"@;
    lemma_find(rest, x, 0);
    if let Some(e) = find_in(rest, x, 0) {
        if 0 <= k && occurs_at(rest, x, k) && (forall|j: int| 0 <= j < k ==> !#[trigger] occurs_at(
            rest,
            x,
            j,
        )) {
            if e < k {
                assert(!occurs_at(rest, x, e));
            }
            if k < e {
                assert(!occurs_at(rest, x, k));
            }
        }
    }
}

proof fn lemma_find(s: Seq<char>, x: Seq<char>, from: int)
    requires
        0 <= from,
    ensures
        find_in(s, x, from) matches Some(k) ==> from <= k && occurs_at(s, x, k) && forall|j: int|
            from <= j < k ==> !#[trigger] occurs_at(s, x, j),
        find_in(s, x, from) is None ==> forall|j: int| from <= j ==> !#[trigger] occurs_at(s, x, j),
    decreases s.len() + 1 - from,
{
    if from <= s.len() && !occurs_at(s, x, from) {
        lemma_find(s, x, from + 1);
    }
}

/// A file is a memory where its name ends in `.md`, it is no index, and it has a body: the
/// body without the blanks around it, of the declared type, tagged with where it is from
/// and its name.
pub proof fn a_file_is_a_memory(name: Seq<char>, raw: Seq<char>, tag: Seq<char>)
    ensures
        !ends_with(name, ".md"@) ==> file_memory(name, raw, tag) is None,
        name == "MEMORY.md"@ ==> file_memory(name, raw, tag) is None,
        trim(frontmatter(raw).1).len() == 0 ==> file_memory(name, raw, tag) is None,
        ends_with(name, ".md"@) && name != "MEMORY.md"@ && trim(frontmatter(raw).1).len() > 0
            ==> file_memory(name, raw, tag) is Some,
        file_memory(name, raw, tag) matches Some(m) ==> m.text == trim(frontmatter(raw).1)
            && m.mtype == declared_as(frontmatter(raw).0) && m.tags.len() == 2 && m.tags[0] == tag
            && m.tags[1] == lowercase(trim_suffixes(name, ".md"@)) && m.created_at is None,
{
}

/// The memories of several files are those of each, in order.
pub proof fn files_are_read_in_order(files: Seq<(String, String)>, f: (String, String), tag: Seq<char>)
    ensures
        file_memory(f.0@, f.1@, tag) is None ==> file_memories(files.push(f), tag) == file_memories(
            files,
            tag,
        ),
        file_memory(f.0@, f.1@, tag) matches Some(m) ==> file_memories(files.push(f), tag)
            == file_memories(files, tag).push(m),
        file_memories(Seq::empty(), tag).len() == 0,
{
    assert(files.push(f).drop_last() =~= files);
}

/// Stored is what was created: one for each outcome that says so.
pub proof fn stored_are_the_created(outcomes: Seq<RememberOutcome>, o: RememberOutcome)
    ensures
        stored(Seq::empty()) == 0,
        o is Created ==> stored(outcomes.push(o)) == stored(outcomes) + 1,
        !(o is Created) ==> stored(outcomes.push(o)) == stored(outcomes),
{
    assert(outcomes.push(o).drop_last() =~= outcomes);
}

/// Collections are listed below `collections:`: a name with a colon, indented by two, and
/// below it its path, indented by four or more; a line without an indent ends the list.
pub proof fn collections_are_listed_by_indent(l: Listing, line: Seq<char>)
    ensures
        ({
            let r = listed(l, line);
            let body = trim(trim_end(line));
            let depth = utf8_len(trim_end(line)) - utf8_len(trim_start(trim_end(line)));
            let top = trim_end(line) == "collections:"@;
            &&& top ==> r.inside && r.found == l.found && r.current == l.current
            &&& !top && (!l.inside || body.len() == 0) ==> r == l
            &&& !top && l.inside && body.len() > 0 && depth == 0 ==> !r.inside && r.found == l.found
            &&& !top && l.inside && body.len() > 0 && depth == 2 && ends_with(body, ":"@)
                ==> r.current == Some(trim_suffixes(body, ":"@)) && r.found == l.found && r.inside
            &&& !top && l.inside && body.len() > 0 && depth >= 4 && starts_with(body, "path:"@)
                && l.current is Some ==> r.found == l.found.push(
                (l.current->0, trim(body.skip(5))),
            ) && r.inside && r.current == l.current
            &&& !top && l.inside && depth >= 4 && (!starts_with(body, "path:"@) || l.current is None)
                ==> r == l
            &&& r.found.len() <= l.found.len() + 1
        }),
{
}

/// Lines are read one after the other.
pub proof fn a_listing_is_read_line_by_line(ls: Seq<Seq<char>>, n: int)
    requires
        0 < n <= ls.len(),
    ensures
        listing(ls, n) == listed(listing(ls, n - 1), ls[n - 1]),
        listing(ls, 0).found.len() == 0,
        listing(ls, 0).current is None,
        !listing(ls, 0).inside,
{
}

} // verus!
