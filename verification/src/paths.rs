//! Paths as strings, their components separated by `/`.

use vstd::prelude::*;

use crate::text::{chars_of, same, split_fields, string_of, Delim};
#[allow(unused_imports)]
use crate::seqs::kept;
#[allow(unused_imports)]
use crate::text::{fields, texts};
#[allow(unused_imports)]
use vstd::string::*;

verus! {

/// Components other than `.`, which stands for nothing.
pub open spec fn not_dot() -> spec_fn(Seq<char>) -> bool {
    |c: Seq<char>| c != "."@
}

/// The components of a path that name something.
pub open spec fn named_components(path: Seq<char>) -> Seq<Seq<char>> {
    kept(fields(path, Delim::Char('/')), not_dot())
}

/// The last component of a path, unless there is none or it goes up.
pub open spec fn file_name(path: Seq<char>) -> Option<Seq<char>> {
    let c = named_components(path);
    if c.len() == 0 || c.last() == ".."@ {
        None
    } else {
        Some(c.last())
    }
}

/// Position of the last dot, or -1.
pub open spec fn last_dot(name: Seq<char>) -> int
    decreases name.len(),
{
    if name.len() == 0 {
        -1
    } else if name.last() == '.' {
        name.len() - 1
    } else {
        last_dot(name.drop_last())
    }
}

/// What follows the last dot of a file name; nothing where there is no dot or
/// only one in front.
pub open spec fn extension(name: Seq<char>) -> Seq<char> {
    if last_dot(name) <= 0 {
        Seq::empty()
    } else {
        name.skip(last_dot(name) + 1)
    }
}

/// The components of a path that name something.
pub fn named_components_of(path: &str) -> (r: Vec<String>)
    ensures
        texts(r@) == named_components(path@),
{
    let parts = split_fields(path, Delim::Char('/'));
    let ghost all = texts(parts@);
    let mut out: Vec<String> = Vec::new();
    let mut i: usize = 0;
    assert(all.take(0) =~= Seq::empty());
    assert(texts(out@) =~= Seq::empty());
    while i < parts.len()
        invariant
            i <= parts@.len(),
            all == texts(parts@),
            texts(out@) == kept(all.take(i as int), not_dot()),
        decreases parts@.len() - i,
    {
        assert(all.take(i + 1).drop_last() =~= all.take(i as int));
        assert(all.take(i + 1).last() == parts@[i as int]@);
        let ghost before = texts(out@);
        if !same(parts[i].as_str(), ".") {
            let s = parts[i].clone();
            out.push(s);
            assert(texts(out@) =~= before.push(s@));
        }
        i += 1;
    }
    assert(all.take(parts@.len() as int) =~= all);
    out
}

/// The last component of a path, unless there is none or it goes up.
pub fn file_name_of(path: &str) -> (r: Option<String>)
    ensures
        match r {
            Some(n) => file_name(path@) == Some(n@),
            None => file_name(path@) is None,
        },
{
    let parts = named_components_of(path);
    let n: usize = parts.len();
    if n == 0 {
        return None;
    }
    assert(texts(parts@).last() == parts@[n - 1]@);
    if same(parts[n - 1].as_str(), "..") {
        return None;
    }
    Some(parts[n - 1].clone())
}

/// What follows the last dot of a file name.
pub fn extension_of(name: &str) -> (r: String)
    ensures
        r@ == extension(name@),
{
    let v = chars_of(name);
    let mut n: usize = v.len();
    assert(v@.take(n as int) =~= v@);
    while n > 0 && v[n - 1] != '.'
        invariant
            n <= v@.len(),
            last_dot(v@) == last_dot(v@.take(n as int)),
        decreases n,
    {
        assert(v@.take(n as int).drop_last() =~= v@.take(n - 1));
        assert(v@.take(n as int).last() == v@[n - 1]);
        n -= 1;
    }
    proof {
        if n > 0 {
            assert(v@.take(n as int).last() == v@[n - 1]);
        }
        assert(last_dot(v@) == n - 1);
        assert(v@.subrange(n as int, v@.len() as int) =~= v@.skip(n as int));
    }
    if n <= 1 {
        String::new()
    } else {
        string_of(&v, n, v.len())
    }
}

/// The last component of a path without its extension.
pub open spec fn file_stem(path: Seq<char>) -> Option<Seq<char>> {
    match file_name(path) {
        Some(n) => Some(
            if last_dot(n) <= 0 {
                n
            } else {
                n.take(last_dot(n))
            },
        ),
        None => None,
    }
}

/// The last component of a path without its extension.
pub fn file_stem_of(path: &str) -> (r: Option<String>)
    ensures
        match r {
            Some(n) => file_stem(path@) == Some(n@),
            None => file_stem(path@) is None,
        },
{
    match file_name_of(path) {
        Some(name) => {
            let v = chars_of(name.as_str());
            let mut n: usize = v.len();
            assert(v@.take(n as int) =~= v@);
            while n > 0 && v[n - 1] != '.'
                invariant
                    n <= v@.len(),
                    last_dot(v@) == last_dot(v@.take(n as int)),
                decreases n,
            {
                assert(v@.take(n as int).drop_last() =~= v@.take(n - 1));
                assert(v@.take(n as int).last() == v@[n - 1]);
                n -= 1;
            }
            proof {
                if n > 0 {
                    assert(v@.take(n as int).last() == v@[n - 1]);
                }
                assert(last_dot(v@) == n - 1);
            }
            if n <= 1 {
                Some(name)
            } else {
                assert(v@.subrange(0, n - 1) =~= v@.take(n - 1));
                Some(string_of(&v, 0, n - 1))
            }
        },
        None => None,
    }
}

/// `name`, a relative path, below the directory `dir`.
pub open spec fn below(dir: Seq<char>, name: Seq<char>) -> Seq<char> {
    if dir.len() == 0 || dir.last() == '/' {
        dir + name
    } else {
        dir + "/"@ + name
    }
}

/// `name`, a relative path, below the directory `dir`.
pub fn join_below(dir: &str, name: &str) -> (r: String)
    ensures
        r@ == below(dir@, name@),
{
    let v = chars_of(dir);
    let n: usize = v.len();
    let mut out = dir.to_owned();
    if n > 0 && v[n - 1] != '/' {
        out.append("/");
    }
    out.append(name);
    out
}

} // verus!
