//! Which project a directory belongs to.

use vstd::prelude::*;

use crate::paths::file_name_of;
#[allow(unused_imports)]
use crate::paths::file_name;
use crate::text::{same, without_prefix};
#[allow(unused_imports)]
use crate::text::starts_with;
#[allow(unused_imports)]
use vstd::string::*;

verus! {

/// Markers of a project root, in order of priority: version control, and the
/// explicit opt-in.
pub const ROOT_MARKERS: [&'static str; 5] = [".git", ".hg", ".svn", ".jj", ".mimir"];

/// Build files that mark a project root where no other marker does.
pub const PROJECT_MARKERS: [&'static str; 8] = [
    "Cargo.toml",
    "package.json",
    "pyproject.toml",
    "go.mod",
    "go.work",
    "deno.json",
    "deno.jsonc",
    "pnpm-workspace.yaml",
];

/// What the search for a project root came to.
#[derive(Debug, Clone, PartialEq, Eq)]
pub enum Detection {
    /// The root, and the marker that identified it.
    Found { root: String, via: &'static str },
    /// Nothing; the directory where the search started.
    NotFound { from: String },
}

/// Whether `has` may answer `b` when asked for `marker` in `dir`.
pub open spec fn answers<F: Fn(&str, &str) -> bool>(
    has: F,
    dir: Seq<char>,
    marker: Seq<char>,
    b: bool,
) -> bool {
    exists|d: &str, m: &str| d@ == dir && m@ == marker && #[trigger] call_ensures(has, (d, m), b)
}

/// Whether `has` may answer that none of the first `n` markers is in `dir`.
pub open spec fn lacks<F: Fn(&str, &str) -> bool>(
    has: F,
    dir: Seq<char>,
    markers: Seq<&'static str>,
    n: int,
) -> bool {
    forall|j: int| 0 <= j < n ==> answers(has, dir, (#[trigger] markers[j])@, false)
}

/// Whether the nearest directory with one of the markers is number `i`, by its
/// marker number `j`: no nearer one has any, and it has none before that.
pub open spec fn nearest<F: Fn(&str, &str) -> bool>(
    has: F,
    dirs: Seq<String>,
    markers: Seq<&'static str>,
    i: int,
    j: int,
) -> bool {
    &&& 0 <= i < dirs.len()
    &&& 0 <= j < markers.len()
    &&& forall|k: int|
        0 <= k < i ==> lacks(has, (#[trigger] dirs[k])@, markers, markers.len() as int)
    &&& lacks(has, dirs[i]@, markers, j)
    &&& answers(has, dirs[i]@, markers[j]@, true)
}

/// Whether no directory has any of the markers.
pub open spec fn nowhere<F: Fn(&str, &str) -> bool>(
    has: F,
    dirs: Seq<String>,
    markers: Seq<&'static str>,
) -> bool {
    forall|k: int|
        0 <= k < dirs.len() ==> lacks(has, (#[trigger] dirs[k])@, markers, markers.len() as int)
}

/// The nearest directory with one of the markers, and the marker. `dirs` goes
/// from a directory upwards.
fn walk_up<F: Fn(&str, &str) -> bool>(
    dirs: &Vec<String>,
    markers: &Vec<&'static str>,
    has: &F,
) -> (r: Option<(usize, usize)>)
    requires
        forall|d: &str, m: &str| call_requires(*has, (d, m)),
    ensures
        match r {
            Some((i, j)) => nearest(*has, dirs@, markers@, i as int, j as int),
            None => nowhere(*has, dirs@, markers@),
        },
{
    let mut i: usize = 0;
    while i < dirs.len()
        invariant
            i <= dirs@.len(),
            forall|d: &str, m: &str| call_requires(*has, (d, m)),
            forall|k: int|
                0 <= k < i ==> lacks(*has, (#[trigger] dirs@[k])@, markers@, markers@.len() as int),
        decreases dirs@.len() - i,
    {
        let dir = dirs[i].as_str();
        let mut j: usize = 0;
        while j < markers.len()
            invariant
                i < dirs@.len(),
                j <= markers@.len(),
                dir@ == dirs@[i as int]@,
                forall|d: &str, m: &str| call_requires(*has, (d, m)),
                forall|k: int|
                    0 <= k < i ==> lacks(
                        *has,
                        (#[trigger] dirs@[k])@,
                        markers@,
                        markers@.len() as int,
                    ),
                lacks(*has, dir@, markers@, j as int),
            decreases markers@.len() - j,
        {
            let m = markers[j];
            let found = has(dir, m);
            assert(call_ensures(*has, (dir, m), found));
            assert(answers(*has, dir@, m@, found));
            if found {
                return Some((i, j));
            }
            j += 1;
        }
        i += 1;
    }
    None
}

/// The markers of a project root.
pub fn root_markers() -> (r: Vec<&'static str>)
    ensures
        r@ == ROOT_MARKERS@,
{
    let mut v: Vec<&'static str> = Vec::new();
    let mut i: usize = 0;
    while i < 5
        invariant
            i <= 5,
            v@ == ROOT_MARKERS@.take(i as int),
        decreases 5 - i,
    {
        v.push(ROOT_MARKERS[i]);
        assert(v@ =~= ROOT_MARKERS@.take(i + 1));
        i += 1;
    }
    assert(ROOT_MARKERS@.take(5) =~= ROOT_MARKERS@);
    v
}

/// The build files that mark a project root.
pub fn project_markers() -> (r: Vec<&'static str>)
    ensures
        r@ == PROJECT_MARKERS@,
{
    let mut v: Vec<&'static str> = Vec::new();
    let mut i: usize = 0;
    while i < 8
        invariant
            i <= 8,
            v@ == PROJECT_MARKERS@.take(i as int),
        decreases 8 - i,
    {
        v.push(PROJECT_MARKERS[i]);
        assert(v@ =~= PROJECT_MARKERS@.take(i + 1));
        i += 1;
    }
    assert(PROJECT_MARKERS@.take(8) =~= PROJECT_MARKERS@);
    v
}

/// Resolves the project root: the nearest directory with a version-control or
/// explicit marker; else the nearest with a build file; else none. `dirs` goes
/// from the starting directory upwards, `has` tells whether a directory holds a
/// marker.
pub fn detect<F: Fn(&str, &str) -> bool>(from: &str, dirs: &Vec<String>, has: F) -> (r: Detection)
    requires
        forall|d: &str, m: &str| call_requires(has, (d, m)),
    ensures
        match r {
            Detection::Found { root, via } => {
                ||| exists|i: int, j: int| #[trigger]
                    nearest(has, dirs@, ROOT_MARKERS@, i, j) && root@ == dirs@[i]@ && via@
                        == ROOT_MARKERS@[j]@
                ||| nowhere(has, dirs@, ROOT_MARKERS@) && exists|i: int, j: int| #[trigger]
                    nearest(has, dirs@, PROJECT_MARKERS@, i, j) && root@ == dirs@[i]@ && via@
                        == PROJECT_MARKERS@[j]@
            },
            Detection::NotFound { from: f } => f@ == from@ && nowhere(has, dirs@, ROOT_MARKERS@)
                && nowhere(has, dirs@, PROJECT_MARKERS@),
        },
{
    let roots = root_markers();
    if let Some((i, j)) = walk_up(dirs, &roots, &has) {
        assert(nearest(has, dirs@, ROOT_MARKERS@, i as int, j as int));
        return Detection::Found { root: dirs[i].clone(), via: roots[j] };
    }
    let projects = project_markers();
    if let Some((i, j)) = walk_up(dirs, &projects, &has) {
        assert(nearest(has, dirs@, PROJECT_MARKERS@, i as int, j as int));
        return Detection::Found { root: dirs[i].clone(), via: projects[j] };
    }
    Detection::NotFound { from: from.to_owned() }
}

/// The project root alone.
pub fn find_project_root<F: Fn(&str, &str) -> bool>(from: &str, dirs: &Vec<String>, has: F) -> (r:
    Option<String>)
    requires
        forall|d: &str, m: &str| call_requires(has, (d, m)),
    ensures
        match r {
            Some(root) => {
                ||| exists|i: int, j: int| #[trigger]
                    nearest(has, dirs@, ROOT_MARKERS@, i, j) && root@ == dirs@[i]@
                ||| nowhere(has, dirs@, ROOT_MARKERS@) && exists|i: int, j: int| #[trigger]
                    nearest(has, dirs@, PROJECT_MARKERS@, i, j) && root@ == dirs@[i]@
            },
            None => nowhere(has, dirs@, ROOT_MARKERS@) && nowhere(has, dirs@, PROJECT_MARKERS@),
        },
{
    match detect(from, dirs, has) {
        Detection::Found { root, .. } => Some(root),
        Detection::NotFound { .. } => None,
    }
}

/// How a marker is called.
pub open spec fn label_of(via: Seq<char>) -> Seq<char> {
    if via == ".git"@ {
        "git"@
    } else if via == ".hg"@ {
        "hg"@
    } else if via == ".svn"@ {
        "svn"@
    } else if via == ".jj"@ {
        "jj"@
    } else {
        via
    }
}

/// How a marker is called.
pub fn via_label(via: &str) -> (r: &str)
    ensures
        r@ == label_of(via@),
{
    if same(via, ".git") {
        "git"
    } else if same(via, ".hg") {
        "hg"
    } else if same(via, ".svn") {
        "svn"
    } else if same(via, ".jj") {
        "jj"
    } else {
        via
    }
}

/// A Windows extended-length path in its normal form; other paths as they are.
pub open spec fn normal_form(s: Seq<char>) -> Seq<char> {
    if starts_with(s, "\\\\?\\UNC\\"@) {
        "\\\\"@ + s.skip("\\\\?\\UNC\\"@.len() as int)
    } else if starts_with(s, "\\\\?\\"@) {
        s.skip("\\\\?\\"@.len() as int)
    } else {
        s
    }
}

/// A Windows extended-length path in its normal form: a drive path loses the
/// prefix, a network path gets its leading backslashes back.
pub fn simplify_verbatim(s: &str) -> (r: String)
    ensures
        r@ == normal_form(s@),
{
    if let Some(rest) = without_prefix(s, "\\\\?\\UNC\\") {
        let mut out = "\\\\".to_owned();
        out.append(rest.as_str());
        return out;
    }
    match without_prefix(s, "\\\\?\\") {
        Some(rest) => rest,
        None => s.to_owned(),
    }
}

/// The identity of a project root. `canonical` is the root as the system
/// canonicalizes it, or the root itself where that fails.
pub fn canonical_root(canonical: &str) -> (r: String)
    ensures
        r@ == normal_form(canonical@),
{
    simplify_verbatim(canonical)
}

/// The name of a project: the last component of its root, or the root.
pub fn project_name(root: &str) -> (r: String)
    ensures
        r@ == (match file_name(root@) {
            Some(n) => n,
            None => root@,
        }),
{
    match file_name_of(root) {
        Some(n) => n,
        None => root.to_owned(),
    }
}

} // verus!
