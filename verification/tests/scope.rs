use mimir_core::scope::{
    detect, find_project_root, project_name, root_markers, simplify_verbatim, via_label, Detection,
};

/// A directory and its ancestors, nearest first.
fn ancestors(path: &str) -> Vec<String> {
    let mut out = vec![path.to_string()];
    let mut p = path;
    while let Some(i) = p.rfind('/') {
        p = &p[..i];
        if !p.is_empty() {
            out.push(p.to_string());
        }
    }
    out
}

fn on(files: &'static [&'static str]) -> impl Fn(&str, &str) -> bool {
    move |dir: &str, marker: &str| files.contains(&format!("{dir}/{marker}").as_str())
}

#[test]
fn finds_root_by_any_marker_and_walks_up() {
    for marker in root_markers() {
        let found = find_project_root(
            "/t/proj/a/b/c",
            &ancestors("/t/proj/a/b/c"),
            |dir: &str, m: &str| dir == "/t/proj" && m == marker,
        );
        assert_eq!(
            found.as_deref(),
            Some("/t/proj"),
            "marker {marker} should be found from a nested dir"
        );
    }
}

#[test]
fn mimir_marker_can_be_a_plain_file() {
    let found = find_project_root("/t/novcs", &ancestors("/t/novcs"), on(&["/t/novcs/.mimir"]));
    assert_eq!(found.as_deref(), Some("/t/novcs"));
}

#[test]
fn none_outside_any_project() {
    assert_eq!(find_project_root("/t", &ancestors("/t"), on(&[])), None);
}

#[test]
fn detects_git_root_via() {
    assert_eq!(
        detect("/t/proj", &ancestors("/t/proj"), on(&["/t/proj/.git"])),
        Detection::Found {
            root: "/t/proj".to_string(),
            via: ".git"
        }
    );
    assert_eq!(via_label(".git"), "git");
}

#[test]
fn detects_non_git_build_marker() {
    for marker in ["Cargo.toml", "package.json", "pyproject.toml"] {
        assert_eq!(
            detect(
                "/t/proj/src/deep",
                &ancestors("/t/proj/src/deep"),
                |dir: &str, m: &str| dir == "/t/proj" && m == marker,
            ),
            Detection::Found {
                root: "/t/proj".to_string(),
                via: marker
            },
            "{marker} should scope the project from a nested dir"
        );
    }
}

#[test]
fn nested_build_marker_deepest_wins() {
    // From the inner dir, the nearest (deepest) marker wins.
    assert_eq!(
        detect(
            "/t/workspace/packages/app",
            &ancestors("/t/workspace/packages/app"),
            on(&[
                "/t/workspace/package.json",
                "/t/workspace/packages/app/package.json"
            ]),
        ),
        Detection::Found {
            root: "/t/workspace/packages/app".to_string(),
            via: "package.json"
        }
    );
}

#[test]
fn vcs_root_wins_over_deeper_build_marker() {
    // The repository wins even though Cargo.toml is nearer.
    assert_eq!(
        detect(
            "/t/repo/crates/sub",
            &ancestors("/t/repo/crates/sub"),
            on(&["/t/repo/.git", "/t/repo/crates/sub/Cargo.toml"]),
        ),
        Detection::Found {
            root: "/t/repo".to_string(),
            via: ".git"
        }
    );
}

#[test]
fn bare_dir_is_not_found() {
    assert_eq!(
        detect("/t/scratch", &ancestors("/t/scratch"), on(&[])),
        Detection::NotFound {
            from: "/t/scratch".to_string()
        }
    );
}

#[test]
fn the_name_is_the_last_component() {
    assert_eq!(project_name("/home/user/proj"), "proj");
    assert_eq!(project_name("/"), "/");
}

#[test]
fn simplify_verbatim_rewrites_unc_and_drive_paths() {
    // Drive paths just lose the verbatim prefix.
    assert_eq!(simplify_verbatim(r"\\?\C:\dir\proj"), r"C:\dir\proj");
    // UNC paths must become a real \\server\share path, not "UNC\...".
    assert_eq!(
        simplify_verbatim(r"\\?\UNC\server\share\proj"),
        r"\\server\share\proj"
    );
    // Already-normal paths are left untouched.
    assert_eq!(
        simplify_verbatim(r"\\server\share\proj"),
        r"\\server\share\proj"
    );
    assert_eq!(simplify_verbatim("/home/user/proj"), "/home/user/proj");
}
