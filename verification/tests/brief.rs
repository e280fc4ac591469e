use mimir_core::brief::{
    admits, compose, duplicates_rules, normalize, rank, select, signature, Brief, HEADER,
};
use mimir_core::config::BriefConfig;
use mimir_core::learn::{decay, has_type_prior};
use mimir_core::memory::derive_title;
use mimir_core::model::{Kind, Meta, Node, Scope};

const NOW: i64 = 1_780_000_000;
const DAY: i64 = 86_400;

fn node(id: i64, kind: Kind, subkind: &str, title: &str, body: &str) -> Node {
    Node {
        id,
        uid: format!("01JXGABCDEF123456789{:06}", id),
        kind,
        subkind: Some(subkind.to_string()),
        project_id: None,
        collection_id: None,
        parent_id: None,
        title: Some(title.to_string()),
        body: Some(body.to_string()),
        path: None,
        span_start: None,
        span_end: None,
        lang: None,
        tags_text: String::new(),
        content_hash: None,
        meta: Meta::empty(),
        created_at: 1_780_000_000,
        updated_at: 1_780_000_000,
        access_count: 0,
        last_accessed: None,
        pinned: false,
        superseded_by: None,
        deleted_at: None,
    }
}


/// Four characters to a token.
fn count(text: &str) -> usize {
    (text.chars().count() + 3) / 4
}

/// A pool of memories with what ranking reads beside them.
struct Pool {
    keys: Vec<&'static str>,
    nodes: Vec<Node>,
    strengths: Vec<f64>,
    project: &'static str,
    scope: Scope,
    rules: Option<&'static str>,
}

impl Pool {
    fn new(scope: Scope, project: &'static str, rules: Option<&'static str>) -> Pool {
        Pool {
            keys: vec![],
            nodes: vec![],
            strengths: vec![],
            project,
            scope,
            rules,
        }
    }

    fn capture(
        &mut self,
        key: &'static str,
        text: &str,
        subkind: &str,
        project_id: Option<i64>,
    ) -> usize {
        let id = self.nodes.len() as i64 + 1;
        let mut n = node(id, Kind::Memory, subkind, &derive_title(text), text);
        n.project_id = project_id;
        n.created_at = NOW;
        n.updated_at = NOW;
        self.keys.push(key);
        self.nodes.push(n);
        self.strengths.push(1.0);
        id as usize - 1
    }

    fn backdate(&mut self, i: usize, days: i64) {
        self.nodes[i].created_at = NOW - days * DAY;
        self.nodes[i].updated_at = NOW - days * DAY;
    }

    fn id_of(&self, key: &str) -> i64 {
        let i = self.keys.iter().position(|k| *k == key).expect("a known key");
        self.nodes[i].id
    }

    fn keys_for(&self, ids: &[i64]) -> Vec<&'static str> {
        ids.iter().map(|id| self.keys[*id as usize - 1]).collect()
    }

    /// Millionths of the score of a memory.
    fn score(&self, n: &Node, now: i64) -> i64 {
        let strength = self.strengths[n.id as usize - 1];
        let faded = match decay(n, now) {
            Some((age, half)) => 2f64.powf(-(age as f64 / DAY as f64) / half as f64),
            None => 1.0,
        };
        let affinity = match self.scope {
            Scope::Project(id) if n.project_id == Some(id) => 1.5,
            _ => 1.0,
        };
        let prior = if has_type_prior(n.subkind.as_deref()) {
            1.25
        } else {
            1.0
        };
        let pin = if n.pinned { 2.0 } else { 1.0 };
        let score = pin
            * (1.0 + 0.15 * (1.0 + strength * faded).ln())
            * (1.0 + 0.012 * faded)
            * (1.0 + 0.12 * (prior - 1.0))
            * affinity;
        (score * 1_000_000.0) as i64
    }

    /// The memories of a brief, best first.
    fn ranked(&self, exclude: &Vec<i64>, cfg: &BriefConfig, now: i64) -> Vec<&Node> {
        let stop: Vec<String> = vec![];
        let sig = match self.scope {
            Scope::Project(id) if cfg.global_gate => {
                Some(signature(self.project, &self.nodes, id, &stop))
            }
            _ => None,
        };
        let pool = select(&self.nodes, self.scope, self.rules, sig.as_ref(), &stop);
        let scores: Vec<i64> = pool.iter().map(|n| self.score(n, now)).collect();
        rank(&pool, &scores, exclude, cfg.score_floor)
            .into_iter()
            .map(|i| pool[i])
            .collect()
    }

    fn ids(&self) -> Vec<i64> {
        self.ranked(&vec![], &BriefConfig::default(), NOW)
            .iter()
            .map(|n| n.id)
            .collect()
    }
}

#[test]
fn pool_admits_only_gotcha_and_decision() {
    let mut p = Pool::new(Scope::Global, "", None);
    let g = p.capture("g", "gotcha body", "gotcha", None);
    let d = p.capture("d", "decision body", "decision", None);
    let n = p.capture("n", "note body", "note", None);
    p.nodes[n].pinned = true;
    let ids = p.ids();
    assert!(ids.contains(&p.nodes[g].id) && ids.contains(&p.nodes[d].id));
    assert!(
        !ids.contains(&p.nodes[n].id),
        "pinned note must not be admitted"
    );
    assert!(!admits(&p.nodes[n], Scope::All));
}

#[test]
fn superseded_and_deleted_never_surface() {
    let mut p = Pool::new(Scope::Global, "", None);
    let old = p.capture("old", "old gotcha", "gotcha", None);
    let new = p.capture("new", "new gotcha replacing old", "gotcha", None);
    p.nodes[old].superseded_by = Some(p.nodes[new].id);
    let dead = p.capture("dead", "deleted gotcha", "gotcha", None);
    p.nodes[dead].deleted_at = Some(NOW);
    let ids = p.ids();
    assert!(ids.contains(&p.nodes[new].id));
    assert!(!ids.contains(&p.nodes[old].id), "superseded must never render");
    assert!(!ids.contains(&p.nodes[dead].id), "deleted must never render");
}

#[test]
fn project_gotcha_beats_equal_global_flood() {
    let mut p = Pool::new(Scope::Project(7), "p", None);
    for i in 0..8 {
        p.capture("global", &format!("global gotcha {i}"), "gotcha", None);
    }
    let ours = p.capture("ours", "project gotcha", "gotcha", Some(7));
    assert_eq!(
        p.ids().first().copied(),
        Some(p.nodes[ours].id),
        "same-project affinity must put the project's own gotcha first"
    );
}

#[test]
fn budget_caps_bind_and_best_fit_rescues_short_lines() {
    let mut p = Pool::new(Scope::Global, "", None);
    let long = p.capture(
        "long",
        &format!("long gotcha {}", "verbose padding phrase ".repeat(12)),
        "gotcha",
        None,
    );
    p.nodes[long].pinned = true;
    let short = p.capture("short", "short gotcha", "gotcha", None);
    let mut cfg = BriefConfig::default();
    cfg.score_floor = 0;
    let ranked = p.ranked(&vec![], &cfg, NOW);
    assert_eq!(
        ranked[0].id, p.nodes[long].id,
        "precondition: long ranks first"
    );
    let brief = compose(&ranked, &cfg, 22, NOW, count);
    assert_eq!(
        brief.shown,
        vec![p.nodes[short].id],
        "best-fit must rescue the short line"
    );
    assert!(count(&brief.text) <= 22, "token cap must hold");

    // max_items binds independently of a generous token budget.
    for i in 0..10 {
        p.capture("tiny", &format!("tiny {i}"), "gotcha", None);
    }
    let ranked = p.ranked(&vec![], &cfg, NOW);
    let brief = compose(&ranked, &cfg, 10_000, NOW, count);
    assert_eq!(brief.shown.len(), cfg.max_items);
}

#[test]
fn empty_selection_renders_nothing() {
    let p = Pool::new(Scope::Global, "", None);
    let cfg = BriefConfig::default();
    let brief = compose(&p.ranked(&vec![], &cfg, NOW), &cfg, 150, NOW, count);
    assert!(brief.text.is_empty() && brief.shown.is_empty());
}

#[test]
fn exclusions_and_rules_dedup_filter_candidates() {
    let rules = "House rules:\n- never run cargo publish without fmt check first\n- be kind";
    let mut p = Pool::new(Scope::Global, "", Some(rules));
    let a = p.capture("a", "already shown gotcha", "gotcha", None);
    let b = p.capture(
        "b",
        "Never run cargo publish without fmt check first",
        "gotcha",
        None,
    );
    let c = p.capture("c", "fresh unrelated gotcha", "gotcha", None);
    let ids: Vec<i64> = p
        .ranked(&vec![p.nodes[a].id], &BriefConfig::default(), NOW)
        .iter()
        .map(|n| n.id)
        .collect();
    assert!(
        !ids.contains(&p.nodes[a].id),
        "excluded (already shown) must be dropped"
    );
    assert!(
        !ids.contains(&p.nodes[b].id),
        "content duplicated in rules pack must be dropped"
    );
    assert!(ids.contains(&p.nodes[c].id));
}

#[test]
fn rendering_labels_refs_and_age() {
    let mut p = Pool::new(Scope::Global, "", None);
    let g = p.capture("g", "watch the borrow checker", "gotcha", None);
    p.capture("d", "we chose sqlite", "decision", None);
    p.backdate(g, 200);
    let cfg = BriefConfig::default();
    let brief = compose(&p.ranked(&vec![], &cfg, NOW), &cfg, 150, NOW, count);
    assert!(brief.text.starts_with(HEADER));
    assert!(brief.text.contains("- GOTCHA [m:"));
    assert!(brief.text.contains("- DECISION [m:"));
    assert!(
        brief.text.contains("(6mo)"),
        "stale item must carry an age tag: {}",
        brief.text
    );
    assert!(
        !brief.text.contains("we chose sqlite ("),
        "fresh item must not carry an age tag"
    );
    for line in brief.text.lines().skip(1) {
        assert!(
            line.chars().count() <= cfg.line_chars + 40,
            "line must be bounded before fill: {line}"
        );
    }
}

#[test]
fn normalizing_folds_case_and_blanks() {
    assert_eq!(normalize("  Never\n\tFORCE-push "), "never force-push");
    let n = node(1, Kind::Memory, "gotcha", "t", "Never   FORCE-push");
    assert!(duplicates_rules(&n, "rules: never force-push, ever"));
    assert!(!duplicates_rules(&n, "rules: never merge"));
}

#[test]
fn a_pin_outranks_by_exactly_its_factor_and_ties_go_to_the_fresher() {
    let mut p = Pool::new(Scope::Global, "", None);
    let a = p.capture("a", "one", "gotcha", None);
    let b = p.capture("b", "two", "gotcha", None);
    let c = p.capture("c", "three", "gotcha", None);
    p.nodes[b].updated_at = NOW + 1;
    let pool: Vec<&Node> = p.nodes.iter().collect();
    // Equal scores: the latest change first, then the lowest id.
    assert_eq!(rank(&pool, &vec![5, 5, 5], &vec![], 0), vec![b, a, c]);
    // A floor of one keeps only the best.
    assert_eq!(rank(&pool, &vec![5, 4, 5], &vec![], 1_000_000), vec![a, c]);
    // What is excluded still sets the floor.
    assert_eq!(rank(&pool, &vec![100, 74, 75], &vec![1], 750_000), vec![c]);
    // A floor of nothing keeps everything.
    assert_eq!(rank(&pool, &vec![-3, 4, -5], &vec![], 0).len(), 3);
}

#[test]
fn a_global_memory_needs_a_common_word_or_a_pin() {
    let mut p = Pool::new(Scope::Project(7), "atlas", None);
    p.capture("own", "the payments sandbox shares limits", "gotcha", Some(7));
    let near = p.capture("near", "payments retries are idempotent", "gotcha", None);
    let far = p.capture("far", "colored exports drop colors", "gotcha", None);
    let short = p.capture("short", "the map is the end", "gotcha", None);
    let other = p.capture("other", "payments elsewhere", "gotcha", Some(8));
    let stop: Vec<String> = vec![];
    let sig = signature("atlas", &p.nodes, 7, &stop);
    assert_eq!(sig, vec!["atlas", "payments", "sandbox", "shares", "limits"]);
    let pool = |nodes: &Vec<Node>| -> Vec<i64> {
        select(nodes, Scope::Project(7), None, Some(&sig), &stop)
            .iter()
            .map(|n| n.id)
            .collect()
    };
    assert_eq!(pool(&p.nodes), vec![1, near as i64 + 1]);
    p.nodes[far].pinned = true;
    assert_eq!(pool(&p.nodes), vec![1, near as i64 + 1, far as i64 + 1]);
    assert!(!admits(&p.nodes[other], Scope::Project(7)));
    assert!(admits(&p.nodes[short], Scope::Project(7)));
    // Where no signature counts, every global memory is in.
    assert_eq!(
        select(&p.nodes, Scope::Project(7), None, None, &stop).len(),
        4
    );
}

// ---------------------------------------------------------------------
// Labeled pools
// ---------------------------------------------------------------------

const CURVE_CAPS: [usize; 4] = [100, 150, 250, 400];

#[derive(Clone, Copy, PartialEq, Eq)]
enum Fixture {
    Aria,
    Bookforge,
    BookforgeEmpty,
    WeakTail,
    Budget,
}

struct Question {
    name: &'static str,
    fixture: Fixture,
    exclude: &'static [&'static str],
    expected: &'static [&'static str],
    first: Option<&'static str>,
    forbidden: &'static [&'static str],
}

const ARIA_RULES: &str = "ARIA project rules:\n\
     - Use the workspace prettier config; never a per-package one.\n\
     - All API handlers must validate the session token before touching the db.\n\
     - Branch names use the aria/<ticket> prefix convention for CI routing.";

const BUDGET_RULES: &str = "Atlas conventions:\n\
     - Indentation is tabs in Go files and four spaces everywhere else; gofmt is the arbiter of layout.\n\
     - PR titles follow conventional commits.";

const QUESTIONS: &[Question] = &[
    Question {
        name: "aria-startup",
        fixture: Fixture::Aria,
        exclude: &[],
        expected: &["aria_checkout", "aria_fresh", "aria_new"],
        first: Some("aria_checkout"),
        forbidden: &[
            "aria_old",
            "aria_deleted",
            "aria_rules_dup",
            "glob_yield",
            "glob_far",
        ],
    },
    Question {
        name: "aria-already-shown",
        fixture: Fixture::Aria,
        exclude: &["aria_checkout"],
        expected: &["aria_fresh", "aria_new"],
        first: None,
        forbidden: &[
            "aria_checkout",
            "aria_old",
            "aria_deleted",
            "aria_rules_dup",
            "glob_yield",
            "glob_far",
        ],
    },
    Question {
        name: "bookforge-own",
        fixture: Fixture::Bookforge,
        exclude: &[],
        expected: &["bf_own", "bf_pin_force_push"],
        first: None,
        forbidden: &["bf_glob_3mf", "bf_glob_nvenc"],
    },
    Question {
        name: "bookforge-empty-silence",
        fixture: Fixture::BookforgeEmpty,
        exclude: &[],
        expected: &[],
        first: None,
        forbidden: &["bf_glob_3mf", "bf_glob_nvenc"],
    },
    Question {
        name: "weak-tail-fresh-session",
        fixture: Fixture::WeakTail,
        exclude: &[],
        expected: &["wt_pinned"],
        first: Some("wt_pinned"),
        forbidden: &["wt_weak_a", "wt_weak_b"],
    },
    Question {
        name: "weak-tail-suppressed",
        fixture: Fixture::WeakTail,
        exclude: &["wt_pinned"],
        expected: &[],
        first: None,
        forbidden: &["wt_pinned", "wt_weak_a", "wt_weak_b"],
    },
    Question {
        name: "budget-truncation",
        fixture: Fixture::Budget,
        exclude: &[],
        expected: &["bud_v1", "bud_v2", "bud_v3", "bud_v4", "bud_tabs"],
        first: Some("bud_v1"),
        forbidden: &[],
    },
];

fn aria() -> Pool {
    let mut p = Pool::new(Scope::Project(100), "aria", Some(ARIA_RULES));
    let checkout = p.capture(
        "aria_checkout",
        "Always clone through the canonical checkout script; a bare git clone skips the \
         submodule pinning and LFS hooks.",
        "gotcha",
        Some(100),
    );
    p.strengths[checkout] = 3.0;
    p.backdate(checkout, 40);
    p.capture(
        "aria_fresh",
        "The staging S3 bucket rotates credentials nightly at 03:00 UTC; cached \
         presigned URLs go stale after rotation.",
        "gotcha",
        Some(100),
    );
    let new = p.capture(
        "aria_new",
        "Retry policy: exponential backoff with jitter, max five attempts, then \
         dead-letter — replaces the old fixed-delay loop.",
        "decision",
        Some(100),
    );
    p.strengths[new] = 1.6;
    p.backdate(new, 30);
    let old = p.capture(
        "aria_old",
        "Retry policy: fixed 2 second delay between attempts, retry forever until the \
         operation succeeds.",
        "decision",
        Some(100),
    );
    p.backdate(old, 60);
    p.nodes[old].superseded_by = Some(p.nodes[new].id);
    let deleted = p.capture(
        "aria_deleted",
        "Old CI runner leaks docker volumes; prune them manually after each release \
         build finishes.",
        "gotcha",
        Some(100),
    );
    p.nodes[deleted].deleted_at = Some(NOW);
    let dup = p.capture(
        "aria_rules_dup",
        "All API handlers must validate the session token before touching the db.",
        "gotcha",
        Some(100),
    );
    p.backdate(dup, 20);
    p.capture(
        "glob_yield",
        "A stale checkout of a pinned toolchain silently builds against the wrong std; \
         rerun the pin script after rebasing.",
        "gotcha",
        None,
    );
    p.capture(
        "glob_far",
        "Kubernetes ingress rewrites strip the auth header unless the rewrite \
         annotation is set explicitly.",
        "gotcha",
        None,
    );
    p
}

fn bookforge(own: bool) -> Pool {
    let mut p = Pool::new(Scope::Project(200), "bookforge", None);
    if own {
        let i = p.capture(
            "bf_own",
            "Chapter typesetting breaks on long epigraphs; wrap them in the quote \
             environment before the layout pass.",
            "gotcha",
            Some(200),
        );
        p.strengths[i] = 3.0;
    }
    let pinned = p.capture(
        "bf_pin_force_push",
        "Never force-push a shared branch; rewriting published history strands every \
         checked-out clone.",
        "gotcha",
        None,
    );
    p.nodes[pinned].pinned = true;
    p.backdate(pinned, 60);
    p.capture(
        "bf_glob_3mf",
        "Colored 3MF exports from the python mesher drop vertex colors unless the \
         slicer profile enables painting.",
        "gotcha",
        None,
    );
    p.capture(
        "bf_glob_nvenc",
        "NVENC sessions leak on consumer GPUs when the encoder is reopened without \
         destroying the old context.",
        "gotcha",
        None,
    );
    if !own {
        p.nodes[pinned].deleted_at = Some(NOW);
    }
    p
}

fn weak_tail() -> Pool {
    let mut p = Pool::new(Scope::Global, "", None);
    let pinned = p.capture(
        "wt_pinned",
        "Database migrations must run inside a transaction; a half-applied migration \
         bricks the deploy.",
        "gotcha",
        None,
    );
    p.nodes[pinned].pinned = true;
    p.strengths[pinned] = 2.0;
    p.capture(
        "wt_weak_a",
        "The vendored spellcheck wordlist is sorted case-sensitively; resorting it with \
         plain sort breaks the diff.",
        "gotcha",
        None,
    );
    p.capture(
        "wt_weak_b",
        "Sample fixtures in the demo folder use CRLF endings on purpose; the import \
         test depends on them staying CRLF.",
        "gotcha",
        None,
    );
    p
}

fn budget() -> Pool {
    let mut p = Pool::new(Scope::Project(300), "atlas", Some(BUDGET_RULES));
    let v1 = p.capture(
        "bud_v1",
        "The payments sandbox shares rate limits with production; a runaway test loop \
         locks out real checkouts.",
        "gotcha",
        Some(300),
    );
    p.strengths[v1] = 3.0;
    let v2 = p.capture(
        "bud_v2",
        "Schema migrations must ship one release before the code that needs them; \
         rollback has to stay possible.",
        "gotcha",
        Some(300),
    );
    p.strengths[v2] = 2.6;
    let v3 = p.capture(
        "bud_v3",
        "The feature-flag service caches for five minutes; toggling a flag during an \
         incident needs a cache purge.",
        "gotcha",
        Some(300),
    );
    p.strengths[v3] = 2.2;
    let v4 = p.capture(
        "bud_v4",
        "Load tests against the shared cluster must be announced in ops chat first; \
         autoscaling bills are per-minute.",
        "gotcha",
        Some(300),
    );
    p.strengths[v4] = 1.8;
    let tabs = p.capture(
        "bud_tabs",
        "Indentation is tabs in Go files and four spaces everywhere else; gofmt is the \
         arbiter of layout.",
        "gotcha",
        Some(300),
    );
    p.strengths[tabs] = 2.0;
    p.capture(
        "bud_fill_a",
        "Local dev seeds twenty demo users; the admin one is always \
         demo-admin@example.test with password in .env.sample.",
        "gotcha",
        Some(300),
    );
    p.capture(
        "bud_fill_b",
        "The changelog generator reads squashed commit subjects only; bodies are \
         ignored when drafting release notes.",
        "gotcha",
        Some(300),
    );
    p.capture(
        "bud_fill_c",
        "Grafana dashboards live in the ops repo, not this one; edits made in the UI \
         are overwritten on deploy.",
        "gotcha",
        Some(300),
    );
    p
}

impl Fixture {
    fn build(self) -> Pool {
        match self {
            Fixture::Aria => aria(),
            Fixture::Bookforge => bookforge(true),
            Fixture::BookforgeEmpty => bookforge(false),
            Fixture::WeakTail => weak_tail(),
            Fixture::Budget => budget(),
        }
    }
}

struct Outcome {
    selected: Vec<&'static str>,
    shown: Vec<&'static str>,
    text: String,
}

fn run_question(q: &Question, cap: usize) -> Outcome {
    let p = q.fixture.build();
    let cfg = BriefConfig::default();
    let exclude: Vec<i64> = q.exclude.iter().map(|k| p.id_of(k)).collect();
    let ranked = p.ranked(&exclude, &cfg, NOW);
    let ids: Vec<i64> = ranked.iter().map(|n| n.id).collect();
    let b = compose(&ranked, &cfg, cap, NOW, count);
    Outcome {
        selected: p.keys_for(&ids),
        shown: p.keys_for(&b.shown),
        text: b.text,
    }
}

fn catch_rate(q: &Question, o: &Outcome) -> Option<f64> {
    if q.expected.is_empty() {
        return None;
    }
    let hits = q.expected.iter().filter(|k| o.shown.contains(*k)).count();
    Some(hits as f64 / q.expected.len() as f64)
}

fn mean_catch(cap: usize) -> f64 {
    let catches: Vec<f64> = QUESTIONS
        .iter()
        .filter_map(|q| catch_rate(q, &run_question(q, cap)))
        .collect();
    catches.iter().sum::<f64>() / catches.len() as f64
}

#[test]
fn gate2_forbidden_never_selected_or_rendered() {
    for cap in CURVE_CAPS {
        for q in QUESTIONS {
            let outcome = run_question(q, cap);
            for forbidden in q.forbidden {
                assert!(
                    !outcome.selected.contains(forbidden),
                    "[{}@{cap}] forbidden '{forbidden}' survived selection",
                    q.name
                );
                assert!(
                    !outcome.shown.contains(forbidden),
                    "[{}@{cap}] forbidden '{forbidden}' was rendered",
                    q.name
                );
            }
        }
    }
}

#[test]
fn gate3_budget_adherence_at_every_fixture() {
    for cap in CURVE_CAPS {
        for q in QUESTIONS {
            let outcome = run_question(q, cap);
            assert!(
                count(&outcome.text) <= cap,
                "[{}@{cap}] rendered {} tokens",
                q.name,
                count(&outcome.text)
            );
        }
    }
}

#[test]
fn gate1_brief_beats_rules_pack_baseline() {
    let mean = mean_catch(BriefConfig::default().max_tokens);
    let mut baseline: Vec<f64> = vec![];
    for q in QUESTIONS {
        if q.expected.is_empty() {
            continue;
        }
        let p = q.fixture.build();
        let hits = match p.rules {
            Some(rules) => {
                let norm = normalize(rules);
                q.expected
                    .iter()
                    .filter(|k| duplicates_rules(&p.nodes[p.id_of(k) as usize - 1], &norm))
                    .count()
            }
            None => 0,
        };
        baseline.push(hits as f64 / q.expected.len() as f64);
    }
    let baseline_mean = baseline.iter().sum::<f64>() / baseline.len() as f64;
    assert!(
        baseline_mean > 0.0,
        "baseline must not be a strawman zero — bud_tabs should be rules-covered"
    );
    assert!(
        mean > baseline_mean,
        "brief catch {:.3} must beat rules baseline {:.3}",
        mean,
        baseline_mean
    );
}

#[test]
fn catch_grows_with_the_cap() {
    let curve: Vec<f64> = CURVE_CAPS.iter().map(|cap| mean_catch(*cap)).collect();
    for pair in curve.windows(2) {
        assert!(pair[1] >= pair[0] - 1e-9);
    }
}

#[test]
fn expected_first_holds_at_every_cap() {
    for cap in CURVE_CAPS {
        for q in QUESTIONS {
            let Some(first) = q.first else {
                continue;
            };
            let outcome = run_question(q, cap);
            assert_eq!(
                outcome.shown.first().copied(),
                Some(first),
                "[{}@{cap}] first rendered guard",
                q.name
            );
        }
    }
}

#[test]
fn every_labeled_guard_but_the_repeated_one_is_shown_at_the_largest_cap() {
    for q in QUESTIONS {
        let outcome = run_question(q, 400);
        for key in q.expected {
            if *key != "bud_tabs" {
                assert!(
                    outcome.shown.contains(key),
                    "[{}] '{key}' is missing from {:?}",
                    q.name,
                    outcome.shown
                );
            }
        }
        if q.expected.is_empty() {
            assert!(outcome.text.is_empty(), "[{}] must be silent", q.name);
        }
    }
}

#[test]
fn fresh_capture_is_included_at_default_cap() {
    let outcome = run_question(&QUESTIONS[0], BriefConfig::default().max_tokens);
    assert!(
        outcome.shown.contains(&"aria_fresh"),
        "fresh capture missing from startup brief: {:?}",
        outcome.shown
    );
}

#[test]
fn repeated_exposure_replay_holds_selection() {
    const RECENT_SHOWN_SECS: i64 = 6 * 3600;
    let cfg = BriefConfig::default();
    let p = aria();
    let mut log: Vec<(&'static str, i64, i64)> = vec![];
    let schedule: [(&'static str, i64, &'static str, bool); 4] = [
        ("s1-startup", 0, "s1", false),
        ("s1-clear-recap", 3600, "s1", true),
        ("s2-startup-within-window", 2 * 3600, "s2", false),
        ("s3-startup-next-day", 9 * 3600, "s3", false),
    ];
    let mut fires: Vec<(&'static str, Vec<&'static str>)> = vec![];
    for (label, at_offset, session, recap) in schedule {
        let t = NOW + at_offset;
        let exclude: Vec<i64> = log
            .iter()
            .filter(|(s, _, shown_at)| {
                let recent = *shown_at > t - RECENT_SHOWN_SECS;
                if recap {
                    *s != session && recent
                } else {
                    *s == session || recent
                }
            })
            .map(|(_, id, _)| *id)
            .collect();
        let ranked = p.ranked(&exclude, &cfg, t);
        let budget = if recap { cfg.recap_tokens } else { cfg.max_tokens };
        let b: Brief = compose(&ranked, &cfg, budget, t, count);
        for id in &b.shown {
            log.push((session, *id, t));
        }
        fires.push((label, p.keys_for(&b.shown)));
    }
    let shown = |label: &str| -> Vec<&'static str> {
        fires.iter().find(|(l, _)| *l == label).expect("a fire").1.clone()
    };
    assert_eq!(shown("s1-startup").first().copied(), Some("aria_checkout"));
    assert_eq!(
        shown("s1-clear-recap").first().copied(),
        Some("aria_checkout"),
        "recap must re-anchor the top guard, not rotate to the unseen tail"
    );
    let s2 = shown("s2-startup-within-window");
    assert!(
        s2.is_empty(),
        "within-window sibling session must stay silent, got {:?}",
        s2
    );
    assert_eq!(
        shown("s3-startup-next-day").first().copied(),
        Some("aria_checkout"),
        "top guard must keep surfacing across sessions"
    );
}
