use mimir_core::savings::{
    by_source, daily_saved, spent, summary, totals, SavingsEvent, Spent, Totals,
};

fn event(at: i64, source: &str, before: i64, after: i64) -> SavingsEvent {
    SavingsEvent {
        at,
        source: source.to_string(),
        before,
        after,
    }
}

const NOW: i64 = 1_780_000_000;

#[test]
fn record_and_aggregate() {
    let events = vec![
        event(NOW, "outline", 1000, 80),
        event(NOW, "peek", 500, 40),
        event(NOW, "outline", 200, 20),
    ];
    let t = totals(&events, None);
    assert_eq!(t.events, 3);
    assert_eq!(t.before, 1700);
    assert_eq!(t.after, 140);
    assert_eq!(t.saved(), 1560);
    let by = by_source(&events, None);
    assert_eq!(by.len(), 2);
    // outline saved more → first
    assert_eq!(by[0].0, "outline");
    assert_eq!(by[0].1.saved(), 1100);
    assert_eq!(by[1].0, "peek");
    assert_eq!(by[1].1.saved(), 460);
}

#[test]
fn summary_matches_per_window_totals() {
    let events = vec![
        event(NOW, "outline", 1000, 100),
        event(NOW, "filter", 500, 50),
    ];
    let s = summary(&events, NOW);
    // both events are recent → counted in every window
    assert_eq!(s.day, 1350);
    assert_eq!(s.week, 1350);
    assert_eq!(s.month, 1350);
    assert_eq!(s.all.saved(), 1350);
    assert_eq!(s.all.events, 2);
}

#[test]
fn saved_never_negative() {
    let t = Totals {
        events: 1,
        before: 10,
        after: 25,
    };
    assert_eq!(t.saved(), 0);
}

#[test]
fn spent_rollup_counts_only_cost_sources() {
    let events = vec![
        event(NOW, "filter", 1000, 200),
        event(NOW, "brief", 0, 86),
        event(NOW, "brief", 0, 100),
    ];
    let sp = spent(&events, NOW);
    assert_eq!(sp.day, 186, "both brief fires count, filter never does");
    assert_eq!(sp.week, 186);
    assert_eq!(sp.month, 186);
    assert_eq!(sp.all, 186);
    assert_eq!(sp.events, 2);

    // An empty ledger spends nothing.
    assert_eq!(spent(&vec![], NOW), Spent::default());
}

#[test]
fn cost_sources_never_reduce_saved_aggregates() {
    let events = vec![event(NOW, "filter", 1000, 200), event(NOW, "brief", 0, 86)];
    let s = summary(&events, NOW);
    assert_eq!(
        s.day, 800,
        "brief cost must not net against today's savings"
    );
    assert_eq!(s.all.saved(), 800);
    let t = totals(&events, None);
    assert_eq!(t.saved(), 800);
    let daily = daily_saved(&events, 7, NOW);
    assert_eq!(daily.iter().map(|(_, s)| s).sum::<i64>(), 800);
    let per_source = by_source(&events, None);
    let brief_row = per_source.iter().find(|(s, _)| s == "brief");
    assert!(
        brief_row.is_some_and(|(_, t)| t.after == 86 && t.saved() == 0),
        "brief stays visible per-source with its cost, clamped to 0 saved"
    );
}

#[test]
fn without_a_start_everything_counts() {
    let events = vec![event(-5, "outline", 10, 4), event(NOW, "outline", 100, 0)];
    assert_eq!(totals(&events, None).saved(), 106);
    assert_eq!(by_source(&events, None)[0].1.events, 2);
    assert_eq!(totals(&events, Some(0)).saved(), 100);
    assert_eq!(by_source(&events, Some(0))[0].1.events, 1);
}

#[test]
fn days_before_the_epoch_are_days_too() {
    let events = vec![
        event(-1, "outline", 5, 0),
        event(0, "outline", 7, 0),
        event(-86_401, "outline", 2, 0),
    ];
    assert_eq!(daily_saved(&events, 10, 0), vec![(-2, 2), (-1, 5), (0, 7)]);
}

#[test]
fn windows_start_at_their_edge() {
    let day = 86_400;
    let events = vec![
        event(NOW - day, "outline", 10, 0),
        event(NOW - day - 1, "outline", 100, 0),
        event(NOW - 7 * day - 1, "outline", 1000, 0),
        event(NOW - 30 * day - 1, "outline", 10_000, 0),
    ];
    let s = summary(&events, NOW);
    assert_eq!((s.day, s.week, s.month), (10, 110, 1110));
    assert_eq!(s.all.saved(), 11_110);
    assert_eq!(totals(&events, Some(NOW - day)).events, 1);
}
