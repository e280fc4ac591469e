use mimir_core::learn::{
    apply_mark, capped_today, decay, half_life_days, has_type_prior, record_opened, Event,
};
use mimir_core::model::{Kind, Meta, Node};

const NOW: i64 = 1_780_000_000;
const DAY: i64 = 86_400;

fn node(id: i64, kind: Kind, subkind: &str, title: &str, body: &str) -> Node {
    Node {
        id,
        uid: format!("01JXGABCDEF123456789{:06}", id),
        kind,
        subkind: Some(subkind.to_string()),
        project_id: None,
        collection_id: None,
        parent_id: None,
        title: Some(title.to_string()),
        body: Some(body.to_string()),
        path: None,
        span_start: None,
        span_end: None,
        lang: None,
        tags_text: String::new(),
        content_hash: None,
        meta: Meta::empty(),
        created_at: 1_780_000_000,
        updated_at: 1_780_000_000,
        access_count: 0,
        last_accessed: None,
        pinned: false,
        superseded_by: None,
        deleted_at: None,
    }
}


fn effective(n: &Node, strength: f64, now: i64) -> f64 {
    match decay(n, now) {
        Some((age, half)) => strength * 2f64.powf(-(age as f64 / DAY as f64) / half as f64),
        None => strength,
    }
}

#[test]
fn decay_math() {
    let mut n = node(1, Kind::Memory, "note", "t", "b"); // 90d half-life
    let now = n.created_at;
    assert!((effective(&n, 1.0, now) - 1.0).abs() < 1e-9);
    let half = effective(&n, 1.0, now + 90 * DAY);
    assert!((half - 0.5).abs() < 1e-9, "one half-life → 0.5, got {half}");

    n.pinned = true;
    assert_eq!(effective(&n, 1.0, now + 900 * DAY), 1.0);

    n.pinned = false;
    n.subkind = Some("person".into());
    assert_eq!(effective(&n, 1.0, now + 900 * DAY), 1.0);

    // Access resets the decay clock.
    n.subkind = Some("note".into());
    n.last_accessed = Some(now + 90 * DAY);
    let fresh = effective(&n, 1.0, now + 90 * DAY);
    assert!((fresh - 1.0).abs() < 1e-9);
}

#[test]
fn opened_bonus_capped_per_day() {
    let mut events: Vec<Event> = vec![];
    let mut strength = 1.0f64;
    for _ in 0..3 {
        if record_opened(&mut events, 1, NOW) {
            strength += 0.3;
        }
    }
    assert!((strength - 1.3).abs() < 1e-9, "one bonus only: {strength}");
    assert_eq!(events.len(), 3, "every open is still counted");
}

#[test]
fn mark_caps_and_bounds() {
    let mut events: Vec<Event> = vec![];
    let mut marked = |strength: f64, useful: bool| -> f64 {
        let delta = if useful { 1.0 } else { -1.0 };
        if apply_mark(&mut events, 1, useful, NOW) {
            f64::max(0.05, f64::min(10.0, strength + delta))
        } else {
            strength
        }
    };
    assert!((marked(1.0, true) - 2.0).abs() < 1e-9);
    // Second mark same day: no further effect.
    assert!((marked(2.0, true) - 2.0).abs() < 1e-9);
    // Noise marks floor at the least strength eventually.
    let s = marked(0.5, false);
    assert!((s - 0.05).abs() < 1e-9, "floored: {s}");
    // Another node, and another day, are not held back.
    assert!(apply_mark(&mut events, 2, true, NOW));
    assert!(apply_mark(&mut events, 1, true, NOW + DAY));
}

#[test]
fn days_begin_at_midnight() {
    let midnight = NOW - NOW % DAY;
    let at = |t: i64| {
        vec![Event {
            node_id: 1,
            name: "opened".to_string(),
            at: t,
        }]
    };
    assert!(capped_today(&at(midnight), 1, "opened", NOW));
    assert!(!capped_today(&at(midnight - 1), 1, "opened", NOW));
    assert!(!capped_today(&at(midnight), 1, "marked", NOW));
    // Before the epoch too.
    assert!(capped_today(&at(-DAY), 1, "opened", -1));
    assert!(!capped_today(&at(-DAY - 1), 1, "opened", -1));
}

#[test]
fn types_have_their_half_lives() {
    assert_eq!(half_life_days(Kind::Memory, Some("gotcha")), Some(180));
    assert_eq!(half_life_days(Kind::Memory, Some("decision")), Some(365));
    assert_eq!(half_life_days(Kind::Memory, Some("insight")), Some(120));
    assert_eq!(half_life_days(Kind::Memory, None), Some(90));
    assert_eq!(half_life_days(Kind::Memory, Some("idea")), Some(60));
    assert_eq!(half_life_days(Kind::Memory, Some("summary")), None);
    assert_eq!(half_life_days(Kind::Chunk, None), None);
    assert!(has_type_prior(Some("gotcha")) && !has_type_prior(Some("note")));
}
