use mimir_core::config::{
    BriefConfig, ConsolidateConfig, EmbeddingConfig, HooksConfig, LearnConfig, OutputConfig, Paths, RerankConfig, SyncConfig,
};

#[test]
fn zero_means_never_prune() {
    let cfg = LearnConfig {
        event_retention_days: 0,
    };
    assert_eq!(cfg.effective_retention_days(), None);
}

#[test]
fn default_180_passes_through_unclamped() {
    assert_eq!(LearnConfig::default().effective_retention_days(), Some(180));
}

#[test]
fn below_floor_is_clamped_up_to_the_floor() {
    let cfg = LearnConfig {
        event_retention_days: 7,
    };
    assert_eq!(cfg.effective_retention_days(), Some(60));
}

#[test]
fn exactly_at_the_floor_is_not_clamped_further() {
    let cfg = LearnConfig {
        event_retention_days: 60,
    };
    assert_eq!(cfg.effective_retention_days(), Some(60));
}

#[test]
fn sync_is_off_until_a_server_is_named() {
    assert!(!SyncConfig::default().enabled());
}

#[test]
fn everything_sits_below_the_root() {
    let p = Paths::under_root("/tmp/m");
    assert!(p.db_file.starts_with("/tmp/m/"));
    assert!(p.config_file.starts_with("/tmp/m/"));
}

#[test]
fn a_session_of_briefs_costs_at_most_its_constant() {
    let c = BriefConfig::default();
    assert_eq!(
        c.max_tokens + (c.max_fires_per_session - 1) * c.recap_tokens,
        450
    );
    assert_eq!((c.max_items, c.line_chars), (6, 100));
    assert!(c.enabled && c.global_gate);
    assert_eq!(c.score_floor, 750_000);
}

#[test]
fn defaults_are_local_and_quiet() {
    assert_eq!(HooksConfig::default().context_guard, "off");
    assert_eq!(HooksConfig::default().context_guard_threshold_pct, 45);
    assert_eq!(EmbeddingConfig::default().model, "bge-small-en-v1.5");
    assert_eq!(RerankConfig::default().auto, "off");
    assert_eq!(ConsolidateConfig::default().auto, "weekly");
    assert_eq!(OutputConfig::default().default_limit, 8);
}
