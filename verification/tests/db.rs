use mimir_core::db::migrations::{migrate, SCHEMA_VERSION};
use mimir_core::db::prune_cutoff;
use mimir_core::error::Error;

#[test]
fn migrate_reaches_current_version_and_is_idempotent() {
    let steps = migrate(0).unwrap();
    assert_eq!(steps.last().copied(), Some(SCHEMA_VERSION));
    // Re-running is a no-op, not an error.
    assert!(migrate(SCHEMA_VERSION).unwrap().is_empty());
}

#[test]
fn refuses_newer_database() {
    assert!(matches!(
        migrate(SCHEMA_VERSION + 1),
        Err(Error::SchemaTooNew { .. })
    ));
}

#[test]
fn migration_goes_one_version_at_a_time() {
    assert_eq!(migrate(0).unwrap(), vec![1, 2, 3]);
    assert_eq!(migrate(1).unwrap(), vec![2, 3]);
    match migrate(9) {
        Err(e) => assert!(e.message().contains('9') && e.message().contains('3')),
        Ok(steps) => panic!("expected an error, got {steps:?}"),
    }
}

#[test]
fn events_are_kept_for_the_window() {
    assert_eq!(prune_cutoff(1_000_000, 10), 1_000_000 - 864_000);
}
