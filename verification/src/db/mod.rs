//! The database's upkeep: its schema, and how much of the ledger of events it keeps.

pub mod migrations;

use vstd::prelude::*;

verus! {

/// Seconds between two checkpoints of a daemon.
pub const CHECKPOINT_SECONDS: u64 = 120;

/// The time before which events are pruned that are kept for `days` days.
pub fn prune_cutoff(now: i64, days: u32) -> (r: i64)
    requires
        now - days * 86_400 >= i64::MIN,
    ensures
        r == now - days * 86_400,
{
    now - days as i64 * 86_400
}

} // verus!
