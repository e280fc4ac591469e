//! What the library promises of its operations, stated of their inputs and results.

pub mod anchors;
pub mod brief;
pub mod chunks;
pub mod consolidate;
pub mod engine;
pub mod entries;
pub mod forget;
pub mod format;
pub mod import;
pub mod index;
pub mod inject;
pub mod ledger;
pub mod memory;
pub mod model;
pub mod names;
pub mod order;
pub mod replicate;
pub mod text;
