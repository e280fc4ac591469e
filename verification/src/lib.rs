//! Core logic of the Mimir memory store.

pub mod anchors;
pub mod audit;
pub mod brief;
pub mod calendar;
pub mod config;
pub mod consolidate;
pub mod context_guard;
pub mod db;
pub mod embed;
pub mod engine;
pub mod error;
pub mod eval;
pub mod format;
pub mod grounding;
pub mod import;
pub mod index;
pub mod inject;
pub mod json;
pub mod laws;
pub mod learn;
pub mod memory;
pub mod model;
pub mod number;
pub mod order;
pub mod paths;
pub mod replicate;
pub mod review;
pub mod revision;
pub mod savings;
pub mod scope;
pub mod seqs;
pub mod sets;
pub mod text;
pub mod wild;
