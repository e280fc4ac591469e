//! Evaluations of the store's promises.

pub mod forget;
