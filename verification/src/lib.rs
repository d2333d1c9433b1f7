//! A taxonomic knowledge base in which every fact about an entry is an
//! attributed data point: a value together with the source that asserts it.
//! The crate verifies the multi-source reconciliation engine: detecting
//! per-source, per-field conflicts between an existing record and an
//! incoming one, merging attributed values from new sources, resolving
//! conflicts by externally supplied decisions, and driving a whole batch
//! import while keeping the run statistics consistent.

pub mod import;
pub mod laws;
pub mod models;
pub mod policy;
pub mod reconcile;
