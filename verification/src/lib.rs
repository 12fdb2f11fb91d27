//! A verified installed-package dependency index.
//!
//! Given a snapshot of an installed-package catalog, the crate builds a
//! bidirectional index that answers, for a query set of distributions,
//! which other installed distributions each one directly requires
//! (filtered by the environment's marker context) and which installed
//! distributions directly require it.

pub mod model;
pub mod index;
pub mod laws;
