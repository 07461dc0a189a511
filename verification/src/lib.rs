//! Indexing and search core of a desktop quick-launcher: a catalog of file
//! entries keyed by path, a two-tier fuzzy matcher, and a ranked search over
//! the catalog.

pub mod commands;
pub mod indexer;
pub mod matcher;
pub mod search;
