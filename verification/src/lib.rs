//! Core of a local file-search quick-launcher: a persistent index of
//! filesystem entries with usage statistics, a bounded filesystem crawler
//! that populates it, and a two-phase scoring engine that answers ranked
//! search queries over it.

pub mod db;
pub mod indexer;
pub mod launcher;
pub mod matheval;
pub mod searcher;
pub mod shims;
pub mod strutil;
