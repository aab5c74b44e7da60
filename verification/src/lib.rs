//! Core of a small issue tracker: a store of issue records, a directed
//! "blocked-by" dependency graph over issue ids, and a depth-first,
//! status-filtered renderer for the parent/child hierarchy.

pub mod deps;
pub mod issue;
pub mod store;
pub mod tree;
