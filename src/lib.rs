//! A disjoint-set (union-find) structure keyed by arbitrary hashable
//! identifiers, with path compression and union by rank.

pub mod laws;
pub mod unionfind;

pub use unionfind::UnionFind;
