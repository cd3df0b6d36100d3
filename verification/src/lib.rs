//! A causal-tree text store for collaborative editing: replicas record
//! insertions and deletions as events, exchange them in any order, and all
//! derive the same text from the same set of events.

pub mod cancel;
pub mod content;
pub mod convergence;
pub mod editor;
pub mod filing;
pub mod keys;
pub mod replicas;
pub mod visibility;
