//! Synonym-index updates: accumulating synonym declarations into a sorted
//! change set, queuing it as a numbered update, and merging it into the
//! authoritative synonym index.
pub mod addition;
pub mod apply;
pub mod changes;
pub mod laws;
pub mod order;
pub mod outside;
