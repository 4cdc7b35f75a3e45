//! The graph-state store: references to canonical graphs, merges of record
//! shards, and the decisions made over a scope's records.
pub mod cache;
pub mod graph_reference;
pub mod jsonl;
pub mod layout;
pub mod merge;
pub mod migrations;
pub mod publication;
