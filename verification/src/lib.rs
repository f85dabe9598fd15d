//! A persistent B-tree index: an ordered mapping from byte-string keys to
//! 64-bit payloads, kept as nodes in a transactional key-value store.

pub mod bkeys;
pub mod btree;
pub mod census;
pub mod codec;
pub mod cursor;
pub mod descent;
pub mod err;
pub mod idset;
pub mod kv;
pub mod laws;
pub mod model;
pub mod node;
pub mod order;
pub mod pack;
pub mod rebalance;
pub mod removal;
pub mod run;
pub mod shape;
pub mod state;
pub mod steps;
pub mod store;
