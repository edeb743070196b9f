//! The distributed hash table.

pub mod bep42;
pub mod bits;
pub mod compact;
pub mod error;
pub mod laws;
pub mod limits;
pub mod peer_store;
pub mod lookup;
pub mod node;
pub mod persistence;
pub mod protocol;
pub mod routing_table;
pub mod tasks;
