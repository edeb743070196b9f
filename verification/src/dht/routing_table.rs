//! The routing table: the known nodes, in buckets by their ids.

pub mod bucket;
pub mod laws;
pub mod node;
pub mod table;
pub mod tree;

pub use crate::dht::routing_table::node::{NodeStatus, RoutingTableNode};


pub use crate::dht::routing_table::table::RoutingTable;
pub use crate::dht::routing_table::tree::{BucketTree, InsertResult, LeafBucket};
