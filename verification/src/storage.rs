//! Storage of the organism's key/value memories.

pub mod backend;
pub mod sharded_json;

pub use sharded_json::ShardedJson;
pub mod migration;
