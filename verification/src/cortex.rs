//! The cortex's node store.

pub mod arena;

pub use arena::NodeArena;
pub mod dynamic_cluster;
