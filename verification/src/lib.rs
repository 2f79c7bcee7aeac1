//! Verified core of the FERRO active-inference organism: the decisions,
//! data structures and text rules that the runtime drives.

pub mod text;
pub mod cortex;
pub mod cerebrum;
pub mod message;
pub mod cerebellum;
pub mod midbrain;
pub mod storage;
pub mod body;
pub mod pruning;
pub mod organs;
pub mod brainstem;
pub mod heartbeat;
