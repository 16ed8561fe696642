//! An in-memory associative store with a hot working tier, a cold long-term
//! tier, a bounded recency trail of stored keys and a small association graph.

pub mod clock;
pub mod laws;
pub mod memory;
pub mod server;
pub mod strmap;
pub mod text;
pub mod value;

pub use memory::{AssociationInfo, BrainMemory, CacheInfo, MemoryInfo, MemoryStats, SearchHit};
