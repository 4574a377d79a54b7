//! The sharded in-memory store and the ring that routes records to it.

pub mod mem_consistent_cache;
pub mod ring;
