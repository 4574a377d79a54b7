//! Sharded buffering of labelled records and their periodic, size-bounded
//! flush to object storage.
//!
//! Records are routed to a fixed set of shards by consistent hashing
//! ([`cache`]), drained shard by shard and cut into upload-sized pieces
//! ([`tools`]), and handed to an object store by a flush coordinator whose
//! decisions are a state machine ([`sink`]).

pub mod cache;
pub mod record;
pub mod sink;
pub mod tools;
