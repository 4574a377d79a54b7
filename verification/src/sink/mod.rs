//! Flushing drained shards to object storage.

pub mod s3;
