//! Building blocks shared by the cache and the sink.

pub mod chunked_split;
pub mod common;
pub mod decimal;
