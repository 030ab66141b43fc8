//! Core of a live-stream relay server: resolving a channel's available
//! stream variants, caching those lookups with single-flight coalescing,
//! and multiplexing one upstream media stream to many downstream sinks.

pub mod index_cache;
pub mod player_pool;
pub mod quality;
pub mod query;
pub mod service;
pub mod types;
