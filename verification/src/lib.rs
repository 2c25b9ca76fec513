//! A message broker: queues with per-client locks, a binary request protocol,
//! and an arena allocator that keeps headroom for incoming messages.
pub mod config;
pub mod errors;
pub mod memory;
pub mod net;
pub mod outside;
pub mod shutdown;
pub mod tally;
pub mod wire;
