//! Queues, the request protocol that drives them, and their statistics.
pub mod answers;
pub mod effects;
pub mod guarantees;
pub mod laws;
pub mod model;
pub mod net_stats;
pub mod pool;
pub mod protocol;
pub mod queue;
pub mod queue_config;
pub mod server;
pub mod totals;
