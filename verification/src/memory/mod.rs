//! The bookkeeping of the memory arena.
pub mod allocator;
pub mod arena;
pub mod effects;
pub mod laws;
