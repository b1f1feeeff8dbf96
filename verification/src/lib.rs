//! A striped, relaxed priority queue: many small binary max-heaps
//! (one per shard), each guarded by a one-bit lock flag, with push and
//! pop routed to randomly chosen shards to spread contention.

pub mod heap;
pub mod milkpq;
pub mod shard;

pub use heap::Heap;
pub use milkpq::MilkPQ;
pub use shard::Queue;
