//! A small resource-constrained task scheduler: tasks that need network
//! bandwidth and video memory are admitted onto a server greedily, in list
//! order, whenever the remaining capacity allows it, and the simulated clock
//! jumps from one task completion to the next.
pub mod resource;
pub mod task;
pub mod sums;
pub mod server;
pub mod job;
