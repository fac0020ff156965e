//! Disk-side storage engine of a replicated block store.
//!
//! A region is an ordered set of extents, each a fixed run of fixed-size
//! blocks with a dirty bit per block, a generation and a flush number.
//! Writes are visible to reads at once and become durable with a flush. One
//! extent at a time can be taken out of service and refilled from an
//! authoritative source while the others keep serving. Jobs are carried
//! out in an order that keeps jobs on common blocks in the order of their
//! arrival.
//!
//! The engine keeps the state of a region in memory and decides; it does
//! no input or output of its own. What has to reach stable storage, and in
//! which order, it hands to its caller: a flush yields the storage steps
//! that make it durable.
//!
//! - [`definition`]: the durable definition of a region and its options.
//! - [`extent`]: one extent as plain values.
//! - [`model`]: a region as a mathematical value, and what reads, writes
//!   and flushes do to it.
//! - [`region`]: the region in memory: create, open, read, write, flush,
//!   grow.
//! - [`durability`]: the storage steps of a flush and their order.
//! - [`repair`]: the live repair of one extent.
//! - [`job`]: the kinds of jobs and which of them wait for which.
//! - [`work`]: the dispatcher that orders the jobs of a connection.
//! - [`downstairs`]: region and dispatcher as one engine.
//! - [`laws`]: what holds of all of this together.
//! - [`mode`], [`error`]: service modes and failures.

pub mod definition;
pub mod downstairs;
pub mod durability;
pub mod error;
pub mod extent;
pub mod job;
pub mod laws;
pub mod mode;
pub mod model;
pub mod region;
pub mod repair;
pub mod work;
