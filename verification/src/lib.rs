//! Storage core of the Iris fleet monitor: the rules by which metric samples
//! are cached, keyed, batched, queried and retired.
//!
//! The library is synchronous. It reads the wall clock and the name of the
//! host, and does no other input or output: the caller owns the embedded
//! store, the write queue and the timers, hands scanned keys and events in,
//! and carries the returned plans out.
//!
//! - [`sample`], [`config`]: the unit of ingest and the options.
//! - [`text`], [`key`], [`key_order`]: byte strings in dictionary order, the
//!   key schema of the store, and the laws of the schema.
//! - [`order`]: the sort by timestamp that keeps the order of arrival.
//! - [`cache`]: the ring cache.
//! - [`persist`]: what a batch writes, which rows a query picks, which rows
//!   a retention pass deletes.
//! - [`writer`], [`cleanup`]: the batch writer and the retention cleaner,
//!   step by step.
//! - [`storage`]: the ingest façade over the cache and the store.
//! - [`server`], [`api`], [`agent`], [`clock`]: the endpoints, the read API,
//!   the agent's side, and the clock.

pub mod config;
pub mod text;
pub mod key;
pub mod key_order;
pub mod sample;
pub mod order;
pub mod persist;
pub mod cache;
pub mod clock;
mod flag;
pub mod storage;
pub mod writer;
pub mod cleanup;
pub mod api;
pub mod agent;
pub mod server;
