//! Transaction-ordering strategies for a rollup sequencer: a pending pool,
//! three ways to turn it into a batch, and per-origin metrics.
pub mod laws;
pub mod metrics;
pub mod ordering;
pub mod pool;
pub mod strategy;
pub mod transaction;

pub use metrics::{OriginCount, PoolMetrics};
pub use ordering::OrderKey;
pub use pool::SimpleSequencer;
pub use strategy::{Strategy, UnknownStrategy};
pub use transaction::Transaction;
