//! Reactive swap-simulation pipeline: matches token-swap invocations in
//! observed call data, builds synthetic execution environments for them,
//! classifies sandbox results, and plans per-event acknowledgments.

pub mod abi;
pub mod bytes;
pub mod consumer;
pub mod engine;
pub mod outcome;
