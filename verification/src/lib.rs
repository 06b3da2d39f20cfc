//! Verified core of a live algorithmic-trading engine.
//!
//! The crate keeps a bounded, time-keyed ring of OHLCV candles, computes
//! technical indicators over snapshots of that ring, evaluates a trading
//! strategy per live bar, and models the wire-level decisions of the
//! streaming broker adapter (frame handling and reconnect backoff).
//! All prices are fixed-point integers; see [`fixed`].

pub mod fixed;
pub mod timeseries;
pub mod analysis;
pub mod strategy;
pub mod runner;
pub mod wire;
pub mod stream;
pub mod broker;
pub mod tasks;
pub mod agents;
pub mod sources;
