//! A market replay engine: order-book reconciliation, chronological merging
//! of event sources, grouping of simultaneous events into ticks, and
//! deterministic backtesting against a holdings ledger.

pub mod book;
pub mod event;
pub mod symbol_map;
pub mod collection;
pub mod reader;
pub mod partial_transformer;
pub mod error;
pub mod world_builder;
pub mod interleave;
pub mod market;
pub mod watch;
pub mod utils;
pub mod record;
