//! A fixed-rate dataflow engine: sample buffers, wired blocks and a
//! scheduler that drives connected processors tick by tick.

pub mod block;
pub mod buffer;
pub mod error;
pub mod graph;
pub mod processor;
pub mod progress;
pub mod unit;
