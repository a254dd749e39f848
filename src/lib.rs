//! Turns fixed-width binary bus-log records into time-binned, wide tables:
//! record decoding, session chunking at time discontinuities, a global
//! column index over (message, signal) pairs, and table materialization.

pub mod frame;
pub mod message;
pub mod session;
pub mod table;
pub mod paths;
