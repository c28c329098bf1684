//! Per-key minimum, mean and maximum over `KEY;VALUE` lines.
//!
//! The input is cut into line-aligned ranges, each range is scanned into a
//! mapping from key to statistics, and the mappings are merged and rendered
//! in key order. Values are IEEE-754 binary64 numbers carried as their bit
//! patterns: the library orders them itself and takes the operations that
//! round (parsing, addition, formatting) from its caller.

pub mod bytes;
pub mod chunk;
pub mod laws;
pub mod lines;
pub mod mapping;
pub mod ops;
pub mod order;
pub mod partition;
pub mod pipeline;
pub mod reading;
pub mod report;
pub mod stats;
