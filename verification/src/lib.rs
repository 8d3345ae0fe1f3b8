//! Per-key minimum, mean and maximum of `key;value` measurement lines.
//!
//! Values are decimal numbers with one fractional digit and are held as
//! integers scaled by ten, so that every sum is exact and the result of an
//! aggregation does not depend on how the input was split among workers.
//!
//! - [`record`]: the accumulator of one key, and the laws of merging.
//! - [`fixed`]: reading and writing fixed-point values.
//! - [`key`]: the order of keys.
//! - [`tally`]: what the aggregate of a list of measurements is.
//! - [`table`]: the table from key to record.
//! - [`parser`]: the line grammar and the chunk parser.
//! - [`planner`]: cutting the input into line-aligned chunks.
//! - [`pipeline`]: planning, reading in parallel and merging.
//! - [`report`]: the sorted, formatted report.

pub mod fixed;
pub mod key;
pub mod parser;
pub mod pipeline;
pub mod planner;
pub mod record;
pub mod report;
pub mod table;
pub mod tally;
