//! Per-key summary statistics over `key;value` rows.
//!
//! The crate holds the parts of the pipeline that are exact: cutting a raw
//! buffer into chunks that end at row boundaries, reading the rows of a
//! chunk, grouping them by key, and merging per-chunk results key by key.
//! Reading the input, scheduling workers and the arithmetic on measured
//! values are left to the caller.

pub mod aggregate;
pub mod chunker;
pub mod key_index;
pub mod merge_laws;
pub mod number;
pub mod report;
pub mod rows;
pub mod table;
pub mod tally;
