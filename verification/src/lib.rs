//! Per-key minimum, mean and maximum over a flat text of `key;value` rows.
//!
//! The text is cut into line-aligned chunks, every chunk is folded into a
//! table of running statistics, the tables are merged into one result ordered
//! by key, and the result is rendered as `{key=min/mean/max, ...}`.
//!
//! - [`scan`] finds the next newline or separator, one window at a time.
//! - [`chunk`] cuts a text into chunks that end where a row ends.
//! - [`row`] reads one row, and says what the rows of a text are.
//! - [`stats`] holds the accumulator kept for one key.
//! - [`summary`] says what a sequence of rows sums up to, and how two
//!   summaries merge.
//! - [`table`] is the hash table of an aggregate, behind contracts that are
//!   taken on trust.
//! - [`aggregate`] folds the rows of a chunk into an aggregate.
//! - [`key`] orders keys by their bytes.
//! - [`reduce`] merges aggregates into a result ordered by key.
//! - [`render`] writes values and results as text.
//! - [`run`] puts the parts together for a whole text.
//! - [`collect`] takes in what parallel workers report.
//! - [`laws`] states what holds of the parts taken together.
//!
//! Values are kept in tenths of a unit, as integers, and a mean is worked
//! out only when a result is rendered: from the sum and the count, in
//! hundredths.

pub mod aggregate;
pub mod chunk;
pub mod collect;
pub mod key;
pub mod laws;
pub mod reduce;
pub mod render;
pub mod row;
pub mod run;
pub mod scan;
pub mod stats;
pub mod summary;
pub mod table;
