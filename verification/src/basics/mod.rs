//! Small functions: arithmetic, strings, a counter, a bucket map, numbers, line counts, and a byte record.
pub mod vars;
pub mod counter;
pub mod bucket;
pub mod numbers;
pub mod lines;
pub mod record;
