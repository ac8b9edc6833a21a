//! Per-key min/mean/max statistics over `key;value` records.
//!
//! The library has two components: a fixed-point decimal parser that turns a
//! trimmed ASCII token such as `-3.2` into a scaled integer (tenths of a
//! unit), and an aggregation table that folds each `(key, value)` observation
//! into running statistics and renders them sorted by key.

pub mod aggregate;
pub mod laws;
pub mod line;
pub mod parse;
pub mod render;
