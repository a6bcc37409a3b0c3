//! A duplicate-encoding transform over byte strings.
//!
//! Given an input text, every variant in this crate produces an output of the
//! same length in which each position holds `(` if the (case-insensitively
//! folded) unit at that position occurs exactly once in the whole input, and
//! `)` if it occurs two or more times.
//!
//! The input unit is the byte: ASCII upper-case letters fold to the
//! corresponding lower-case letter, and every other byte value is compared by
//! its raw value. The crate offers a family of encoders that share one
//! contract — a two-pass counting-then-rewrite strategy in sequential,
//! chunked, and data-parallel forms, and a one-pass streaming strategy that
//! retroactively fixes up earlier output — differing only in how they arrive
//! at the same result.

pub mod chunked;
pub mod counting;
pub mod laws;
pub mod model;
mod output;
pub mod strategy;
pub mod streaming;
