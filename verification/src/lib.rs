//! Financial transaction interchange library.
//!
//! Reads and writes batches of financial transactions in three encodings —
//! a fixed-framed binary format, a header-delimited CSV format, and a
//! `KEY: value` block text format — enforcing one shared domain model and
//! validation ruleset across all three.

/// Errors raised when decoding or encoding transaction data.
pub mod errors;

/// The supported wire formats and their codecs.
pub mod format;

/// The domain model: transactions and their closed enumerations.
pub mod model;

/// The format dispatcher: one decode/encode entry point over all codecs.
pub mod parser;
