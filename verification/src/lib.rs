//! A small library for reading `KEY=VALUE` environment files.
//!
//! Raw lines of text are validated one at a time: a line yields an entry
//! exactly when it contains a well-formed `NAME=VALUE` pattern and splits
//! into exactly two non-empty segments on `=`. Validated entries are
//! collected either into a keyed mapping (last occurrence of a name wins)
//! or into an order-preserving sequence (duplicates kept).

pub mod collect;
pub mod lines;
pub mod parse;
pub mod render;
