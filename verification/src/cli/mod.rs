//! Command-line handling.

pub mod arg;
