//! Build outputs.

pub mod output;
