//! Module-aware build planning for C and C++ projects.

pub mod build_executor;
pub mod build_plan;
pub mod cli;
pub mod compile_commands_json;
pub mod cson;
pub mod cxon;
pub mod error;
pub mod object;
pub mod paths;
pub mod project_graph;
pub mod toolchain;
pub mod utils;
