//! calmake: a small build system for C and C++ projects, described by a
//! `build.cal` file. This crate holds its verified core: the `build.cal`
//! parser, the target graph and its build order, the incremental-build
//! decisions, and the command lines handed to the compiler.

pub mod text;
pub mod config;
pub mod graph;
pub mod paths;
pub mod toolchain;
pub mod depfile;
pub mod cli;
pub mod cache;
pub mod error;
pub mod util;

pub use error::CalmakeError;
