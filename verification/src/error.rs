//! The errors of the library, gathered in one type.

use vstd::prelude::*;
use crate::config::{ConfigError, config_error_text};
use crate::graph::{GraphError, graph_error_text};
use crate::toolchain::{ToolchainError, toolchain_error_text};
use crate::cli::{CliError, cli_error_text};

verus! {

/// Any error the library reports.
#[derive(Debug)]
pub enum CalmakeError {
    Config(ConfigError),
    Graph(GraphError),
    Toolchain(ToolchainError),
    Cli(CliError),
}

impl CalmakeError {
    /// The message that reports this error.
    pub fn message(&self) -> (r: String)
        ensures
            match self {
                CalmakeError::Config(e) => r@ == config_error_text(e@),
                CalmakeError::Graph(e) => r@ == graph_error_text(e@),
                CalmakeError::Toolchain(e) => r@ == toolchain_error_text(),
                CalmakeError::Cli(e) => r@ == cli_error_text(e@),
            },
    {
        match self {
            CalmakeError::Config(e) => e.message(),
            CalmakeError::Graph(e) => e.message(),
            CalmakeError::Toolchain(e) => e.message(),
            CalmakeError::Cli(e) => e.message(),
        }
    }
}

} // verus!
