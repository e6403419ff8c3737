//! Static linting of the deterministic-simulation shim contract.

pub mod analysis;
pub mod config;
pub mod diagnostics;
pub mod lint;
pub mod order;
pub mod parse;
pub mod prodcheck;
pub mod resolve;
pub mod shims;
pub mod simscope;
pub mod sinks;
pub mod syntax;
pub mod text;
pub mod triglint;

pub use crate::analysis::{analyze, Analysis, PylintError};
