//! The Rust lints' decisions, apart from the compiler queries that feed them.
//!
//! The compiler side walks MIR and answers questions about definitions
//! (which crate, whether a body exists, whether a type is marked); what it
//! decides with those answers lives here, over plain values:
//!
//! * [`callgraph`]: the sim-mode traversal from the simulation roots, its
//!   witness chains and its deduplicated findings.
//! * [`prodcheck`]: the prod-mode blessing of a body and what a sink call
//!   inside it amounts to.
//! * [`report`]: the texts of the three lints' diagnostics.
//!
//! Instances, definitions and spans are identified by the integers the
//! compiler side assigns them.

pub mod callgraph;
pub mod prodcheck;
pub mod report;
