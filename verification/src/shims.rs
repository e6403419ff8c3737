//! The marker trait that analyzed Rust projects implement to declare intent.

use vstd::prelude::*;

verus! {

/// Declares that a shim implementation is deterministic.
///
/// Implement this on the simulation variant of a shim (e.g. `SimClock` for
/// a `ClockShim` trait). The contract: no nondeterminism sink (time, random,
/// I/O, threads, FFI) is reachable through any method of the marked type.
/// A sink reached through a marked implementation is reported as a broken
/// determinism claim.
pub trait DeterministicShim {}

} // verus!
