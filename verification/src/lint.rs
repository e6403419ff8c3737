//! `trigp lint`: which determinism checks a workspace gets, and how their
//! results combine into one exit status.
//!
//! Target detection is config-driven. A `triglint.toml` carrying a `[python]`
//! section means there are Python sources to check; a `Cargo.toml` at or
//! above the directory declaring dylint libraries means there is a Rust
//! target. Whichever applies runs; both run when both apply. `--rust` /
//! `--python` override the detection explicitly. Any deny-level finding from
//! either target fails the run.

pub mod dylint;
pub mod python;

use vstd::prelude::*;

use crate::config::{config_candidates, discover, first_probed, probed};
use crate::text::opt_str_view;

verus! {

/// Which checks an invocation runs.
#[derive(Debug, Clone, Copy, PartialEq, Eq, Structural)]
pub struct Targets {
    pub rust: bool,
    pub python: bool,
}

impl Targets {
    /// Neither target runs.
    pub fn none(self) -> (r: bool)
        ensures
            r == (!self.rust && !self.python),
    {
        !self.rust && !self.python
    }

    /// Explicit flags win; otherwise each target is enabled by the evidence
    /// that it exists.
    pub fn detect(rust_flag: bool, python_flag: bool, has_dylint: bool, has_python: bool) -> (r: Self)
        ensures
            rust_flag || python_flag ==> r == (Targets { rust: rust_flag, python: python_flag }),
            !(rust_flag || python_flag) ==> r == (Targets { rust: has_dylint, python: has_python }),
    {
        if rust_flag || python_flag {
            return Targets { rust: rust_flag, python: python_flag };
        }
        Targets { rust: has_dylint, python: has_python }
    }
}

/// The process exit status for a run: a failure from either target fails it,
/// and the Rust exit code is kept when it is the one that failed (a code
/// that is not a byte becomes 1).
pub open spec fn exit_status(rust_code: i32, python_failed: bool) -> u8 {
    if rust_code != 0 {
        if 0 < rust_code && rust_code <= 255 { rust_code as u8 } else { 1 }
    } else if python_failed {
        1
    } else {
        0
    }
}

/// A failure from either target fails the run; the Rust exit code is
/// preserved when it is the one that failed.
pub fn exit_code(rust_code: i32, python_failed: bool) -> (r: u8)
    ensures
        r == exit_status(rust_code, python_failed),
{
    if rust_code != 0 {
        if 0 < rust_code && rust_code <= 255 {
            return rust_code as u8;
        }
        return 1;
    }
    if python_failed {
        return 1;
    }
    0
}

/// Walks up from `start` looking for `triglint.toml`, the way triglint's own
/// discovery does; `is_file` says whether a path names a file.
pub fn find_triglint_toml<F: Fn(&str) -> bool>(start: &str, is_file: F) -> (r: Option<String>)
    requires
        forall|p: &str| #[trigger] is_file.requires((p,)),
    ensures
        first_probed(is_file, config_candidates(start@), r),
{
    discover(start, is_file)
}

/// A failure from either target fails the run, and a Rust exit code that
/// is a nonzero byte is the run's own.
pub proof fn law_either_failure_fails_the_run(rust_code: i32, python_failed: bool)
    ensures
        (exit_status(rust_code, python_failed) != 0) == (rust_code != 0 || python_failed),
        0 < rust_code <= 255 ==> exit_status(rust_code, python_failed) == rust_code,
{
}

/// Looking up `triglint.toml` from `start` gives the nearest candidate the
/// probe reports present, whichever walk does it: for a probe that answers
/// each path one way, `find_triglint_toml` and triglint's own discovery
/// (both of whose results follow the probe's answers over the candidates
/// from `start`) find the same file, or both find none.
pub proof fn law_discovery_finds_the_nearest_file<F: Fn(&str) -> bool>(
    probe: F,
    start: Seq<char>,
    a: Option<String>,
    b: Option<String>,
)
    requires
        forall|p: Seq<char>| !(#[trigger] probed(probe, p, true) && probed(probe, p, false)),
        first_probed(probe, config_candidates(start), a),
        first_probed(probe, config_candidates(start), b),
    ensures
        opt_str_view(a) == opt_str_view(b),
{
    let candidates = config_candidates(start);
    match (a, b) {
        (Some(x), Some(y)) => {
            let i = choose|i: int| {
                &&& 0 <= i < candidates.len()
                &&& x@ == candidates[i]
                &&& probed(probe, candidates[i], true)
                &&& forall|j: int| 0 <= j < i ==> probed(probe, #[trigger] candidates[j], false)
            };
            let k = choose|k: int| {
                &&& 0 <= k < candidates.len()
                &&& y@ == candidates[k]
                &&& probed(probe, candidates[k], true)
                &&& forall|j: int| 0 <= j < k ==> probed(probe, #[trigger] candidates[j], false)
            };
            if i < k {
                assert(probed(probe, candidates[i], false));
            } else if k < i {
                assert(probed(probe, candidates[k], false));
            }
        },
        (Some(x), None) => {
            let i = choose|i: int| {
                &&& 0 <= i < candidates.len()
                &&& x@ == candidates[i]
                &&& probed(probe, candidates[i], true)
                &&& forall|j: int| 0 <= j < i ==> probed(probe, #[trigger] candidates[j], false)
            };
            assert(probed(probe, candidates[i], false));
        },
        (None, Some(y)) => {
            let k = choose|k: int| {
                &&& 0 <= k < candidates.len()
                &&& y@ == candidates[k]
                &&& probed(probe, candidates[k], true)
                &&& forall|j: int| 0 <= j < k ==> probed(probe, #[trigger] candidates[j], false)
            };
            assert(probed(probe, candidates[k], false));
        },
        (None, None) => {},
    }
}

} // verus!
