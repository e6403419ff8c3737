//! The Python target: no subprocess and no toolchain, just "take the
//! config, analyze, report, decide the exit code".

use vstd::prelude::*;

use crate::analysis::{
    analysis_of, analyze, denial_count, indexable, render_spec, roots_missing, spans_fit, Analysis,
    PylintError,
};
use crate::config::Resolved;
use crate::diagnostics::{decimal, decimal_spec};
use crate::resolve::Program;
use crate::text::{push_str, views};

verus! {

broadcast use vstd::string::group_string_axioms;

/// Outcome of the Python analysis for exit-code purposes.
#[derive(Debug, Clone, Copy, PartialEq, Eq, Structural)]
pub enum Outcome {
    /// No `[python]` section: nothing to check.
    Inert,
    Checked { denials: usize },
}

impl Outcome {
    /// The analysis ran and found something at deny level.
    pub fn failed(&self) -> (r: bool)
        ensures
            r == (match *self {
                Outcome::Checked { denials } => denials > 0,
                Outcome::Inert => false,
            }),
    {
        match self {
            Outcome::Checked { denials } => *denials > 0,
            Outcome::Inert => false,
        }
    }
}

/// Runs the Python analysis of `program` when there is a `[python]` section
/// (`config`), handing back the outcome and the analysis to report.
pub fn run(config: Option<&Resolved>, program: &Program) -> (r: Result<(Outcome, Option<Analysis>), PylintError>)
    requires
        program.wf(),
        forall|i: int| 0 <= i < program.table().modules_view().len() ==> indexable(#[trigger] program.table().modules_view()[i]),
    ensures
        match config {
            None => r matches Ok((Outcome::Inert, None)),
            Some(c) => match r {
                Err(e) => roots_missing(*program, *c)
                    && e is MissingSimRoots
                    && views(e->MissingSimRoots_roots@) == crate::simscope::missing_roots(program.table().modules_view(), c.sim_roots_view()),
                Ok((outcome, analysis)) => !roots_missing(*program, *c) && match analysis {
                    Some(a) => analysis_of(a, *program, *c)
                        && outcome == (Outcome::Checked { denials: denial_count(a.diagnostics_view()) as usize }),
                    None => false,
                },
            },
        },
{
    let config = match config {
        None => return Ok((Outcome::Inert, None)),
        Some(c) => c,
    };
    let analysis = analyze(config, program)?;
    let denials = analysis.denials();
    Ok((Outcome::Checked { denials }, Some(analysis)))
}

/// How many diagnostics are warnings.
pub open spec fn warning_count(a: Analysis) -> int {
    a.diagnostics_view().len() - denial_count(a.diagnostics_view())
}

/// The closing summary line of a report.
pub open spec fn summary_line(a: Analysis) -> Seq<char> {
    "trigp: python: "@ + decimal_spec(a.modules_collected_view() as nat) + " module(s) checked, "@
        + decimal_spec(a.sim_modules_view() as nat) + " in simulation scope, "@
        + decimal_spec(denial_count(a.diagnostics_view())) + " error(s), "@
        + decimal_spec(warning_count(a) as nat) + " warning(s)\n"@
}

proof fn lemma_denials_bounded(s: Seq<crate::diagnostics::Diagnostic>)
    ensures
        denial_count(s) <= s.len(),
    decreases s.len(),
{
    if s.len() > 0 {
        lemma_denials_bounded(s.drop_last());
    }
}

/// What a run prints: every diagnostic's snippet, then the summary line.
pub fn report(analysis: &Analysis) -> (r: String)
    requires
        spans_fit(analysis.diagnostics_view(), analysis.sources_view()),
    ensures
        r@ == render_spec(analysis.diagnostics_view(), analysis.sources_view()) + summary_line(*analysis),
{
    proof {
        lemma_denials_bounded(analysis.diagnostics_view());
    }
    let mut out = analysis.render();
    let denials = analysis.denials();
    let warnings = analysis.diagnostics().len() - denials;
    push_str(&mut out, "trigp: python: ");
    let collected = decimal(analysis.modules_collected() as u64);
    push_str(&mut out, collected.as_str());
    push_str(&mut out, " module(s) checked, ");
    let sim = decimal(analysis.sim_modules() as u64);
    push_str(&mut out, sim.as_str());
    push_str(&mut out, " in simulation scope, ");
    let errors = decimal(denials as u64);
    push_str(&mut out, errors.as_str());
    push_str(&mut out, " error(s), ");
    let warned = decimal(warnings as u64);
    push_str(&mut out, warned.as_str());
    push_str(&mut out, " warning(s)\n");
    out
}

} // verus!
