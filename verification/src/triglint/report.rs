//! The texts of the Rust lints' diagnostics.

use vstd::prelude::*;

use crate::diagnostics::{decimal, decimal_spec};
use crate::resolve::modules::{join_spec, join_strings};
use crate::text::{copy_str, push_str, views};
use crate::triglint::callgraph::{SinkKind, UnresolvedKind, UnresolvedKindView};
use crate::triglint::prodcheck::{Context, ContextView, ProdSinkKind};

verus! {

broadcast use vstd::string::group_string_axioms;

/// The headline of a sim-mode violation.
pub open spec fn violation_message_spec(kind: SinkKind, sink_path: Seq<char>, capability: Seq<char>) -> Seq<char> {
    match kind {
        SinkKind::Call => "nondeterminism sink `"@ + sink_path + "` ("@ + capability
            + ") is reachable from a simulation root"@,
        SinkKind::Type => "nondeterministic type `"@ + sink_path + "` ("@ + capability
            + ") is reachable from a simulation root"@,
    }
}

pub fn violation_message(kind: SinkKind, sink_path: &str, capability: &str) -> (r: String)
    ensures
        r@ == violation_message_spec(kind, sink_path@, capability@),
{
    let mut out = match kind {
        SinkKind::Call => copy_str("nondeterminism sink `"),
        SinkKind::Type => copy_str("nondeterministic type `"),
    };
    push_str(&mut out, sink_path);
    push_str(&mut out, "` (");
    push_str(&mut out, capability);
    push_str(&mut out, ") is reachable from a simulation root");
    out
}

/// The numbered lines of a witness chain, one per step.
pub open spec fn chain_lines(steps: Seq<Seq<char>>) -> Seq<char>
    decreases steps.len(),
{
    if steps.len() == 0 {
        Seq::empty()
    } else {
        chain_lines(steps.drop_last()) + "\n  ["@ + decimal_spec((steps.len() - 1) as nat) + "] "@ + steps.last()
    }
}

/// The note listing a violation's witness chain, root first, ending in the
/// sink.
pub open spec fn chain_note_spec(steps: Seq<Seq<char>>, sink_path: Seq<char>) -> Seq<char> {
    "call chain to sink:"@ + chain_lines(steps) + "\n  ["@ + decimal_spec(steps.len()) + "] "@ + sink_path
        + " <- sink"@
}

/// Renders the witness chain from the def-paths of its steps.
pub fn chain_note(steps: &Vec<String>, sink_path: &str) -> (r: String)
    ensures
        r@ == chain_note_spec(views(steps@), sink_path@),
{
    let mut out = copy_str("call chain to sink:");
    let mut i: usize = 0;
    while i < steps.len()
        invariant
            i <= steps@.len(),
            out@ == "call chain to sink:"@ + chain_lines(views(steps@).take(i as int)),
        decreases steps@.len() - i,
    {
        let ghost before = out@;
        push_str(&mut out, "\n  [");
        let index = decimal(i as u64);
        push_str(&mut out, index.as_str());
        push_str(&mut out, "] ");
        push_str(&mut out, steps[i].as_str());
        assert(views(steps@).take(i + 1).drop_last() =~= views(steps@).take(i as int));
        assert(views(steps@).take(i + 1).last() == steps@[i as int]@);
        i = i + 1;
    }
    assert(views(steps@).take(i as int) =~= views(steps@));
    push_str(&mut out, "\n  [");
    let count = decimal(steps.len() as u64);
    push_str(&mut out, count.as_str());
    push_str(&mut out, "] ");
    push_str(&mut out, sink_path);
    push_str(&mut out, " <- sink");
    out
}

/// The note a sink type adds.
pub fn type_note() -> (r: &'static str)
    ensures
        r@ == "this type carries per-process random state (e.g. hash-map iteration order differs between runs)"@,
{
    "this type carries per-process random state (e.g. hash-map iteration order differs between runs)"
}

/// The note naming a marked type a sink is reachable through.
pub open spec fn broken_claim_note_spec(claim: Seq<char>) -> Seq<char> {
    "`"@ + claim
        + "` implements a deterministic marker trait, but this sink is reachable through it: the determinism claim is broken"@
}

pub fn broken_claim_note(claim: &str) -> (r: String)
    ensures
        r@ == broken_claim_note_spec(claim@),
{
    let mut out = copy_str("`");
    push_str(&mut out, claim);
    push_str(
        &mut out,
        "` implements a deterministic marker trait, but this sink is reachable through it: the determinism claim is broken",
    );
    out
}

/// The fix a sim-mode violation suggests.
pub open spec fn violation_help_spec(kind: SinkKind) -> Seq<char> {
    match kind {
        SinkKind::Call => "route this capability through a shim trait, or declare the callee in triglint.toml ([[sinks]] / [opaque])"@,
        SinkKind::Type => "use a deterministic replacement in simulation-reachable code (e.g. HashMap with a fixed BuildHasher, or BTreeMap)"@,
    }
}

pub fn violation_help(kind: SinkKind) -> (r: &'static str)
    ensures
        r@ == violation_help_spec(kind),
{
    match kind {
        SinkKind::Call => "route this capability through a shim trait, or declare the callee in triglint.toml ([[sinks]] / [opaque])",
        SinkKind::Type => "use a deterministic replacement in simulation-reachable code (e.g. HashMap with a fixed BuildHasher, or BTreeMap)",
    }
}

/// The headline of a prod-mode violation.
pub open spec fn prod_message_spec(kind: ProdSinkKind, sink_path: Seq<char>, capability: Seq<char>) -> Seq<char> {
    match kind {
        ProdSinkKind::Call => "nondeterminism sink `"@ + sink_path + "` ("@ + capability
            + ") called outside a shim impl granting `"@ + capability + "`"@,
        ProdSinkKind::Type => "nondeterministic type `"@ + sink_path + "` ("@ + capability
            + ") used outside a shim impl granting `"@ + capability + "`"@,
    }
}

pub fn prod_message(kind: ProdSinkKind, sink_path: &str, capability: &str) -> (r: String)
    ensures
        r@ == prod_message_spec(kind, sink_path@, capability@),
{
    let mut out = match kind {
        ProdSinkKind::Call => copy_str("nondeterminism sink `"),
        ProdSinkKind::Type => copy_str("nondeterministic type `"),
    };
    push_str(&mut out, sink_path);
    push_str(&mut out, "` (");
    push_str(&mut out, capability);
    match kind {
        ProdSinkKind::Call => push_str(&mut out, ") called outside a shim impl granting `"),
        ProdSinkKind::Type => push_str(&mut out, ") used outside a shim impl granting `"),
    }
    push_str(&mut out, capability);
    push_str(&mut out, "`");
    out
}

/// The note saying why a prod-mode site was not blessed.
pub open spec fn context_note_spec(context: ContextView) -> Seq<char> {
    match context {
        ContextView::Unblessed => "not inside any shim impl; nondeterminism must enter through a [[shims]] trait so simulation builds can substitute it"@,
        ContextView::MarkedDeterministic { self_ty } => "the enclosing impl is for `"@ + self_ty
            + "`, which is marked deterministic: sim impls receive no capability grants"@,
        ContextView::GrantsMissing { trait_path, grants } => "the enclosing `"@ + trait_path + "` impl grants only ["@
            + join_spec(grants, ", "@) + "]"@,
    }
}

pub fn context_note(context: &Context) -> (r: String)
    ensures
        r@ == context_note_spec(context@),
{
    match context {
        Context::Unblessed => copy_str(
            "not inside any shim impl; nondeterminism must enter through a [[shims]] trait so simulation builds can substitute it",
        ),
        Context::MarkedDeterministic { self_ty } => {
            let mut out = copy_str("the enclosing impl is for `");
            push_str(&mut out, self_ty.as_str());
            push_str(&mut out, "`, which is marked deterministic: sim impls receive no capability grants");
            out
        },
        Context::GrantsMissing { trait_path, grants } => {
            let mut out = copy_str("the enclosing `");
            push_str(&mut out, trait_path.as_str());
            push_str(&mut out, "` impl grants only [");
            let joined = join_strings(grants, ", ");
            push_str(&mut out, joined.as_str());
            push_str(&mut out, "]");
            out
        },
    }
}

/// The fix a prod-mode violation suggests.
pub fn prod_help() -> (r: &'static str)
    ensures
        r@ == "move this into a granting shim impl, route it through a shim, or `#[allow(shim_nondeterminism)]` with justification"@,
{
    "move this into a granting shim impl, route it through a shim, or `#[allow(shim_nondeterminism)]` with justification"
}

/// The headline of an unresolved edge.
pub open spec fn unresolved_message_spec(kind: UnresolvedKindView) -> Seq<char> {
    match kind {
        UnresolvedKindView::DynDispatch => "dyn-dispatch call cannot be resolved statically; the sim-mode determinism guarantee has a hole here"@,
        UnresolvedKindView::FnPointer => "indirect call through a function pointer cannot be resolved statically; the sim-mode determinism guarantee has a hole here"@,
        UnresolvedKindView::MissingMir { def_path } => "no MIR available for `"@ + def_path
            + "`; its body cannot be checked (run with DYLINT_RUSTFLAGS=-Zalways-encode-mir, or trust it via [opaque] in triglint.toml)"@,
        UnresolvedKindView::InlineAsm => "inline assembly is opaque to triglint; the sim-mode determinism guarantee has a hole here"@,
    }
}

pub fn unresolved_message(kind: &UnresolvedKind) -> (r: String)
    ensures
        r@ == unresolved_message_spec(kind@),
{
    match kind {
        UnresolvedKind::DynDispatch => copy_str(
            "dyn-dispatch call cannot be resolved statically; the sim-mode determinism guarantee has a hole here",
        ),
        UnresolvedKind::FnPointer => copy_str(
            "indirect call through a function pointer cannot be resolved statically; the sim-mode determinism guarantee has a hole here",
        ),
        UnresolvedKind::MissingMir { def_path } => {
            let mut out = copy_str("no MIR available for `");
            push_str(&mut out, def_path.as_str());
            push_str(
                &mut out,
                "`; its body cannot be checked (run with DYLINT_RUSTFLAGS=-Zalways-encode-mir, or trust it via [opaque] in triglint.toml)",
            );
            out
        },
        UnresolvedKind::InlineAsm => copy_str(
            "inline assembly is opaque to triglint; the sim-mode determinism guarantee has a hole here",
        ),
    }
}

/// The note naming the root an unresolved edge hangs from.
pub fn root_note(root: &str) -> (r: String)
    ensures
        r@ == "reachable from simulation root `"@ + root@ + "`"@,
{
    let mut out = copy_str("reachable from simulation root `");
    push_str(&mut out, root);
    push_str(&mut out, "`");
    out
}

} // verus!
