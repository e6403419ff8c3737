//! One analysis run: the scans of both modes turned into diagnostics,
//! deduplicated, ordered, and filtered by `allow` comments.
//!
//! * **prod mode** (`shim-nondeterminism`, deny): a nondeterminism sink may
//!   only be *named*, called or merely referenced, inside a class
//!   implementing a declared shim protocol whose grants cover the capability.
//! * **sim mode** (`sim-nondeterminism`, deny): from the declared simulation
//!   root modules, no module in the transitive import closure names a sink
//!   at all, blessed or not.
//!
//! What the analysis cannot see it reports (`unresolved`, warn) rather than
//! assuming safe.

use vstd::prelude::*;
use vstd::string::StringSliceAdditionalSpecFns;

use crate::diagnostics::{
    AllowComments, Diagnostic, Level, LineIndex, Lint, allowed_defs, allowed_on, byte_boundary, char_count,
    count_le, def_headers, line_allows, line_starts_spec, lint_level, lint_name, lint_rank,
};
use crate::order::{SortKey, lex_lt, str_lt};
use crate::prodcheck::{Context, ContextView, Finding, FindingKind, FindingKindView, FindingView, Hole, HoleView, finding_views};
use crate::config::Resolved;
use crate::diagnostics::snippet_report;
use crate::prodcheck::{Policy, scan, scan_spec};
use crate::resolve::bindings::BindingsView;
use crate::resolve::modules::UnparsedModule;
use crate::resolve::{Module, ModuleId, Program, ResolveError};
use crate::resolve::bindings::table_views;
use crate::simscope::{Closure, UnresolvedImport, chain_views, witness_spec};
use crate::syntax::TextRange;
use crate::resolve::modules::join_spec;
use crate::sinks::{SinkKind, SinkKindView};
use crate::text::{copy_str, lines_spec, push_str, str_eq, views};

verus! {

broadcast use vstd::string::group_string_axioms;

/// Which scan a finding came from; sim findings carry the witness chain of
/// their module.
pub enum Mode {
    Prod,
    Sim { witness: String },
}

pub ghost enum ModeView {
    Prod,
    Sim { witness: Seq<char> },
}

impl View for Mode {
    type V = ModeView;

    open spec fn view(&self) -> ModeView {
        match self {
            Mode::Prod => ModeView::Prod,
            Mode::Sim { witness } => ModeView::Sim { witness: witness@ },
        }
    }
}

/// Lint, title, label, notes and detail of a diagnostic.
pub struct Described {
    pub lint: Lint,
    pub title: String,
    pub label: String,
    pub notes: Vec<String>,
    pub detail: String,
}

pub ghost struct DescribedView {
    pub lint: Lint,
    pub title: Seq<char>,
    pub label: Seq<char>,
    pub notes: Seq<Seq<char>>,
    pub detail: Seq<char>,
}

impl View for Described {
    type V = DescribedView;

    open spec fn view(&self) -> DescribedView {
        DescribedView {
            lint: self.lint,
            title: self.title@,
            label: self.label@,
            notes: views(self.notes@),
            detail: self.detail@,
        }
    }
}

/// `a` then `b`.
fn cat2(a: &str, b: &str) -> (r: String)
    ensures
        r@ == a@ + b@,
{
    let mut out = copy_str(a);
    push_str(&mut out, b);
    out
}

/// `a`, `b` and `c` one after the other.
fn cat3(a: &str, b: &str, c: &str) -> (r: String)
    ensures
        r@ == a@ + b@ + c@,
{
    let mut out = copy_str(a);
    push_str(&mut out, b);
    push_str(&mut out, c);
    out
}

/// `a` to `e` one after the other.
fn cat5(a: &str, b: &str, c: &str, d: &str, e: &str) -> (r: String)
    ensures
        r@ == a@ + b@ + c@ + d@ + e@,
{
    let mut out = copy_str(a);
    push_str(&mut out, b);
    push_str(&mut out, c);
    push_str(&mut out, d);
    push_str(&mut out, e);
    out
}

fn one_note(note: String) -> (r: Vec<String>)
    ensures
        views(r@) == seq![note@],
{
    let mut v: Vec<String> = Vec::new();
    v.push(note);
    assert(views(v@) =~= seq![note@]);
    v
}

/// What a hole is called: title, label, note and detail.
pub open spec fn describe_hole_spec(hole: HoleView) -> DescribedView {
    let (title, label, note, detail) = match hole {
        HoleView::DynamicImport { name } => (
            "`"@ + name + "` imports a module the analysis cannot name"@,
            "dynamic import"@,
            "the imported module is not known statically, so its sinks are invisible"@,
            "dynamic-import "@ + name,
        ),
        HoleView::DynamicEval { name } => (
            "`"@ + name + "` executes code the analysis cannot see"@,
            "dynamic evaluation"@,
            "anything reachable from the evaluated source is outside the guarantee"@,
            "dynamic-eval "@ + name,
        ),
        HoleView::DynamicAttribute { function, module } => (
            "`"@ + function + "` on module `"@ + module + "` with a non-literal attribute"@,
            "dynamic attribute access"@,
            "the attribute is not known statically, so it cannot be matched against the sink database"@,
            "dynamic-attribute "@ + function + "("@ + module + ")"@,
        ),
        HoleView::Monkeypatch { target } => (
            "assignment to `"@ + target + "` replaces a module attribute"@,
            "monkeypatch"@,
            "the analysis judged the original attribute; after this it is something else"@,
            "monkeypatch "@ + target,
        ),
        HoleView::StarImport { target } => (
            "`from "@ + target + " import *` has no analyzed source"@,
            "star import"@,
            "names it introduces cannot be resolved, so sinks reached through them are invisible"@,
            "star-import "@ + target,
        ),
    };
    DescribedView { lint: Lint::Unresolved, title, label, notes: seq![note], detail }
}

pub fn describe_hole(hole: &Hole) -> (r: Described)
    ensures
        r@ == describe_hole_spec(hole@),
{
    match hole {
        Hole::DynamicImport { name } => Described {
            lint: Lint::Unresolved,
            title: cat3("`", name.as_str(), "` imports a module the analysis cannot name"),
            label: copy_str("dynamic import"),
            notes: one_note(copy_str("the imported module is not known statically, so its sinks are invisible")),
            detail: cat2("dynamic-import ", name.as_str()),
        },
        Hole::DynamicEval { name } => Described {
            lint: Lint::Unresolved,
            title: cat3("`", name.as_str(), "` executes code the analysis cannot see"),
            label: copy_str("dynamic evaluation"),
            notes: one_note(copy_str("anything reachable from the evaluated source is outside the guarantee")),
            detail: cat2("dynamic-eval ", name.as_str()),
        },
        Hole::DynamicAttribute { function, module } => Described {
            lint: Lint::Unresolved,
            title: cat5("`", function.as_str(), "` on module `", module.as_str(), "` with a non-literal attribute"),
            label: copy_str("dynamic attribute access"),
            notes: one_note(copy_str("the attribute is not known statically, so it cannot be matched against the sink database")),
            detail: cat5("dynamic-attribute ", function.as_str(), "(", module.as_str(), ")"),
        },
        Hole::Monkeypatch { target } => Described {
            lint: Lint::Unresolved,
            title: cat3("assignment to `", target.as_str(), "` replaces a module attribute"),
            label: copy_str("monkeypatch"),
            notes: one_note(copy_str("the analysis judged the original attribute; after this it is something else")),
            detail: cat2("monkeypatch ", target.as_str()),
        },
        Hole::StarImport { target } => Described {
            lint: Lint::Unresolved,
            title: cat3("`from ", target.as_str(), " import *` has no analyzed source"),
            label: copy_str("star import"),
            notes: one_note(copy_str("names it introduces cannot be resolved, so sinks reached through them are invisible")),
            detail: cat2("star-import ", target.as_str()),
        },
    }
}

} // verus!

verus! {

/// The note and the detail that say why a site was not blessed.
pub open spec fn render_context_spec(context: ContextView) -> (Seq<char>, Seq<char>) {
    match context {
        ContextView::Unblessed => ("not inside any shim protocol implementation"@, "unblessed"@),
        ContextView::MarkedDeterministic { class } => (
            "`"@ + class + "` is marked deterministic and receives no grants"@,
            "marked:"@ + class,
        ),
        ContextView::GrantsMissing { protocol, grants } => (
            "the enclosing implementation of `"@ + protocol + "` grants ["@ + join_spec(grants, ", "@) + "]"@,
            "grants-missing:"@ + protocol + "["@ + join_spec(grants, ","@) + "]"@,
        ),
    }
}

pub fn render_context(context: &Context) -> (r: (String, String))
    ensures
        (r.0@, r.1@) == render_context_spec(context@),
{
    match context {
        Context::Unblessed => (copy_str("not inside any shim protocol implementation"), copy_str("unblessed")),
        Context::MarkedDeterministic { class } => (
            cat3("`", class.as_str(), "` is marked deterministic and receives no grants"),
            cat2("marked:", class.as_str()),
        ),
        Context::GrantsMissing { protocol, grants } => {
            let spaced = crate::resolve::modules::join_strings(grants, ", ");
            let tight = crate::resolve::modules::join_strings(grants, ",");
            let mut note = cat3("the enclosing implementation of `", protocol.as_str(), "` grants [");
            push_str(&mut note, spaced.as_str());
            push_str(&mut note, "]");
            let mut detail = cat3("grants-missing:", protocol.as_str(), "[");
            push_str(&mut detail, tight.as_str());
            push_str(&mut detail, "]");
            (note, detail)
        },
    }
}

/// The note naming the database entry a sink matched.
pub open spec fn matched_note_spec(matched: SinkKindView) -> Seq<char> {
    match matched {
        SinkKindView::Call(pattern) => "matched the call sink `"@ + pattern + "`"@,
        SinkKindView::ModuleFence(module) => "matched the module fence `"@ + module + "`"@,
    }
}

pub fn matched_note(matched: &SinkKind) -> (r: String)
    ensures
        r@ == matched_note_spec(matched@),
{
    match matched {
        SinkKind::Call(pattern) => cat3("matched the call sink `", pattern.as_str(), "`"),
        SinkKind::ModuleFence(module) => cat3("matched the module fence `", module.as_str(), "`"),
    }
}

/// How a finding is reported under a mode; fences and the set heuristic
/// only exist in sim mode.
pub open spec fn describe_spec(kind: FindingKindView, mode: ModeView) -> Option<DescribedView> {
    match kind {
        FindingKindView::Sink { capability, name, matched, context } => match mode {
            ModeView::Prod => {
                let (context_note, context_detail) = render_context_spec(context);
                Some(DescribedView {
                    lint: Lint::ShimNondeterminism,
                    title: "nondeterminism sink `"@ + name + "` ("@ + capability + ") named outside a shim implementation"@,
                    label: capability + " sink named here"@,
                    notes: seq![
                        context_note,
                        matched_note_spec(matched),
                        "route this through a shim protocol implementation, or grant the capability to the enclosing one"@,
                    ],
                    detail: capability + " "@ + name + " "@ + context_detail,
                })
            },
            ModeView::Sim { witness } => {
                let base_detail = capability + " "@ + name + " witness="@ + witness;
                let (notes, detail) = match context {
                    ContextView::MarkedDeterministic { class } => (
                        seq![
                            matched_note_spec(matched),
                            "`"@ + class + "` is marked deterministic: naming a sink here is a broken determinism claim"@,
                        ],
                        base_detail + " broken-claim:"@ + class,
                    ),
                    _ => (seq![matched_note_spec(matched)], base_detail),
                };
                Some(DescribedView {
                    lint: Lint::SimNondeterminism,
                    title: "nondeterminism sink `"@ + name + "` ("@ + capability + ") is reachable from a simulation root"@,
                    label: capability + " sink named here"@,
                    notes,
                    detail,
                })
            },
        },
        FindingKindView::ImportFence { capability, module } => match mode {
            ModeView::Prod => None,
            ModeView::Sim { witness } => Some(DescribedView {
                lint: Lint::SimNondeterminism,
                title: "simulation scope imports the fenced module `"@ + module + "` ("@ + capability + ")"@,
                label: capability + " module imported here"@,
                notes: seq!["the whole module is fenced: importing it puts its surface in simulation scope"@],
                detail: capability + " import:"@ + module + " witness="@ + witness,
            }),
        },
        FindingKindView::HashOrder { construct, context } => match mode {
            ModeView::Prod => None,
            ModeView::Sim { witness } => {
                let base_notes = seq![
                    "set iteration order varies with PYTHONHASHSEED; this is a syntactic heuristic"@,
                    "sort before iterating, or run simulations with PYTHONHASHSEED=0"@,
                ];
                let base_detail = "hash_order "@ + construct + " witness="@ + witness;
                let (notes, detail) = match context {
                    ContextView::MarkedDeterministic { class } => (
                        base_notes.push("`"@ + class + "` is marked deterministic"@),
                        base_detail + " broken-claim:"@ + class,
                    ),
                    _ => (base_notes, base_detail),
                };
                Some(DescribedView {
                    lint: Lint::SimNondeterminism,
                    title: construct + " in simulation scope has PYTHONHASHSEED-dependent order"@,
                    label: "hash_order sink constructed here"@,
                    notes,
                    detail,
                })
            },
        },
        FindingKindView::Hole(h) => Some(describe_hole_spec(h)),
    }
}

fn push_note(notes: &mut Vec<String>, note: String)
    ensures
        views(final(notes)@) == views(old(notes)@).push(note@),
{
    let ghost before = notes@;
    notes.push(note);
    proof {
        crate::text::lemma_views_push(before, note);
    }
}

pub fn describe(kind: &FindingKind, mode: &Mode) -> (r: Option<Described>)
    ensures
        match r {
            Some(d) => describe_spec(kind@, mode@) == Some(d@),
            None => describe_spec(kind@, mode@) is None,
        },
{
    match kind {
        FindingKind::Sink { capability, name, matched, context } => match mode {
            Mode::Prod => {
                let (context_note, context_detail) = render_context(context);
                let mut notes: Vec<String> = Vec::new();
                push_note(&mut notes, context_note);
                push_note(&mut notes, matched_note(matched));
                push_note(&mut notes, copy_str("route this through a shim protocol implementation, or grant the capability to the enclosing one"));
                let title = cat5("nondeterminism sink `", name.as_str(), "` (", capability.as_str(), ") named outside a shim implementation");
                let label = cat2(capability.as_str(), " sink named here");
                let detail = cat5(capability.as_str(), " ", name.as_str(), " ", context_detail.as_str());
                let d = Described { lint: Lint::ShimNondeterminism, title, label, notes, detail };
                assert(d@.notes =~= describe_spec(kind@, mode@)->Some_0.notes);
                Some(d)
            },
            Mode::Sim { witness } => {
                let mut notes: Vec<String> = Vec::new();
                push_note(&mut notes, matched_note(matched));
                let mut detail = cat5(capability.as_str(), " ", name.as_str(), " witness=", witness.as_str());
                match context {
                    Context::MarkedDeterministic { class } => {
                        push_note(&mut notes, cat3("`", class.as_str(), "` is marked deterministic: naming a sink here is a broken determinism claim"));
                        push_str(&mut detail, " broken-claim:");
                        push_str(&mut detail, class.as_str());
                    },
                    _ => {},
                }
                let title = cat5("nondeterminism sink `", name.as_str(), "` (", capability.as_str(), ") is reachable from a simulation root");
                let label = cat2(capability.as_str(), " sink named here");
                let d = Described { lint: Lint::SimNondeterminism, title, label, notes, detail };
                assert(d@.notes =~= describe_spec(kind@, mode@)->Some_0.notes);
                Some(d)
            },
        },
        FindingKind::ImportFence { capability, module } => match mode {
            Mode::Prod => None,
            Mode::Sim { witness } => {
                let mut detail = cat3(capability.as_str(), " import:", module.as_str());
                push_str(&mut detail, " witness=");
                push_str(&mut detail, witness.as_str());
                let d = Described {
                    lint: Lint::SimNondeterminism,
                    title: cat5("simulation scope imports the fenced module `", module.as_str(), "` (", capability.as_str(), ")"),
                    label: cat2(capability.as_str(), " module imported here"),
                    notes: one_note(copy_str("the whole module is fenced: importing it puts its surface in simulation scope")),
                    detail,
                };
                Some(d)
            },
        },
        FindingKind::HashOrder { construct, context } => match mode {
            Mode::Prod => None,
            Mode::Sim { witness } => {
                let mut notes: Vec<String> = Vec::new();
                push_note(&mut notes, copy_str("set iteration order varies with PYTHONHASHSEED; this is a syntactic heuristic"));
                push_note(&mut notes, copy_str("sort before iterating, or run simulations with PYTHONHASHSEED=0"));
                let mut detail = cat3("hash_order ", construct.as_str(), " witness=");
                push_str(&mut detail, witness.as_str());
                match context {
                    Context::MarkedDeterministic { class } => {
                        push_note(&mut notes, cat3("`", class.as_str(), "` is marked deterministic"));
                        push_str(&mut detail, " broken-claim:");
                        push_str(&mut detail, class.as_str());
                    },
                    _ => {},
                }
                let d = Described {
                    lint: Lint::SimNondeterminism,
                    title: cat2(construct.as_str(), " in simulation scope has PYTHONHASHSEED-dependent order"),
                    label: copy_str("hash_order sink constructed here"),
                    notes,
                    detail,
                };
                assert(d@.notes =~= describe_spec(kind@, mode@)->Some_0.notes);
                Some(d)
            },
        },
        FindingKind::Hole(h) => Some(describe_hole(h)),
    }
}

} // verus!

verus! {

/// A diagnostic as values.
pub ghost struct DiagnosticView {
    pub lint: Lint,
    pub path: Seq<char>,
    pub display_path: Seq<char>,
    pub range: TextRange,
    pub line: u32,
    pub column: u32,
    pub title: Seq<char>,
    pub label: Seq<char>,
    pub notes: Seq<Seq<char>>,
    pub detail: Seq<char>,
}

pub open spec fn diag_view(d: Diagnostic) -> DiagnosticView {
    DiagnosticView {
        lint: d.lint,
        path: d.path@,
        display_path: d.display_path@,
        range: d.range,
        line: d.line,
        column: d.column,
        title: d.title@,
        label: d.label@,
        notes: views(d.notes@),
        detail: d.detail@,
    }
}

pub open spec fn diag_views(s: Seq<Diagnostic>) -> Seq<DiagnosticView> {
    s.map_values(|d: Diagnostic| diag_view(d))
}

proof fn lemma_diag_views_push(s: Seq<Diagnostic>, d: Diagnostic)
    ensures
        diag_views(s.push(d)) == diag_views(s).push(diag_view(d)),
{
    assert(diag_views(s.push(d)) =~= diag_views(s).push(diag_view(d)));
}

/// The 1-based line and character column of byte `offset` in `b`.
pub open spec fn position_spec(b: Seq<u8>, offset: u32) -> (u32, u32) {
    let starts = line_starts_spec(b);
    let line = count_le(starts, offset);
    let start = starts[line - 1] as int;
    let end = if offset as int <= b.len() { offset as int } else { b.len() as int };
    let column = 1 + if start <= end && byte_boundary(b, start) && byte_boundary(b, end) {
        char_count(b.subrange(start, end))
    } else {
        0
    };
    (line as u32, column as u32)
}

/// The UTF-8 bytes of a module's source.
pub open spec fn source_bytes(m: Module) -> Seq<u8> {
    vstd::utf8::encode_utf8(m.source@)
}

/// Modules whose sources the analysis can index: their length fits the
/// 32-bit offsets that ranges use.
pub open spec fn indexable(m: Module) -> bool {
    source_bytes(m).len() < u32::MAX && m.source@.len() < u32::MAX
}

/// Whether every module of `program` is one the analysis can index.
pub fn sources_indexable(program: &Program) -> (r: bool)
    ensures
        r == forall|i: int| 0 <= i < program.table().modules_view().len()
            ==> indexable(#[trigger] program.table().modules_view()[i]),
{
    let modules = program.modules().iter();
    let mut i: usize = 0;
    while i < modules.len()
        invariant
            modules@ == program.table().modules_view(),
            i <= modules@.len(),
            forall|k: int| 0 <= k < i ==> indexable(#[trigger] modules@[k]),
        decreases modules@.len() - i,
    {
        let text = modules[i].source.as_str();
        let bytes = text.as_bytes().len();
        let chars = crate::text::chars_of(text).len();
        proof {
            assert(text@ == modules@[i as int].source@);
            assert(text.spec_bytes() == source_bytes(modules@[i as int]));
        }
        if bytes >= 0xffff_ffff || chars >= 0xffff_ffff {
            return false;
        }
        i = i + 1;
    }
    true
}

fn position(index: &LineIndex, source: &str, offset: u32) -> (r: (u32, u32))
    requires
        source.spec_bytes().len() < u32::MAX,
        index.starts_view() == line_starts_spec(source.spec_bytes()),
    ensures
        r == position_spec(source.spec_bytes(), offset),
{
    let r = index.line_column(source, offset);
    r
}

/// The diagnostic a finding of `module` becomes, if it is reported under
/// `mode`; sim findings other than holes name their witness.
pub open spec fn emit_one(module: Module, f: FindingView, mode: ModeView) -> Option<DiagnosticView> {
    match describe_spec(f.kind, mode) {
        None => None,
        Some(d) => {
            let notes = match mode {
                ModeView::Sim { witness } => if d.lint != Lint::Unresolved {
                    d.notes.push("witness: "@ + witness)
                } else {
                    d.notes
                },
                ModeView::Prod => d.notes,
            };
            let (line, column) = position_spec(source_bytes(module), f.range.start);
            Some(DiagnosticView {
                lint: d.lint,
                path: module.path@,
                display_path: module.display_path@,
                range: f.range,
                line,
                column,
                title: d.title,
                label: d.label,
                notes,
                detail: d.detail,
            })
        },
    }
}

/// The diagnostics of a module's findings, in finding order.
pub open spec fn emit_spec(module: Module, findings: Seq<FindingView>, mode: ModeView) -> Seq<DiagnosticView>
    decreases findings.len(),
{
    if findings.len() == 0 {
        Seq::empty()
    } else {
        let earlier = emit_spec(module, findings.drop_last(), mode);
        match emit_one(module, findings.last(), mode) {
            Some(d) => earlier.push(d),
            None => earlier,
        }
    }
}

/// Turns a module's findings into diagnostics.
fn emit(module: &Module, findings: Vec<Finding>, mode: &Mode, out: &mut Vec<Diagnostic>)
    requires
        indexable(*module),
    ensures
        diag_views(final(out)@) == diag_views(old(out)@) + emit_spec(*module, finding_views(findings@), mode@),
{
    let index = LineIndex::new(module.source.as_str());
    let ghost start = diag_views(out@);
    let ghost fs = finding_views(findings@);
    let mut rest = findings;
    let mut k: usize = 0;
    let total = rest.len();
    assert(fs.skip(0) =~= fs);
    assert(start + emit_spec(*module, fs.take(0), mode@) =~= start);
    while rest.len() > 0
        invariant
            k <= fs.len(),
            total == fs.len(),
            finding_views(rest@) == fs.skip(k as int),
            index.starts_view() == line_starts_spec(source_bytes(*module)),
            indexable(*module),
            diag_views(out@) == start + emit_spec(*module, fs.take(k as int), mode@),
        decreases rest@.len(),
    {
        let ghost rest_before = rest@;
        assert(finding_views(rest_before).len() == rest_before.len());
        assert(k < fs.len());
        let f = rest.remove(0);
        assert(f == rest_before[0]);
        assert(finding_views(rest_before)[0] == f@);
        assert(fs.skip(k as int)[0] == fs[k as int]);
        assert(f@ == fs[k as int]);
        assert(finding_views(rest@) =~= fs.skip(k + 1)) by {
            assert(finding_views(rest@) =~= finding_views(rest_before).drop_first());
        }
        assert(fs.take(k + 1).drop_last() =~= fs.take(k as int));
        assert(fs.take(k + 1).last() == fs[k as int]);
        let (line, column) = position(&index, module.source.as_str(), f.range.start);
        match describe(&f.kind, mode) {
            None => {},
            Some(d) => {
                let Described { lint, title, label, mut notes, detail } = d;
                match mode {
                    Mode::Sim { witness } => {
                        if lint != Lint::Unresolved {
                            let ghost before = notes@;
                            let note = cat2("witness: ", witness.as_str());
                            notes.push(note);
                            proof {
                                crate::text::lemma_views_push(before, note);
                            }
                        }
                    },
                    Mode::Prod => {},
                }
                let diag = Diagnostic {
                    lint,
                    path: module.path.clone(),
                    display_path: module.display_path.clone(),
                    range: f.range,
                    line,
                    column,
                    title,
                    label,
                    notes,
                    detail,
                };
                let ghost before = out@;
                out.push(diag);
                proof {
                    lemma_diag_views_push(before, diag);
                }
            },
        }
        k = k + 1;
    }
    assert(fs.take(k as int) =~= fs);
}

} // verus!

verus! {

/// Two diagnostics report the same thing: same lint, file, range and detail.
pub open spec fn same_report(a: DiagnosticView, b: DiagnosticView) -> bool {
    a.lint == b.lint && a.display_path == b.display_path && a.range == b.range && a.detail == b.detail
}

/// Some diagnostic of `s` reports what `d` reports.
pub open spec fn has_report(s: Seq<DiagnosticView>, d: DiagnosticView) -> bool {
    exists|j: int| 0 <= j < s.len() && #[trigger] same_report(s[j], d)
}

/// The diagnostics not preceded by one reporting the same thing.
pub open spec fn keep_first(s: Seq<DiagnosticView>) -> Seq<DiagnosticView>
    decreases s.len(),
{
    if s.len() == 0 {
        Seq::empty()
    } else if has_report(s.drop_last(), s.last()) {
        keep_first(s.drop_last())
    } else {
        keep_first(s.drop_last()).push(s.last())
    }
}

/// What the kept diagnostics report is what all of them report.
proof fn lemma_keep_first_reports(s: Seq<DiagnosticView>, d: DiagnosticView)
    ensures
        has_report(keep_first(s), d) <==> has_report(s, d),
    decreases s.len(),
{
    if s.len() > 0 {
        let init = s.drop_last();
        lemma_keep_first_reports(init, d);
        let k = keep_first(init);
        if has_report(init, s.last()) {
            lemma_keep_first_reports(init, s.last());
            if has_report(s, d) {
                let j = choose|j: int| 0 <= j < s.len() && #[trigger] same_report(s[j], d);
                if j < init.len() {
                    assert(same_report(init[j], d));
                } else {
                    let q = choose|q: int| 0 <= q < k.len() && #[trigger] same_report(k[q], s.last());
                    assert(same_report(k[q], d));
                }
            }
            if has_report(init, d) {
                let j = choose|j: int| 0 <= j < init.len() && #[trigger] same_report(init[j], d);
                assert(s[j] == init[j]);
            }
        } else {
            let kk = k.push(s.last());
            if has_report(s, d) {
                let j = choose|j: int| 0 <= j < s.len() && #[trigger] same_report(s[j], d);
                if j < init.len() {
                    assert(same_report(init[j], d));
                    let q = choose|q: int| 0 <= q < k.len() && #[trigger] same_report(k[q], d);
                    assert(kk[q] == k[q]);
                } else {
                    assert(same_report(kk[kk.len() - 1], d));
                }
            }
            if has_report(kk, d) {
                let q = choose|q: int| 0 <= q < kk.len() && #[trigger] same_report(kk[q], d);
                if q < k.len() {
                    assert(kk[q] == k[q]);
                    assert(has_report(k, d));
                    let j = choose|j: int| 0 <= j < init.len() && #[trigger] same_report(init[j], d);
                    assert(s[j] == init[j]);
                } else {
                    assert(same_report(s[s.len() - 1], d));
                }
            }
        }
    }
}

/// Collects diagnostics, dropping any that repeat an earlier one.
struct Builder {
    diagnostics: Vec<Diagnostic>,
}

impl Builder {
    fn push(&mut self, diagnostic: Diagnostic, Ghost(pushed): Ghost<Seq<DiagnosticView>>)
        requires
            diag_views(old(self).diagnostics@) == keep_first(pushed),
        ensures
            diag_views(final(self).diagnostics@) == keep_first(pushed.push(diag_view(diagnostic))),
    {
        let ghost kept = diag_views(self.diagnostics@);
        let mut seen = false;
        let mut i: usize = 0;
        while i < self.diagnostics.len()
            invariant
                i <= self.diagnostics@.len(),
                kept == diag_views(self.diagnostics@),
                seen == exists|j: int| 0 <= j < i && #[trigger] same_report(kept[j], diag_view(diagnostic)),
            decreases self.diagnostics@.len() - i,
        {
            let other = &self.diagnostics[i];
            let same = other.lint == diagnostic.lint && other.range == diagnostic.range
                && str_eq(other.display_path.as_str(), diagnostic.display_path.as_str())
                && str_eq(other.detail.as_str(), diagnostic.detail.as_str());
            proof {
                assert(kept[i as int] == diag_view(*other));
                assert(same == same_report(kept[i as int], diag_view(diagnostic)));
            }
            if same {
                seen = true;
            }
            i = i + 1;
        }
        proof {
            lemma_keep_first_reports(pushed, diag_view(diagnostic));
            assert(pushed.push(diag_view(diagnostic)).drop_last() =~= pushed);
        }
        if !seen {
            let ghost before = self.diagnostics@;
            self.diagnostics.push(diagnostic);
            proof {
                lemma_diag_views_push(before, diagnostic);
            }
        }
    }
}

/// `a` sorts strictly before `b`: by file, offset, lint, then detail.
pub open spec fn diag_before(a: DiagnosticView, b: DiagnosticView) -> bool {
    ||| lex_lt(a.display_path, b.display_path)
    ||| (a.display_path == b.display_path && a.range.start < b.range.start)
    ||| (a.display_path == b.display_path && a.range.start == b.range.start && lint_rank(a.lint) < lint_rank(b.lint))
    ||| (a.display_path == b.display_path && a.range.start == b.range.start && a.lint == b.lint
        && lex_lt(a.detail, b.detail))
}

impl SortKey for Diagnostic {
    open spec fn key_lt(&self, other: &Self) -> bool {
        diag_before(diag_view(*self), diag_view(*other))
    }

    fn less_than(&self, other: &Self) -> (r: bool) {
        if str_lt(self.display_path.as_str(), other.display_path.as_str()) {
            return true;
        }
        if !str_eq(self.display_path.as_str(), other.display_path.as_str()) {
            return false;
        }
        if self.range.start != other.range.start {
            return self.range.start < other.range.start;
        }
        let a = self.lint.rank();
        let b = other.lint.rank();
        if a != b {
            return a < b;
        }
        str_lt(self.detail.as_str(), other.detail.as_str())
    }
}

/// `s` with `x` put after every diagnostic it does not sort before.
pub open spec fn insert_diag(s: Seq<DiagnosticView>, x: DiagnosticView) -> Seq<DiagnosticView>
    decreases s.len(),
{
    if s.len() == 0 || !diag_before(x, s.last()) {
        s.push(x)
    } else {
        insert_diag(s.drop_last(), x).push(s.last())
    }
}

/// The diagnostics sorted by file, offset, lint and detail; ties keep their
/// order.
pub open spec fn sort_diags(s: Seq<DiagnosticView>) -> Seq<DiagnosticView>
    decreases s.len(),
{
    if s.len() == 0 {
        Seq::empty()
    } else {
        insert_diag(sort_diags(s.drop_last()), s.last())
    }
}

proof fn lemma_insert_diag_views(s: Seq<Diagnostic>, x: Diagnostic)
    ensures
        diag_views(crate::order::insert_sorted(s, x)) == insert_diag(diag_views(s), diag_view(x)),
    decreases s.len(),
{
    if s.len() > 0 {
        assert(diag_views(s).drop_last() =~= diag_views(s.drop_last()));
        assert(diag_views(s).last() == diag_view(s.last()));
        lemma_insert_diag_views(s.drop_last(), x);
    }
    assert(diag_views(crate::order::insert_sorted(s, x)) =~= insert_diag(diag_views(s), diag_view(x)));
}

proof fn lemma_sort_diag_views(s: Seq<Diagnostic>)
    ensures
        diag_views(crate::order::stable_sorted(s)) == sort_diags(diag_views(s)),
    decreases s.len(),
{
    if s.len() > 0 {
        lemma_sort_diag_views(s.drop_last());
        assert(diag_views(s).drop_last() =~= diag_views(s.drop_last()));
        assert(diag_views(s).last() == diag_view(s.last()));
        lemma_insert_diag_views(crate::order::stable_sorted(s.drop_last()), s.last());
    } else {
        assert(diag_views(Seq::<Diagnostic>::empty()) =~= Seq::<DiagnosticView>::empty());
    }
}

/// Diagnostics are ordered by a strict weak order.
proof fn lemma_diag_order()
    ensures
        crate::order::strict_weak_order::<Diagnostic>(),
{
    assert forall|a: Diagnostic, b: Diagnostic| #![trigger a.key_lt(&b)] a.key_lt(&b) implies !b.key_lt(&a) by {
        crate::order::lemma_lex_total(a.display_path@, b.display_path@);
        crate::order::lemma_lex_total(a.detail@, b.detail@);
        crate::order::lemma_lex_irreflexive(a.display_path@);
    }
    assert forall|a: Diagnostic, b: Diagnostic, c: Diagnostic|
        #![trigger a.key_lt(&b), b.key_lt(&c)] !a.key_lt(&b) && !b.key_lt(&c) implies !a.key_lt(&c) by {
        crate::order::lemma_lex_total(a.display_path@, b.display_path@);
        crate::order::lemma_lex_total(b.display_path@, c.display_path@);
        crate::order::lemma_lex_total(a.display_path@, c.display_path@);
        crate::order::lemma_lex_irreflexive(a.display_path@);
        if !lex_lt(a.display_path@, b.display_path@) && !lex_lt(b.display_path@, c.display_path@) {
            crate::order::lemma_lex_not_lt_transitive(a.display_path@, b.display_path@, c.display_path@);
        }
        crate::order::lemma_lex_total(a.detail@, b.detail@);
        crate::order::lemma_lex_total(b.detail@, c.detail@);
        crate::order::lemma_lex_total(a.detail@, c.detail@);
        if !lex_lt(a.detail@, b.detail@) && !lex_lt(b.detail@, c.detail@) {
            crate::order::lemma_lex_not_lt_transitive(a.detail@, b.detail@, c.detail@);
        }
    }
}

impl Builder {
    /// The kept diagnostics, ordered.
    fn finish(self) -> (r: Vec<Diagnostic>)
        ensures
            diag_views(r@) == sort_diags(diag_views(self.diagnostics@)),
            crate::order::key_sorted(r@),
    {
        let ghost all = self.diagnostics@;
        let r = crate::order::stable_sort(self.diagnostics);
        proof {
            lemma_sort_diag_views(all);
            lemma_diag_order();
            crate::order::lemma_stable_sorted(all);
        }
        r
    }
}

} // verus!

verus! {

/// The last module shown as `display_path`: its comments decide.
pub open spec fn shown_as(modules: Seq<Module>, display_path: Seq<char>) -> Option<int>
    decreases modules.len(),
{
    if modules.len() == 0 {
        None
    } else if modules.last().display_path@ == display_path {
        Some(modules.len() - 1)
    } else {
        shown_as(modules.drop_last(), display_path)
    }
}

proof fn lemma_shown_as(modules: Seq<Module>, display_path: Seq<char>)
    ensures
        shown_as(modules, display_path) matches Some(i) ==> 0 <= i < modules.len()
            && modules[i].display_path@ == display_path,
    decreases modules.len(),
{
    if modules.len() > 0 && modules.last().display_path@ != display_path {
        lemma_shown_as(modules.drop_last(), display_path);
    }
}

/// What each line of a module allows, entry `k` for line `k + 1`.
pub open spec fn allow_lines(m: Module) -> Seq<Option<Seq<Seq<char>>>> {
    Seq::new((lines_spec(m.source@).len() + 1) as nat, |k: int| allowed_on(lines_spec(m.source@), k + 1))
}

/// The marked definitions of a module and what they allow.
pub open spec fn allow_ranges(m: Module) -> Seq<(TextRange, Seq<Seq<char>>)> {
    allowed_defs(def_headers(m.body@), lines_spec(m.source@), line_starts_spec(source_bytes(m)))
}

/// A `# triglint: allow(...)` comment of `m` covers `lint` on `line` at byte
/// `offset`.
pub open spec fn allowed_in(m: Module, lint: Lint, line: u32, offset: u32) -> bool {
    line_allows(allow_lines(m), line as int, lint_name(lint))
        || exists|k: int| 0 <= k < allow_ranges(m).len()
            && (#[trigger] allow_ranges(m)[k]).0.start <= offset && offset < allow_ranges(m)[k].0.end
            && allow_ranges(m)[k].1.contains(lint_name(lint))
}

/// The diagnostic is covered by an allow comment of its file.
pub open spec fn suppressed(modules: Seq<Module>, d: DiagnosticView) -> bool {
    match shown_as(modules, d.display_path) {
        Some(i) => allowed_in(modules[i], d.lint, d.line, d.range.start),
        None => false,
    }
}

/// The diagnostics no allow comment covers, in order.
pub open spec fn unsuppressed(modules: Seq<Module>, s: Seq<DiagnosticView>) -> Seq<DiagnosticView>
    decreases s.len(),
{
    if s.len() == 0 {
        Seq::empty()
    } else {
        let earlier = unsuppressed(modules, s.drop_last());
        if suppressed(modules, s.last()) {
            earlier
        } else {
            earlier.push(s.last())
        }
    }
}

/// The position of the last module shown as `display_path`.
fn find_shown(modules: &Vec<Module>, display_path: &str) -> (r: Option<usize>)
    ensures
        match r {
            Some(i) => shown_as(modules@, display_path@) == Some(i as int),
            None => shown_as(modules@, display_path@) is None,
        },
{
    let mut i: usize = modules.len();
    assert(modules@.take(i as int) =~= modules@);
    while i > 0
        invariant
            i <= modules@.len(),
            shown_as(modules@, display_path@) == shown_as(modules@.take(i as int), display_path@),
        decreases i,
    {
        assert(modules@.take(i as int).drop_last() =~= modules@.take(i - 1));
        assert(modules@.take(i as int).last() == modules@[i - 1]);
        if str_eq(modules[i - 1].display_path.as_str(), display_path) {
            return Some(i - 1);
        }
        i = i - 1;
    }
    proof {
        assert(modules@.take(0) =~= Seq::<Module>::empty());
    }
    None
}

/// Drops diagnostics covered by a `# triglint: allow(...)` comment.
fn suppress(diagnostics: Vec<Diagnostic>, modules: &Vec<Module>) -> (r: Vec<Diagnostic>)
    requires
        forall|i: int| 0 <= i < modules@.len() ==> indexable(#[trigger] modules@[i]),
    ensures
        diag_views(r@) == unsuppressed(modules@, diag_views(diagnostics@)),
        crate::order::key_sorted(diagnostics@) ==> crate::order::key_sorted(r@),
{
    let mut allows: Vec<AllowComments> = Vec::new();
    let mut m: usize = 0;
    while m < modules.len()
        invariant
            m <= modules@.len(),
            forall|i: int| 0 <= i < modules@.len() ==> indexable(#[trigger] modules@[i]),
            allows@.len() == m,
            forall|i: int| 0 <= i < m ==> (#[trigger] allows@[i]).by_line_view() == allow_lines(modules@[i])
                && allows@[i].by_range_view() == allow_ranges(modules@[i]),
        decreases modules@.len() - m,
    {
        let module = &modules[m];
        assert(indexable(modules@[m as int]));
        let index = LineIndex::new(module.source.as_str());
        let allow = AllowComments::scan(module.source.as_str(), &module.body, &index);
        assert(allow.by_line_view() =~= allow_lines(modules@[m as int]));
        allows.push(allow);
        m = m + 1;
    }
    let ghost all = diagnostics@;
    let mut out: Vec<Diagnostic> = Vec::new();
    let mut rest = diagnostics;
    let mut k: usize = 0;
    let total = rest.len();
    assert(all.skip(0) =~= all);
    assert(diag_views(all).take(0) =~= Seq::<DiagnosticView>::empty());
    assert(diag_views(out@) =~= Seq::<DiagnosticView>::empty());
    while rest.len() > 0
        invariant
            k <= all.len(),
            total == all.len(),
            rest@ == all.skip(k as int),
            allows@.len() == modules@.len(),
            forall|i: int| 0 <= i < modules@.len() ==> (#[trigger] allows@[i]).by_line_view() == allow_lines(modules@[i])
                && allows@[i].by_range_view() == allow_ranges(modules@[i]),
            diag_views(out@) == unsuppressed(modules@, diag_views(all).take(k as int)),
            forall|q: int| 0 <= q < out@.len() ==> exists|j: int| 0 <= j < k && all[j] == #[trigger] out@[q],
            crate::order::key_sorted(all) ==> crate::order::key_sorted(out@),
        decreases rest@.len(),
    {
        let d = rest.remove(0);
        assert(d == all[k as int]);
        assert(rest@ =~= all.skip(k + 1));
        assert(diag_views(all).take(k + 1).drop_last() =~= diag_views(all).take(k as int));
        assert(diag_views(all).take(k + 1).last() == diag_view(d));
        proof {
            lemma_shown_as(modules@, d.display_path@);
        }
        let covered = match find_shown(modules, d.display_path.as_str()) {
            Some(i) => {
                let c = allows[i].suppresses(d.lint, d.line, d.range.start);
                proof {
                    let m = modules@[i as int];
                    assert(allows@[i as int].by_range_view() == allow_ranges(m));
                    assert(allows@[i as int].by_line_view() == allow_lines(m));
                    if c && !line_allows(allow_lines(m), d.line as int, lint_name(d.lint)) {
                        let q = choose|q: int| 0 <= q < allows@[i as int].by_range_view().len()
                            && (#[trigger] allows@[i as int].by_range_view()[q]).0.start <= d.range.start
                            && d.range.start < allows@[i as int].by_range_view()[q].0.end
                            && allows@[i as int].by_range_view()[q].1.contains(lint_name(d.lint));
                        assert(allow_ranges(m)[q] == allows@[i as int].by_range_view()[q]);
                    }
                    if allowed_in(m, d.lint, d.line, d.range.start) && !line_allows(allow_lines(m), d.line as int, lint_name(d.lint)) {
                        let q = choose|q: int| 0 <= q < allow_ranges(m).len()
                            && (#[trigger] allow_ranges(m)[q]).0.start <= d.range.start && d.range.start < allow_ranges(m)[q].0.end
                            && allow_ranges(m)[q].1.contains(lint_name(d.lint));
                        assert(allow_ranges(m)[q] == allows@[i as int].by_range_view()[q]);
                    }
                }
                c
            },
            None => false,
        };
        assert(covered == suppressed(modules@, diag_view(d)));
        if !covered {
            let ghost before = out@;
            out.push(d);
            proof {
                lemma_diag_views_push(before, d);
                assert forall|q: int| 0 <= q < out@.len() implies exists|j: int| 0 <= j < k + 1 && all[j] == #[trigger] out@[q] by {
                    if q < before.len() {
                        assert(out@[q] == before[q]);
                    } else {
                        assert(all[k as int] == out@[q]);
                    }
                }
                if crate::order::key_sorted(all) {
                    assert forall|a: int, b: int| #![trigger out@[a], out@[b]] 0 <= a < b < out@.len() implies !out@[b].key_lt(&out@[a]) by {
                        if b == out@.len() - 1 {
                            assert(out@[a] == before[a]);
                            let j = choose|j: int| 0 <= j < k && all[j] == #[trigger] before[a];
                            assert(!all[k as int].key_lt(&all[j]));
                        } else {
                            assert(out@[a] == before[a] && out@[b] == before[b]);
                        }
                    }
                }
            }
        }
        k = k + 1;
    }
    assert(all.take(k as int) =~= all);
    assert(diag_views(all).take(k as int) =~= diag_views(all));
    out
}

} // verus!

verus! {

/// Why an analysis could not run.
pub enum PylintError {
    /// The configuration could not be read or parsed; the reader's message.
    Config { message: String },
    Resolve(ResolveError),
    MissingSimRoots { roots: Vec<String> },
}

impl PylintError {
    /// The message shown for the error.
    pub fn message(&self) -> (r: String)
        ensures
            match self {
                PylintError::Config { message } => r@ == message@,
                PylintError::Resolve(e) => match e {
                    ResolveError::Collect(c) => r@ == c.message_spec(),
                },
                PylintError::MissingSimRoots { roots } => r@ == "[python.sim] roots name modules that were not collected: "@
                    + join_spec(views(roots@), ", "@),
            },
    {
        match self {
            PylintError::Config { message } => message.clone(),
            PylintError::Resolve(e) => e.message(),
            PylintError::MissingSimRoots { roots } => {
                let joined = crate::resolve::modules::join_strings(roots, ", ");
                cat2("[python.sim] roots name modules that were not collected: ", joined.as_str())
            },
        }
    }
}

/// The result of one run.
pub struct Analysis {
    pub diagnostics: Vec<Diagnostic>,
    /// Modules collected from `source_roots`.
    pub modules_collected: usize,
    /// Modules inside the sim import closure (0 when sim mode is off).
    pub sim_modules: usize,
    /// Display path and source of every module, in table order.
    sources: Vec<(String, String)>,
}

/// How many diagnostics fail the run.
pub open spec fn denial_count(s: Seq<Diagnostic>) -> nat
    decreases s.len(),
{
    if s.len() == 0 {
        0
    } else {
        denial_count(s.drop_last()) + if lint_level(s.last().lint) == Level::Deny { 1nat } else { 0nat }
    }
}

/// How many diagnostics report what the analysis cannot see through.
pub open spec fn unresolved_count(s: Seq<Diagnostic>) -> nat
    decreases s.len(),
{
    if s.len() == 0 {
        0
    } else {
        unresolved_count(s.drop_last()) + if s.last().lint == Lint::Unresolved { 1nat } else { 0nat }
    }
}

/// Every diagnostic either fails the run or is a warning, and the warnings
/// are exactly the diagnostics about what the analysis cannot see through.
pub proof fn law_warnings_are_the_unresolved(s: Seq<Diagnostic>)
    ensures
        denial_count(s) + unresolved_count(s) == s.len(),
    decreases s.len(),
{
    if s.len() > 0 {
        law_warnings_are_the_unresolved(s.drop_last());
    }
}

/// The diagnostics of the file shown as `display_path`, in order.
pub open spec fn in_file(s: Seq<Diagnostic>, display_path: Seq<char>) -> Seq<Diagnostic>
    decreases s.len(),
{
    if s.len() == 0 {
        Seq::empty()
    } else if s.last().display_path@ == display_path {
        in_file(s.drop_last(), display_path).push(s.last())
    } else {
        in_file(s.drop_last(), display_path)
    }
}

/// The source shown as `display_path`: the last one listed, or nothing.
pub open spec fn source_for(sources: Seq<(String, String)>, display_path: Seq<char>) -> Seq<char>
    decreases sources.len(),
{
    if sources.len() == 0 {
        Seq::empty()
    } else if sources.last().0@ == display_path {
        sources.last().1@
    } else {
        source_for(sources.drop_last(), display_path)
    }
}

/// The snippet of one diagnostic against the source it points into.
pub open spec fn rendered(d: Diagnostic, source: Seq<char>) -> Seq<char> {
    snippet_report(
        lint_level(d.lint) == Level::Deny,
        d.title@,
        lint_name(d.lint),
        source,
        d.display_path@,
        d.range.start as usize,
        d.range.end as usize,
        d.label@,
        views(d.notes@),
    )
}

/// The snippets of the diagnostics, each followed by a newline.
pub open spec fn render_spec(ds: Seq<Diagnostic>, sources: Seq<(String, String)>) -> Seq<char>
    decreases ds.len(),
{
    if ds.len() == 0 {
        Seq::empty()
    } else {
        render_spec(ds.drop_last(), sources) + rendered(ds.last(), source_for(sources, ds.last().display_path@)) + "\n"@
    }
}

/// Every diagnostic's range lies on character boundaries of its source.
pub open spec fn spans_fit(ds: Seq<Diagnostic>, sources: Seq<(String, String)>) -> bool {
    forall|k: int| 0 <= k < ds.len() ==> {
        let b = vstd::utf8::encode_utf8(source_for(sources, (#[trigger] ds[k]).display_path@));
        &&& ds[k].range.start <= ds[k].range.end <= b.len()
        &&& byte_boundary(b, ds[k].range.start as int)
        &&& byte_boundary(b, ds[k].range.end as int)
    }
}

fn find_source<'a>(sources: &'a Vec<(String, String)>, display_path: &str) -> (r: &'a str)
    ensures
        r@ == source_for(sources@, display_path@),
{
    let mut i: usize = sources.len();
    assert(sources@.take(i as int) =~= sources@);
    while i > 0
        invariant
            i <= sources@.len(),
            source_for(sources@, display_path@) == source_for(sources@.take(i as int), display_path@),
        decreases i,
    {
        assert(sources@.take(i as int).drop_last() =~= sources@.take(i - 1));
        assert(sources@.take(i as int).last() == sources@[i - 1]);
        if str_eq(sources[i - 1].0.as_str(), display_path) {
            return sources[i - 1].1.as_str();
        }
        i = i - 1;
    }
    assert(sources@.take(0) =~= Seq::<(String, String)>::empty());
    proof {
        reveal_strlit("");
    }
    ""
}

impl Analysis {
    pub closed spec fn sources_view(&self) -> Seq<(String, String)> {
        self.sources@
    }

    pub closed spec fn diagnostics_view(&self) -> Seq<Diagnostic> {
        self.diagnostics@
    }

    pub closed spec fn modules_collected_view(&self) -> usize {
        self.modules_collected
    }

    pub closed spec fn sim_modules_view(&self) -> usize {
        self.sim_modules
    }

    /// The diagnostics, in report order.
    pub fn diagnostics(&self) -> (r: &Vec<Diagnostic>)
        ensures
            r@ == self.diagnostics_view(),
    {
        &self.diagnostics
    }

    /// How many modules were collected.
    pub fn modules_collected(&self) -> (r: usize)
        ensures
            r == self.modules_collected_view(),
    {
        self.modules_collected
    }

    /// How many modules are in simulation scope.
    pub fn sim_modules(&self) -> (r: usize)
        ensures
            r == self.sim_modules_view(),
    {
        self.sim_modules
    }

    pub fn denials(&self) -> (r: usize)
        ensures
            r == denial_count(self.diagnostics_view()),
    {
        let mut count: usize = 0;
        let mut i: usize = 0;
        while i < self.diagnostics.len()
            invariant
                i <= self.diagnostics@.len(),
                count == denial_count(self.diagnostics@.take(i as int)),
                count <= i,
            decreases self.diagnostics@.len() - i,
        {
            assert(self.diagnostics@.take(i + 1).drop_last() =~= self.diagnostics@.take(i as int));
            if self.diagnostics[i].level() == Level::Deny {
                count = count + 1;
            }
            i = i + 1;
        }
        assert(self.diagnostics@.take(i as int) =~= self.diagnostics@);
        count
    }

    pub fn has_denials(&self) -> (r: bool)
        ensures
            r == (denial_count(self.diagnostics_view()) > 0),
    {
        self.denials() > 0
    }

    /// The stable one-line-per-finding form.
    pub fn summaries(&self) -> (r: Vec<String>)
        ensures
            r@.len() == self.diagnostics_view().len(),
            forall|k: int| 0 <= k < r@.len() ==> #[trigger] r@[k]@ == crate::diagnostics::summary_spec(self.diagnostics_view()[k]),
    {
        let mut out: Vec<String> = Vec::new();
        let mut i: usize = 0;
        while i < self.diagnostics.len()
            invariant
                i <= self.diagnostics@.len(),
                out@.len() == i,
                forall|k: int| 0 <= k < i ==> #[trigger] out@[k]@ == crate::diagnostics::summary_spec(self.diagnostics@[k]),
            decreases self.diagnostics@.len() - i,
        {
            out.push(self.diagnostics[i].summary());
            i = i + 1;
        }
        out
    }

    /// Whether every diagnostic's range lies on character boundaries of its
    /// source, which rendering needs.
    pub fn spans_fit_sources(&self) -> (r: bool)
        ensures
            r == spans_fit(self.diagnostics_view(), self.sources_view()),
    {
        let mut i: usize = 0;
        while i < self.diagnostics.len()
            invariant
                i <= self.diagnostics@.len(),
                forall|k: int| 0 <= k < i ==> {
                    let b = vstd::utf8::encode_utf8(source_for(self.sources@, (#[trigger] self.diagnostics@[k]).display_path@));
                    &&& self.diagnostics@[k].range.start <= self.diagnostics@[k].range.end <= b.len()
                    &&& byte_boundary(b, self.diagnostics@[k].range.start as int)
                    &&& byte_boundary(b, self.diagnostics@[k].range.end as int)
                },
            decreases self.diagnostics@.len() - i,
        {
            let d = &self.diagnostics[i];
            let source = find_source(&self.sources, d.display_path.as_str());
            let bytes = source.as_bytes();
            let start = d.range.start as usize;
            let end = d.range.end as usize;
            if !(start <= end && end <= bytes.len()) {
                return false;
            }
            let start_ok = start == bytes.len() || !(0x80 <= bytes[start] && bytes[start] <= 0xbf);
            let end_ok = end == bytes.len() || !(0x80 <= bytes[end] && bytes[end] <= 0xbf);
            if !(start_ok && end_ok) {
                return false;
            }
            i = i + 1;
        }
        true
    }

    /// The human-facing rendering of every diagnostic, in order.
    pub fn render(&self) -> (r: String)
        requires
            spans_fit(self.diagnostics_view(), self.sources_view()),
        ensures
            r@ == render_spec(self.diagnostics_view(), self.sources_view()),
    {
        let mut out = String::new();
        let mut i: usize = 0;
        assert(self.diagnostics@.take(0) =~= Seq::<Diagnostic>::empty());
        while i < self.diagnostics.len()
            invariant
                i <= self.diagnostics@.len(),
                spans_fit(self.diagnostics@, self.sources@),
                out@ == render_spec(self.diagnostics@.take(i as int), self.sources@),
            decreases self.diagnostics@.len() - i,
        {
            assert(self.diagnostics@.take(i + 1).drop_last() =~= self.diagnostics@.take(i as int));
            assert(self.diagnostics@.take(i + 1).last() == self.diagnostics@[i as int]);
            let d = &self.diagnostics[i];
            let source = find_source(&self.sources, d.display_path.as_str());
            let text = d.render(source);
            push_str(&mut out, text.as_str());
            push_str(&mut out, "\n");
            i = i + 1;
        }
        assert(self.diagnostics@.take(i as int) =~= self.diagnostics@);
        out
    }

    /// Diagnostics for one file, in source order.
    pub fn for_file(&self, display_path: &str) -> (r: Vec<&Diagnostic>)
        ensures
            r@.len() <= self.diagnostics_view().len(),
            forall|k: int| 0 <= k < r@.len() ==> (*#[trigger] r@[k]).display_path@ == display_path@,
            r@.map_values(|d: &Diagnostic| *d) == in_file(self.diagnostics_view(), display_path@),
    {
        let mut out: Vec<&Diagnostic> = Vec::new();
        let mut i: usize = 0;
        let ghost all = self.diagnostics@;
        assert(out@.map_values(|d: &Diagnostic| *d) =~= Seq::<Diagnostic>::empty());
        while i < self.diagnostics.len()
            invariant
                i <= all.len(),
                all == self.diagnostics@,
                out@.len() <= i,
                forall|k: int| 0 <= k < out@.len() ==> (*#[trigger] out@[k]).display_path@ == display_path@,
                out@.map_values(|d: &Diagnostic| *d) == in_file(all.take(i as int), display_path@),
            decreases all.len() - i,
        {
            assert(all.take(i + 1).drop_last() =~= all.take(i as int));
            assert(all.take(i + 1).last() == all[i as int]);
            let d = &self.diagnostics[i];
            let ghost before = out@;
            if str_eq(d.display_path.as_str(), display_path) {
                out.push(d);
                assert(out@.map_values(|d: &Diagnostic| *d) =~= before.map_values(|d: &Diagnostic| *d).push(*d));
            }
            i = i + 1;
        }
        assert(all.take(i as int) =~= all);
        out
    }
}

} // verus!

verus! {

/// A file that could not be parsed, as a diagnostic.
pub open spec fn unparsed_diag(u: UnparsedModule) -> DiagnosticView {
    DiagnosticView {
        lint: Lint::Unresolved,
        path: u.path@,
        display_path: u.display_path@,
        range: TextRange { start: 0, end: 0 },
        line: 1,
        column: 1,
        title: u.display_path@ + " could not be parsed"@,
        label: "parse error"@,
        notes: seq!["parser said: "@ + u.error@],
        detail: "parse-error"@,
    }
}

pub open spec fn unparsed_part(us: Seq<UnparsedModule>) -> Seq<DiagnosticView> {
    us.map_values(|u: UnparsedModule| unparsed_diag(u))
}

/// The sim findings of the members, in the order they joined the closure.
pub open spec fn members_part(
    modules: Seq<Module>,
    tables: Seq<BindingsView>,
    config: Resolved,
    order: Seq<ModuleId>,
    chains: Seq<Option<Seq<Seq<char>>>>,
) -> Seq<DiagnosticView>
    decreases order.len(),
{
    if order.len() == 0 {
        Seq::empty()
    } else {
        let earlier = members_part(modules, tables, config, order.drop_last(), chains);
        let i = order.last().spec_index() as int;
        earlier + emit_spec(
            modules[i],
            scan_spec(modules[i], tables[i], config, Policy::Sim),
            ModeView::Sim { witness: witness_spec(chains, i) },
        )
    }
}

/// An opaque import inside the closure, as a diagnostic.
pub open spec fn opaque_diag(modules: Seq<Module>, c: Closure, u: UnresolvedImport) -> DiagnosticView {
    let m = modules[u.module.spec_index() as int];
    let witness = witness_spec(chain_views(c.chains@), u.module.spec_index() as int);
    let (line, column) = position_spec(source_bytes(m), u.range.start);
    DiagnosticView {
        lint: Lint::Unresolved,
        path: m.path@,
        display_path: m.display_path@,
        range: u.range,
        line,
        column,
        title: "import of `"@ + u.target@ + "` inside simulation scope cannot be analyzed"@,
        label: "no analyzed source for this module"@,
        notes: seq![
            "witness: "@ + witness,
            "add it to [python] source_roots, or trust it with [python.opaque] trusted_modules = [\""@ + u.target@ + "\"]"@,
        ],
        detail: "opaque-import "@ + u.target@ + " witness="@ + witness,
    }
}

pub open spec fn opaque_part(modules: Seq<Module>, c: Closure) -> Seq<DiagnosticView> {
    c.unresolved@.map_values(|u: UnresolvedImport| opaque_diag(modules, c, u))
}

/// The prod findings of every module, in table order.
pub open spec fn prod_part(modules: Seq<Module>, tables: Seq<BindingsView>, config: Resolved, n: int) -> Seq<DiagnosticView>
    decreases n,
{
    if n <= 0 {
        Seq::empty()
    } else {
        prod_part(modules, tables, config, n - 1) + emit_spec(
            modules[n - 1],
            scan_spec(modules[n - 1], tables[n - 1], config, Policy::Prod),
            ModeView::Prod,
        )
    }
}

/// Every diagnostic a run reports, before repeats and allowed ones are
/// dropped: unparsed files, then sim mode (given its closure), then prod
/// mode.
pub open spec fn reported(program: Program, config: Resolved, c: Closure) -> Seq<DiagnosticView> {
    let modules = program.table().modules_view();
    let tables = program.bindings_view();
    unparsed_part(program.table().unparsed_view())
        + (if config.sim_roots_view().len() > 0 {
        members_part(modules, tables, config, c.order@, chain_views(c.chains@)) + opaque_part(modules, c)
    } else {
        Seq::empty()
    }) + (if config.shims_view().len() > 0 {
        prod_part(modules, tables, config, modules.len() as int)
    } else {
        Seq::empty()
    })
}

/// The diagnostics of a run: repeats dropped, sorted by file, offset, lint
/// and detail, and those an allow comment covers dropped.
pub open spec fn analysis_spec(program: Program, config: Resolved, c: Closure) -> Seq<DiagnosticView> {
    unsuppressed(program.table().modules_view(), sort_diags(keep_first(reported(program, config, c))))
}

} // verus!

verus! {

impl Builder {
    /// Pushes each diagnostic of `fresh`, in order.
    fn push_all(&mut self, fresh: Vec<Diagnostic>, Ghost(pushed): Ghost<Seq<DiagnosticView>>)
        requires
            diag_views(old(self).diagnostics@) == keep_first(pushed),
        ensures
            diag_views(final(self).diagnostics@) == keep_first(pushed + diag_views(fresh@)),
    {
        let ghost all = fresh@;
        let mut rest = fresh;
        let mut k: usize = 0;
        let total = rest.len();
        assert(all.skip(0) =~= all);
        assert(pushed + diag_views(all).take(0) =~= pushed);
        while rest.len() > 0
            invariant
                k <= all.len(),
                total == all.len(),
                rest@ == all.skip(k as int),
                diag_views(self.diagnostics@) == keep_first(pushed + diag_views(all).take(k as int)),
            decreases rest@.len(),
        {
            let d = rest.remove(0);
            assert(d == all[k as int]);
            assert(rest@ =~= all.skip(k + 1));
            let ghost so_far = pushed + diag_views(all).take(k as int);
            self.push(d, Ghost(so_far));
            assert(so_far.push(diag_view(d)) =~= pushed + diag_views(all).take(k + 1));
            k = k + 1;
        }
        assert(diag_views(all).take(k as int) =~= diag_views(all));
    }
}

proof fn lemma_members_step(
    modules: Seq<Module>,
    tables: Seq<BindingsView>,
    config: Resolved,
    order: Seq<ModuleId>,
    chains: Seq<Option<Seq<Seq<char>>>>,
    k: int,
)
    requires
        0 <= k < order.len(),
    ensures
        members_part(modules, tables, config, order.take(k + 1), chains) == members_part(modules, tables, config, order.take(k), chains)
            + emit_spec(
                modules[order[k].spec_index() as int],
                scan_spec(modules[order[k].spec_index() as int], tables[order[k].spec_index() as int], config, Policy::Sim),
                ModeView::Sim { witness: witness_spec(chains, order[k].spec_index() as int) },
            ),
{
    assert(order.take(k + 1).drop_last() =~= order.take(k));
    assert(order.take(k + 1).last() == order[k]);
}

fn push_unparsed(builder: &mut Builder, table: &crate::resolve::ModuleTable)
    requires
        diag_views(old(builder).diagnostics@) == keep_first(Seq::empty()),
    ensures
        diag_views(final(builder).diagnostics@) == keep_first(unparsed_part(table.unparsed_view())),
{
    let unparsed = table.unparsed();
    let ghost ups = unparsed_part(table.unparsed_view());
    let mut u: usize = 0;
    assert(ups.take(0) =~= Seq::<DiagnosticView>::empty());
    while u < unparsed.len()
        invariant
            u <= unparsed@.len(),
            unparsed@ == table.unparsed_view(),
            ups == unparsed_part(table.unparsed_view()),
            diag_views(builder.diagnostics@) == keep_first(ups.take(u as int)),
        decreases unparsed@.len() - u,
    {
        let up = &unparsed[u];
        let title = cat2(up.display_path.as_str(), " could not be parsed");
        let d = Diagnostic {
            lint: Lint::Unresolved,
            path: up.path.clone(),
            display_path: up.display_path.clone(),
            range: TextRange { start: 0, end: 0 },
            line: 1,
            column: 1,
            title,
            label: copy_str("parse error"),
            notes: one_note(cat2("parser said: ", up.error.as_str())),
            detail: copy_str("parse-error"),
        };
        assert(diag_view(d) == unparsed_diag(*up)) by {
            assert(diag_view(d).notes =~= unparsed_diag(*up).notes);
        }
        builder.push(d, Ghost(ups.take(u as int)));
        assert(ups.take(u as int).push(diag_view(d)) =~= ups.take(u + 1));
        u = u + 1;
    }
    assert(ups.take(u as int) =~= ups);
}

/// Reports the sim findings of every member of the closure.
fn push_members(
    builder: &mut Builder,
    program: &Program,
    config: &Resolved,
    closure: &Closure,
    Ghost(start): Ghost<Seq<DiagnosticView>>,
)
    requires
        program.wf(),
        forall|i: int| 0 <= i < program.table().modules_view().len() ==> indexable(#[trigger] program.table().modules_view()[i]),
        forall|k: int| 0 <= k < closure.order@.len() ==> (#[trigger] closure.order@[k]).spec_index() < program.table().modules_view().len(),
        diag_views(old(builder).diagnostics@) == keep_first(start),
    ensures
        diag_views(final(builder).diagnostics@) == keep_first(start + members_part(
            program.table().modules_view(), program.bindings_view(), *config, closure.order@, chain_views(closure.chains@))),
{
    let table = program.modules();
    let ghost modules = table.modules_view();
    let ghost tables = program.bindings_view();
    let ghost cv = chain_views(closure.chains@);
    let mut k: usize = 0;
    assert(closure.order@.take(0) =~= Seq::<ModuleId>::empty());
    assert(start + Seq::<DiagnosticView>::empty() =~= start);
    while k < closure.order.len()
        invariant
            k <= closure.order@.len(),
            program.wf(),
            modules == table.modules_view(),
            modules == program.table().modules_view(),
            tables == program.bindings_view(),
            forall|i: int| 0 <= i < modules.len() ==> indexable(#[trigger] modules[i]),
            forall|j: int| 0 <= j < closure.order@.len() ==> (#[trigger] closure.order@[j]).spec_index() < modules.len(),
            cv == chain_views(closure.chains@),
            diag_views(builder.diagnostics@) == keep_first(start + members_part(modules, tables, *config, closure.order@.take(k as int), cv)),
        decreases closure.order@.len() - k,
    {
        let id = closure.order[k];
        assert(id.spec_index() < modules.len());
        let module = table.module(id);
        let witness = closure.witness(id);
        let findings = scan(module, program.bindings(id), config, Policy::Sim);
        let mut fresh: Vec<Diagnostic> = Vec::new();
        emit(module, findings, &Mode::Sim { witness }, &mut fresh);
        proof {
            lemma_members_step(modules, tables, *config, closure.order@, cv, k as int);
            assert(diag_views(Seq::<Diagnostic>::empty()) =~= Seq::<DiagnosticView>::empty());
        }
        let ghost so_far = start + members_part(modules, tables, *config, closure.order@.take(k as int), cv);
        builder.push_all(fresh, Ghost(so_far));
        assert(so_far + diag_views(fresh@) =~= start + members_part(modules, tables, *config, closure.order@.take(k + 1), cv));
        k = k + 1;
    }
    assert(closure.order@.take(k as int) =~= closure.order@);
}

/// Reports every opaque import inside the closure.
fn push_opaque(
    builder: &mut Builder,
    table: &crate::resolve::ModuleTable,
    closure: &Closure,
    Ghost(start): Ghost<Seq<DiagnosticView>>,
)
    requires
        forall|i: int| 0 <= i < table.modules_view().len() ==> indexable(#[trigger] table.modules_view()[i]),
        forall|q: int| 0 <= q < closure.unresolved@.len() ==> (#[trigger] closure.unresolved@[q]).module.spec_index() < table.modules_view().len(),
        diag_views(old(builder).diagnostics@) == keep_first(start),
    ensures
        diag_views(final(builder).diagnostics@) == keep_first(start + opaque_part(table.modules_view(), *closure)),
{
    let ghost modules = table.modules_view();
    let ghost opq = opaque_part(modules, *closure);
    let mut q: usize = 0;
    assert(start + opq.take(0) =~= start);
    while q < closure.unresolved.len()
        invariant
            q <= closure.unresolved@.len(),
            modules == table.modules_view(),
            forall|i: int| 0 <= i < modules.len() ==> indexable(#[trigger] modules[i]),
            forall|j: int| 0 <= j < closure.unresolved@.len() ==> (#[trigger] closure.unresolved@[j]).module.spec_index() < modules.len(),
            opq == opaque_part(modules, *closure),
            diag_views(builder.diagnostics@) == keep_first(start + opq.take(q as int)),
        decreases closure.unresolved@.len() - q,
    {
        let entry = &closure.unresolved[q];
        assert(entry.module.spec_index() < modules.len());
        let module = table.module(entry.module);
        let witness = closure.witness(entry.module);
        let index = LineIndex::new(module.source.as_str());
        let (line, column) = position(&index, module.source.as_str(), entry.range.start);
        let mut notes: Vec<String> = Vec::new();
        push_note(&mut notes, cat2("witness: ", witness.as_str()));
        push_note(&mut notes, cat3(
            "add it to [python] source_roots, or trust it with [python.opaque] trusted_modules = [\"",
            entry.target.as_str(),
            "\"]",
        ));
        let mut detail = cat3("opaque-import ", entry.target.as_str(), " witness=");
        push_str(&mut detail, witness.as_str());
        let d = Diagnostic {
            lint: Lint::Unresolved,
            path: module.path.clone(),
            display_path: module.display_path.clone(),
            range: entry.range,
            line,
            column,
            title: cat3("import of `", entry.target.as_str(), "` inside simulation scope cannot be analyzed"),
            label: copy_str("no analyzed source for this module"),
            notes,
            detail,
        };
        assert(diag_view(d) == opaque_diag(modules, *closure, *entry)) by {
            assert(diag_view(d).notes =~= opaque_diag(modules, *closure, *entry).notes);
        }
        assert(opq[q as int] == opaque_diag(modules, *closure, closure.unresolved@[q as int]));
        builder.push(d, Ghost(start + opq.take(q as int)));
        assert((start + opq.take(q as int)).push(diag_view(d)) =~= start + opq.take(q + 1));
        q = q + 1;
    }
    assert(opq.take(q as int) =~= opq);
}

/// Reports the prod findings of every module.
fn push_prod(builder: &mut Builder, program: &Program, config: &Resolved, Ghost(start): Ghost<Seq<DiagnosticView>>)
    requires
        program.wf(),
        forall|i: int| 0 <= i < program.table().modules_view().len() ==> indexable(#[trigger] program.table().modules_view()[i]),
        diag_views(old(builder).diagnostics@) == keep_first(start),
    ensures
        diag_views(final(builder).diagnostics@) == keep_first(start + prod_part(
            program.table().modules_view(), program.bindings_view(), *config, program.table().modules_view().len() as int)),
{
    let ghost modules = program.table().modules_view();
    let ghost tables = program.bindings_view();
    let pairs = program.iter();
    let mut i: usize = 0;
    assert(start + prod_part(modules, tables, *config, 0) =~= start);
    while i < pairs.len()
        invariant
            i <= pairs@.len(),
            program.wf(),
            modules == program.table().modules_view(),
            tables == program.bindings_view(),
            pairs@.len() == modules.len(),
            forall|j: int| 0 <= j < pairs@.len() ==> *(#[trigger] pairs@[j]).0 == modules[j]
                && pairs@[j].1.view() == tables[j],
            forall|j: int| 0 <= j < modules.len() ==> indexable(#[trigger] modules[j]),
            diag_views(builder.diagnostics@) == keep_first(start + prod_part(modules, tables, *config, i as int)),
        decreases pairs@.len() - i,
    {
        let (module, bindings) = pairs[i];
        assert(*module == modules[i as int]);
        assert(indexable(modules[i as int]));
        let findings = scan(module, bindings, config, Policy::Prod);
        let mut fresh: Vec<Diagnostic> = Vec::new();
        emit(module, findings, &Mode::Prod, &mut fresh);
        assert(diag_views(Seq::<Diagnostic>::empty()) =~= Seq::<DiagnosticView>::empty());
        let ghost so_far = start + prod_part(modules, tables, *config, i as int);
        builder.push_all(fresh, Ghost(so_far));
        assert(so_far + diag_views(fresh@) =~= start + prod_part(modules, tables, *config, i + 1));
        i = i + 1;
    }
}

/// Display path and source of every module, in table order.
fn module_sources(table: &crate::resolve::ModuleTable) -> (r: Vec<(String, String)>)
    ensures
        r@.len() == table.modules_view().len(),
        forall|j: int| 0 <= j < r@.len() ==> (#[trigger] r@[j]).0@ == table.modules_view()[j].display_path@
            && r@[j].1@ == table.modules_view()[j].source@,
{
    let all = table.iter();
    let mut sources: Vec<(String, String)> = Vec::new();
    let mut s: usize = 0;
    while s < all.len()
        invariant
            s <= all@.len(),
            all@ == table.modules_view(),
            sources@.len() == s,
            forall|j: int| 0 <= j < s ==> (#[trigger] sources@[j]).0@ == table.modules_view()[j].display_path@
                && sources@[j].1@ == table.modules_view()[j].source@,
        decreases all@.len() - s,
    {
        sources.push((all[s].display_path.clone(), all[s].source.clone()));
        s = s + 1;
    }
    sources
}

/// Sim mode is on and some of its roots name no collected module.
pub open spec fn roots_missing(program: Program, config: Resolved) -> bool {
    config.sim_roots_view().len() > 0
        && crate::simscope::missing_roots(program.table().modules_view(), config.sim_roots_view()).len() > 0
}

/// No two diagnostics of `s` report the same thing.
pub open spec fn distinct_reports(s: Seq<DiagnosticView>) -> bool {
    forall|i: int, j: int| 0 <= i < j < s.len() ==> !same_report(#[trigger] s[i], #[trigger] s[j])
}

proof fn lemma_keep_first_distinct(s: Seq<DiagnosticView>)
    ensures
        distinct_reports(keep_first(s)),
    decreases s.len(),
{
    if s.len() > 0 {
        let init = s.drop_last();
        lemma_keep_first_distinct(init);
        if !has_report(init, s.last()) {
            lemma_keep_first_reports(init, s.last());
            let k = keep_first(init);
            let r = k.push(s.last());
            assert forall|i: int, j: int| 0 <= i < j < r.len() implies !same_report(#[trigger] r[i], #[trigger] r[j]) by {
                if j == k.len() {
                    if same_report(r[i], r[j]) {
                        assert(same_report(k[i], s.last()));
                        assert(has_report(k, s.last()));
                    }
                } else {
                    assert(r[i] == k[i] && r[j] == k[j]);
                }
            }
        }
    }
}

proof fn lemma_insert_diag_distinct(s: Seq<DiagnosticView>, x: DiagnosticView)
    requires
        distinct_reports(s),
        !has_report(s, x),
    ensures
        distinct_reports(insert_diag(s, x)),
        forall|d: DiagnosticView| has_report(insert_diag(s, x), d) <==> (has_report(s, d) || same_report(x, d)),
    decreases s.len(),
{
    let r = insert_diag(s, x);
    if s.len() == 0 || !diag_before(x, s.last()) {
        assert forall|i: int, j: int| 0 <= i < j < r.len() implies !same_report(#[trigger] r[i], #[trigger] r[j]) by {
            if j == s.len() {
                if same_report(r[i], r[j]) {
                    assert(same_report(s[i], x));
                }
            } else {
                assert(r[i] == s[i] && r[j] == s[j]);
            }
        }
        assert forall|d: DiagnosticView| has_report(r, d) <==> (has_report(s, d) || same_report(x, d)) by {
            if has_report(r, d) {
                let j = choose|j: int| 0 <= j < r.len() && #[trigger] same_report(r[j], d);
                if j < s.len() {
                    assert(r[j] == s[j]);
                }
            }
            if has_report(s, d) {
                let j = choose|j: int| 0 <= j < s.len() && #[trigger] same_report(s[j], d);
                assert(r[j] == s[j]);
            }
            if same_report(x, d) {
                assert(r[s.len() as int] == x);
            }
        }
    } else {
        let init = s.drop_last();
        let last = s.last();
        assert forall|i: int, j: int| 0 <= i < j < init.len() implies !same_report(#[trigger] init[i], #[trigger] init[j]) by {
            assert(init[i] == s[i] && init[j] == s[j]);
        }
        if has_report(init, x) {
            let j = choose|j: int| 0 <= j < init.len() && #[trigger] same_report(init[j], x);
            assert(s[j] == init[j]);
        }
        lemma_insert_diag_distinct(init, x);
        let m = insert_diag(init, x);
        assert(r == m.push(last));
        if has_report(m, last) {
            if has_report(init, last) {
                let j = choose|j: int| 0 <= j < init.len() && #[trigger] same_report(init[j], last);
                assert(s[j] == init[j]);
                assert(s[s.len() - 1] == last);
            } else {
                assert(same_report(x, last));
                assert(same_report(s[s.len() - 1], x));
            }
        }
        assert forall|i: int, j: int| 0 <= i < j < r.len() implies !same_report(#[trigger] r[i], #[trigger] r[j]) by {
            if j == m.len() {
                if same_report(r[i], r[j]) {
                    assert(same_report(m[i], last));
                }
            } else {
                assert(r[i] == m[i] && r[j] == m[j]);
            }
        }
        assert forall|d: DiagnosticView| has_report(r, d) <==> (has_report(s, d) || same_report(x, d)) by {
            if has_report(r, d) {
                let j = choose|j: int| 0 <= j < r.len() && #[trigger] same_report(r[j], d);
                if j < m.len() {
                    assert(r[j] == m[j]);
                    assert(has_report(m, d));
                    if has_report(init, d) {
                        let q = choose|q: int| 0 <= q < init.len() && #[trigger] same_report(init[q], d);
                        assert(s[q] == init[q]);
                    }
                } else {
                    assert(s[s.len() - 1] == last);
                }
            }
            if has_report(s, d) {
                let j = choose|j: int| 0 <= j < s.len() && #[trigger] same_report(s[j], d);
                if j < init.len() {
                    assert(init[j] == s[j]);
                    assert(has_report(init, d));
                    assert(has_report(m, d));
                    let q = choose|q: int| 0 <= q < m.len() && #[trigger] same_report(m[q], d);
                    assert(r[q] == m[q]);
                } else {
                    assert(r[m.len() as int] == last);
                }
            }
            if same_report(x, d) {
                assert(has_report(m, d));
                let q = choose|q: int| 0 <= q < m.len() && #[trigger] same_report(m[q], d);
                assert(r[q] == m[q]);
            }
        }
    }
}

proof fn lemma_sort_diags_distinct(s: Seq<DiagnosticView>)
    requires
        distinct_reports(s),
    ensures
        distinct_reports(sort_diags(s)),
        forall|d: DiagnosticView| has_report(sort_diags(s), d) <==> has_report(s, d),
    decreases s.len(),
{
    if s.len() > 0 {
        let init = s.drop_last();
        assert forall|i: int, j: int| 0 <= i < j < init.len() implies !same_report(#[trigger] init[i], #[trigger] init[j]) by {
            assert(init[i] == s[i] && init[j] == s[j]);
        }
        lemma_sort_diags_distinct(init);
        if has_report(sort_diags(init), s.last()) {
            assert(has_report(init, s.last()));
            let j = choose|j: int| 0 <= j < init.len() && #[trigger] same_report(init[j], s.last());
            assert(s[j] == init[j]);
            assert(s[s.len() - 1] == s.last());
        }
        lemma_insert_diag_distinct(sort_diags(init), s.last());
        assert forall|d: DiagnosticView| has_report(sort_diags(s), d) <==> has_report(s, d) by {
            if has_report(s, d) {
                let j = choose|j: int| 0 <= j < s.len() && #[trigger] same_report(s[j], d);
                if j < init.len() {
                    assert(init[j] == s[j]);
                    assert(has_report(init, d));
                }
            }
            if has_report(init, d) {
                let j = choose|j: int| 0 <= j < init.len() && #[trigger] same_report(init[j], d);
                assert(s[j] == init[j]);
            }
            if same_report(s.last(), d) {
                assert(s[s.len() - 1] == s.last());
            }
        }
    } else {
        assert forall|d: DiagnosticView| has_report(sort_diags(s), d) <==> has_report(s, d) by {
            assert(sort_diags(s).len() == 0);
        }
    }
}

proof fn lemma_unsuppressed_distinct(modules: Seq<Module>, s: Seq<DiagnosticView>)
    requires
        distinct_reports(s),
    ensures
        distinct_reports(unsuppressed(modules, s)),
        forall|d: DiagnosticView| has_report(unsuppressed(modules, s), d) ==> has_report(s, d),
    decreases s.len(),
{
    if s.len() > 0 {
        let init = s.drop_last();
        assert forall|i: int, j: int| 0 <= i < j < init.len() implies !same_report(#[trigger] init[i], #[trigger] init[j]) by {
            assert(init[i] == s[i] && init[j] == s[j]);
        }
        lemma_unsuppressed_distinct(modules, init);
        let e = unsuppressed(modules, init);
        if !suppressed(modules, s.last()) {
            let r = e.push(s.last());
            if has_report(e, s.last()) {
                assert(has_report(init, s.last()));
                let j = choose|j: int| 0 <= j < init.len() && #[trigger] same_report(init[j], s.last());
                assert(s[j] == init[j]);
                assert(s[s.len() - 1] == s.last());
            }
            assert forall|i: int, j: int| 0 <= i < j < r.len() implies !same_report(#[trigger] r[i], #[trigger] r[j]) by {
                if j == e.len() {
                    if same_report(r[i], r[j]) {
                        assert(same_report(e[i], s.last()));
                    }
                } else {
                    assert(r[i] == e[i] && r[j] == e[j]);
                }
            }
        }
        assert forall|d: DiagnosticView| has_report(unsuppressed(modules, s), d) implies has_report(s, d) by {
            let u = unsuppressed(modules, s);
            let j = choose|j: int| 0 <= j < u.len() && #[trigger] same_report(u[j], d);
            if j < e.len() {
                assert(u[j] == e[j]);
                assert(has_report(e, d));
                assert(has_report(init, d));
                let q = choose|q: int| 0 <= q < init.len() && #[trigger] same_report(init[q], d);
                assert(s[q] == init[q]);
            } else {
                assert(!suppressed(modules, s.last()));
                assert(u[j] == s.last());
                assert(s[s.len() - 1] == s.last());
                assert(same_report(s[s.len() - 1], d));
            }
        }
    }
}

/// A run never reports one thing twice: no two of its diagnostics share
/// lint, file, range and detail.
pub proof fn law_reports_never_repeat(program: Program, config: Resolved, c: Closure)
    ensures
        distinct_reports(analysis_spec(program, config, c)),
{
    let all = reported(program, config, c);
    lemma_keep_first_distinct(all);
    lemma_sort_diags_distinct(keep_first(all));
    lemma_unsuppressed_distinct(program.table().modules_view(), sort_diags(keep_first(all)));
}

/// In simulation mode every finding becomes a diagnostic.
proof fn lemma_sim_emit_len(module: Module, findings: Seq<FindingView>, witness: Seq<char>)
    ensures
        emit_spec(module, findings, ModeView::Sim { witness }).len() == findings.len(),
    decreases findings.len(),
{
    if findings.len() > 0 {
        lemma_sim_emit_len(module, findings.drop_last(), witness);
    }
}

/// Each member's sim findings are empty when the members' part is.
proof fn lemma_members_part_empty(
    modules: Seq<Module>,
    tables: Seq<BindingsView>,
    config: Resolved,
    order: Seq<ModuleId>,
    chains: Seq<Option<Seq<Seq<char>>>>,
)
    requires
        members_part(modules, tables, config, order, chains).len() == 0,
    ensures
        forall|k: int| 0 <= k < order.len() ==> scan_spec(
            modules[(#[trigger] order[k]).spec_index() as int],
            tables[order[k].spec_index() as int],
            config,
            Policy::Sim,
        ).len() == 0,
    decreases order.len(),
{
    if order.len() > 0 {
        let i = order.last().spec_index() as int;
        let w = witness_spec(chains, i);
        lemma_sim_emit_len(modules[i], scan_spec(modules[i], tables[i], config, Policy::Sim), w);
        lemma_members_part_empty(modules, tables, config, order.drop_last(), chains);
        assert forall|k: int| 0 <= k < order.len() implies scan_spec(
            modules[(#[trigger] order[k]).spec_index() as int],
            tables[order[k].spec_index() as int],
            config,
            Policy::Sim,
        ).len() == 0 by {
            if k < order.len() - 1 {
                assert(order.drop_last()[k] == order[k]);
            }
        }
    }
}

/// What a clean simulation run is evidence of. When simulation scope
/// reports nothing (counting what allow comments would drop), no import in
/// the closure was left unanalyzed, the sim-mode scan of every closure
/// member found no sink, fenced import, hash-order construct or hole, and,
/// for a closure that meets its guarantees, every required import target of
/// every member is a collected module, a fenced one, or a trusted or
/// allowed one.
pub proof fn law_clean_sim_scope_is_evidence(program: Program, config: Resolved, c: Closure)
    requires
        members_part(program.table().modules_view(), program.bindings_view(), config, c.order@, chain_views(c.chains@))
            + opaque_part(program.table().modules_view(), c) == Seq::<DiagnosticView>::empty(),
    ensures
        c.unresolved@.len() == 0,
        forall|k: int| 0 <= k < c.order@.len() ==> scan_spec(
            program.table().modules_view()[(#[trigger] c.order@[k]).spec_index() as int],
            program.bindings_view()[c.order@[k].spec_index() as int],
            config,
            Policy::Sim,
        ).len() == 0,
        crate::simscope::closure_ok(program.table().modules_view(), config.sim_roots_view(), config, c) ==>
            forall|i: int, t: int, name: Seq<char>|
                0 <= i < program.table().modules_view().len() && chain_views(c.chains@)[i] is Some
                && 0 <= t < crate::simscope::import_targets_spec(program.table().modules_view()[i]).len()
                ==> !#[trigger] crate::simscope::opaque_import(
                    program.table().modules_view(),
                    config,
                    crate::simscope::import_targets_spec(program.table().modules_view()[i])[t],
                    name,
                ),
{
    let modules = program.table().modules_view();
    let tables = program.bindings_view();
    let members = members_part(modules, tables, config, c.order@, chain_views(c.chains@));
    let opaque = opaque_part(modules, c);
    assert(members.len() + opaque.len() == 0) by {
        assert((members + opaque).len() == 0);
    }
    lemma_members_part_empty(modules, tables, config, c.order@, chain_views(c.chains@));
}

/// `a` is what analyzing `program` under `config` gives: the diagnostics
/// that `analysis_spec` describes for a valid import closure, sorted, with
/// the counts and the sources of the program's modules.
pub open spec fn analysis_of(a: Analysis, program: Program, config: Resolved) -> bool {
    &&& a.modules_collected_view() == program.table().modules_view().len()
    &&& exists|c: Closure| {
        &&& config.sim_roots_view().len() > 0 ==> crate::simscope::closure_ok(
            program.table().modules_view(), config.sim_roots_view(), config, c)
            && crate::simscope::found_by_search(program.table().modules_view(), config.sim_roots_view(), c)
            && a.sim_modules_view() == c.order@.len()
        &&& config.sim_roots_view().len() == 0 ==> a.sim_modules_view() == 0
        &&& diag_views(a.diagnostics_view()) == analysis_spec(program, config, c)
    }
    &&& crate::order::key_sorted(a.diagnostics_view())
    &&& a.sources_view().len() == program.table().modules_view().len()
    &&& forall|i: int| 0 <= i < a.sources_view().len() ==> (#[trigger] a.sources_view()[i]).0@
        == program.table().modules_view()[i].display_path@
        && a.sources_view()[i].1@ == program.table().modules_view()[i].source@
}

/// What an analysis reports comes sorted by file, offset, lint and detail,
/// and never reports one thing twice.
pub proof fn law_analysis_is_sorted_and_unrepeated(a: Analysis, program: Program, config: Resolved)
    requires
        analysis_of(a, program, config),
    ensures
        crate::order::key_sorted(a.diagnostics_view()),
        distinct_reports(diag_views(a.diagnostics_view())),
{
    let c = choose|c: Closure| {
        &&& config.sim_roots_view().len() > 0 ==> crate::simscope::closure_ok(
            program.table().modules_view(), config.sim_roots_view(), config, c)
            && crate::simscope::found_by_search(program.table().modules_view(), config.sim_roots_view(), c)
            && a.sim_modules_view() == c.order@.len()
        &&& config.sim_roots_view().len() == 0 ==> a.sim_modules_view() == 0
        &&& diag_views(a.diagnostics_view()) == analysis_spec(program, config, c)
    };
    law_reports_never_repeat(program, config, c);
}

/// The members' part depends on the order only through module positions.
proof fn lemma_members_part_positions(
    modules: Seq<Module>,
    tables: Seq<BindingsView>,
    config: Resolved,
    o1: Seq<ModuleId>,
    o2: Seq<ModuleId>,
    chains: Seq<Option<Seq<Seq<char>>>>,
)
    requires
        crate::simscope::id_indices(o1) == crate::simscope::id_indices(o2),
    ensures
        members_part(modules, tables, config, o1, chains) == members_part(modules, tables, config, o2, chains),
    decreases o1.len(),
{
    assert(crate::simscope::id_indices(o1).len() == o1.len());
    assert(crate::simscope::id_indices(o2).len() == o2.len());
    if o1.len() > 0 {
        let n = o1.len() - 1;
        assert(crate::simscope::id_indices(o1)[n] == o1[n].spec_index() as int);
        assert(crate::simscope::id_indices(o2)[n] == o2[n].spec_index() as int);
        assert(crate::simscope::id_indices(o1.drop_last()) =~= crate::simscope::id_indices(o1).drop_last());
        assert(crate::simscope::id_indices(o2.drop_last()) =~= crate::simscope::id_indices(o2).drop_last());
        lemma_members_part_positions(modules, tables, config, o1.drop_last(), o2.drop_last(), chains);
    }
}

/// The snippets of diagnostics that agree in value, against sources that
/// agree in value, agree.
proof fn lemma_render_agree(
    d1: Seq<Diagnostic>,
    s1: Seq<(String, String)>,
    d2: Seq<Diagnostic>,
    s2: Seq<(String, String)>,
)
    requires
        diag_views(d1) == diag_views(d2),
        s1.len() == s2.len(),
        forall|i: int| 0 <= i < s1.len() ==> (#[trigger] s1[i]).0@ == s2[i].0@ && s1[i].1@ == s2[i].1@,
    ensures
        render_spec(d1, s1) == render_spec(d2, s2),
    decreases d1.len(),
{
    assert(diag_views(d1).len() == d1.len() && diag_views(d2).len() == d2.len());
    if d1.len() > 0 {
        let n = d1.len() - 1;
        assert(diag_views(d1)[n] == diag_view(d1[n]) && diag_views(d2)[n] == diag_view(d2[n]));
        assert(diag_views(d1.drop_last()) =~= diag_views(d1).drop_last());
        assert(diag_views(d2.drop_last()) =~= diag_views(d2).drop_last());
        lemma_render_agree(d1.drop_last(), s1, d2.drop_last(), s2);
        lemma_source_for_agree(s1, s2, d1[n].display_path@);
    }
}

proof fn lemma_source_for_agree(s1: Seq<(String, String)>, s2: Seq<(String, String)>, p: Seq<char>)
    requires
        s1.len() == s2.len(),
        forall|i: int| 0 <= i < s1.len() ==> (#[trigger] s1[i]).0@ == s2[i].0@ && s1[i].1@ == s2[i].1@,
    ensures
        source_for(s1, p) == source_for(s2, p),
    decreases s1.len(),
{
    if s1.len() > 0 {
        let n = s1.len() - 1;
        assert(s1[n].0@ == s2[n].0@ && s1[n].1@ == s2[n].1@);
        assert forall|i: int| 0 <= i < s1.drop_last().len() implies (#[trigger] s1.drop_last()[i]).0@ == s2.drop_last()[i].0@
            && s1.drop_last()[i].1@ == s2.drop_last()[i].1@ by {
            assert(s1[i].0@ == s2[i].0@ && s1[i].1@ == s2[i].1@);
        }
        lemma_source_for_agree(s1.drop_last(), s2.drop_last(), p);
    }
}

/// Two analyses of the same program under the same configuration agree:
/// the same diagnostics, so the same one-line summaries and the same
/// rendering, and the same counts.
pub proof fn law_analyses_agree(a: Analysis, b: Analysis, program: Program, config: Resolved)
    requires
        analysis_of(a, program, config),
        analysis_of(b, program, config),
    ensures
        diag_views(a.diagnostics_view()) == diag_views(b.diagnostics_view()),
        a.diagnostics_view().len() == b.diagnostics_view().len(),
        forall|k: int| 0 <= k < a.diagnostics_view().len() ==> crate::diagnostics::summary_spec(#[trigger] a.diagnostics_view()[k])
            == crate::diagnostics::summary_spec(b.diagnostics_view()[k]),
        render_spec(a.diagnostics_view(), a.sources_view()) == render_spec(b.diagnostics_view(), b.sources_view()),
        a.modules_collected_view() == b.modules_collected_view(),
        a.sim_modules_view() == b.sim_modules_view(),
{
    let modules = program.table().modules_view();
    let roots = config.sim_roots_view();
    let c1 = choose|c: Closure| {
        &&& roots.len() > 0 ==> crate::simscope::closure_ok(modules, roots, config, c)
            && crate::simscope::found_by_search(modules, roots, c)
            && a.sim_modules_view() == c.order@.len()
        &&& roots.len() == 0 ==> a.sim_modules_view() == 0
        &&& diag_views(a.diagnostics_view()) == analysis_spec(program, config, c)
    };
    let c2 = choose|c: Closure| {
        &&& roots.len() > 0 ==> crate::simscope::closure_ok(modules, roots, config, c)
            && crate::simscope::found_by_search(modules, roots, c)
            && b.sim_modules_view() == c.order@.len()
        &&& roots.len() == 0 ==> b.sim_modules_view() == 0
        &&& diag_views(b.diagnostics_view()) == analysis_spec(program, config, c)
    };
    if roots.len() > 0 {
        crate::simscope::lemma_closures_agree(modules, roots, config, c1, c2);
        let chains = chain_views(c1.chains@);
        lemma_members_part_positions(modules, program.bindings_view(), config, c1.order@, c2.order@, chains);
        assert(opaque_part(modules, c1) =~= opaque_part(modules, c2)) by {
            assert forall|k: int| 0 <= k < c1.unresolved@.len() implies opaque_diag(modules, c1, #[trigger] c1.unresolved@[k])
                == opaque_diag(modules, c2, c2.unresolved@[k]) by {
                assert(crate::simscope::same_entry(c1.unresolved@[k], c2.unresolved@[k]));
            }
        }
        assert(crate::simscope::id_indices(c1.order@).len() == c1.order@.len());
        assert(crate::simscope::id_indices(c2.order@).len() == c2.order@.len());
    }
    assert(reported(program, config, c1) == reported(program, config, c2));
    let da = a.diagnostics_view();
    let db = b.diagnostics_view();
    assert(diag_views(da).len() == da.len() && diag_views(db).len() == db.len());
    assert forall|k: int| 0 <= k < da.len() implies crate::diagnostics::summary_spec(#[trigger] da[k])
        == crate::diagnostics::summary_spec(db[k]) by {
        assert(diag_views(da)[k] == diag_view(da[k]) && diag_views(db)[k] == diag_view(db[k]));
    }
    assert forall|i: int| 0 <= i < a.sources_view().len() implies (#[trigger] a.sources_view()[i]).0@ == b.sources_view()[i].0@
        && a.sources_view()[i].1@ == b.sources_view()[i].1@ by {
    }
    lemma_render_agree(da, a.sources_view(), db, b.sources_view());
}

proof fn lemma_analysis_of(a: Analysis, program: Program, config: Resolved, c: Closure)
    requires
        a.modules_collected_view() == program.table().modules_view().len(),
        config.sim_roots_view().len() > 0 ==> crate::simscope::closure_ok(
            program.table().modules_view(), config.sim_roots_view(), config, c)
            && crate::simscope::found_by_search(program.table().modules_view(), config.sim_roots_view(), c)
            && a.sim_modules_view() == c.order@.len(),
        config.sim_roots_view().len() == 0 ==> a.sim_modules_view() == 0,
        diag_views(a.diagnostics_view()) == analysis_spec(program, config, c),
        crate::order::key_sorted(a.diagnostics_view()),
        a.sources_view().len() == program.table().modules_view().len(),
        forall|i: int| 0 <= i < a.sources_view().len() ==> (#[trigger] a.sources_view()[i]).0@
            == program.table().modules_view()[i].display_path@
            && a.sources_view()[i].1@ == program.table().modules_view()[i].source@,
    ensures
        analysis_of(a, program, config),
{
}

/// Analyzes the collected program under the resolved `[python]`
/// configuration.
#[verifier::spinoff_prover]
#[verifier::rlimit(40)]
pub fn analyze(config: &Resolved, program: &Program) -> (r: Result<Analysis, PylintError>)
    requires
        program.wf(),
        forall|i: int| 0 <= i < program.table().modules_view().len() ==> indexable(#[trigger] program.table().modules_view()[i]),
    ensures
        match r {
            Err(e) => roots_missing(*program, *config)
                && e is MissingSimRoots
                && views(e->MissingSimRoots_roots@) == crate::simscope::missing_roots(program.table().modules_view(), config.sim_roots_view()),
            Ok(a) => !roots_missing(*program, *config) && analysis_of(a, *program, *config),
        },
{
    let table = program.modules();
    let ghost modules = table.modules_view();
    let ghost tables = program.bindings_view();
    let mut builder = Builder { diagnostics: Vec::new() };
    assert(diag_views(builder.diagnostics@) =~= keep_first(Seq::empty()));
    push_unparsed(&mut builder, table);
    let ghost mut pushed: Seq<DiagnosticView> = unparsed_part(table.unparsed_view());
    let empty_closure = Closure { order: Vec::new(), chains: Vec::new(), unresolved: Vec::new() };
    let mut sim_modules: usize = 0;
    let ghost mut used: Closure = empty_closure;
    if config.sim_enabled() {
        let closure = match crate::simscope::closure(program, config) {
            Ok(c) => c,
            Err(missing) => {
                return Err(PylintError::MissingSimRoots { roots: missing.0 });
            },
        };
        sim_modules = closure.order.len();
        proof {
            let ids = crate::simscope::id_indices(closure.order@);
            assert forall|k: int| 0 <= k < closure.order@.len() implies (#[trigger] closure.order@[k]).spec_index() < modules.len() by {
                assert(ids[k] == closure.order@[k].spec_index());
            }
            assert forall|q: int| 0 <= q < closure.unresolved@.len() implies (#[trigger] closure.unresolved@[q]).module.spec_index() < modules.len() by {
                assert(crate::simscope::reports_opaque(modules, *config, closure.unresolved@[q]));
            }
        }
        push_members(&mut builder, program, config, &closure, Ghost(pushed));
        let ghost mid = pushed + members_part(modules, tables, *config, closure.order@, chain_views(closure.chains@));
        push_opaque(&mut builder, table, &closure, Ghost(mid));
        proof {
            pushed = mid + opaque_part(modules, closure);
            used = closure;
        }
    }
    if config.prod_enabled() {
        push_prod(&mut builder, program, config, Ghost(pushed));
        proof {
            pushed = pushed + prod_part(modules, tables, *config, modules.len() as int);
        }
    }
    assert(pushed =~= reported(*program, *config, used));
    let sources = module_sources(table);
    let finished = builder.finish();
    let diagnostics = suppress(finished, table.iter());
    let a = Analysis { diagnostics, modules_collected: table.len(), sim_modules, sources };
    assert(diag_views(a.diagnostics_view()) == analysis_spec(*program, *config, used));
    proof {
        lemma_analysis_of(a, *program, *config, used);
    }
    Ok(a)
}

} // verus!
