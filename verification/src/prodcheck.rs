//! Blessing resolution and the per-module sink/hole scan.
//!
//! Prod mode's rule: a nondeterminism sink may only be *named* — called or
//! merely referenced — inside a class whose resolved bases include a declared
//! shim protocol granting the capability. Blessing is lexical: the nearest
//! enclosing `class` decides, through nested `def`s, lambdas and
//! comprehensions. A deterministic marker among the bases annuls every grant,
//! because a simulation implementation must not touch anything.
//!
//! The same scanner drives sim mode ([`Policy::Sim`]), where the rule is
//! simply "zero sinks, whatever the blessing" and the extra syntactic
//! `hash_order` heuristic switches on. Keeping one walker means the two modes
//! can never disagree about what counts as naming a sink.
//!
//! Module fences also match the `import` statement itself in sim mode only:
//! in prod mode the import lives at module level, where no class can bless
//! it, so a shim implementation module could never import what it wraps.
//! Prod mode reports at the use sites instead.

use vstd::prelude::*;

use crate::config::{Resolved, ShimSpec, grants_of};
use crate::resolve::bindings::{Bindings, BindingsView, NameKind, UnresolvedStar, kind_spec, resolve_spec};
use crate::resolve::Module;
use crate::sinks::{SinkKind, SinkKindView, SinkRule, Usage, first_fence_hit, match_name_spec};
use crate::syntax::{Alias, Arguments, Child, Expr, ExprContext, ExprKind, Parameter, Stmt, StmtKind, TextRange};
use crate::text::{char_string, contains_str, copy_str, copy_strings, holds, push_char, push_str, str_eq, str_starts_with, views};

verus! {

broadcast use vstd::string::group_string_axioms;

/// Which rule the scan enforces.
#[derive(Debug, Clone, Copy, PartialEq, Eq, Structural)]
pub enum Policy {
    /// Sinks are allowed inside a blessing that covers the capability.
    Prod,
    /// No sinks at all; imports of fenced modules and the `hash_order`
    /// heuristic count too.
    Sim,
}

/// The blessing state of the nearest enclosing class.
#[derive(Debug)]
pub enum Blessing {
    /// Not inside any class implementing a declared shim protocol.
    Unblessed,
    /// Inside a class whose bases include a deterministic marker: no grants.
    Marked { class: String },
    /// Inside a shim implementation with these grants.
    Shim { protocol: String, grants: Vec<String> },
}

pub ghost enum BlessingView {
    Unblessed,
    Marked { class: Seq<char> },
    Shim { protocol: Seq<char>, grants: Seq<Seq<char>> },
}

impl View for Blessing {
    type V = BlessingView;

    open spec fn view(&self) -> BlessingView {
        match self {
            Blessing::Unblessed => BlessingView::Unblessed,
            Blessing::Marked { class } => BlessingView::Marked { class: class@ },
            Blessing::Shim { protocol, grants } => BlessingView::Shim { protocol: protocol@, grants: views(grants@) },
        }
    }
}

/// Why the site was not allowed to name the sink.
#[derive(Debug)]
pub enum Context {
    Unblessed,
    MarkedDeterministic { class: String },
    GrantsMissing { protocol: String, grants: Vec<String> },
}

pub ghost enum ContextView {
    Unblessed,
    MarkedDeterministic { class: Seq<char> },
    GrantsMissing { protocol: Seq<char>, grants: Seq<Seq<char>> },
}

impl View for Context {
    type V = ContextView;

    open spec fn view(&self) -> ContextView {
        match self {
            Context::Unblessed => ContextView::Unblessed,
            Context::MarkedDeterministic { class } => ContextView::MarkedDeterministic { class: class@ },
            Context::GrantsMissing { protocol, grants } => ContextView::GrantsMissing {
                protocol: protocol@,
                grants: views(grants@),
            },
        }
    }
}

/// Something the analysis cannot see through, reported rather than assumed
/// safe.
#[derive(Debug)]
pub enum Hole {
    /// `importlib.*` or `__import__`.
    DynamicImport { name: String },
    /// `eval` / `exec`.
    DynamicEval { name: String },
    /// `getattr`/`setattr`/`delattr` with a non-literal attribute on a module.
    DynamicAttribute { function: String, module: String },
    /// Assignment to an attribute of an imported module.
    Monkeypatch { target: String },
    /// `from x import *` where `x` is not analyzed source.
    StarImport { target: String },
}

pub ghost enum HoleView {
    DynamicImport { name: Seq<char> },
    DynamicEval { name: Seq<char> },
    DynamicAttribute { function: Seq<char>, module: Seq<char> },
    Monkeypatch { target: Seq<char> },
    StarImport { target: Seq<char> },
}

impl View for Hole {
    type V = HoleView;

    open spec fn view(&self) -> HoleView {
        match self {
            Hole::DynamicImport { name } => HoleView::DynamicImport { name: name@ },
            Hole::DynamicEval { name } => HoleView::DynamicEval { name: name@ },
            Hole::DynamicAttribute { function, module } => HoleView::DynamicAttribute {
                function: function@,
                module: module@,
            },
            Hole::Monkeypatch { target } => HoleView::Monkeypatch { target: target@ },
            Hole::StarImport { target } => HoleView::StarImport { target: target@ },
        }
    }
}

#[derive(Debug)]
pub enum FindingKind {
    /// A sink named at this site.
    Sink {
        capability: String,
        /// The resolved qualified name as written.
        name: String,
        /// The database entry it matched.
        matched: SinkKind,
        context: Context,
    },
    /// An `import` of a fenced module inside sim scope.
    ImportFence { capability: String, module: String },
    /// The syntactic set-construction heuristic (sim scope only).
    HashOrder { construct: String, context: Context },
    Hole(Hole),
}

pub ghost enum FindingKindView {
    Sink { capability: Seq<char>, name: Seq<char>, matched: SinkKindView, context: ContextView },
    ImportFence { capability: Seq<char>, module: Seq<char> },
    HashOrder { construct: Seq<char>, context: ContextView },
    Hole(HoleView),
}

impl View for FindingKind {
    type V = FindingKindView;

    open spec fn view(&self) -> FindingKindView {
        match self {
            FindingKind::Sink { capability, name, matched, context } => FindingKindView::Sink {
                capability: capability@,
                name: name@,
                matched: matched@,
                context: context@,
            },
            FindingKind::ImportFence { capability, module } => FindingKindView::ImportFence {
                capability: capability@,
                module: module@,
            },
            FindingKind::HashOrder { construct, context } => FindingKindView::HashOrder {
                construct: construct@,
                context: context@,
            },
            FindingKind::Hole(h) => FindingKindView::Hole(h@),
        }
    }
}

#[derive(Debug)]
pub struct Finding {
    pub kind: FindingKind,
    pub range: TextRange,
}

pub ghost struct FindingView {
    pub kind: FindingKindView,
    pub range: TextRange,
}

impl View for Finding {
    type V = FindingView;

    open spec fn view(&self) -> FindingView {
        FindingView { kind: self.kind@, range: self.range }
    }
}

/// The values of a sequence of findings.
pub open spec fn finding_views(f: Seq<Finding>) -> Seq<FindingView> {
    f.map_values(|x: Finding| x@)
}

// ---------------------------------------------------------------------------
// Blessings.

/// Whether a blessing grants `capability`.
pub open spec fn covers_spec(b: BlessingView, capability: Seq<char>) -> bool {
    match b {
        BlessingView::Shim { grants, .. } => grants.contains(capability),
        _ => false,
    }
}

/// Why naming a sink under a blessing is not allowed.
pub open spec fn context_spec(b: BlessingView) -> ContextView {
    match b {
        BlessingView::Unblessed => ContextView::Unblessed,
        BlessingView::Marked { class } => ContextView::MarkedDeterministic { class },
        BlessingView::Shim { protocol, grants } => ContextView::GrantsMissing { protocol, grants },
    }
}

impl Blessing {
    pub fn covers(&self, capability: &str) -> (r: bool)
        ensures
            r == covers_spec(self@, capability@),
    {
        match self {
            Blessing::Shim { grants, .. } => {
                let r = contains_str(grants, capability);
                proof {
                    if r {
                        let i = choose|i: int| 0 <= i < grants@.len() && #[trigger] grants@[i]@ == capability@;
                        assert(views(grants@)[i] == capability@);
                    }
                    if views(grants@).contains(capability@) {
                        let i = choose|i: int| 0 <= i < views(grants@).len() && views(grants@)[i] == capability@;
                        assert(grants@[i]@ == capability@);
                    }
                }
                r
            },
            Blessing::Unblessed => false,
            Blessing::Marked { .. } => false,
        }
    }

    pub fn context(&self) -> (r: Context)
        ensures
            r@ == context_spec(self@),
    {
        match self {
            Blessing::Unblessed => Context::Unblessed,
            Blessing::Marked { class } => Context::MarkedDeterministic { class: class.clone() },
            Blessing::Shim { protocol, grants } => Context::GrantsMissing {
                protocol: protocol.clone(),
                grants: copy_strings(grants),
            },
        }
    }
}

/// What the scan of one module reads: its bindings, the configuration, and
/// the rule in force.
pub ghost struct ScanCtx {
    pub bindings: BindingsView,
    pub rules: Seq<SinkRule>,
    pub shims: Seq<ShimSpec>,
    pub markers: Seq<Seq<char>>,
    pub opaque_allow: Seq<Seq<char>>,
    pub policy: Policy,
}

pub open spec fn scan_ctx(bindings: BindingsView, config: Resolved, policy: Policy) -> ScanCtx {
    ScanCtx {
        bindings,
        rules: config.sinks_view(),
        shims: config.shims_view(),
        markers: config.markers_view(),
        opaque_allow: config.opaque_allow_view(),
        policy,
    }
}

/// `class X(Protocol[T])` and `class X(Generic[T])` carry the base in the
/// subscript's value.
pub open spec fn base_expr(e: Expr) -> Expr {
    match e.kind {
        ExprKind::Subscript { value, .. } => *value,
        _ => e,
    }
}

/// Whether some shim entry declares `protocol`.
pub open spec fn is_shim_spec(shims: Seq<ShimSpec>, protocol: Seq<char>) -> bool {
    exists|i: int| 0 <= i < shims.len() && #[trigger] shims[i].protocol@ == protocol
}

/// The blessing the bases `bases` give the class `class`, given the first
/// protocol and the grants collected from the bases before them. The first
/// base that is a deterministic marker decides alone.
pub open spec fn bases_blessing(
    cx: ScanCtx,
    class: Seq<char>,
    bases: Seq<Expr>,
    protocol: Option<Seq<char>>,
    grants: Seq<Seq<char>>,
) -> BlessingView
    decreases bases.len(),
{
    if bases.len() == 0 {
        match protocol {
            Some(p) => BlessingView::Shim { protocol: p, grants },
            None => BlessingView::Unblessed,
        }
    } else {
        match resolve_spec(cx.bindings, base_expr(bases[0])) {
            None => bases_blessing(cx, class, bases.drop_first(), protocol, grants),
            Some(q) => if cx.markers.contains(q) {
                BlessingView::Marked { class }
            } else if is_shim_spec(cx.shims, q) {
                let p = match protocol {
                    Some(p) => Some(p),
                    None => Some(q),
                };
                bases_blessing(cx, class, bases.drop_first(), p, grants + grants_of(cx.shims, q))
            } else {
                bases_blessing(cx, class, bases.drop_first(), protocol, grants)
            },
        }
    }
}

/// The blessing a class statement's bases give its body.
pub open spec fn blessing_spec(cx: ScanCtx, class: Seq<char>, arguments: Option<Arguments>) -> BlessingView {
    match arguments {
        None => BlessingView::Unblessed,
        Some(a) => bases_blessing(cx, class, a.args@, None, Seq::empty()),
    }
}

} // verus!

verus! {

// ---------------------------------------------------------------------------
// What the scan reports, as values.

/// A sink named at `range`, unless the blessing covers it in prod mode.
pub open spec fn sink_findings(cx: ScanCtx, bless: BlessingView, qualified: Seq<char>, usage: Usage, range: TextRange) -> Seq<FindingView> {
    match match_name_spec(cx.rules, qualified, usage) {
        None => Seq::empty(),
        Some(hit) => if cx.policy == Policy::Prod && covers_spec(bless, hit.capability) {
            Seq::empty()
        } else {
            seq![FindingView {
                kind: FindingKindView::Sink {
                    capability: hit.capability,
                    name: qualified,
                    matched: hit.kind,
                    context: context_spec(bless),
                },
                range,
            }]
        },
    }
}

pub open spec fn hash_order_capability() -> Seq<char> {
    "hash_order"@
}

/// The set-construction heuristic: sim mode only, unless the blessing
/// grants `hash_order`.
pub open spec fn hash_order_findings(cx: ScanCtx, bless: BlessingView, construct: Seq<char>, range: TextRange) -> Seq<FindingView> {
    if cx.policy != Policy::Sim || covers_spec(bless, hash_order_capability()) {
        Seq::empty()
    } else {
        seq![FindingView { kind: FindingKindView::HashOrder { construct, context: context_spec(bless) }, range }]
    }
}

pub open spec fn is_dynamic_import(name: Seq<char>) -> bool {
    name == "__import__"@ || name == "importlib"@ || crate::text::seq_starts_with(name, "importlib."@)
}

pub open spec fn is_dynamic_eval(name: Seq<char>) -> bool {
    name == "eval"@ || name == "exec"@
}

pub open spec fn is_attribute_function(name: Seq<char>) -> bool {
    name == "getattr"@ || name == "setattr"@ || name == "delattr"@
}

/// The hole a call is, if any: a dynamic import, a dynamic evaluation, or a
/// non-literal attribute access on a module object.
pub open spec fn hole_call_spec(cx: ScanCtx, func: Expr, args: Seq<Expr>, range: TextRange) -> Option<FindingView> {
    match resolve_spec(cx.bindings, func) {
        None => None,
        Some(name) => if cx.opaque_allow.contains(name) {
            None
        } else if is_dynamic_import(name) {
            Some(FindingView { kind: FindingKindView::Hole(HoleView::DynamicImport { name }), range })
        } else if is_dynamic_eval(name) {
            Some(FindingView { kind: FindingKindView::Hole(HoleView::DynamicEval { name }), range })
        } else if is_attribute_function(name) && !(args.len() > 1 && args[1].kind is StringLiteral)
            && args.len() > 0 {
            match resolve_spec(cx.bindings, args[0]) {
                Some(target) => if kind_spec(cx.bindings, target) == NameKind::Module {
                    Some(FindingView {
                        kind: FindingKindView::Hole(HoleView::DynamicAttribute { function: name, module: target }),
                        range,
                    })
                } else {
                    None
                },
                None => None,
            }
        } else {
            None
        },
    }
}

/// Assignment to an attribute of an imported module.
pub open spec fn monkeypatch_findings(cx: ScanCtx, target: Expr) -> Seq<FindingView> {
    match target.kind {
        ExprKind::Attribute { value, attr, .. } => match resolve_spec(cx.bindings, *value) {
            Some(base) => {
                let qualified = base.push('.') + attr@;
                if kind_spec(cx.bindings, base) != NameKind::Module || cx.opaque_allow.contains(qualified) {
                    Seq::empty()
                } else {
                    seq![FindingView { kind: FindingKindView::Hole(HoleView::Monkeypatch { target: qualified }), range: target.range }]
                }
            },
            None => Seq::empty(),
        },
        _ => Seq::empty(),
    }
}

pub open spec fn monkeypatches(cx: ScanCtx, targets: Seq<Expr>) -> Seq<FindingView>
    decreases targets.len(),
{
    if targets.len() == 0 {
        Seq::empty()
    } else {
        monkeypatches(cx, targets.drop_last()) + monkeypatch_findings(cx, targets.last())
    }
}

/// An import of a fenced module, in sim mode.
pub open spec fn fence_findings(cx: ScanCtx, target: Seq<char>, range: TextRange) -> Seq<FindingView> {
    if cx.policy != Policy::Sim {
        Seq::empty()
    } else {
        match first_fence_hit(cx.rules, target) {
            Some(hit) => match hit.kind {
                SinkKindView::ModuleFence(module) => seq![FindingView {
                    kind: FindingKindView::ImportFence { capability: hit.capability, module },
                    range,
                }],
                _ => Seq::empty(),
            },
            None => Seq::empty(),
        }
    }
}

pub open spec fn import_fences(cx: ScanCtx, aliases: Seq<Alias>, range: TextRange) -> Seq<FindingView>
    decreases aliases.len(),
{
    if aliases.len() == 0 {
        Seq::empty()
    } else {
        import_fences(cx, aliases.drop_last(), range) + fence_findings(cx, aliases.last().name@, range)
    }
}

pub open spec fn from_fences(cx: ScanCtx, base: Seq<char>, aliases: Seq<Alias>, range: TextRange) -> Seq<FindingView>
    decreases aliases.len(),
{
    if aliases.len() == 0 {
        Seq::empty()
    } else {
        from_fences(cx, base, aliases.drop_last(), range) + if aliases.last().name@ == seq!['*'] {
            Seq::empty()
        } else {
            fence_findings(cx, base.push('.') + aliases.last().name@, range)
        }
    }
}

/// What an expression names, in walk order.
pub open spec fn scan_expr(cx: ScanCtx, bless: BlessingView, e: Expr) -> Seq<FindingView>
    decreases e,
{
    match e.kind {
        ExprKind::Call { func, arguments } => {
            let rest = scan_exprs(cx, bless, arguments.args@) + scan_exprs(cx, bless, arguments.keywords@);
            match hole_call_spec(cx, *func, arguments.args@, e.range) {
                Some(h) => seq![h] + rest,
                None => match resolve_spec(cx.bindings, *func) {
                    Some(q) => {
                        let count = arguments.args@.len() + arguments.keywords@.len();
                        let n: usize = if count > usize::MAX { usize::MAX } else { count as usize };
                        let set_call = if q == "set"@ || q == "frozenset"@ {
                            hash_order_findings(cx, bless, "set() call"@, e.range)
                        } else {
                            Seq::empty()
                        };
                        set_call + sink_findings(cx, bless, q, Usage::Called { arguments: n }, e.range) + rest
                    },
                    None => scan_expr(cx, bless, *func) + rest,
                },
            }
        },
        ExprKind::SetLiteral { elts } => hash_order_findings(cx, bless, "set literal"@, e.range) + scan_exprs(cx, bless, elts@),
        ExprKind::SetComp { children } => hash_order_findings(cx, bless, "set comprehension"@, e.range)
            + scan_exprs(cx, bless, children@),
        ExprKind::Attribute { value, ctx, .. } => if ctx != ExprContext::Load {
            scan_subexprs(cx, bless, *value)
        } else {
            match resolve_spec(cx.bindings, e) {
                Some(q) => sink_findings(cx, bless, q, Usage::Referenced, e.range),
                None => scan_expr(cx, bless, *value),
            }
        },
        ExprKind::Name { ctx, .. } => if ctx != ExprContext::Load {
            Seq::empty()
        } else {
            match resolve_spec(cx.bindings, e) {
                Some(q) => sink_findings(cx, bless, q, Usage::Referenced, e.range),
                None => Seq::empty(),
            }
        },
        ExprKind::StringLiteral => Seq::empty(),
        ExprKind::Subscript { value, slice, .. } => scan_expr(cx, bless, *value) + scan_expr(cx, bless, *slice),
        ExprKind::Tuple { elts, .. } => scan_exprs(cx, bless, elts@),
        ExprKind::List { elts, .. } => scan_exprs(cx, bless, elts@),
        ExprKind::Starred { value, .. } => scan_expr(cx, bless, *value),
        ExprKind::Named { target, value } => scan_expr(cx, bless, *target) + scan_expr(cx, bless, *value),
        ExprKind::Lambda { parameters, body } => scan_params(cx, bless, parameters@) + scan_expr(cx, bless, *body),
        ExprKind::Other { children } => scan_exprs(cx, bless, children@),
    }
}

/// What walking the direct children of an expression names, in walk order;
/// the expression itself is not looked at.
pub open spec fn scan_subexprs(cx: ScanCtx, bless: BlessingView, e: Expr) -> Seq<FindingView>
    decreases e,
{
    match e.kind {
        ExprKind::Call { func, arguments } => scan_expr(cx, bless, *func) + scan_exprs(cx, bless, arguments.args@)
            + scan_exprs(cx, bless, arguments.keywords@),
        ExprKind::SetLiteral { elts } => scan_exprs(cx, bless, elts@),
        ExprKind::SetComp { children } => scan_exprs(cx, bless, children@),
        ExprKind::Attribute { value, .. } => scan_expr(cx, bless, *value),
        ExprKind::Name { .. } => Seq::empty(),
        ExprKind::StringLiteral => Seq::empty(),
        ExprKind::Subscript { value, slice, .. } => scan_expr(cx, bless, *value) + scan_expr(cx, bless, *slice),
        ExprKind::Tuple { elts, .. } => scan_exprs(cx, bless, elts@),
        ExprKind::List { elts, .. } => scan_exprs(cx, bless, elts@),
        ExprKind::Starred { value, .. } => scan_expr(cx, bless, *value),
        ExprKind::Named { target, value } => scan_expr(cx, bless, *target) + scan_expr(cx, bless, *value),
        ExprKind::Lambda { parameters, body } => scan_params(cx, bless, parameters@) + scan_expr(cx, bless, *body),
        ExprKind::Other { children } => scan_exprs(cx, bless, children@),
    }
}

pub open spec fn scan_exprs(cx: ScanCtx, bless: BlessingView, es: Seq<Expr>) -> Seq<FindingView>
    decreases es,
{
    if es.len() == 0 {
        Seq::empty()
    } else {
        scan_exprs(cx, bless, es.drop_last()) + scan_expr(cx, bless, es.last())
    }
}

pub open spec fn scan_params(cx: ScanCtx, bless: BlessingView, ps: Seq<Parameter>) -> Seq<FindingView>
    decreases ps,
{
    if ps.len() == 0 {
        Seq::empty()
    } else {
        scan_params(cx, bless, ps.drop_last()) + scan_exprs(cx, bless, ps.last().exprs@)
    }
}

pub open spec fn scan_opt_expr(cx: ScanCtx, bless: BlessingView, e: Option<Expr>) -> Seq<FindingView> {
    match e {
        Some(x) => scan_expr(cx, bless, x),
        None => Seq::empty(),
    }
}

pub open spec fn scan_opt_args(cx: ScanCtx, bless: BlessingView, a: Option<Arguments>) -> Seq<FindingView> {
    match a {
        Some(x) => scan_exprs(cx, bless, x.args@) + scan_exprs(cx, bless, x.keywords@),
        None => Seq::empty(),
    }
}

/// What a statement names, in walk order. A class statement's decorators
/// and bases are scanned in the enclosing blessing; its body in its own.
pub open spec fn scan_stmt(cx: ScanCtx, bless: BlessingView, s: Stmt) -> Seq<FindingView>
    decreases s,
{
    match s.kind {
        StmtKind::ClassDef { name, decorators, arguments, body, .. } => scan_exprs(cx, bless, decorators@)
            + scan_opt_args(cx, bless, arguments) + scan_body(cx, blessing_spec(cx, name@, arguments), body@),
        StmtKind::Import { names } => import_fences(cx, names@, s.range),
        StmtKind::ImportFrom { module, names, level } => if level == 0 && module is Some {
            let base = module->Some_0@;
            fence_findings(cx, base, s.range) + from_fences(cx, base, names@, s.range)
        } else {
            Seq::empty()
        },
        StmtKind::Assign { targets, value } => monkeypatches(cx, targets@) + scan_expr(cx, bless, value)
            + scan_exprs(cx, bless, targets@),
        StmtKind::AugAssign { target, value } => monkeypatch_findings(cx, target) + scan_expr(cx, bless, value)
            + scan_expr(cx, bless, target),
        StmtKind::AnnAssign { target, annotation, value } => monkeypatch_findings(cx, target)
            + scan_opt_expr(cx, bless, value) + scan_expr(cx, bless, annotation) + scan_expr(cx, bless, target),
        StmtKind::FunctionDef { decorators, parameters, result_annotation, body, .. } => scan_exprs(cx, bless, decorators@)
            + scan_params(cx, bless, parameters@) + scan_opt_expr(cx, bless, result_annotation)
            + scan_body(cx, bless, body@),
        StmtKind::Global { .. } => Seq::empty(),
        StmtKind::Nonlocal { .. } => Seq::empty(),
        StmtKind::Other { children } => scan_children(cx, bless, children@),
    }
}

pub open spec fn scan_children(cx: ScanCtx, bless: BlessingView, children: Seq<Child>) -> Seq<FindingView>
    decreases children,
{
    if children.len() == 0 {
        Seq::empty()
    } else {
        scan_children(cx, bless, children.drop_last()) + match children.last() {
            Child::Stmt(st) => scan_stmt(cx, bless, st),
            Child::Expr(e) => scan_expr(cx, bless, e),
        }
    }
}

pub open spec fn scan_body(cx: ScanCtx, bless: BlessingView, body: Seq<Stmt>) -> Seq<FindingView>
    decreases body,
{
    if body.len() == 0 {
        Seq::empty()
    } else {
        scan_body(cx, bless, body.drop_last()) + scan_stmt(cx, bless, body.last())
    }
}

} // verus!

verus! {

proof fn lemma_push_finding(a: Seq<Finding>, x: Finding)
    ensures
        finding_views(a.push(x)) == finding_views(a).push(x@),
{
    assert(finding_views(a.push(x)) =~= finding_views(a).push(x@));
}

/// Resolves a class statement's bases to a blessing.
pub fn blessing_of(class: &str, arguments: &Option<Arguments>, bindings: &Bindings, config: &Resolved) -> (r: Blessing)
    ensures
        r@ == blessing_spec(scan_ctx(bindings.view(), *config, Policy::Prod), class@, *arguments),
{
    let ghost cx = scan_ctx(bindings.view(), *config, Policy::Prod);
    let args = match arguments {
        Some(a) => &a.args,
        None => return Blessing::Unblessed,
    };
    let mut grants: Vec<String> = Vec::new();
    let mut protocol: Option<String> = None;
    let mut i: usize = 0;
    assert(args@.skip(0) =~= args@);
    assert(views(grants@) =~= Seq::<Seq<char>>::empty());
    while i < args.len()
        invariant
            i <= args@.len(),
            cx == scan_ctx(bindings.view(), *config, Policy::Prod),
            *arguments is Some,
            args@ == arguments->Some_0.args@,
            bases_blessing(cx, class@, args@, None, Seq::empty())
                == bases_blessing(cx, class@, args@.skip(i as int), crate::text::opt_str_view(protocol), views(grants@)),
        decreases args@.len() - i,
    {
        let ghost rest = args@.skip(i as int);
        assert(rest.drop_first() =~= args@.skip(i + 1));
        assert(rest[0] == args@[i as int]);
        let arg = &args[i];
        let base = match &arg.kind {
            ExprKind::Subscript { value, .. } => &**value,
            _ => arg,
        };
        match bindings.resolve(base) {
            None => {},
            Some(resolved) => {
                if config.is_deterministic_marker(resolved.qualified.as_str()) {
                    return Blessing::Marked { class: copy_str(class) };
                }
                let base_grants = config.grants_for_protocol(resolved.qualified.as_str());
                if config.is_shim_protocol(resolved.qualified.as_str()) {
                    if protocol.is_none() {
                        protocol = Some(resolved.qualified.clone());
                    }
                    let ghost before = views(grants@);
                    let mut j: usize = 0;
                    while j < base_grants.len()
                        invariant
                            j <= base_grants@.len(),
                            views(grants@) == before + views(base_grants@).take(j as int),
                        decreases base_grants@.len() - j,
                    {
                        let ghost prior = grants@;
                        let g = base_grants[j].clone();
                        grants.push(g);
                        proof {
                            crate::text::lemma_views_push(prior, g);
                            crate::text::lemma_views_take_push(base_grants@, j as int);
                        }
                        assert(views(grants@) =~= before + views(base_grants@).take(j + 1));
                        j = j + 1;
                    }
                    assert(views(base_grants@).take(j as int) =~= views(base_grants@));
                }
            },
        }
        i = i + 1;
    }
    match protocol {
        Some(p) => Blessing::Shim { protocol: p, grants },
        None => Blessing::Unblessed,
    }
}

/// The scan of one module.
struct Scanner<'a> {
    bindings: &'a Bindings,
    config: &'a Resolved,
    policy: Policy,
}

impl<'a> Scanner<'a> {
    spec fn ctx(&self) -> ScanCtx {
        scan_ctx(self.bindings.view(), *self.config, self.policy)
    }

    /// Records a sink named at `range`, unless the blessing covers it.
    fn sink(&self, bless: &Blessing, qualified: &str, usage: Usage, range: TextRange, out: &mut Vec<Finding>)
        ensures
            finding_views(final(out)@) == finding_views(old(out)@) + sink_findings(self.ctx(), bless@, qualified@, usage, range),
    {
        let hit = match self.config.sinks().match_name(qualified, usage) {
            Some(h) => h,
            None => {
                assert(finding_views(out@) + Seq::empty() =~= finding_views(out@));
                return;
            },
        };
        let allowed = self.policy == Policy::Prod && bless.covers(hit.capability.as_str());
        if !allowed {
            let context = bless.context();
            let ghost before = out@;
            let f = Finding {
                kind: FindingKind::Sink { capability: hit.capability, name: copy_str(qualified), matched: hit.kind, context },
                range,
            };
            out.push(f);
            proof { lemma_push_finding(before, f); }
            assert(finding_views(out@) =~= finding_views(before) + sink_findings(self.ctx(), bless@, qualified@, usage, range));
        } else {
            assert(finding_views(out@) + Seq::empty() =~= finding_views(out@));
        }
    }

    fn hash_order(&self, bless: &Blessing, construct: &str, range: TextRange, out: &mut Vec<Finding>)
        ensures
            finding_views(final(out)@) == finding_views(old(out)@) + hash_order_findings(self.ctx(), bless@, construct@, range),
    {
        let cap = copy_str("hash_order");
        if self.policy != Policy::Sim || bless.covers(cap.as_str()) {
            assert(finding_views(out@) + Seq::empty() =~= finding_views(out@));
            return;
        }
        let ghost before = out@;
        let f = Finding { kind: FindingKind::HashOrder { construct: copy_str(construct), context: bless.context() }, range };
        out.push(f);
        proof { lemma_push_finding(before, f); }
        assert(finding_views(out@) =~= finding_views(before) + hash_order_findings(self.ctx(), bless@, construct@, range));
    }

    /// The hole a call is, if any.
    fn check_hole_call(&self, func: &Expr, args: &Vec<Expr>, range: TextRange) -> (r: Option<Finding>)
        ensures
            match r {
                Some(f) => hole_call_spec(self.ctx(), *func, args@, range) == Some(f@),
                None => hole_call_spec(self.ctx(), *func, args@, range) is None,
            },
    {
        let resolved = match self.bindings.resolve(func) {
            Some(r) => r,
            None => return None,
        };
        let name = resolved.qualified;
        if self.config.is_opaque_allowed(name.as_str()) {
            return None;
        }
        proof {
            reveal_strlit("__import__");
            reveal_strlit("importlib");
            reveal_strlit("importlib.");
            reveal_strlit("eval");
            reveal_strlit("exec");
            reveal_strlit("getattr");
            reveal_strlit("setattr");
            reveal_strlit("delattr");
        }
        if str_eq(name.as_str(), "__import__") || str_eq(name.as_str(), "importlib")
            || str_starts_with(name.as_str(), "importlib.") {
            return Some(Finding { kind: FindingKind::Hole(Hole::DynamicImport { name }), range });
        }
        if str_eq(name.as_str(), "eval") || str_eq(name.as_str(), "exec") {
            return Some(Finding { kind: FindingKind::Hole(Hole::DynamicEval { name }), range });
        }
        if str_eq(name.as_str(), "getattr") || str_eq(name.as_str(), "setattr") || str_eq(name.as_str(), "delattr") {
            let literal_attribute = args.len() > 1 && match &args[1].kind {
                ExprKind::StringLiteral => true,
                _ => false,
            };
            if !literal_attribute && args.len() > 0 {
                match self.bindings.resolve(&args[0]) {
                    Some(target) => {
                        if target.kind == NameKind::Module {
                            return Some(Finding {
                                kind: FindingKind::Hole(Hole::DynamicAttribute { function: name, module: target.qualified }),
                                range,
                            });
                        }
                    },
                    None => {},
                }
            }
        }
        None
    }

    /// Assignment to an attribute of an imported module replaces behaviour
    /// the analysis has already judged.
    fn check_monkeypatch(&self, target: &Expr, out: &mut Vec<Finding>)
        ensures
            finding_views(final(out)@) == finding_views(old(out)@) + monkeypatch_findings(self.ctx(), *target),
    {
        let ghost before = out@;
        proof {
            assert(finding_views(before) + Seq::empty() =~= finding_views(before));
        }
        match &target.kind {
            ExprKind::Attribute { value, attr, .. } => {
                let base = match self.bindings.resolve(value) {
                    Some(b) => b,
                    None => return,
                };
                if base.kind != NameKind::Module {
                    return;
                }
                let mut qualified = base.qualified;
                push_char(&mut qualified, '.');
                push_str(&mut qualified, attr.as_str());
                if self.config.is_opaque_allowed(qualified.as_str()) {
                    return;
                }
                let f = Finding { kind: FindingKind::Hole(Hole::Monkeypatch { target: qualified }), range: target.range };
                out.push(f);
                proof { lemma_push_finding(before, f); }
                assert(finding_views(out@) =~= finding_views(before) + monkeypatch_findings(self.ctx(), *target));
            },
            _ => {},
        }
    }

    fn check_monkeypatches(&self, targets: &Vec<Expr>, out: &mut Vec<Finding>)
        ensures
            finding_views(final(out)@) == finding_views(old(out)@) + monkeypatches(self.ctx(), targets@),
    {
        let ghost start = finding_views(out@);
        let mut i: usize = 0;
        assert(start + Seq::empty() =~= start);
        while i < targets.len()
            invariant
                i <= targets@.len(),
                finding_views(out@) == start + monkeypatches(self.ctx(), targets@.take(i as int)),
            decreases targets@.len() - i,
        {
            assert(targets@.take(i + 1).drop_last() =~= targets@.take(i as int));
            assert(targets@.take(i + 1).last() == targets@[i as int]);
            self.check_monkeypatch(&targets[i], out);
            assert(finding_views(out@) =~= start + monkeypatches(self.ctx(), targets@.take(i + 1)));
            i = i + 1;
        }
        assert(targets@.take(i as int) =~= targets@);
    }

    fn check_import_fence(&self, target: &str, range: TextRange, out: &mut Vec<Finding>)
        ensures
            finding_views(final(out)@) == finding_views(old(out)@) + fence_findings(self.ctx(), target@, range),
    {
        let ghost before = out@;
        proof {
            assert(finding_views(before) + Seq::empty() =~= finding_views(before));
        }
        if self.policy != Policy::Sim {
            return;
        }
        let hit = match self.config.sinks().match_module(target) {
            Some(h) => h,
            None => return,
        };
        match hit.kind {
            SinkKind::ModuleFence(module) => {
                let f = Finding { kind: FindingKind::ImportFence { capability: hit.capability, module }, range };
                out.push(f);
                proof { lemma_push_finding(before, f); }
                assert(finding_views(out@) =~= finding_views(before) + fence_findings(self.ctx(), target@, range));
            },
            _ => {},
        }
    }
}

} // verus!

verus! {

impl<'a> Scanner<'a> {
    fn visit_expr(&self, bless: &Blessing, e: &Expr, out: &mut Vec<Finding>)
        ensures
            finding_views(final(out)@) == finding_views(old(out)@) + scan_expr(self.ctx(), bless@, *e),
        decreases *e,
    {
        let ghost start = finding_views(out@);
        let ghost cx = self.ctx();
        match &e.kind {
            ExprKind::Call { func, arguments } => {
                match self.check_hole_call(func, &arguments.args, e.range) {
                    Some(h) => {
                        let ghost before = out@;
                        out.push(h);
                        proof { lemma_push_finding(before, h); }
                        self.visit_exprs(bless, &arguments.args, out);
                        self.visit_exprs(bless, &arguments.keywords, out);
                        assert(finding_views(out@) =~= start + scan_expr(cx, bless@, *e));
                        return;
                    },
                    None => {},
                }
                match self.bindings.resolve(func) {
                    Some(resolved) => {
                        let n = arguments.args.len().saturating_add(arguments.keywords.len());
                        let ghost before_set = finding_views(out@);
                        if str_eq(resolved.qualified.as_str(), "set") || str_eq(resolved.qualified.as_str(), "frozenset") {
                            self.hash_order(bless, "set() call", e.range, out);
                        } else {
                            assert(finding_views(out@) + Seq::empty() =~= finding_views(out@));
                        }
                        self.sink(bless, resolved.qualified.as_str(), Usage::Called { arguments: n }, e.range, out);
                    },
                    None => {
                        self.visit_expr(bless, func, out);
                    },
                }
                self.visit_exprs(bless, &arguments.args, out);
                self.visit_exprs(bless, &arguments.keywords, out);
                assert(finding_views(out@) =~= start + scan_expr(cx, bless@, *e));
            },
            ExprKind::SetLiteral { elts } => {
                self.hash_order(bless, "set literal", e.range, out);
                self.visit_exprs(bless, elts, out);
                assert(finding_views(out@) =~= start + scan_expr(cx, bless@, *e));
            },
            ExprKind::SetComp { children } => {
                self.hash_order(bless, "set comprehension", e.range, out);
                self.visit_exprs(bless, children, out);
                assert(finding_views(out@) =~= start + scan_expr(cx, bless@, *e));
            },
            ExprKind::Attribute { value, ctx, .. } => {
                if *ctx != ExprContext::Load {
                    // Handled by the monkeypatch check; the write is not a use,
                    // and the object written to is walked, not named.
                    self.visit_subexprs(bless, value, out);
                    return;
                }
                match self.bindings.resolve(e) {
                    // A resolved dotted chain is matched as a whole: its
                    // prefixes are not separate namings.
                    Some(resolved) => self.sink(bless, resolved.qualified.as_str(), Usage::Referenced, e.range, out),
                    None => self.visit_expr(bless, value, out),
                }
            },
            ExprKind::Name { ctx, .. } => {
                if *ctx != ExprContext::Load {
                    assert(start + Seq::empty() =~= start);
                    return;
                }
                match self.bindings.resolve(e) {
                    Some(resolved) => self.sink(bless, resolved.qualified.as_str(), Usage::Referenced, e.range, out),
                    None => {
                        assert(start + Seq::empty() =~= start);
                    },
                }
            },
            ExprKind::StringLiteral => {
                assert(start + Seq::empty() =~= start);
            },
            ExprKind::Subscript { value, slice, .. } => {
                self.visit_expr(bless, value, out);
                self.visit_expr(bless, slice, out);
                assert(finding_views(out@) =~= start + scan_expr(cx, bless@, *e));
            },
            ExprKind::Tuple { elts, .. } => self.visit_exprs(bless, elts, out),
            ExprKind::List { elts, .. } => self.visit_exprs(bless, elts, out),
            ExprKind::Starred { value, .. } => self.visit_expr(bless, value, out),
            ExprKind::Named { target, value } => {
                self.visit_expr(bless, target, out);
                self.visit_expr(bless, value, out);
                assert(finding_views(out@) =~= start + scan_expr(cx, bless@, *e));
            },
            ExprKind::Lambda { parameters, body } => {
                self.visit_params(bless, parameters, out);
                self.visit_expr(bless, body, out);
                assert(finding_views(out@) =~= start + scan_expr(cx, bless@, *e));
            },
            ExprKind::Other { children } => self.visit_exprs(bless, children, out),
        }
    }

    fn visit_subexprs(&self, bless: &Blessing, e: &Expr, out: &mut Vec<Finding>)
        ensures
            finding_views(final(out)@) == finding_views(old(out)@) + scan_subexprs(self.ctx(), bless@, *e),
        decreases *e,
    {
        let ghost start = finding_views(out@);
        let ghost cx = self.ctx();
        match &e.kind {
            ExprKind::Call { func, arguments } => {
                self.visit_expr(bless, func, out);
                self.visit_exprs(bless, &arguments.args, out);
                self.visit_exprs(bless, &arguments.keywords, out);
                assert(finding_views(out@) =~= start + scan_subexprs(cx, bless@, *e));
            },
            ExprKind::SetLiteral { elts } => self.visit_exprs(bless, elts, out),
            ExprKind::SetComp { children } => self.visit_exprs(bless, children, out),
            ExprKind::Attribute { value, .. } => self.visit_expr(bless, value, out),
            ExprKind::Name { .. } => {
                assert(start + Seq::empty() =~= start);
            },
            ExprKind::StringLiteral => {
                assert(start + Seq::empty() =~= start);
            },
            ExprKind::Subscript { value, slice, .. } => {
                self.visit_expr(bless, value, out);
                self.visit_expr(bless, slice, out);
                assert(finding_views(out@) =~= start + scan_subexprs(cx, bless@, *e));
            },
            ExprKind::Tuple { elts, .. } => self.visit_exprs(bless, elts, out),
            ExprKind::List { elts, .. } => self.visit_exprs(bless, elts, out),
            ExprKind::Starred { value, .. } => self.visit_expr(bless, value, out),
            ExprKind::Named { target, value } => {
                self.visit_expr(bless, target, out);
                self.visit_expr(bless, value, out);
                assert(finding_views(out@) =~= start + scan_subexprs(cx, bless@, *e));
            },
            ExprKind::Lambda { parameters, body } => {
                self.visit_params(bless, parameters, out);
                self.visit_expr(bless, body, out);
                assert(finding_views(out@) =~= start + scan_subexprs(cx, bless@, *e));
            },
            ExprKind::Other { children } => self.visit_exprs(bless, children, out),
        }
    }

    fn visit_exprs(&self, bless: &Blessing, es: &Vec<Expr>, out: &mut Vec<Finding>)
        ensures
            finding_views(final(out)@) == finding_views(old(out)@) + scan_exprs(self.ctx(), bless@, es@),
        decreases es@,
    {
        let ghost start = finding_views(out@);
        let mut i: usize = 0;
        assert(start + Seq::empty() =~= start);
        while i < es.len()
            invariant
                i <= es@.len(),
                finding_views(out@) == start + scan_exprs(self.ctx(), bless@, es@.take(i as int)),
            decreases es@.len() - i,
        {
            assert(es@.take(i + 1).drop_last() =~= es@.take(i as int));
            assert(es@.take(i + 1).last() == es@[i as int]);
            self.visit_expr(bless, &es[i], out);
            assert(finding_views(out@) =~= start + scan_exprs(self.ctx(), bless@, es@.take(i + 1)));
            i = i + 1;
        }
        assert(es@.take(i as int) =~= es@);
    }

    fn visit_params(&self, bless: &Blessing, ps: &Vec<Parameter>, out: &mut Vec<Finding>)
        ensures
            finding_views(final(out)@) == finding_views(old(out)@) + scan_params(self.ctx(), bless@, ps@),
        decreases ps@,
    {
        let ghost start = finding_views(out@);
        let mut i: usize = 0;
        assert(start + Seq::empty() =~= start);
        while i < ps.len()
            invariant
                i <= ps@.len(),
                finding_views(out@) == start + scan_params(self.ctx(), bless@, ps@.take(i as int)),
            decreases ps@.len() - i,
        {
            assert(ps@.take(i + 1).drop_last() =~= ps@.take(i as int));
            assert(ps@.take(i + 1).last() == ps@[i as int]);
            self.visit_exprs(bless, &ps[i].exprs, out);
            assert(finding_views(out@) =~= start + scan_params(self.ctx(), bless@, ps@.take(i + 1)));
            i = i + 1;
        }
        assert(ps@.take(i as int) =~= ps@);
    }
}

} // verus!

verus! {

impl crate::order::SortKey for Finding {
    /// By start offset, then end offset.
    open spec fn key_lt(&self, other: &Self) -> bool {
        self.range.start < other.range.start || (self.range.start == other.range.start && self.range.end < other.range.end)
    }

    fn less_than(&self, other: &Self) -> (r: bool) {
        self.range.start < other.range.start || (self.range.start == other.range.start && self.range.end < other.range.end)
    }
}

/// Findings are ordered by a strict weak order.
pub proof fn lemma_finding_order()
    ensures
        crate::order::strict_weak_order::<Finding>(),
{
}

impl<'a> Scanner<'a> {
    #[verifier::spinoff_prover]
    #[verifier::rlimit(40)]
    fn visit_stmt(&self, bless: &Blessing, s: &Stmt, out: &mut Vec<Finding>)
        ensures
            finding_views(final(out)@) == finding_views(old(out)@) + scan_stmt(self.ctx(), bless@, *s),
        decreases *s,
    {
        let ghost start = finding_views(out@);
        let ghost cx = self.ctx();
        match &s.kind {
            StmtKind::ClassDef { name, decorators, arguments, body, .. } => {
                self.visit_exprs(bless, decorators, out);
                // Bases are evaluated in the enclosing scope, so they are
                // scanned before the class blessing takes effect.
                match arguments {
                    Some(a) => {
                        self.visit_exprs(bless, &a.args, out);
                        self.visit_exprs(bless, &a.keywords, out);
                    },
                    None => {},
                }
                let inner = blessing_of_with(name.as_str(), arguments, self.bindings, self.config, self.policy);
                self.visit_body(&inner, body, out);
                assert(finding_views(out@) =~= start + scan_stmt(cx, bless@, *s));
            },
            StmtKind::Import { names } => {
                let mut i: usize = 0;
                assert(start + Seq::empty() =~= start);
                while i < names.len()
                    invariant
                        i <= names@.len(),
                        s.kind is Import,
                        s.kind->Import_names == *names,
                        finding_views(out@) == start + import_fences(cx, names@.take(i as int), s.range),
                        cx == self.ctx(),
                    decreases names@.len() - i,
                {
                    assert(names@.take(i + 1).drop_last() =~= names@.take(i as int));
                    assert(names@.take(i + 1).last() == names@[i as int]);
                    self.check_import_fence(names[i].name.as_str(), s.range, out);
                    assert(finding_views(out@) =~= start + import_fences(cx, names@.take(i + 1), s.range));
                    i = i + 1;
                }
                assert(names@.take(i as int) =~= names@);
            },
            StmtKind::ImportFrom { module, names, level } => {
                if *level != 0 {
                    assert(start + Seq::empty() =~= start);
                    return;
                }
                let base = match module {
                    Some(m) => m,
                    None => {
                        assert(start + Seq::empty() =~= start);
                        return;
                    },
                };
                self.check_import_fence(base.as_str(), s.range, out);
                let ghost mid = finding_views(out@);
                let star = char_string('*');
                let mut i: usize = 0;
                assert(mid + Seq::empty() =~= mid);
                while i < names.len()
                    invariant
                        i <= names@.len(),
                        star@ == seq!['*'],
                        finding_views(out@) == mid + from_fences(cx, base@, names@.take(i as int), s.range),
                        cx == self.ctx(),
                    decreases names@.len() - i,
                {
                    assert(names@.take(i + 1).drop_last() =~= names@.take(i as int));
                    assert(names@.take(i + 1).last() == names@[i as int]);
                    let alias = &names[i];
                    if !str_eq(alias.name.as_str(), star.as_str()) {
                        let mut qualified = base.clone();
                        push_char(&mut qualified, '.');
                        push_str(&mut qualified, alias.name.as_str());
                        self.check_import_fence(qualified.as_str(), s.range, out);
                    }
                    assert(finding_views(out@) =~= mid + from_fences(cx, base@, names@.take(i + 1), s.range));
                    i = i + 1;
                }
                assert(names@.take(i as int) =~= names@);
                assert(finding_views(out@) =~= start + scan_stmt(cx, bless@, *s));
            },
            StmtKind::Assign { targets, value } => {
                self.check_monkeypatches(targets, out);
                self.visit_expr(bless, value, out);
                self.visit_exprs(bless, targets, out);
                assert(finding_views(out@) =~= start + scan_stmt(cx, bless@, *s));
            },
            StmtKind::AugAssign { target, value } => {
                self.check_monkeypatch(target, out);
                self.visit_expr(bless, value, out);
                self.visit_expr(bless, target, out);
                assert(finding_views(out@) =~= start + scan_stmt(cx, bless@, *s));
            },
            StmtKind::AnnAssign { target, annotation, value } => {
                self.check_monkeypatch(target, out);
                match value {
                    Some(v) => self.visit_expr(bless, v, out),
                    None => {},
                }
                self.visit_expr(bless, annotation, out);
                self.visit_expr(bless, target, out);
                assert(finding_views(out@) =~= start + scan_stmt(cx, bless@, *s));
            },
            StmtKind::FunctionDef { decorators, parameters, result_annotation, body, .. } => {
                self.visit_exprs(bless, decorators, out);
                self.visit_params(bless, parameters, out);
                match result_annotation {
                    Some(r) => self.visit_expr(bless, r, out),
                    None => {},
                }
                self.visit_body(bless, body, out);
                assert(finding_views(out@) =~= start + scan_stmt(cx, bless@, *s));
            },
            StmtKind::Global { .. } => {
                assert(start + Seq::empty() =~= start);
            },
            StmtKind::Nonlocal { .. } => {
                assert(start + Seq::empty() =~= start);
            },
            StmtKind::Other { children } => {
                let mut i: usize = 0;
                assert(start + Seq::empty() =~= start);
                while i < children.len()
                    invariant
                        i <= children@.len(),
                        s.kind is Other,
                        s.kind->Other_children == *children,
                        finding_views(out@) == start + scan_children(cx, bless@, children@.take(i as int)),
                        cx == self.ctx(),
                    decreases children@.len() - i,
                {
                    assert(children@.take(i + 1).drop_last() =~= children@.take(i as int));
                    assert(children@.take(i + 1).last() == children@[i as int]);
                    match &children[i] {
                        Child::Stmt(st) => {
                            proof {
                                assert(decreases_to!(*s => *st)) by {
                                    assert(decreases_to!(s.kind => children@[i as int]));
                                }
                            }
                            self.visit_stmt(bless, st, out);
                        },
                        Child::Expr(e) => self.visit_expr(bless, e, out),
                    }
                    assert(finding_views(out@) =~= start + scan_children(cx, bless@, children@.take(i + 1)));
                    i = i + 1;
                }
                assert(children@.take(i as int) =~= children@);
            },
        }
    }

    fn visit_body(&self, bless: &Blessing, body: &Vec<Stmt>, out: &mut Vec<Finding>)
        ensures
            finding_views(final(out)@) == finding_views(old(out)@) + scan_body(self.ctx(), bless@, body@),
        decreases body@,
    {
        let ghost start = finding_views(out@);
        let mut i: usize = 0;
        assert(start + Seq::empty() =~= start);
        while i < body.len()
            invariant
                i <= body@.len(),
                finding_views(out@) == start + scan_body(self.ctx(), bless@, body@.take(i as int)),
            decreases body@.len() - i,
        {
            assert(body@.take(i + 1).drop_last() =~= body@.take(i as int));
            assert(body@.take(i + 1).last() == body@[i as int]);
            self.visit_stmt(bless, &body[i], out);
            assert(finding_views(out@) =~= start + scan_body(self.ctx(), bless@, body@.take(i + 1)));
            i = i + 1;
        }
        assert(body@.take(i as int) =~= body@);
    }
}

/// The blessing of a class under any policy: bases do not depend on it.
fn blessing_of_with(class: &str, arguments: &Option<Arguments>, bindings: &Bindings, config: &Resolved, policy: Policy) -> (r: Blessing)
    ensures
        r@ == blessing_spec(scan_ctx(bindings.view(), *config, policy), class@, *arguments),
{
    let r = blessing_of(class, arguments, bindings, config);
    proof {
        match arguments {
            Some(a) => lemma_bases_blessing_policy(bindings.view(), *config, policy, class@, a.args@, None, Seq::empty()),
            None => {},
        }
    }
    r
}

proof fn lemma_bases_blessing_policy(
    b: BindingsView,
    config: Resolved,
    policy: Policy,
    class: Seq<char>,
    bases: Seq<Expr>,
    protocol: Option<Seq<char>>,
    grants: Seq<Seq<char>>,
)
    ensures
        bases_blessing(scan_ctx(b, config, policy), class, bases, protocol, grants)
            == bases_blessing(scan_ctx(b, config, Policy::Prod), class, bases, protocol, grants),
    decreases bases.len(),
{
    if bases.len() > 0 {
        let cx = scan_ctx(b, config, policy);
        match resolve_spec(b, base_expr(bases[0])) {
            None => lemma_bases_blessing_policy(b, config, policy, class, bases.drop_first(), protocol, grants),
            Some(q) => {
                let p = match protocol {
                    Some(p) => Some(p),
                    None => Some(q),
                };
                lemma_bases_blessing_policy(b, config, policy, class, bases.drop_first(), p, grants + grants_of(cx.shims, q));
                lemma_bases_blessing_policy(b, config, policy, class, bases.drop_first(), protocol, grants);
            },
        }
    }
}

/// The findings of one module under `policy`, in walk order: unresolved
/// star imports first, then the module body.
pub open spec fn raw_findings(module: Module, bindings: BindingsView, config: Resolved, policy: Policy) -> Seq<FindingView> {
    bindings.unresolved_stars.map_values(
        |u: (Seq<char>, TextRange)| FindingView { kind: FindingKindView::Hole(HoleView::StarImport { target: u.0 }), range: u.1 },
    ) + scan_body(scan_ctx(bindings, config, policy), BlessingView::Unblessed, module.body@)
}

/// `a` sorts strictly before `b`: by start offset, then end offset.
pub open spec fn finding_before(a: FindingView, b: FindingView) -> bool {
    a.range.start < b.range.start || (a.range.start == b.range.start && a.range.end < b.range.end)
}

/// `s` with `x` put after every finding it does not sort before.
pub open spec fn insert_finding(s: Seq<FindingView>, x: FindingView) -> Seq<FindingView>
    decreases s.len(),
{
    if s.len() == 0 || !finding_before(x, s.last()) {
        s.push(x)
    } else {
        insert_finding(s.drop_last(), x).push(s.last())
    }
}

/// The findings sorted by position, findings at the same position in their
/// order.
pub open spec fn sort_findings(s: Seq<FindingView>) -> Seq<FindingView>
    decreases s.len(),
{
    if s.len() == 0 {
        Seq::empty()
    } else {
        insert_finding(sort_findings(s.drop_last()), s.last())
    }
}

proof fn lemma_insert_views(s: Seq<Finding>, x: Finding)
    ensures
        finding_views(crate::order::insert_sorted(s, x)) == insert_finding(finding_views(s), x@),
    decreases s.len(),
{
    if s.len() > 0 {
        assert(finding_views(s).drop_last() =~= finding_views(s.drop_last()));
        assert(finding_views(s).last() == s.last()@);
        lemma_insert_views(s.drop_last(), x);
    }
    assert(finding_views(crate::order::insert_sorted(s, x)) =~= insert_finding(finding_views(s), x@));
}

proof fn lemma_sorted_views(s: Seq<Finding>)
    ensures
        finding_views(crate::order::stable_sorted(s)) == sort_findings(finding_views(s)),
    decreases s.len(),
{
    if s.len() > 0 {
        lemma_sorted_views(s.drop_last());
        assert(finding_views(s).drop_last() =~= finding_views(s.drop_last()));
        assert(finding_views(s).last() == s.last()@);
        lemma_insert_views(crate::order::stable_sorted(s.drop_last()), s.last());
    } else {
        assert(finding_views(Seq::<Finding>::empty()) =~= Seq::<FindingView>::empty());
    }
}

/// The findings of one module under `policy`: sorted by position.
pub open spec fn scan_spec(module: Module, bindings: BindingsView, config: Resolved, policy: Policy) -> Seq<FindingView> {
    sort_findings(raw_findings(module, bindings, config, policy))
}

/// Scans one module under `policy`; the findings come sorted by position,
/// findings at the same position in walk order.
pub fn scan(module: &Module, bindings: &Bindings, config: &Resolved, policy: Policy) -> (r: Vec<Finding>)
    ensures
        finding_views(r@) == scan_spec(*module, bindings.view(), *config, policy),
        crate::order::key_sorted(r@),
{
    let scanner = Scanner { bindings, config, policy };
    let mut findings: Vec<Finding> = Vec::new();
    let stars = bindings.unresolved_stars();
    let ghost star_views = bindings.view().unresolved_stars.map_values(
        |u: (Seq<char>, TextRange)| FindingView { kind: FindingKindView::Hole(HoleView::StarImport { target: u.0 }), range: u.1 },
    );
    let mut i: usize = 0;
    while i < stars.len()
        invariant
            i <= stars@.len(),
            stars@.map_values(|u: UnresolvedStar| (u.target@, u.range)) == bindings.view().unresolved_stars,
            star_views == bindings.view().unresolved_stars.map_values(
                |u: (Seq<char>, TextRange)| FindingView { kind: FindingKindView::Hole(HoleView::StarImport { target: u.0 }), range: u.1 },
            ),
            finding_views(findings@) == star_views.take(i as int),
        decreases stars@.len() - i,
    {
        let ghost before = findings@;
        let f = Finding { kind: FindingKind::Hole(Hole::StarImport { target: stars[i].target.clone() }), range: stars[i].range };
        findings.push(f);
        proof {
            lemma_push_finding(before, f);
            assert(stars@.map_values(|u: UnresolvedStar| (u.target@, u.range))[i as int] == (stars@[i as int].target@, stars@[i as int].range));
        }
        assert(finding_views(findings@) =~= star_views.take(i + 1));
        i = i + 1;
    }
    assert(star_views.take(i as int) =~= star_views);
    let body = module.ast();
    scanner.visit_body(&Blessing::Unblessed, body, &mut findings);
    let ghost raw = findings@;
    let r = crate::order::stable_sort(findings);
    proof {
        lemma_finding_order();
        crate::order::lemma_stable_sorted(raw);
        lemma_sorted_views(raw);
    }
    r
}


/// Trusting a module never masks a sink: what a scan finds depends on the
/// sink rules, shim declarations, markers and opaque allow-list, not on the
/// trusted modules (nor on the roots).
pub proof fn law_trust_never_masks_a_sink(
    module: Module,
    bindings: BindingsView,
    config: Resolved,
    other: Resolved,
    policy: Policy,
)
    requires
        config.sinks_view() == other.sinks_view(),
        config.shims_view() == other.shims_view(),
        config.markers_view() == other.markers_view(),
        config.opaque_allow_view() == other.opaque_allow_view(),
    ensures
        scan_spec(module, bindings, config, policy) == scan_spec(module, bindings, other, policy),
{
    assert(scan_ctx(bindings, config, policy) == scan_ctx(bindings, other, policy));
}

/// In prod mode a sink is allowed exactly inside a shim implementation whose
/// grants include the sink's capability: there the name is not reported; in
/// an unblessed body, a marked class, or a shim that does not grant the
/// capability, it is reported once, at its place, with its capability and
/// the reason it is not allowed.
pub proof fn law_shim_grants_allow_their_sinks(
    cx: ScanCtx,
    bless: BlessingView,
    qualified: Seq<char>,
    usage: Usage,
    range: TextRange,
)
    requires
        cx.policy == Policy::Prod,
        match_name_spec(cx.rules, qualified, usage) is Some,
    ensures
        ({
            let hit = match_name_spec(cx.rules, qualified, usage)->Some_0;
            let granted = match bless {
                BlessingView::Shim { grants, .. } => exists|i: int| 0 <= i < grants.len() && grants[i] == hit.capability,
                _ => false,
            };
            let found = sink_findings(cx, bless, qualified, usage, range);
            &&& granted ==> found.len() == 0
            &&& !granted ==> found.len() == 1 && found[0].range == range
                && found[0].kind == (FindingKindView::Sink {
                    capability: hit.capability,
                    name: qualified,
                    matched: hit.kind,
                    context: context_spec(bless),
                })
        }),
{
    let hit = match_name_spec(cx.rules, qualified, usage)->Some_0;
    match bless {
        BlessingView::Shim { grants, .. } => {
            if grants.contains(hit.capability) {
                let i = choose|i: int| 0 <= i < grants.len() && grants[i] == hit.capability;
            }
        },
        _ => {},
    }
}

} // verus!
