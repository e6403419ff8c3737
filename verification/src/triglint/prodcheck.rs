//! Prod mode: where nondeterminism is introduced outside shim
//! implementations.
//!
//! Introduction points are always direct: the call site of a sink, or a sink
//! type written into a body. A sink hit is fine only if the body sits
//! (looking through closures) inside an implementation of a shim trait whose
//! grants cover the capability. Implementations for types marked
//! deterministic receive no grants.

use vstd::prelude::*;

use crate::text::{copy_str, copy_strings, str_eq, views};

verus! {

broadcast use vstd::string::group_string_axioms;

/// Why a body was not blessed for the capability it touched.
#[derive(Debug)]
pub enum Context {
    /// Not inside any shim implementation.
    Unblessed,
    /// Inside a shim implementation, but the self type is marked
    /// deterministic.
    MarkedDeterministic { self_ty: String },
    /// Inside a shim implementation whose grants do not cover the
    /// capability.
    GrantsMissing { trait_path: String, grants: Vec<String> },
}

pub ghost enum ContextView {
    Unblessed,
    MarkedDeterministic { self_ty: Seq<char> },
    GrantsMissing { trait_path: Seq<char>, grants: Seq<Seq<char>> },
}

impl View for Context {
    type V = ContextView;

    open spec fn view(&self) -> ContextView {
        match self {
            Context::Unblessed => ContextView::Unblessed,
            Context::MarkedDeterministic { self_ty } => ContextView::MarkedDeterministic { self_ty: self_ty@ },
            Context::GrantsMissing { trait_path, grants } => ContextView::GrantsMissing {
                trait_path: trait_path@,
                grants: views(grants@),
            },
        }
    }
}

/// Whether a violation is a sink call or a sink type.
#[derive(Debug, Clone, Copy, PartialEq, Eq, Structural)]
pub enum ProdSinkKind {
    Call,
    Type,
}

/// A sink introduced outside a granting shim implementation. `body` is the
/// body owner, so the report can be attached to the item.
#[derive(Debug)]
pub struct ProdViolation {
    pub kind: ProdSinkKind,
    pub capability: String,
    pub sink_path: String,
    pub span: u64,
    pub body: u64,
    pub context: Context,
}

pub ghost struct ProdViolationView {
    pub kind: ProdSinkKind,
    pub capability: Seq<char>,
    pub sink_path: Seq<char>,
    pub span: u64,
    pub body: u64,
    pub context: ContextView,
}

impl View for ProdViolation {
    type V = ProdViolationView;

    open spec fn view(&self) -> ProdViolationView {
        ProdViolationView {
            kind: self.kind,
            capability: self.capability@,
            sink_path: self.sink_path@,
            span: self.span,
            body: self.body,
            context: self.context@,
        }
    }
}

pub open spec fn prod_views(v: Seq<ProdViolation>) -> Seq<ProdViolationView> {
    v.map_values(|x: ProdViolation| x@)
}

/// The blessing state of a body's enclosing (non-closure) item.
#[derive(Debug)]
pub enum Blessing {
    Unblessed,
    Marked { self_ty: String },
    Shim { trait_path: String, grants: Vec<String> },
}

pub ghost enum BlessingView {
    Unblessed,
    Marked { self_ty: Seq<char> },
    Shim { trait_path: Seq<char>, grants: Seq<Seq<char>> },
}

impl View for Blessing {
    type V = BlessingView;

    open spec fn view(&self) -> BlessingView {
        match self {
            Blessing::Unblessed => BlessingView::Unblessed,
            Blessing::Marked { self_ty } => BlessingView::Marked { self_ty: self_ty@ },
            Blessing::Shim { trait_path, grants } => BlessingView::Shim { trait_path: trait_path@, grants: views(grants@) },
        }
    }
}

/// Only a shim implementation's grants cover anything.
pub open spec fn covers_spec(b: BlessingView, capability: Seq<char>) -> bool {
    match b {
        BlessingView::Shim { grants, .. } => grants.contains(capability),
        _ => false,
    }
}

/// The context a finding under `b` reports.
pub open spec fn context_spec(b: BlessingView) -> ContextView {
    match b {
        BlessingView::Unblessed => ContextView::Unblessed,
        BlessingView::Marked { self_ty } => ContextView::MarkedDeterministic { self_ty },
        BlessingView::Shim { trait_path, grants } => ContextView::GrantsMissing { trait_path, grants },
    }
}

impl Blessing {
    /// The grants cover `capability`.
    pub fn covers(&self, capability: &str) -> (r: bool)
        ensures
            r == covers_spec(self@, capability@),
    {
        match self {
            Blessing::Shim { grants, .. } => {
                let mut i: usize = 0;
                while i < grants.len()
                    invariant
                        i <= grants@.len(),
                        covers_spec(self@, capability@) == views(grants@).contains(capability@),
                        forall|k: int| 0 <= k < i ==> (#[trigger] grants@[k])@ != capability@,
                    decreases grants@.len() - i,
                {
                    if str_eq(grants[i].as_str(), capability) {
                        assert(views(grants@)[i as int] == capability@);
                        assert(views(grants@).contains(capability@));
                        return true;
                    }
                    i = i + 1;
                }
                assert(!views(grants@).contains(capability@)) by {
                    if views(grants@).contains(capability@) {
                        let k = choose|k: int| 0 <= k < views(grants@).len() && views(grants@)[k] == capability@;
                        assert(grants@[k]@ == capability@);
                    }
                }
                false
            },
            _ => false,
        }
    }

    /// The context a finding under this blessing reports.
    pub fn to_context(&self) -> (r: Context)
        ensures
            r@ == context_spec(self@),
    {
        match self {
            Blessing::Unblessed => Context::Unblessed,
            Blessing::Marked { self_ty } => Context::MarkedDeterministic { self_ty: copy_str(self_ty.as_str()) },
            Blessing::Shim { trait_path, grants } => Context::GrantsMissing {
                trait_path: copy_str(trait_path.as_str()),
                grants: copy_strings(grants),
            },
        }
    }
}

/// What the compiler side knows of the item enclosing a body. `grants` are
/// the grants the configuration gives the trait (empty when it is no shim
/// trait); `marked_self` is the path of the implementing type when that type
/// is marked deterministic.
#[derive(Debug)]
pub enum Owner {
    /// Not an associated function.
    NotMethod,
    /// A default method body in a trait definition.
    TraitMethod { trait_path: String, grants: Vec<String> },
    /// A method of a trait implementation.
    TraitImplMethod { trait_path: String, grants: Vec<String>, marked_self: Option<String> },
    /// A method of an inherent implementation.
    InherentMethod,
}

pub ghost enum OwnerView {
    NotMethod,
    TraitMethod { trait_path: Seq<char>, grants: Seq<Seq<char>> },
    TraitImplMethod { trait_path: Seq<char>, grants: Seq<Seq<char>>, marked_self: Option<Seq<char>> },
    InherentMethod,
}

impl View for Owner {
    type V = OwnerView;

    open spec fn view(&self) -> OwnerView {
        match self {
            Owner::NotMethod => OwnerView::NotMethod,
            Owner::TraitMethod { trait_path, grants } => OwnerView::TraitMethod {
                trait_path: trait_path@,
                grants: views(grants@),
            },
            Owner::TraitImplMethod { trait_path, grants, marked_self } => OwnerView::TraitImplMethod {
                trait_path: trait_path@,
                grants: views(grants@),
                marked_self: match marked_self {
                    Some(t) => Some(t@),
                    None => None,
                },
            },
            Owner::InherentMethod => OwnerView::InherentMethod,
        }
    }
}

/// The blessing of an item: a shim trait's own default bodies and its
/// implementations carry its grants, except implementations for marked
/// types, which carry none; everything else is unblessed.
pub open spec fn blessing_spec(o: OwnerView) -> BlessingView {
    match o {
        OwnerView::TraitMethod { trait_path, grants } => if grants.len() == 0 {
            BlessingView::Unblessed
        } else {
            BlessingView::Shim { trait_path, grants }
        },
        OwnerView::TraitImplMethod { trait_path, grants, marked_self } => if grants.len() == 0 {
            BlessingView::Unblessed
        } else {
            match marked_self {
                Some(self_ty) => BlessingView::Marked { self_ty },
                None => BlessingView::Shim { trait_path, grants },
            }
        },
        _ => BlessingView::Unblessed,
    }
}

/// The blessing of the item enclosing a body.
pub fn blessing_of(owner: &Owner) -> (r: Blessing)
    ensures
        r@ == blessing_spec(owner@),
{
    match owner {
        Owner::TraitMethod { trait_path, grants } => {
            if grants.len() == 0 {
                return Blessing::Unblessed;
            }
            Blessing::Shim { trait_path: copy_str(trait_path.as_str()), grants: copy_strings(grants) }
        },
        Owner::TraitImplMethod { trait_path, grants, marked_self } => {
            if grants.len() == 0 {
                return Blessing::Unblessed;
            }
            match marked_self {
                Some(self_ty) => Blessing::Marked { self_ty: copy_str(self_ty.as_str()) },
                None => Blessing::Shim { trait_path: copy_str(trait_path.as_str()), grants: copy_strings(grants) },
            }
        },
        _ => Blessing::Unblessed,
    }
}

/// One call in a body: its span, the capability and first path of the call
/// sink it matches, and the path and capability of a sink type in its
/// generic arguments (looked for only when the configuration asks).
#[derive(Debug)]
pub struct ProdCall {
    pub span: u64,
    pub sink: Option<(String, String)>,
    pub type_sink: Option<(String, String)>,
}

pub ghost struct ProdCallView {
    pub span: u64,
    pub sink: Option<(Seq<char>, Seq<char>)>,
    pub type_sink: Option<(Seq<char>, Seq<char>)>,
}

impl View for ProdCall {
    type V = ProdCallView;

    open spec fn view(&self) -> ProdCallView {
        ProdCallView {
            span: self.span,
            sink: match self.sink {
                Some(p) => Some((p.0@, p.1@)),
                None => None,
            },
            type_sink: match self.type_sink {
                Some(p) => Some((p.0@, p.1@)),
                None => None,
            },
        }
    }
}

pub open spec fn call_views(v: Seq<ProdCall>) -> Seq<ProdCallView> {
    v.map_values(|x: ProdCall| x@)
}

/// The violations one call adds under blessing `b`, and the sink types
/// reported in the body after it: an uncovered call sink always, an
/// uncovered sink type once per body.
pub open spec fn call_step(b: BlessingView, body: u64, c: ProdCallView, reported: Seq<Seq<char>>) -> (Seq<ProdViolationView>, Seq<Seq<char>>) {
    let by_call = match c.sink {
        Some(sink) => if covers_spec(b, sink.0) {
            Seq::empty()
        } else {
            seq![ProdViolationView {
                kind: ProdSinkKind::Call,
                capability: sink.0,
                sink_path: sink.1,
                span: c.span,
                body,
                context: context_spec(b),
            }]
        },
        None => Seq::empty(),
    };
    match c.type_sink {
        Some(t) => if !covers_spec(b, t.1) && !reported.contains(t.0) {
            (by_call.push(ProdViolationView {
                kind: ProdSinkKind::Type,
                capability: t.1,
                sink_path: t.0,
                span: c.span,
                body,
                context: context_spec(b),
            }), reported.push(t.0))
        } else {
            (by_call, reported)
        },
        None => (by_call, reported),
    }
}

/// The violations of a body's calls, in order, and the sink types reported.
pub open spec fn body_spec(b: BlessingView, body: u64, calls: Seq<ProdCallView>) -> (Seq<ProdViolationView>, Seq<Seq<char>>)
    decreases calls.len(),
{
    if calls.len() == 0 {
        (Seq::empty(), Seq::empty())
    } else {
        let before = body_spec(b, body, calls.drop_last());
        let step = call_step(b, body, calls.last(), before.1);
        (before.0 + step.0, step.1)
    }
}

fn holds_str(v: &Vec<String>, s: &str) -> (r: bool)
    ensures
        r == views(v@).contains(s@),
{
    let mut i: usize = 0;
    while i < v.len()
        invariant
            i <= v@.len(),
            forall|k: int| 0 <= k < i ==> (#[trigger] v@[k])@ != s@,
        decreases v@.len() - i,
    {
        if str_eq(v[i].as_str(), s) {
            assert(views(v@)[i as int] == s@);
            assert(views(v@).contains(s@));
            return true;
        }
        i = i + 1;
    }
    assert(!views(v@).contains(s@)) by {
        if views(v@).contains(s@) {
            let k = choose|k: int| 0 <= k < views(v@).len() && views(v@)[k] == s@;
            assert(v@[k]@ == s@);
        }
    }
    false
}

/// Checks the calls of one body under the blessing of its enclosing item,
/// appending what it finds to `violations`.
pub fn check_body(blessing: &Blessing, body: u64, calls: &Vec<ProdCall>, violations: &mut Vec<ProdViolation>)
    ensures
        prod_views(final(violations)@) == prod_views(old(violations)@) + body_spec(blessing@, body, call_views(calls@)).0,
{
    let mut reported: Vec<String> = Vec::new();
    let mut i: usize = 0;
    let ghost start = prod_views(violations@);
    assert(call_views(calls@).take(0) =~= Seq::<ProdCallView>::empty());
    assert(start + Seq::<ProdViolationView>::empty() =~= start);
    while i < calls.len()
        invariant
            i <= calls@.len(),
            start == prod_views(old(violations)@),
            prod_views(violations@) == start + body_spec(blessing@, body, call_views(calls@).take(i as int)).0,
            views(reported@) == body_spec(blessing@, body, call_views(calls@).take(i as int)).1,
        decreases calls@.len() - i,
    {
        let ghost prefix = call_views(calls@).take(i as int);
        let ghost next = call_views(calls@).take(i + 1);
        assert(next.drop_last() =~= prefix);
        assert(next.last() == calls@[i as int]@);
        let ghost before = prod_views(violations@);
        let call = &calls[i];
        let ghost by_call = call_step(blessing@, body, call@, views(reported@)).0;
        if let Some(sink) = &call.sink {
            if !blessing.covers(sink.0.as_str()) {
                let v = ProdViolation {
                    kind: ProdSinkKind::Call,
                    capability: copy_str(sink.0.as_str()),
                    sink_path: copy_str(sink.1.as_str()),
                    span: call.span,
                    body,
                    context: blessing.to_context(),
                };
                violations.push(v);
                assert(prod_views(violations@) =~= before.push(v@));
            }
        }
        let ghost mid = prod_views(violations@);
        let ghost rep = views(reported@);
        assert(mid == before + match call@.sink {
            Some(sink) => if covers_spec(blessing@, sink.0) {
                Seq::<ProdViolationView>::empty()
            } else {
                seq![ProdViolationView {
                    kind: ProdSinkKind::Call,
                    capability: sink.0,
                    sink_path: sink.1,
                    span: call.span,
                    body,
                    context: context_spec(blessing@),
                }]
            },
            None => Seq::<ProdViolationView>::empty(),
        });
        if let Some(found) = &call.type_sink {
            if !blessing.covers(found.1.as_str()) && !holds_str(&reported, found.0.as_str()) {
                reported.push(copy_str(found.0.as_str()));
                assert(views(reported@) =~= rep.push(found.0@));
                let v = ProdViolation {
                    kind: ProdSinkKind::Type,
                    capability: copy_str(found.1.as_str()),
                    sink_path: copy_str(found.0.as_str()),
                    span: call.span,
                    body,
                    context: blessing.to_context(),
                };
                violations.push(v);
                assert(prod_views(violations@) =~= mid.push(v@));
            }
        }
        i = i + 1;
    }
    assert(call_views(calls@).take(i as int) =~= call_views(calls@));
}

/// Implementations for types marked deterministic receive no grants: every
/// capability is uncovered there.
pub proof fn law_marked_implementations_get_no_grants(o: OwnerView, capability: Seq<char>)
    requires
        o matches OwnerView::TraitImplMethod { marked_self: Some(_), .. },
    ensures
        !covers_spec(blessing_spec(o), capability),
{
}

/// A sink type is reported at most once per body: the types recorded for a
/// body's calls are distinct.
pub proof fn law_sink_types_reported_once_per_body(b: BlessingView, body: u64, calls: Seq<ProdCallView>)
    ensures
        body_spec(b, body, calls).1.no_duplicates(),
    decreases calls.len(),
{
    if calls.len() > 0 {
        law_sink_types_reported_once_per_body(b, body, calls.drop_last());
        let before = body_spec(b, body, calls.drop_last()).1;
        let after = body_spec(b, body, calls).1;
        if after != before {
            let t = calls.last().type_sink->0;
            assert(after == before.push(t.0));
            assert(!before.contains(t.0));
            assert forall|i: int, j: int| 0 <= i < after.len() && 0 <= j < after.len() && i != j implies after[i] != after[j] by {
                if i < before.len() && j < before.len() {
                } else if i == before.len() {
                    assert(after[j] == before[j]);
                } else {
                    assert(after[i] == before[i]);
                }
            }
        }
    }
}

} // verus!
