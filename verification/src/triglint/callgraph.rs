//! Sim mode: traversal of the monomorphized call graph from the simulation
//! roots.
//!
//! The worklist walks instances, each visited once. Every call edge is
//! classified, in order: sink match, then violation; body available, then
//! traverse; otherwise trusted or allow-listed, then skip; foreign, then an
//! ffi violation; anything else, then an unresolved hole in the guarantee.

use vstd::prelude::*;

use crate::text::{copy_str, str_eq};

verus! {

broadcast use vstd::string::group_string_axioms;

/// What kind of sink a violation matched.
#[derive(Debug, Clone, Copy, PartialEq, Eq, Structural)]
pub enum SinkKind {
    /// A call edge to a sink function (or unaudited foreign item).
    Call,
    /// A sink type appearing in a reachable instance's generic arguments.
    Type,
}

/// Why an edge cannot be seen through.
#[derive(Debug)]
pub enum UnresolvedKind {
    DynDispatch,
    FnPointer,
    MissingMir { def_path: String },
    InlineAsm,
}

pub ghost enum UnresolvedKindView {
    DynDispatch,
    FnPointer,
    MissingMir { def_path: Seq<char> },
    InlineAsm,
}

impl View for UnresolvedKind {
    type V = UnresolvedKindView;

    open spec fn view(&self) -> UnresolvedKindView {
        match self {
            UnresolvedKind::DynDispatch => UnresolvedKindView::DynDispatch,
            UnresolvedKind::FnPointer => UnresolvedKindView::FnPointer,
            UnresolvedKind::MissingMir { def_path } => UnresolvedKindView::MissingMir { def_path: def_path@ },
            UnresolvedKind::InlineAsm => UnresolvedKindView::InlineAsm,
        }
    }
}

/// One node of the traversal tree: an instance, the frame whose body calls
/// it (`None` for roots), the span of that call, and whether the span lies
/// in the local crate. `marked` is the marked type whose implementation the
/// instance belongs to, if any.
#[derive(Debug, Clone, Copy, PartialEq, Eq, Structural)]
pub struct Frame {
    pub instance: u64,
    pub parent: Option<usize>,
    pub call_span: Option<u64>,
    pub parent_local: bool,
    pub marked: Option<u64>,
}

/// A step of a root-to-sink witness chain: the instance, and the local span
/// of the edge leaving it, if any.
#[derive(Debug, Clone, Copy, PartialEq, Eq, Structural)]
pub struct ChainStep {
    pub instance: u64,
    pub call_span: Option<u64>,
    pub is_local: bool,
}

/// A reachable sink. `primary_span` is the deepest local call edge on the
/// chain; `None` anchors the report at the root's definition.
#[derive(Debug)]
pub struct Violation {
    pub kind: SinkKind,
    pub capability: String,
    pub sink_path: String,
    /// Root first; the sink itself is `sink_path`, not a chain step.
    pub chain: Vec<ChainStep>,
    pub primary_span: Option<u64>,
    /// A marked type on the chain: a broken determinism claim.
    pub broken_claim: Option<u64>,
}

pub ghost struct ViolationView {
    pub kind: SinkKind,
    pub capability: Seq<char>,
    pub sink_path: Seq<char>,
    pub chain: Seq<ChainStep>,
    pub primary_span: Option<u64>,
    pub broken_claim: Option<u64>,
}

impl View for Violation {
    type V = ViolationView;

    open spec fn view(&self) -> ViolationView {
        ViolationView {
            kind: self.kind,
            capability: self.capability@,
            sink_path: self.sink_path@,
            chain: self.chain@,
            primary_span: self.primary_span,
            broken_claim: self.broken_claim,
        }
    }
}

/// An edge the traversal cannot see through, with the root it hangs from.
#[derive(Debug)]
pub struct Unresolved {
    pub kind: UnresolvedKind,
    pub primary_span: Option<u64>,
    pub root: u64,
}

pub ghost struct UnresolvedView {
    pub kind: UnresolvedKindView,
    pub primary_span: Option<u64>,
    pub root: u64,
}

impl View for Unresolved {
    type V = UnresolvedView;

    open spec fn view(&self) -> UnresolvedView {
        UnresolvedView { kind: self.kind@, primary_span: self.primary_span, root: self.root }
    }
}

/// Every parent comes before its child.
pub open spec fn frames_wf(frames: Seq<Frame>) -> bool {
    forall|i: int| 0 <= i < frames.len() ==> match (#[trigger] frames[i]).parent {
        Some(p) => p < i,
        None => true,
    }
}

/// The root of the tree `idx` hangs in.
pub open spec fn root_spec(frames: Seq<Frame>, idx: int) -> int
    decreases idx,
{
    if 0 <= idx < frames.len() {
        match frames[idx].parent {
            Some(p) => if p < idx { root_spec(frames, p as int) } else { idx },
            None => idx,
        }
    } else {
        idx
    }
}

/// The chain from the root down to `idx`, root first; `edge` is the local
/// span of the edge leaving `idx`.
pub open spec fn chain_spec(frames: Seq<Frame>, idx: int, edge: Option<u64>) -> Seq<ChainStep>
    decreases idx,
{
    if 0 <= idx < frames.len() {
        let f = frames[idx];
        let step = ChainStep { instance: f.instance, call_span: edge, is_local: edge is Some };
        let up = if f.parent_local { f.call_span } else { None };
        match f.parent {
            Some(p) => if p < idx { chain_spec(frames, p as int, up).push(step) } else { seq![step] },
            None => seq![step],
        }
    } else {
        Seq::empty()
    }
}

/// The deepest local call edge on a chain.
pub open spec fn deepest_local(chain: Seq<ChainStep>) -> Option<u64>
    decreases chain.len(),
{
    if chain.len() == 0 {
        None
    } else if chain.last().is_local && chain.last().call_span is Some {
        chain.last().call_span
    } else {
        deepest_local(chain.drop_last())
    }
}

/// The nearest marked type from `idx` up to its root.
pub open spec fn claim_spec(frames: Seq<Frame>, idx: int) -> Option<u64>
    decreases idx,
{
    if 0 <= idx < frames.len() {
        if frames[idx].marked is Some {
            frames[idx].marked
        } else {
            match frames[idx].parent {
                Some(p) => if p < idx { claim_spec(frames, p as int) } else { None },
                None => None,
            }
        }
    } else {
        None
    }
}

/// `instance` has a frame.
pub open spec fn visited(frames: Seq<Frame>, instance: u64) -> bool {
    exists|k: int| 0 <= k < frames.len() && (#[trigger] frames[k]).instance == instance
}

/// The span given for an edge, kept only when it lies in local code.
pub open spec fn local_edge(span: u64, local: bool) -> Option<u64> {
    if local { Some(span) } else { None }
}


/// What the compiler side knows of a resolved callee. `trusted` means its
/// crate is trusted or its path is allowed opaque; `path` is its first
/// rendered def-path.
#[derive(Debug)]
pub struct Callee {
    pub instance: u64,
    pub marked: Option<u64>,
    pub path: String,
    /// The capability of the call sink the callee's paths match.
    pub sink: Option<String>,
    /// A sink type in the callee's generic arguments: its path and capability.
    pub type_sink: Option<(String, String)>,
    pub kind: CalleeKind,
    pub has_body: bool,
    pub trusted: bool,
    pub foreign: bool,
}

/// The shape of a resolved instance.
#[derive(Debug, Clone, Copy, PartialEq, Eq, Structural)]
pub enum CalleeKind {
    /// Dispatch through a vtable.
    Virtual,
    Intrinsic,
    Other,
}

pub ghost struct CalleeView {
    pub instance: u64,
    pub marked: Option<u64>,
    pub path: Seq<char>,
    pub sink: Option<Seq<char>>,
    pub type_sink: Option<(Seq<char>, Seq<char>)>,
    pub kind: CalleeKind,
    pub has_body: bool,
    pub trusted: bool,
    pub foreign: bool,
}

impl View for Callee {
    type V = CalleeView;

    open spec fn view(&self) -> CalleeView {
        CalleeView {
            instance: self.instance,
            marked: self.marked,
            path: self.path@,
            sink: match self.sink {
                Some(c) => Some(c@),
                None => None,
            },
            type_sink: match self.type_sink {
                Some(t) => Some((t.0@, t.1@)),
                None => None,
            },
            kind: self.kind,
            has_body: self.has_body,
            trusted: self.trusted,
            foreign: self.foreign,
        }
    }
}

/// One edge leaving a body: a terminator the traversal has a rule for.
#[derive(Debug)]
pub enum Edge {
    /// A call or a drop resolved to an instance.
    Call(Callee),
    /// A call whose instance could not be determined.
    NoInstance { def_path: String },
    /// A call whose resolution failed outright.
    ResolutionError,
    FnPointer,
    InlineAsm,
}

pub ghost enum EdgeView {
    Call(CalleeView),
    NoInstance { def_path: Seq<char> },
    ResolutionError,
    FnPointer,
    InlineAsm,
}

impl View for Edge {
    type V = EdgeView;

    open spec fn view(&self) -> EdgeView {
        match self {
            Edge::Call(c) => EdgeView::Call(c@),
            Edge::NoInstance { def_path } => EdgeView::NoInstance { def_path: def_path@ },
            Edge::ResolutionError => EdgeView::ResolutionError,
            Edge::FnPointer => EdgeView::FnPointer,
            Edge::InlineAsm => EdgeView::InlineAsm,
        }
    }
}

/// The traversal's state.
pub ghost struct TraversalView {
    pub frames: Seq<Frame>,
    pub worklist: Seq<usize>,
    pub reported_violations: Seq<(usize, Seq<char>)>,
    pub reported_unresolved: Seq<u64>,
    pub violations: Seq<ViolationView>,
    pub unresolved: Seq<UnresolvedView>,
}

/// The traversal from the simulation roots and what it found.
pub struct Analysis {
    frames: Vec<Frame>,
    worklist: Vec<usize>,
    reported_violations: Vec<(usize, String)>,
    reported_unresolved: Vec<u64>,
    pub violations: Vec<Violation>,
    pub unresolved: Vec<Unresolved>,
}

pub open spec fn violation_views(v: Seq<Violation>) -> Seq<ViolationView> {
    v.map_values(|x: Violation| x@)
}

pub open spec fn unresolved_views(v: Seq<Unresolved>) -> Seq<UnresolvedView> {
    v.map_values(|x: Unresolved| x@)
}

impl View for Analysis {
    type V = TraversalView;

    closed spec fn view(&self) -> TraversalView {
        TraversalView {
            frames: self.frames@,
            worklist: self.worklist@,
            reported_violations: self.reported_violations@.map_values(|p: (usize, String)| (p.0, p.1@)),
            reported_unresolved: self.reported_unresolved@,
            violations: violation_views(self.violations@),
            unresolved: unresolved_views(self.unresolved@),
        }
    }
}

/// The state's invariant: parents come first, worklist entries and reported
/// roots are frames, no instance has two frames, and each violation is
/// recorded with its root under its sink path, no pair twice.
pub open spec fn traversal_wf(s: TraversalView) -> bool {
    &&& frames_wf(s.frames)
    &&& forall|k: int| 0 <= k < s.worklist.len() ==> #[trigger] s.worklist[k] < s.frames.len()
    &&& forall|i: int, j: int| 0 <= i < j < s.frames.len() ==> s.frames[i].instance != s.frames[j].instance
    &&& s.violations.len() == s.reported_violations.len()
    &&& forall|k: int| 0 <= k < s.reported_violations.len() ==> {
        &&& (#[trigger] s.reported_violations[k]).0 < s.frames.len()
        &&& s.violations[k].sink_path == s.reported_violations[k].1
        &&& s.frames[s.reported_violations[k].0 as int].parent is None
        &&& s.violations[k].chain.len() > 0
        &&& s.violations[k].chain[0].instance == s.frames[s.reported_violations[k].0 as int].instance
    }
    &&& forall|i: int, j: int| 0 <= i < j < s.reported_violations.len() ==> s.reported_violations[i] != s.reported_violations[j]
    &&& forall|i: int, j: int| 0 <= i < j < s.reported_unresolved.len() ==> s.reported_unresolved[i] != s.reported_unresolved[j]
}

/// The empty traversal.
pub open spec fn empty_traversal() -> TraversalView {
    TraversalView {
        frames: Seq::empty(),
        worklist: Seq::empty(),
        reported_violations: Seq::empty(),
        reported_unresolved: Seq::empty(),
        violations: Seq::empty(),
        unresolved: Seq::empty(),
    }
}

/// Queues `instance` unless it already has a frame.
pub open spec fn enqueue_spec(
    s: TraversalView,
    instance: u64,
    marked: Option<u64>,
    parent: Option<usize>,
    call_span: Option<u64>,
    parent_local: bool,
) -> TraversalView {
    if visited(s.frames, instance) {
        s
    } else {
        TraversalView {
            frames: s.frames.push(Frame { instance, parent, call_span, parent_local, marked }),
            worklist: s.worklist.push(s.frames.len() as usize),
            ..s
        }
    }
}

/// `(root, path)` was reported already.
pub open spec fn reported_pair(s: TraversalView, root: usize, path: Seq<char>) -> bool {
    exists|k: int| 0 <= k < s.reported_violations.len() && #[trigger] s.reported_violations[k] == (root, path)
}

/// Records a sink reached through an edge of `caller`, once per root and
/// sink path.
pub open spec fn violation_spec(
    s: TraversalView,
    caller: usize,
    caller_local: bool,
    kind: SinkKind,
    capability: Seq<char>,
    path: Seq<char>,
    span: u64,
) -> TraversalView {
    let root = root_spec(s.frames, caller as int) as usize;
    if reported_pair(s, root, path) {
        s
    } else {
        let chain = chain_spec(s.frames, caller as int, local_edge(span, caller_local));
        TraversalView {
            reported_violations: s.reported_violations.push((root, path)),
            violations: s.violations.push(ViolationView {
                kind,
                capability,
                sink_path: path,
                chain,
                primary_span: deepest_local(chain),
                broken_claim: claim_spec(s.frames, caller as int),
            }),
            ..s
        }
    }
}

/// Records an edge of `caller` that cannot be seen through, once per span.
pub open spec fn unresolved_spec(
    s: TraversalView,
    caller: usize,
    kind: UnresolvedKindView,
    span: u64,
    caller_local: bool,
) -> TraversalView {
    if s.reported_unresolved.contains(span) {
        s
    } else {
        let chain = chain_spec(s.frames, caller as int, local_edge(span, caller_local));
        TraversalView {
            reported_unresolved: s.reported_unresolved.push(span),
            unresolved: s.unresolved.push(UnresolvedView {
                kind,
                primary_span: deepest_local(chain),
                root: s.frames[root_spec(s.frames, caller as int)].instance,
            }),
            ..s
        }
    }
}

/// The classification of an edge of `caller` into a resolved callee: a sink
/// match first, so trusting a crate never masks a sink; then a sink type in
/// the generic arguments (the callee is still classified); dyn dispatch is
/// a hole, an intrinsic is nothing; a body is traversed; an opaque callee is
/// skipped when trusted (or when the caller is), else it is an ffi sink when
/// foreign and a hole otherwise.
pub open spec fn callee_spec(
    s: TraversalView,
    caller: usize,
    caller_local: bool,
    caller_trusted: bool,
    c: CalleeView,
    span: u64,
) -> TraversalView {
    match c.sink {
        Some(capability) => violation_spec(s, caller, caller_local, SinkKind::Call, capability, c.path, span),
        None => {
            let s1 = match c.type_sink {
                Some(t) => violation_spec(s, caller, caller_local, SinkKind::Type, t.1, t.0, span),
                None => s,
            };
            match c.kind {
                CalleeKind::Virtual => if caller_trusted {
                    s1
                } else {
                    unresolved_spec(s1, caller, UnresolvedKindView::DynDispatch, span, caller_local)
                },
                CalleeKind::Intrinsic => s1,
                CalleeKind::Other => if c.has_body {
                    enqueue_spec(s1, c.instance, c.marked, Some(caller), Some(span), caller_local)
                } else if c.trusted || caller_trusted {
                    s1
                } else if c.foreign {
                    violation_spec(s1, caller, caller_local, SinkKind::Call, "ffi"@, c.path, span)
                } else {
                    unresolved_spec(s1, caller, UnresolvedKindView::MissingMir { def_path: c.path }, span, caller_local)
                },
            }
        },
    }
}

/// The effect of one edge of `caller`'s body. Holes are not reported inside
/// trusted callers.
pub open spec fn edge_spec(
    s: TraversalView,
    caller: usize,
    caller_local: bool,
    caller_trusted: bool,
    e: EdgeView,
    span: u64,
) -> TraversalView {
    match e {
        EdgeView::Call(c) => callee_spec(s, caller, caller_local, caller_trusted, c, span),
        EdgeView::NoInstance { def_path } => if caller_trusted {
            s
        } else {
            unresolved_spec(s, caller, UnresolvedKindView::MissingMir { def_path }, span, caller_local)
        },
        EdgeView::ResolutionError => s,
        EdgeView::FnPointer => if caller_trusted {
            s
        } else {
            unresolved_spec(s, caller, UnresolvedKindView::FnPointer, span, caller_local)
        },
        EdgeView::InlineAsm => if caller_trusted {
            s
        } else {
            unresolved_spec(s, caller, UnresolvedKindView::InlineAsm, span, caller_local)
        },
    }
}


impl Analysis {
    /// The invariant every traversal keeps.
    pub closed spec fn wf(&self) -> bool {
        traversal_wf(self@)
    }

    /// A traversal with nothing queued and nothing found.
    pub fn new() -> (r: Analysis)
        ensures
            r.wf(),
            r@ == empty_traversal(),
    {
        let r = Analysis {
            frames: Vec::new(),
            worklist: Vec::new(),
            reported_violations: Vec::new(),
            reported_unresolved: Vec::new(),
            violations: Vec::new(),
            unresolved: Vec::new(),
        };
        assert(r@.reported_violations =~= Seq::<(usize, Seq<char>)>::empty());
        assert(r@.violations =~= Seq::<ViolationView>::empty());
        assert(r@.unresolved =~= Seq::<UnresolvedView>::empty());
        r
    }

    fn is_visited(&self, instance: u64) -> (r: bool)
        ensures
            r == visited(self@.frames, instance),
    {
        let mut k: usize = 0;
        while k < self.frames.len()
            invariant
                k <= self.frames@.len(),
                forall|j: int| 0 <= j < k ==> (#[trigger] self.frames@[j]).instance != instance,
            decreases self.frames@.len() - k,
        {
            if self.frames[k].instance == instance {
                return true;
            }
            k = k + 1;
        }
        false
    }

    fn enqueue(&mut self, instance: u64, marked: Option<u64>, parent: Option<usize>, call_span: Option<u64>, parent_local: bool)
        requires
            old(self).wf(),
            parent matches Some(p) ==> p < old(self)@.frames.len(),
        ensures
            final(self).wf(),
            final(self)@ == enqueue_spec(old(self)@, instance, marked, parent, call_span, parent_local),
    {
        if self.is_visited(instance) {
            return;
        }
        let idx = self.frames.len();
        self.frames.push(Frame { instance, parent, call_span, parent_local, marked });
        self.worklist.push(idx);
        let ghost s = self@;
        assert(s.frames =~= old(self)@.frames.push(Frame { instance, parent, call_span, parent_local, marked }));
        assert(s.worklist =~= old(self)@.worklist.push(idx));
        assert forall|i: int, j: int| 0 <= i < j < s.frames.len() implies s.frames[i].instance != s.frames[j].instance by {
            if j == idx {
                assert(old(self)@.frames[i] == s.frames[i]);
            }
        }
        assert forall|i: int| 0 <= i < s.frames.len() implies match (#[trigger] s.frames[i]).parent {
            Some(p) => p < i,
            None => true,
        } by {
            if i < idx {
                assert(old(self)@.frames[i] == s.frames[i]);
            }
        }
        assert forall|k: int| 0 <= k < s.worklist.len() implies #[trigger] s.worklist[k] < s.frames.len() by {
            if k < old(self)@.worklist.len() {
                assert(old(self)@.worklist[k] == s.worklist[k]);
            }
        }
        assert(s.reported_violations == old(self)@.reported_violations);
        assert(s.violations == old(self)@.violations);
        assert(s.reported_unresolved == old(self)@.reported_unresolved);
        assert forall|k: int| 0 <= k < s.reported_violations.len() implies
            s.frames[(#[trigger] s.reported_violations[k]).0 as int] == old(self)@.frames[s.reported_violations[k].0 as int] by {
            assert(old(self)@.reported_violations[k].0 < old(self)@.frames.len());
        }
        assert(traversal_wf(s));
    }

    /// Queues a simulation root.
    pub fn add_root(&mut self, instance: u64, marked: Option<u64>)
        requires
            old(self).wf(),
        ensures
            final(self).wf(),
            final(self)@ == enqueue_spec(old(self)@, instance, marked, None, None, false),
    {
        self.enqueue(instance, marked, None, None, false);
    }

    /// Takes the most recently queued frame, with its instance, for the
    /// compiler side to visit.
    pub fn next_frame(&mut self) -> (r: Option<(usize, u64)>)
        requires
            old(self).wf(),
        ensures
            final(self).wf(),
            match r {
                None => old(self)@.worklist.len() == 0 && final(self)@ == old(self)@,
                Some(next) => {
                    &&& old(self)@.worklist.len() > 0
                    &&& next.0 == old(self)@.worklist.last()
                    &&& next.0 < final(self)@.frames.len()
                    &&& next.1 == old(self)@.frames[next.0 as int].instance
                    &&& final(self)@ == (TraversalView { worklist: old(self)@.worklist.drop_last(), ..old(self)@ })
                },
            },
    {
        match self.worklist.pop() {
            None => None,
            Some(idx) => {
                assert(self@.worklist =~= old(self)@.worklist.drop_last());
                Some((idx, self.frames[idx].instance))
            },
        }
    }

    /// The root of the tree frame `idx` hangs in.
    fn root_of(&self, idx: usize) -> (r: usize)
        requires
            self.wf(),
            idx < self@.frames.len(),
        ensures
            r == root_spec(self@.frames, idx as int),
            r < self@.frames.len(),
    {
        let mut i = idx;
        while self.frames[i].parent.is_some()
            invariant
                self.wf(),
                i < self@.frames.len(),
                root_spec(self@.frames, i as int) == root_spec(self@.frames, idx as int),
            decreases i,
        {
            let p = self.frames[i].parent.unwrap();
            assert(frames_wf(self@.frames) && self@.frames[i as int].parent == Some(p));
            i = p;
        }
        i
    }

    /// The chain from the root down to frame `idx`; the final edge span is
    /// kept only when it is local.
    fn chain_to(&self, idx: usize, final_span: Option<u64>, final_local: bool) -> (r: Vec<ChainStep>)
        requires
            self.wf(),
            idx < self@.frames.len(),
        ensures
            r@ == chain_spec(self@.frames, idx as int, if final_local { final_span } else { None }),
    {
        let ghost frames = self@.frames;
        let ghost first = if final_local { final_span } else { None };
        let mut out: Vec<ChainStep> = Vec::new();
        let mut cursor = idx;
        let mut edge: Option<u64> = if final_local { final_span } else { None };
        loop
            invariant
                self.wf(),
                frames == self@.frames,
                first == (if final_local { final_span } else { None }),
                idx < frames.len(),
                cursor < frames.len(),
                chain_spec(frames, idx as int, first) == chain_spec(frames, cursor as int, edge) + out@,
            decreases cursor,
        {
            let frame = self.frames[cursor];
            let step = ChainStep { instance: frame.instance, call_span: edge, is_local: edge.is_some() };
            let ghost before = out@;
            out.insert(0, step);
            assert(out@ =~= seq![step] + before);
            match frame.parent {
                Some(p) => {
                    assert(frames_wf(frames) && frames[cursor as int].parent == Some(p));
                    let up = if frame.parent_local { frame.call_span } else { None };
                    assert(chain_spec(frames, cursor as int, edge) == chain_spec(frames, p as int, up).push(step));
                    assert(chain_spec(frames, p as int, up).push(step) + before =~= chain_spec(frames, p as int, up) + out@);
                    edge = up;
                    cursor = p;
                },
                None => {
                    assert(chain_spec(frames, cursor as int, edge) == seq![step]);
                    assert(seq![step] + before =~= out@);
                    assert(chain_spec(frames, idx as int, first) =~= out@);
                    return out;
                },
            }
        }
    }

    /// The nearest marked type from frame `idx` up to its root.
    fn broken_claim_on(&self, idx: usize) -> (r: Option<u64>)
        requires
            self.wf(),
            idx < self@.frames.len(),
        ensures
            r == claim_spec(self@.frames, idx as int),
    {
        let mut i = idx;
        loop
            invariant
                self.wf(),
                i < self@.frames.len(),
                claim_spec(self@.frames, i as int) == claim_spec(self@.frames, idx as int),
            decreases i,
        {
            let frame = self.frames[i];
            if frame.marked.is_some() {
                return frame.marked;
            }
            match frame.parent {
                Some(p) => {
                    assert(frames_wf(self@.frames) && self@.frames[i as int].parent == Some(p));
                    i = p;
                },
                None => return None,
            }
        }
    }
}

impl Analysis {
    /// Records a sink reached through an edge of `caller_idx`, once per root
    /// and sink path.
    fn push_violation(
        &mut self,
        caller_idx: usize,
        caller_local: bool,
        kind: SinkKind,
        capability: &str,
        sink_path: &str,
        span: u64,
    )
        requires
            old(self).wf(),
            caller_idx < old(self)@.frames.len(),
        ensures
            final(self).wf(),
            final(self)@ == violation_spec(old(self)@, caller_idx, caller_local, kind, capability@, sink_path@, span),
    {
        let root = self.root_of(caller_idx);
        let ghost s = self@;
        let mut k: usize = 0;
        while k < self.reported_violations.len()
            invariant
                self@ == s,
                s == old(self)@,
                traversal_wf(s),
                root == root_spec(s.frames, caller_idx as int),
                k <= s.reported_violations.len(),
                forall|j: int| 0 <= j < k ==> #[trigger] s.reported_violations[j] != (root, sink_path@),
            decreases s.reported_violations.len() - k,
        {
            let entry = &self.reported_violations[k];
            assert(s.reported_violations[k as int] == (entry.0, entry.1@));
            if entry.0 == root && str_eq(entry.1.as_str(), sink_path) {
                assert(reported_pair(s, root, sink_path@));
                return;
            }
            k = k + 1;
        }
        assert(!reported_pair(s, root, sink_path@));
        let chain = self.chain_to(caller_idx, Some(span), caller_local);
        let primary_span = deepest_local_span(&chain);
        let broken_claim = self.broken_claim_on(caller_idx);
        let ghost chain_view = chain@;
        self.reported_violations.push((root, copy_str(sink_path)));
        let v = Violation {
            kind,
            capability: copy_str(capability),
            sink_path: copy_str(sink_path),
            chain,
            primary_span,
            broken_claim,
        };
        self.violations.push(v);
        let ghost t = self@;
        assert(t.frames == s.frames && t.worklist == s.worklist);
        assert(t.reported_unresolved == s.reported_unresolved && t.unresolved == s.unresolved);
        assert(t.reported_violations =~= s.reported_violations.push((root, sink_path@)));
        assert(t.violations =~= s.violations.push(ViolationView {
            kind,
            capability: capability@,
            sink_path: sink_path@,
            chain: chain_view,
            primary_span,
            broken_claim,
        }));
        proof {
            law_chain_runs_from_root(s.frames, caller_idx as int, local_edge(span, caller_local));
            lemma_root_has_no_parent(s.frames, caller_idx as int);
        }
        assert forall|k2: int| 0 <= k2 < t.reported_violations.len() implies {
            &&& (#[trigger] t.reported_violations[k2]).0 < t.frames.len()
            &&& t.violations[k2].sink_path == t.reported_violations[k2].1
            &&& t.frames[t.reported_violations[k2].0 as int].parent is None
            &&& t.violations[k2].chain.len() > 0
            &&& t.violations[k2].chain[0].instance == t.frames[t.reported_violations[k2].0 as int].instance
        } by {
            if k2 < s.reported_violations.len() {
                assert(t.reported_violations[k2] == s.reported_violations[k2]);
                assert(t.violations[k2] == s.violations[k2]);
            }
        }
        assert forall|i: int, j: int| 0 <= i < j < t.reported_violations.len() implies t.reported_violations[i] != t.reported_violations[j] by {
            if j == s.reported_violations.len() {
                assert(t.reported_violations[i] == s.reported_violations[i]);
            } else {
                assert(t.reported_violations[i] == s.reported_violations[i]);
                assert(t.reported_violations[j] == s.reported_violations[j]);
            }
        }
    }

    /// Records an edge of `caller_idx` that cannot be seen through, once per
    /// span.
    fn push_unresolved(&mut self, caller_idx: usize, kind: UnresolvedKind, span: u64, caller_local: bool)
        requires
            old(self).wf(),
            caller_idx < old(self)@.frames.len(),
        ensures
            final(self).wf(),
            final(self)@ == unresolved_spec(old(self)@, caller_idx, kind@, span, caller_local),
    {
        let ghost s = self@;
        let mut k: usize = 0;
        while k < self.reported_unresolved.len()
            invariant
                self@ == s,
                s == old(self)@,
                traversal_wf(s),
                k <= s.reported_unresolved.len(),
                forall|j: int| 0 <= j < k ==> #[trigger] s.reported_unresolved[j] != span,
            decreases s.reported_unresolved.len() - k,
        {
            if self.reported_unresolved[k] == span {
                assert(s.reported_unresolved.contains(span));
                return;
            }
            k = k + 1;
        }
        assert(!s.reported_unresolved.contains(span));
        let chain = self.chain_to(caller_idx, Some(span), caller_local);
        let primary_span = deepest_local_span(&chain);
        let root_idx = self.root_of(caller_idx);
        let root = self.frames[root_idx].instance;
        let ghost kind_view = kind@;
        self.reported_unresolved.push(span);
        self.unresolved.push(Unresolved { kind, primary_span, root });
        let ghost t = self@;
        assert(t.frames == s.frames && t.worklist == s.worklist);
        assert(t.reported_violations == s.reported_violations && t.violations == s.violations);
        assert(t.reported_unresolved =~= s.reported_unresolved.push(span));
        assert(t.unresolved =~= s.unresolved.push(UnresolvedView { kind: kind_view, primary_span, root }));
        assert forall|i: int, j: int| 0 <= i < j < t.reported_unresolved.len() implies t.reported_unresolved[i] != t.reported_unresolved[j] by {
            assert(t.reported_unresolved[i] == s.reported_unresolved[i]);
            if j < s.reported_unresolved.len() {
                assert(t.reported_unresolved[j] == s.reported_unresolved[j]);
            }
        }
    }

    /// Classifies an edge of frame `caller_idx` into a resolved callee; see
    /// [`callee_spec`] for the order.
    pub fn handle_callee(&mut self, caller_idx: usize, caller_local: bool, caller_trusted: bool, callee: &Callee, span: u64)
        requires
            old(self).wf(),
            caller_idx < old(self)@.frames.len(),
        ensures
            final(self).wf(),
            final(self)@ == callee_spec(old(self)@, caller_idx, caller_local, caller_trusted, callee@, span),
    {
        if let Some(capability) = &callee.sink {
            self.push_violation(caller_idx, caller_local, SinkKind::Call, capability.as_str(), callee.path.as_str(), span);
            return;
        }
        if let Some(found) = &callee.type_sink {
            self.push_violation(caller_idx, caller_local, SinkKind::Type, found.1.as_str(), found.0.as_str(), span);
        }
        match callee.kind {
            CalleeKind::Virtual => {
                if !caller_trusted {
                    self.push_unresolved(caller_idx, UnresolvedKind::DynDispatch, span, caller_local);
                }
                return;
            },
            CalleeKind::Intrinsic => {
                return;
            },
            CalleeKind::Other => {},
        }
        if callee.has_body {
            self.enqueue(callee.instance, callee.marked, Some(caller_idx), Some(span), caller_local);
            return;
        }
        if callee.trusted || caller_trusted {
            return;
        }
        if callee.foreign {
            self.push_violation(caller_idx, caller_local, SinkKind::Call, "ffi", callee.path.as_str(), span);
        } else {
            let def_path = copy_str(callee.path.as_str());
            self.push_unresolved(caller_idx, UnresolvedKind::MissingMir { def_path }, span, caller_local);
        }
    }

    /// Applies one edge of frame `caller_idx`'s body.
    pub fn visit_edge(&mut self, caller_idx: usize, caller_local: bool, caller_trusted: bool, edge: &Edge, span: u64)
        requires
            old(self).wf(),
            caller_idx < old(self)@.frames.len(),
        ensures
            final(self).wf(),
            final(self)@ == edge_spec(old(self)@, caller_idx, caller_local, caller_trusted, edge@, span),
    {
        match edge {
            Edge::Call(callee) => self.handle_callee(caller_idx, caller_local, caller_trusted, callee, span),
            Edge::NoInstance { def_path } => {
                if !caller_trusted {
                    let path = copy_str(def_path.as_str());
                    self.push_unresolved(caller_idx, UnresolvedKind::MissingMir { def_path: path }, span, caller_local);
                }
            },
            Edge::ResolutionError => {},
            Edge::FnPointer => {
                if !caller_trusted {
                    self.push_unresolved(caller_idx, UnresolvedKind::FnPointer, span, caller_local);
                }
            },
            Edge::InlineAsm => {
                if !caller_trusted {
                    self.push_unresolved(caller_idx, UnresolvedKind::InlineAsm, span, caller_local);
                }
            },
        }
    }
}

/// The deepest local call edge on a chain.
fn deepest_local_span(chain: &Vec<ChainStep>) -> (r: Option<u64>)
    ensures
        r == deepest_local(chain@),
{
    let mut i = chain.len();
    assert(chain@.take(i as int) =~= chain@);
    while i > 0
        invariant
            i <= chain@.len(),
            deepest_local(chain@) == deepest_local(chain@.take(i as int)),
        decreases i,
    {
        let step = chain[i - 1];
        assert(chain@.take(i as int).last() == step);
        assert(chain@.take(i as int).drop_last() =~= chain@.take(i - 1));
        if step.is_local && step.call_span.is_some() {
            return step.call_span;
        }
        i = i - 1;
    }
    assert(chain@.take(0) =~= Seq::<ChainStep>::empty());
    None
}

/// A declared sink is reported whatever the trust of its crate or of the
/// caller: fencing or trusting a crate never masks a sink in it.
pub proof fn law_sinks_are_never_masked(
    s: TraversalView,
    caller: usize,
    caller_local: bool,
    caller_trusted: bool,
    c: CalleeView,
    span: u64,
)
    requires
        c.sink is Some,
    ensures
        callee_spec(s, caller, caller_local, caller_trusted, c, span)
            == violation_spec(s, caller, caller_local, SinkKind::Call, c.sink->0, c.path, span),
{
}

/// A witness chain runs from the root of the frame's tree down to the frame
/// itself, and its last step carries the edge it was asked for.
pub proof fn law_chain_runs_from_root(frames: Seq<Frame>, idx: int, edge: Option<u64>)
    requires
        frames_wf(frames),
        0 <= idx < frames.len(),
    ensures
        chain_spec(frames, idx, edge).len() > 0,
        chain_spec(frames, idx, edge)[0].instance == frames[root_spec(frames, idx)].instance,
        chain_spec(frames, idx, edge).last().instance == frames[idx].instance,
        chain_spec(frames, idx, edge).last().call_span == edge,
    decreases idx,
{
    let f = frames[idx];
    match f.parent {
        Some(p) => {
            assert(p < idx);
            let up = if f.parent_local { f.call_span } else { None };
            law_chain_runs_from_root(frames, p as int, up);
        },
        None => {},
    }
}

/// Following parents from any frame ends at a frame without one.
pub proof fn lemma_root_has_no_parent(frames: Seq<Frame>, idx: int)
    requires
        frames_wf(frames),
        0 <= idx < frames.len(),
    ensures
        0 <= root_spec(frames, idx) <= idx,
        frames[root_spec(frames, idx)].parent is None,
    decreases idx,
{
    match frames[idx].parent {
        Some(p) => {
            assert(p < idx);
            lemma_root_has_no_parent(frames, p as int);
        },
        None => {},
    }
}

/// Every reported violation starts its witness chain at the root it was
/// reported for, and that root is a root: a frame without a parent.
pub proof fn law_violation_chains_start_at_their_root(s: TraversalView, k: int)
    requires
        traversal_wf(s),
        0 <= k < s.violations.len(),
    ensures
        s.violations[k].chain.len() > 0,
        s.violations[k].chain[0].instance == s.frames[s.reported_violations[k].0 as int].instance,
        s.frames[s.reported_violations[k].0 as int].parent is None,
{
    assert(s.reported_violations[k].0 < s.frames.len());
}

/// Frame `a` is `idx` or one of its ancestors: following parents from
/// `idx` reaches it.
pub open spec fn up_from(frames: Seq<Frame>, idx: int, a: int) -> bool
    decreases idx,
{
    0 <= idx < frames.len() && (a == idx || match frames[idx].parent {
        Some(p) => p < idx && up_from(frames, p as int, a),
        None => false,
    })
}

/// The broken claim a violation carries is the marked type of the nearest
/// frame from the caller up to its root that belongs to a marked type, and
/// there is none exactly when no frame on that way is marked.
pub proof fn law_broken_claim_is_the_nearest_marked_frame(frames: Seq<Frame>, idx: int)
    requires
        frames_wf(frames),
        0 <= idx < frames.len(),
    ensures
        claim_spec(frames, idx) is None <==> forall|a: int| #[trigger] up_from(frames, idx, a) ==> frames[a].marked is None,
        claim_spec(frames, idx) matches Some(m) ==> exists|a: int| {
            &&& #[trigger] up_from(frames, idx, a)
            &&& frames[a].marked == Some(m)
            &&& forall|b: int| #[trigger] up_from(frames, idx, b) && up_from(frames, b, a) && b != a ==> frames[b].marked is None
        },
    decreases idx,
{
    if frames[idx].marked is Some {
        assert(up_from(frames, idx, idx));
        assert forall|b: int| #[trigger] up_from(frames, idx, b) && up_from(frames, b, idx) && b != idx implies frames[b].marked is None by {
            lemma_up_from_below(frames, idx, b);
            lemma_up_from_below(frames, b, idx);
        }
    } else {
        match frames[idx].parent {
            Some(p) => {
                assert(p < idx);
                law_broken_claim_is_the_nearest_marked_frame(frames, p as int);
                assert forall|a: int| #[trigger] up_from(frames, idx, a) implies a == idx || up_from(frames, p as int, a) by {}
                if claim_spec(frames, p as int) is None {
                    assert forall|a: int| #[trigger] up_from(frames, idx, a) implies frames[a].marked is None by {
                        if a != idx {
                            assert(up_from(frames, p as int, a));
                        }
                    }
                } else {
                    let m = claim_spec(frames, p as int)->Some_0;
                    let a = choose|a: int| {
                        &&& #[trigger] up_from(frames, p as int, a)
                        &&& frames[a].marked == Some(m)
                        &&& forall|b: int| #[trigger] up_from(frames, p as int, b) && up_from(frames, b, a) && b != a ==> frames[b].marked is None
                    };
                    assert(up_from(frames, idx, a));
                    assert forall|b: int| #[trigger] up_from(frames, idx, b) && up_from(frames, b, a) && b != a implies frames[b].marked is None by {
                        if b != idx {
                            assert(up_from(frames, p as int, b));
                        }
                    }
                    assert(!(forall|x: int| #[trigger] up_from(frames, idx, x) ==> frames[x].marked is None));
                }
            },
            None => {
                assert forall|a: int| #[trigger] up_from(frames, idx, a) implies frames[a].marked is None by {
                    assert(a == idx);
                }
            },
        }
    }
}

/// An ancestor sits at or before the frame it is reached from.
proof fn lemma_up_from_below(frames: Seq<Frame>, idx: int, a: int)
    requires
        frames_wf(frames),
        up_from(frames, idx, a),
    ensures
        0 <= a <= idx,
    decreases idx,
{
    if a != idx {
        match frames[idx].parent {
            Some(p) => lemma_up_from_below(frames, p as int, a),
            None => {},
        }
    }
}

/// A sink path is reported once per root: reaching it again from anywhere
/// in the same tree adds nothing.
pub proof fn law_one_report_per_root_and_sink(
    s: TraversalView,
    first: usize,
    first_local: bool,
    first_kind: SinkKind,
    first_capability: Seq<char>,
    again: usize,
    again_local: bool,
    again_kind: SinkKind,
    again_capability: Seq<char>,
    path: Seq<char>,
    first_span: u64,
    again_span: u64,
)
    requires
        root_spec(s.frames, first as int) == root_spec(s.frames, again as int),
    ensures
        ({
            let once = violation_spec(s, first, first_local, first_kind, first_capability, path, first_span);
            violation_spec(once, again, again_local, again_kind, again_capability, path, again_span) == once
        }),
{
    let root = root_spec(s.frames, first as int) as usize;
    let once = violation_spec(s, first, first_local, first_kind, first_capability, path, first_span);
    if !reported_pair(s, root, path) {
        assert(once.reported_violations[s.reported_violations.len() as int] == (root, path));
    }
    assert(reported_pair(once, root, path));
}

/// Inside a trusted caller no hole is reported, whatever the edge.
pub proof fn law_trusted_callers_report_no_holes(
    s: TraversalView,
    caller: usize,
    caller_local: bool,
    e: EdgeView,
    span: u64,
)
    ensures
        edge_spec(s, caller, caller_local, true, e, span).unresolved == s.unresolved,
        edge_spec(s, caller, caller_local, true, e, span).reported_unresolved == s.reported_unresolved,
{
}

/// Trust never fences off traversal: a callee with a body and no call sink
/// is queued whatever the trust of its crate or of the caller.
pub proof fn law_trust_never_fences_traversal(
    s: TraversalView,
    caller: usize,
    caller_local: bool,
    caller_trusted: bool,
    c: CalleeView,
    span: u64,
)
    requires
        c.sink is None,
        c.kind == CalleeKind::Other,
        c.has_body,
    ensures
        callee_spec(s, caller, caller_local, caller_trusted, c, span).frames
            == enqueue_spec(s, c.instance, c.marked, Some(caller), Some(span), caller_local).frames,
{
}

} // verus!
