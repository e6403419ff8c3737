//! The Python nondeterminism sink database.
//!
//! Sinks are matched on resolvable qualified names only. Two shapes exist:
//! call sinks (an exact qualified name, or a literal-prefix wildcard such as
//! `os.spawn*`, a few of them arity-sensitive) and module fences (a whole
//! module and everything under it). Matching precedence is exact call, then
//! wildcard call, then module fence, whatever order the rules were declared
//! in; `print` and `sys.stdout` are deliberately not sinks.

use vstd::prelude::*;

use crate::config::SinkSpec;
use crate::text::{copy_str, seq_starts_with, str_eq, str_starts_with, with_char};

verus! {

broadcast use vstd::string::group_string_axioms;

/// How many arguments a call sink tolerates before it stops being a sink.
#[derive(Debug, Clone, Copy, PartialEq, Eq, Structural)]
pub enum Arity {
    /// A sink however it is called.
    Any,
    /// A sink only when called with no arguments, or merely referenced.
    NoArgs,
}

/// Qualified-name matcher for a call sink.
#[derive(Debug)]
pub enum NamePattern {
    /// Matches exactly this qualified name.
    Exact(String),
    /// Matches every qualified name starting with this literal prefix.
    Wildcard(String),
}

/// What a pattern matches, and how it is shown.
pub open spec fn pattern_matches(p: NamePattern, qualified: Seq<char>) -> bool {
    match p {
        NamePattern::Exact(name) => qualified == name@,
        NamePattern::Wildcard(prefix) => seq_starts_with(qualified, prefix@),
    }
}

pub open spec fn pattern_rendered(p: NamePattern) -> Seq<char> {
    match p {
        NamePattern::Exact(name) => name@,
        NamePattern::Wildcard(prefix) => prefix@.push('*'),
    }
}

pub open spec fn pattern_is_exact(p: NamePattern) -> bool {
    p is Exact
}

impl NamePattern {
    pub fn matches(&self, qualified: &str) -> (r: bool)
        ensures
            r == pattern_matches(*self, qualified@),
    {
        match self {
            NamePattern::Exact(name) => str_eq(qualified, name.as_str()),
            NamePattern::Wildcard(prefix) => str_starts_with(qualified, prefix.as_str()),
        }
    }

    pub fn rendered(&self) -> (r: String)
        ensures
            r@ == pattern_rendered(*self),
    {
        match self {
            NamePattern::Exact(name) => copy_str(name.as_str()),
            NamePattern::Wildcard(prefix) => with_char(prefix.as_str(), '*'),
        }
    }

    /// An independent copy of the pattern.
    pub fn duplicate(&self) -> (r: NamePattern)
        ensures
            r == *self,
    {
        match self {
            NamePattern::Exact(name) => NamePattern::Exact(name.clone()),
            NamePattern::Wildcard(prefix) => NamePattern::Wildcard(prefix.clone()),
        }
    }
}

/// How the name under examination appears at its site.
#[derive(Debug, Clone, Copy, PartialEq, Eq, Structural)]
pub enum Usage {
    Called { arguments: usize },
    Referenced,
}

#[derive(Debug)]
pub struct CallSink {
    pub pattern: NamePattern,
    pub arity: Arity,
}

/// Whether a call sink still counts at a site used this way. A bare
/// reference cannot be shown to be the safe arity, so it stays a sink.
pub open spec fn call_admits(c: CallSink, usage: Usage) -> bool {
    match c.arity {
        Arity::Any => true,
        Arity::NoArgs => match usage {
            Usage::Referenced => true,
            Usage::Called { arguments } => arguments == 0,
        },
    }
}

impl CallSink {
    pub fn exact(name: &str) -> (r: CallSink)
        ensures
            r.pattern == NamePattern::Exact(r.pattern->Exact_0),
            r.pattern->Exact_0@ == name@,
            r.arity == Arity::Any,
    {
        CallSink { pattern: NamePattern::Exact(name.to_owned()), arity: Arity::Any }
    }

    pub fn wildcard(prefix: &str) -> (r: CallSink)
        ensures
            r.pattern is Wildcard,
            r.pattern->Wildcard_0@ == prefix@,
            r.arity == Arity::Any,
    {
        CallSink { pattern: NamePattern::Wildcard(prefix.to_owned()), arity: Arity::Any }
    }

    pub fn no_args(name: &str) -> (r: CallSink)
        ensures
            r.pattern is Exact,
            r.pattern->Exact_0@ == name@,
            r.arity == Arity::NoArgs,
    {
        CallSink { pattern: NamePattern::Exact(name.to_owned()), arity: Arity::NoArgs }
    }

    pub fn admits(&self, usage: Usage) -> (r: bool)
        ensures
            r == call_admits(*self, usage),
    {
        match self.arity {
            Arity::Any => true,
            Arity::NoArgs => match usage {
                Usage::Referenced => true,
                Usage::Called { arguments } => arguments == 0,
            },
        }
    }
}

/// One capability's worth of sinks.
#[derive(Debug)]
pub struct SinkRule {
    pub capability: String,
    pub calls: Vec<CallSink>,
    pub modules: Vec<String>,
}

impl SinkRule {
    /// Lifts a user-declared `[[python.sinks]]` entry into a rule. User sinks
    /// are exact and never arity-sensitive.
    pub fn from_spec(spec: &SinkSpec) -> (r: SinkRule)
        ensures
            crate::config::rule_from(r, *spec),
    {
        let mut calls: Vec<CallSink> = Vec::new();
        let mut i: usize = 0;
        while i < spec.calls.len()
            invariant
                i <= spec.calls@.len(),
                calls@.len() == i,
                forall|k: int|
                    0 <= k < i ==> {
                        &&& (#[trigger] calls@[k]).pattern is Exact
                        &&& calls@[k].pattern->Exact_0@ == spec.calls@[k]@
                        &&& calls@[k].arity == Arity::Any
                    },
            decreases spec.calls@.len() - i,
        {
            calls.push(CallSink::exact(spec.calls[i].as_str()));
            i = i + 1;
        }
        let mut modules: Vec<String> = Vec::new();
        let mut j: usize = 0;
        while j < spec.modules.len()
            invariant
                j <= spec.modules@.len(),
                modules@.len() == j,
                forall|k: int| 0 <= k < j ==> #[trigger] modules@[k]@ == spec.modules@[k]@,
            decreases spec.modules@.len() - j,
        {
            modules.push(spec.modules[j].clone());
            j = j + 1;
        }
        SinkRule { capability: spec.capability.clone(), calls, modules }
    }
}

/// Why a qualified name matched.
#[derive(Debug)]
pub enum SinkKind {
    /// Matched a call-sink pattern; the string is the pattern as written.
    Call(String),
    /// Matched a module fence; the string is the fenced module.
    ModuleFence(String),
}

/// The abstract value of a [`SinkKind`].
pub enum SinkKindView {
    Call(Seq<char>),
    ModuleFence(Seq<char>),
}

impl View for SinkKind {
    type V = SinkKindView;

    open spec fn view(&self) -> SinkKindView {
        match self {
            SinkKind::Call(p) => SinkKindView::Call(p@),
            SinkKind::ModuleFence(m) => SinkKindView::ModuleFence(m@),
        }
    }
}

pub open spec fn sink_kind_rendered(k: SinkKindView) -> Seq<char> {
    match k {
        SinkKindView::Call(p) => p,
        SinkKindView::ModuleFence(m) => m,
    }
}

impl SinkKind {
    pub fn rendered(&self) -> (r: &str)
        ensures
            r@ == sink_kind_rendered(self@),
    {
        match self {
            SinkKind::Call(pattern) => pattern.as_str(),
            SinkKind::ModuleFence(module) => module.as_str(),
        }
    }

    /// An independent copy.
    pub fn duplicate(&self) -> (r: SinkKind)
        ensures
            r@ == self@,
    {
        match self {
            SinkKind::Call(p) => SinkKind::Call(p.clone()),
            SinkKind::ModuleFence(m) => SinkKind::ModuleFence(m.clone()),
        }
    }
}

#[derive(Debug)]
pub struct SinkHit {
    pub capability: String,
    pub kind: SinkKind,
}

/// The abstract value of a [`SinkHit`].
pub struct SinkHitView {
    pub capability: Seq<char>,
    pub kind: SinkKindView,
}

impl View for SinkHit {
    type V = SinkHitView;

    open spec fn view(&self) -> SinkHitView {
        SinkHitView { capability: self.capability@, kind: self.kind@ }
    }
}

pub open spec fn hit_view(h: Option<SinkHit>) -> Option<SinkHitView> {
    match h {
        Some(h) => Some(h@),
        None => None,
    }
}

/// A call sink that matches `qualified` in the pass looking for exact
/// (`exact == true`) or wildcard patterns.
pub open spec fn call_qualifies(c: CallSink, qualified: Seq<char>, usage: Usage, exact: bool) -> bool {
    &&& pattern_is_exact(c.pattern) == exact
    &&& pattern_matches(c.pattern, qualified)
    &&& call_admits(c, usage)
}

/// The first qualifying call sink of one rule, in declaration order.
pub open spec fn first_call_in(calls: Seq<CallSink>, qualified: Seq<char>, usage: Usage, exact: bool) -> Option<CallSink>
    decreases calls.len(),
{
    if calls.len() == 0 {
        None
    } else {
        let earlier = first_call_in(calls.drop_last(), qualified, usage, exact);
        if earlier is Some {
            earlier
        } else if call_qualifies(calls.last(), qualified, usage, exact) {
            Some(calls.last())
        } else {
            None
        }
    }
}

/// The first qualifying call sink over all rules, rule by rule.
pub open spec fn first_call_hit(rules: Seq<SinkRule>, qualified: Seq<char>, usage: Usage, exact: bool) -> Option<SinkHitView>
    decreases rules.len(),
{
    if rules.len() == 0 {
        None
    } else {
        let earlier = first_call_hit(rules.drop_last(), qualified, usage, exact);
        if earlier is Some {
            earlier
        } else {
            match first_call_in(rules.last().calls@, qualified, usage, exact) {
                Some(c) => Some(SinkHitView {
                    capability: rules.last().capability@,
                    kind: SinkKindView::Call(pattern_rendered(c.pattern)),
                }),
                None => None,
            }
        }
    }
}

/// `module` is the fence itself or lies under it (dotted-segment boundary).
pub open spec fn fence_covers(fence: Seq<char>, module: Seq<char>) -> bool {
    module == fence || seq_starts_with(module, fence.push('.'))
}

/// The first fence of one rule covering `module`.
pub open spec fn first_fence_in(fences: Seq<String>, module: Seq<char>) -> Option<Seq<char>>
    decreases fences.len(),
{
    if fences.len() == 0 {
        None
    } else {
        let earlier = first_fence_in(fences.drop_last(), module);
        if earlier is Some {
            earlier
        } else if fence_covers(fences.last()@, module) {
            Some(fences.last()@)
        } else {
            None
        }
    }
}

/// The first fence covering `module`, rule by rule.
pub open spec fn first_fence_hit(rules: Seq<SinkRule>, module: Seq<char>) -> Option<SinkHitView>
    decreases rules.len(),
{
    if rules.len() == 0 {
        None
    } else {
        let earlier = first_fence_hit(rules.drop_last(), module);
        if earlier is Some {
            earlier
        } else {
            match first_fence_in(rules.last().modules@, module) {
                Some(f) => Some(SinkHitView {
                    capability: rules.last().capability@,
                    kind: SinkKindView::ModuleFence(f),
                }),
                None => None,
            }
        }
    }
}

/// The answer of the database: exact calls first, then wildcard calls, then
/// module fences.
pub open spec fn match_name_spec(rules: Seq<SinkRule>, qualified: Seq<char>, usage: Usage) -> Option<SinkHitView> {
    let exact = first_call_hit(rules, qualified, usage, true);
    if exact is Some {
        exact
    } else {
        let wild = first_call_hit(rules, qualified, usage, false);
        if wild is Some {
            wild
        } else {
            first_fence_hit(rules, qualified)
        }
    }
}

/// The queryable sink database.
#[derive(Debug)]
pub struct SinkDb {
    rules: Vec<SinkRule>,
}

impl View for SinkDb {
    type V = Seq<SinkRule>;

    closed spec fn view(&self) -> Seq<SinkRule> {
        self.rules@
    }
}

impl SinkDb {
    pub fn new(rules: Vec<SinkRule>) -> (r: SinkDb)
        ensures
            r@ == rules@,
    {
        SinkDb { rules }
    }

    pub fn len(&self) -> (r: usize)
        ensures
            r == self@.len(),
    {
        self.rules.len()
    }

    pub fn is_empty(&self) -> (r: bool)
        ensures
            r == (self@.len() == 0),
    {
        self.rules.len() == 0
    }

    fn first_call(&self, qualified: &str, usage: Usage, exact: bool) -> (r: Option<SinkHit>)
        ensures
            hit_view(r) == first_call_hit(self@, qualified@, usage, exact),
    {
        let mut i: usize = 0;
        while i < self.rules.len()
            invariant
                i <= self.rules@.len(),
                first_call_hit(self.rules@.take(i as int), qualified@, usage, exact) is None,
            decreases self.rules@.len() - i,
        {
            let rule = &self.rules[i];
            let ghost prefix = self.rules@.take(i + 1);
            assert(prefix.drop_last() =~= self.rules@.take(i as int));
            let mut j: usize = 0;
            while j < rule.calls.len()
                invariant
                    i < self.rules@.len(),
                    *rule == self.rules@[i as int],
                    prefix == self.rules@.take(i + 1),
                    prefix.drop_last() == self.rules@.take(i as int),
                    first_call_hit(self.rules@.take(i as int), qualified@, usage, exact) is None,
                    j <= rule.calls@.len(),
                    first_call_in(rule.calls@.take(j as int), qualified@, usage, exact) is None,
                decreases rule.calls@.len() - j,
            {
                let call = &rule.calls[j];
                assert(rule.calls@.take(j + 1).drop_last() =~= rule.calls@.take(j as int));
                let is_exact = match call.pattern {
                    NamePattern::Exact(_) => true,
                    NamePattern::Wildcard(_) => false,
                };
                if is_exact == exact && call.pattern.matches(qualified) && call.admits(usage) {
                    assert(first_call_in(rule.calls@.take(j + 1), qualified@, usage, exact) == Some(*call));
                    proof { lemma_first_call_in_extend(rule.calls@, qualified@, usage, exact, j + 1); }
                    assert(rule.calls@.take(rule.calls@.len() as int) =~= rule.calls@);
                    assert(first_call_in(rule.calls@, qualified@, usage, exact) == Some(*call));
                    assert(first_call_hit(prefix, qualified@, usage, exact) is Some);
                    proof { lemma_first_call_hit_extend(self.rules@, qualified@, usage, exact, i + 1); }
                    return Some(SinkHit { capability: rule.capability.clone(), kind: SinkKind::Call(call.pattern.rendered()) });
                }
                j = j + 1;
            }
            assert(rule.calls@.take(rule.calls@.len() as int) =~= rule.calls@);
            i = i + 1;
        }
        assert(self.rules@.take(self.rules@.len() as int) =~= self.rules@);
        None
    }

    /// Matches a resolved qualified name. Precedence: exact call, then
    /// wildcard call, then module fence.
    pub fn match_name(&self, qualified: &str, usage: Usage) -> (r: Option<SinkHit>)
        ensures
            hit_view(r) == match_name_spec(self@, qualified@, usage),
    {
        let exact = self.first_call(qualified, usage, true);
        if exact.is_some() {
            return exact;
        }
        let wild = self.first_call(qualified, usage, false);
        if wild.is_some() {
            return wild;
        }
        self.match_module(qualified)
    }

    /// Matches a module (or any name under it) against the fences only.
    pub fn match_module(&self, module: &str) -> (r: Option<SinkHit>)
        ensures
            hit_view(r) == first_fence_hit(self@, module@),
    {
        let mut i: usize = 0;
        while i < self.rules.len()
            invariant
                i <= self.rules@.len(),
                first_fence_hit(self.rules@.take(i as int), module@) is None,
            decreases self.rules@.len() - i,
        {
            let rule = &self.rules[i];
            let ghost prefix = self.rules@.take(i + 1);
            assert(prefix.drop_last() =~= self.rules@.take(i as int));
            let mut j: usize = 0;
            while j < rule.modules.len()
                invariant
                    i < self.rules@.len(),
                    *rule == self.rules@[i as int],
                    prefix == self.rules@.take(i + 1),
                    prefix.drop_last() == self.rules@.take(i as int),
                    first_fence_hit(self.rules@.take(i as int), module@) is None,
                    j <= rule.modules@.len(),
                    first_fence_in(rule.modules@.take(j as int), module@) is None,
                decreases rule.modules@.len() - j,
            {
                let fence = &rule.modules[j];
                assert(rule.modules@.take(j + 1).drop_last() =~= rule.modules@.take(j as int));
                let dotted = with_char(fence.as_str(), '.');
                if str_eq(module, fence.as_str()) || str_starts_with(module, dotted.as_str()) {
                    assert(first_fence_in(rule.modules@.take(j + 1), module@) == Some(fence@));
                    proof { lemma_first_fence_in_extend(rule.modules@, module@, j + 1); }
                    assert(rule.modules@.take(rule.modules@.len() as int) =~= rule.modules@);
                    assert(first_fence_hit(prefix, module@) is Some);
                    proof { lemma_first_fence_hit_extend(self.rules@, module@, i + 1); }
                    return Some(SinkHit { capability: rule.capability.clone(), kind: SinkKind::ModuleFence(fence.clone()) });
                }
                j = j + 1;
            }
            assert(rule.modules@.take(rule.modules@.len() as int) =~= rule.modules@);
            i = i + 1;
        }
        assert(self.rules@.take(self.rules@.len() as int) =~= self.rules@);
        None
    }
}


/// A call sink as described in a table row.
pub open spec fn call_is(c: CallSink, row: (bool, Seq<char>, Arity)) -> bool {
    &&& pattern_is_exact(c.pattern) == row.0
    &&& (match c.pattern {
        NamePattern::Exact(n) => n@,
        NamePattern::Wildcard(p) => p@,
    }) == row.1
    &&& c.arity == row.2
}

/// A rule as described in a table row.
pub open spec fn rule_is(r: SinkRule, row: (Seq<char>, Seq<(bool, Seq<char>, Arity)>, Seq<Seq<char>>)) -> bool {
    &&& r.capability@ == row.0
    &&& r.calls@.len() == row.1.len()
    &&& forall|i: int| 0 <= i < r.calls@.len() ==> #[trigger] call_is(r.calls@[i], row.1[i])
    &&& r.modules@.len() == row.2.len()
    &&& forall|i: int| 0 <= i < r.modules@.len() ==> #[trigger] r.modules@[i]@ == row.2[i]
}

/// A rule built from literal parts.
pub fn rule(capability: &str, calls: Vec<CallSink>, modules: &[&str]) -> (r: SinkRule)
    ensures
        r.capability@ == capability@,
        r.calls@ == calls@,
        r.modules@.len() == modules@.len(),
        forall|i: int| 0 <= i < r.modules@.len() ==> #[trigger] r.modules@[i]@ == modules@[i]@,
{
    let mut out: Vec<String> = Vec::new();
    let mut i: usize = 0;
    while i < modules.len()
        invariant
            i <= modules@.len(),
            out@.len() == i,
            forall|k: int| 0 <= k < i ==> #[trigger] out@[k]@ == modules@[k]@,
        decreases modules@.len() - i,
    {
        out.push(modules[i].to_owned());
        i = i + 1;
    }
    SinkRule { capability: capability.to_owned(), calls, modules: out }
}

/// The builtin sink table: capability, call sinks (exact?, name, arity),
/// fenced modules.
pub open spec fn builtin_sink_table() -> Seq<(Seq<char>, Seq<(bool, Seq<char>, Arity)>, Seq<Seq<char>>)> {
    seq![
        ("time"@, seq![(true, "time.time"@, Arity::Any), (true, "time.time_ns"@, Arity::Any), (true, "time.monotonic"@, Arity::Any), (true, "time.monotonic_ns"@, Arity::Any), (true, "time.perf_counter"@, Arity::Any), (true, "time.perf_counter_ns"@, Arity::Any), (true, "time.process_time"@, Arity::Any), (true, "time.process_time_ns"@, Arity::Any), (true, "time.sleep"@, Arity::Any), (true, "time.localtime"@, Arity::NoArgs), (true, "time.gmtime"@, Arity::NoArgs), (true, "datetime.datetime.now"@, Arity::Any), (true, "datetime.datetime.utcnow"@, Arity::Any), (true, "datetime.datetime.today"@, Arity::Any), (true, "datetime.date.today"@, Arity::Any), (true, "asyncio.sleep"@, Arity::Any)], Seq::empty()),
        ("random"@, seq![(true, "os.urandom"@, Arity::Any), (true, "os.getrandom"@, Arity::Any), (true, "uuid.uuid1"@, Arity::Any), (true, "uuid.uuid4"@, Arity::Any)], seq!["random"@, "secrets"@, "numpy.random"@]),
        ("hash_order"@, Seq::empty(), Seq::empty()),
        ("thread"@, seq![(true, "os.fork"@, Arity::Any)], seq!["threading"@, "multiprocessing"@, "concurrent.futures"@]),
        ("fs"@, seq![(true, "open"@, Arity::Any), (true, "io.open"@, Arity::Any), (true, "os.listdir"@, Arity::Any), (true, "os.scandir"@, Arity::Any), (true, "os.walk"@, Arity::Any), (true, "os.stat"@, Arity::Any), (true, "os.remove"@, Arity::Any), (true, "os.rename"@, Arity::Any), (true, "os.makedirs"@, Arity::Any)], seq!["pathlib"@, "shutil"@, "tempfile"@, "glob"@]),
        ("net"@, seq![(true, "asyncio.open_connection"@, Arity::Any), (true, "asyncio.start_server"@, Arity::Any), (true, "asyncio.open_unix_connection"@, Arity::Any), (true, "asyncio.start_unix_server"@, Arity::Any)], seq!["socket"@, "ssl"@, "http"@, "urllib"@, "asyncio.streams"@]),
        ("env"@, seq![(true, "os.environ"@, Arity::Any), (true, "os.getenv"@, Arity::Any), (true, "os.putenv"@, Arity::Any), (true, "sys.argv"@, Arity::Any)], seq!["platform"@, "locale"@]),
        ("process"@, seq![(true, "os.system"@, Arity::Any), (false, "os.spawn"@, Arity::Any), (false, "os.exec"@, Arity::Any), (true, "os.getpid"@, Arity::Any), (true, "os.getppid"@, Arity::Any)], seq!["subprocess"@, "signal"@]),
        ("io"@, seq![(true, "input"@, Arity::Any), (true, "sys.stdin"@, Arity::Any)], Seq::empty()),
    ]
}

/// The builtin trusted-module set.
pub open spec fn builtin_trusted_table() -> Seq<Seq<char>> {
    seq!["__future__"@, "abc"@, "array"@, "base64"@, "binascii"@, "bisect"@, "collections"@, "contextlib"@, "copy"@, "dataclasses"@, "datetime"@, "decimal"@, "enum"@, "fractions"@, "functools"@, "hashlib"@, "heapq"@, "hmac"@, "inspect"@, "io"@, "itertools"@, "json"@, "logging"@, "math"@, "numbers"@, "operator"@, "os"@, "pprint"@, "queue"@, "re"@, "string"@, "struct"@, "sys"@, "textwrap"@, "time"@, "traceback"@, "trigpoint_shims"@, "types"@, "typing"@, "typing_extensions"@, "unicodedata"@, "uuid"@, "warnings"@, "weakref"@]
}

/// The builtin sink database, defined at the stdlib boundary.
pub fn builtin_sinks() -> (r: Vec<SinkRule>)
    ensures
        r@.len() == builtin_sink_table().len(),
        forall|i: int| 0 <= i < r@.len() ==> #[trigger] rule_is(r@[i], builtin_sink_table()[i]),
{
    let mut rules: Vec<SinkRule> = Vec::new();
    let mut calls0: Vec<CallSink> = Vec::new();
    calls0.push(CallSink::exact("time.time"));
    calls0.push(CallSink::exact("time.time_ns"));
    calls0.push(CallSink::exact("time.monotonic"));
    calls0.push(CallSink::exact("time.monotonic_ns"));
    calls0.push(CallSink::exact("time.perf_counter"));
    calls0.push(CallSink::exact("time.perf_counter_ns"));
    calls0.push(CallSink::exact("time.process_time"));
    calls0.push(CallSink::exact("time.process_time_ns"));
    calls0.push(CallSink::exact("time.sleep"));
    calls0.push(CallSink::no_args("time.localtime"));
    calls0.push(CallSink::no_args("time.gmtime"));
    calls0.push(CallSink::exact("datetime.datetime.now"));
    calls0.push(CallSink::exact("datetime.datetime.utcnow"));
    calls0.push(CallSink::exact("datetime.datetime.today"));
    calls0.push(CallSink::exact("datetime.date.today"));
    calls0.push(CallSink::exact("asyncio.sleep"));
    let rule0 = rule("time", calls0, &[]);
    assert(rule_is(rule0, builtin_sink_table()[0]));
    rules.push(rule0);
    let mut calls1: Vec<CallSink> = Vec::new();
    calls1.push(CallSink::exact("os.urandom"));
    calls1.push(CallSink::exact("os.getrandom"));
    calls1.push(CallSink::exact("uuid.uuid1"));
    calls1.push(CallSink::exact("uuid.uuid4"));
    let rule1 = rule("random", calls1, &["random", "secrets", "numpy.random"]);
    assert(rule_is(rule1, builtin_sink_table()[1]));
    rules.push(rule1);
    let mut calls2: Vec<CallSink> = Vec::new();
    let rule2 = rule("hash_order", calls2, &[]);
    assert(rule_is(rule2, builtin_sink_table()[2]));
    rules.push(rule2);
    let mut calls3: Vec<CallSink> = Vec::new();
    calls3.push(CallSink::exact("os.fork"));
    let rule3 = rule("thread", calls3, &["threading", "multiprocessing", "concurrent.futures"]);
    assert(rule_is(rule3, builtin_sink_table()[3]));
    rules.push(rule3);
    let mut calls4: Vec<CallSink> = Vec::new();
    calls4.push(CallSink::exact("open"));
    calls4.push(CallSink::exact("io.open"));
    calls4.push(CallSink::exact("os.listdir"));
    calls4.push(CallSink::exact("os.scandir"));
    calls4.push(CallSink::exact("os.walk"));
    calls4.push(CallSink::exact("os.stat"));
    calls4.push(CallSink::exact("os.remove"));
    calls4.push(CallSink::exact("os.rename"));
    calls4.push(CallSink::exact("os.makedirs"));
    let rule4 = rule("fs", calls4, &["pathlib", "shutil", "tempfile", "glob"]);
    assert(rule_is(rule4, builtin_sink_table()[4]));
    rules.push(rule4);
    let mut calls5: Vec<CallSink> = Vec::new();
    calls5.push(CallSink::exact("asyncio.open_connection"));
    calls5.push(CallSink::exact("asyncio.start_server"));
    calls5.push(CallSink::exact("asyncio.open_unix_connection"));
    calls5.push(CallSink::exact("asyncio.start_unix_server"));
    let rule5 = rule("net", calls5, &["socket", "ssl", "http", "urllib", "asyncio.streams"]);
    assert(rule_is(rule5, builtin_sink_table()[5]));
    rules.push(rule5);
    let mut calls6: Vec<CallSink> = Vec::new();
    calls6.push(CallSink::exact("os.environ"));
    calls6.push(CallSink::exact("os.getenv"));
    calls6.push(CallSink::exact("os.putenv"));
    calls6.push(CallSink::exact("sys.argv"));
    let rule6 = rule("env", calls6, &["platform", "locale"]);
    assert(rule_is(rule6, builtin_sink_table()[6]));
    rules.push(rule6);
    let mut calls7: Vec<CallSink> = Vec::new();
    calls7.push(CallSink::exact("os.system"));
    calls7.push(CallSink::wildcard("os.spawn"));
    calls7.push(CallSink::wildcard("os.exec"));
    calls7.push(CallSink::exact("os.getpid"));
    calls7.push(CallSink::exact("os.getppid"));
    let rule7 = rule("process", calls7, &["subprocess", "signal"]);
    assert(rule_is(rule7, builtin_sink_table()[7]));
    rules.push(rule7);
    let mut calls8: Vec<CallSink> = Vec::new();
    calls8.push(CallSink::exact("input"));
    calls8.push(CallSink::exact("sys.stdin"));
    let rule8 = rule("io", calls8, &[]);
    assert(rule_is(rule8, builtin_sink_table()[8]));
    rules.push(rule8);
    rules
}

/// Modules whose imports inside sim scope are silent even though no source
/// for them was collected. Trusting a module never masks a sink inside it:
/// sinks match on the name at the use site, not on the import.
pub fn builtin_trusted_modules() -> (r: &'static [&'static str])
    ensures
        r@.len() == builtin_trusted_table().len(),
        forall|i: int| 0 <= i < r@.len() ==> #[trigger] r@[i]@ == builtin_trusted_table()[i],
{
    &["__future__", "abc", "array", "base64", "binascii", "bisect", "collections", "contextlib", "copy", "dataclasses", "datetime", "decimal", "enum", "fractions", "functools", "hashlib", "heapq", "hmac", "inspect", "io", "itertools", "json", "logging", "math", "numbers", "operator", "os", "pprint", "queue", "re", "string", "struct", "sys", "textwrap", "time", "traceback", "trigpoint_shims", "types", "typing", "typing_extensions", "unicodedata", "uuid", "warnings", "weakref"]
}


/// Some call sink of some rule qualifies in the given pass.
pub open spec fn some_call_qualifies(rules: Seq<SinkRule>, qualified: Seq<char>, usage: Usage, exact: bool) -> bool {
    exists|i: int, j: int|
        0 <= i < rules.len() && 0 <= j < rules[i].calls@.len()
            && #[trigger] call_qualifies(rules[i].calls@[j], qualified, usage, exact)
}

proof fn lemma_first_call_in_some(calls: Seq<CallSink>, q: Seq<char>, u: Usage, exact: bool)
    ensures
        first_call_in(calls, q, u, exact) is Some <==> exists|j: int|
            0 <= j < calls.len() && #[trigger] call_qualifies(calls[j], q, u, exact),
    decreases calls.len(),
{
    if calls.len() > 0 {
        lemma_first_call_in_some(calls.drop_last(), q, u, exact);
        if first_call_in(calls, q, u, exact) is None {
            assert forall|j: int| 0 <= j < calls.len() implies !#[trigger] call_qualifies(calls[j], q, u, exact) by {
                if j < calls.len() - 1 {
                    assert(calls.drop_last()[j] == calls[j]);
                }
            }
        } else if first_call_in(calls.drop_last(), q, u, exact) is Some {
            let j = choose|j: int| 0 <= j < calls.drop_last().len() && #[trigger] call_qualifies(calls.drop_last()[j], q, u, exact);
            assert(call_qualifies(calls[j], q, u, exact));
        } else {
            assert(call_qualifies(calls[calls.len() - 1], q, u, exact));
        }
    }
}

proof fn lemma_first_call_hit_some(rules: Seq<SinkRule>, q: Seq<char>, u: Usage, exact: bool)
    ensures
        first_call_hit(rules, q, u, exact) is Some <==> some_call_qualifies(rules, q, u, exact),
    decreases rules.len(),
{
    if rules.len() > 0 {
        let init = rules.drop_last();
        let last = rules.len() - 1;
        lemma_first_call_hit_some(init, q, u, exact);
        lemma_first_call_in_some(rules[last].calls@, q, u, exact);
        if first_call_hit(rules, q, u, exact) is None {
            assert forall|i: int, j: int|
                0 <= i < rules.len() && 0 <= j < rules[i].calls@.len()
                implies !#[trigger] call_qualifies(rules[i].calls@[j], q, u, exact) by {
                if i < last {
                    assert(init[i] == rules[i]);
                }
            }
        } else if first_call_hit(init, q, u, exact) is Some {
            let (i, j) = choose|i: int, j: int|
                0 <= i < init.len() && 0 <= j < init[i].calls@.len()
                    && #[trigger] call_qualifies(init[i].calls@[j], q, u, exact);
            assert(init[i] == rules[i]);
            assert(call_qualifies(rules[i].calls@[j], q, u, exact));
        } else {
            let j = choose|j: int| 0 <= j < rules[last].calls@.len() && #[trigger] call_qualifies(rules[last].calls@[j], q, u, exact);
            assert(call_qualifies(rules[last].calls@[j], q, u, exact));
        }
    }
}

/// Matching precedence: an exact call sink wins wherever it was declared; a
/// wildcard call sink is consulted only when no exact one qualifies; a module
/// fence only when no call sink qualifies at all. No match means no call sink
/// qualifies and no fence covers the name.
pub proof fn law_match_precedence(rules: Seq<SinkRule>, qualified: Seq<char>, usage: Usage)
    ensures
        some_call_qualifies(rules, qualified, usage, true) ==> {
            &&& match_name_spec(rules, qualified, usage) == first_call_hit(rules, qualified, usage, true)
            &&& match_name_spec(rules, qualified, usage) matches Some(h) && h.kind is Call
        },
        !some_call_qualifies(rules, qualified, usage, true) && some_call_qualifies(rules, qualified, usage, false) ==> {
            &&& match_name_spec(rules, qualified, usage) == first_call_hit(rules, qualified, usage, false)
            &&& match_name_spec(rules, qualified, usage) matches Some(h) && h.kind is Call
        },
        !some_call_qualifies(rules, qualified, usage, true) && !some_call_qualifies(rules, qualified, usage, false)
            ==> match_name_spec(rules, qualified, usage) == first_fence_hit(rules, qualified),
{
    lemma_first_call_hit_some(rules, qualified, usage, true);
    lemma_first_call_hit_some(rules, qualified, usage, false);
    lemma_first_call_hit_is_call(rules, qualified, usage, true);
    lemma_first_call_hit_is_call(rules, qualified, usage, false);
}

proof fn lemma_first_call_hit_is_call(rules: Seq<SinkRule>, q: Seq<char>, u: Usage, exact: bool)
    ensures
        first_call_hit(rules, q, u, exact) matches Some(h) ==> h.kind is Call,
    decreases rules.len(),
{
    if rules.len() > 0 {
        lemma_first_call_hit_is_call(rules.drop_last(), q, u, exact);
    }
}

proof fn lemma_first_call_hit_append(r: Seq<SinkRule>, e: Seq<SinkRule>, q: Seq<char>, u: Usage, exact: bool)
    ensures
        first_call_hit(r + e, q, u, exact) == (if first_call_hit(r, q, u, exact) is Some {
            first_call_hit(r, q, u, exact)
        } else {
            first_call_hit(e, q, u, exact)
        }),
    decreases e.len(),
{
    if e.len() == 0 {
        assert(r + e =~= r);
    } else {
        assert((r + e).drop_last() =~= r + e.drop_last());
        lemma_first_call_hit_append(r, e.drop_last(), q, u, exact);
    }
}

proof fn lemma_first_fence_hit_append(r: Seq<SinkRule>, e: Seq<SinkRule>, m: Seq<char>)
    ensures
        first_fence_hit(r + e, m) == (if first_fence_hit(r, m) is Some {
            first_fence_hit(r, m)
        } else {
            first_fence_hit(e, m)
        }),
    decreases e.len(),
{
    if e.len() == 0 {
        assert(r + e =~= r);
    } else {
        assert((r + e).drop_last() =~= r + e.drop_last());
        lemma_first_fence_hit_append(r, e.drop_last(), m);
    }
}

/// Adding rules after existing ones (user sinks after the builtins) never
/// reorders an exact answer of the existing rules, keeps every existing
/// match a match, and introduces a match only where the added rules have one.
pub proof fn law_added_rules_never_reorder(builtin: Seq<SinkRule>, user: Seq<SinkRule>, qualified: Seq<char>, usage: Usage)
    ensures
        first_call_hit(builtin, qualified, usage, true) is Some ==> match_name_spec(builtin + user, qualified, usage)
            == match_name_spec(builtin, qualified, usage),
        match_name_spec(builtin + user, qualified, usage) is None <==> (match_name_spec(builtin, qualified, usage) is None
            && match_name_spec(user, qualified, usage) is None),
{
    lemma_first_call_hit_append(builtin, user, qualified, usage, true);
    lemma_first_call_hit_append(builtin, user, qualified, usage, false);
    lemma_first_fence_hit_append(builtin, user, qualified);
}

/// Once found in a prefix, the first qualifying call stays the answer.
proof fn lemma_first_call_in_extend(calls: Seq<CallSink>, q: Seq<char>, u: Usage, exact: bool, n: int)
    requires
        0 <= n <= calls.len(),
        first_call_in(calls.take(n), q, u, exact) is Some,
    ensures
        first_call_in(calls, q, u, exact) == first_call_in(calls.take(n), q, u, exact),
    decreases calls.len() - n,
{
    if n < calls.len() {
        assert(calls.take(n + 1).drop_last() =~= calls.take(n));
        lemma_first_call_in_extend(calls, q, u, exact, n + 1);
    } else {
        assert(calls.take(n) =~= calls);
    }
}

proof fn lemma_first_call_hit_extend(rules: Seq<SinkRule>, q: Seq<char>, u: Usage, exact: bool, n: int)
    requires
        0 <= n <= rules.len(),
        first_call_hit(rules.take(n), q, u, exact) is Some,
    ensures
        first_call_hit(rules, q, u, exact) == first_call_hit(rules.take(n), q, u, exact),
    decreases rules.len() - n,
{
    if n < rules.len() {
        assert(rules.take(n + 1).drop_last() =~= rules.take(n));
        lemma_first_call_hit_extend(rules, q, u, exact, n + 1);
    } else {
        assert(rules.take(n) =~= rules);
    }
}

proof fn lemma_first_fence_in_extend(fences: Seq<String>, m: Seq<char>, n: int)
    requires
        0 <= n <= fences.len(),
        first_fence_in(fences.take(n), m) is Some,
    ensures
        first_fence_in(fences, m) == first_fence_in(fences.take(n), m),
    decreases fences.len() - n,
{
    if n < fences.len() {
        assert(fences.take(n + 1).drop_last() =~= fences.take(n));
        lemma_first_fence_in_extend(fences, m, n + 1);
    } else {
        assert(fences.take(n) =~= fences);
    }
}

proof fn lemma_first_fence_hit_extend(rules: Seq<SinkRule>, m: Seq<char>, n: int)
    requires
        0 <= n <= rules.len(),
        first_fence_hit(rules.take(n), m) is Some,
    ensures
        first_fence_hit(rules, m) == first_fence_hit(rules.take(n), m),
    decreases rules.len() - n,
{
    if n < rules.len() {
        assert(rules.take(n + 1).drop_last() =~= rules.take(n));
        lemma_first_fence_hit_extend(rules, m, n + 1);
    } else {
        assert(rules.take(n) =~= rules);
    }
}

} // verus!

verus! {

/// The builtin trusted modules are listed in ascending order, each once.
pub proof fn law_builtin_trust_is_ascending()
    ensures
        crate::order::strictly_ascending(builtin_trusted_table()),
{
    reveal_strlit("__future__");
    reveal_strlit("abc");
    reveal_strlit("array");
    reveal_strlit("base64");
    reveal_strlit("binascii");
    reveal_strlit("bisect");
    reveal_strlit("collections");
    reveal_strlit("contextlib");
    reveal_strlit("copy");
    reveal_strlit("dataclasses");
    reveal_strlit("datetime");
    reveal_strlit("decimal");
    reveal_strlit("enum");
    reveal_strlit("fractions");
    reveal_strlit("functools");
    reveal_strlit("hashlib");
    reveal_strlit("heapq");
    reveal_strlit("hmac");
    reveal_strlit("inspect");
    reveal_strlit("io");
    reveal_strlit("itertools");
    reveal_strlit("json");
    reveal_strlit("logging");
    reveal_strlit("math");
    reveal_strlit("numbers");
    reveal_strlit("operator");
    reveal_strlit("os");
    reveal_strlit("pprint");
    reveal_strlit("queue");
    reveal_strlit("re");
    reveal_strlit("string");
    reveal_strlit("struct");
    reveal_strlit("sys");
    reveal_strlit("textwrap");
    reveal_strlit("time");
    reveal_strlit("traceback");
    reveal_strlit("trigpoint_shims");
    reveal_strlit("types");
    reveal_strlit("typing");
    reveal_strlit("typing_extensions");
    reveal_strlit("unicodedata");
    reveal_strlit("uuid");
    reveal_strlit("warnings");
    reveal_strlit("weakref");
    let t = builtin_trusted_table();
    reveal_with_fuel(crate::order::lex_lt, 8);
    assert(crate::order::lex_lt(t[0], t[1]));
    assert(crate::order::lex_lt(t[1], t[2]));
    assert(crate::order::lex_lt(t[2], t[3]));
    assert(crate::order::lex_lt(t[3], t[4]));
    assert(crate::order::lex_lt(t[4], t[5]));
    assert(crate::order::lex_lt(t[5], t[6]));
    assert(crate::order::lex_lt(t[6], t[7]));
    assert(crate::order::lex_lt(t[7], t[8]));
    assert(crate::order::lex_lt(t[8], t[9]));
    assert(crate::order::lex_lt(t[9], t[10]));
    assert(crate::order::lex_lt(t[10], t[11]));
    assert(crate::order::lex_lt(t[11], t[12]));
    assert(crate::order::lex_lt(t[12], t[13]));
    assert(crate::order::lex_lt(t[13], t[14]));
    assert(crate::order::lex_lt(t[14], t[15]));
    assert(crate::order::lex_lt(t[15], t[16]));
    assert(crate::order::lex_lt(t[16], t[17]));
    assert(crate::order::lex_lt(t[17], t[18]));
    assert(crate::order::lex_lt(t[18], t[19]));
    assert(crate::order::lex_lt(t[19], t[20]));
    assert(crate::order::lex_lt(t[20], t[21]));
    assert(crate::order::lex_lt(t[21], t[22]));
    assert(crate::order::lex_lt(t[22], t[23]));
    assert(crate::order::lex_lt(t[23], t[24]));
    assert(crate::order::lex_lt(t[24], t[25]));
    assert(crate::order::lex_lt(t[25], t[26]));
    assert(crate::order::lex_lt(t[26], t[27]));
    assert(crate::order::lex_lt(t[27], t[28]));
    assert(crate::order::lex_lt(t[28], t[29]));
    assert(crate::order::lex_lt(t[29], t[30]));
    assert(crate::order::lex_lt(t[30], t[31]));
    assert(crate::order::lex_lt(t[31], t[32]));
    assert(crate::order::lex_lt(t[32], t[33]));
    assert(crate::order::lex_lt(t[33], t[34]));
    assert(crate::order::lex_lt(t[34], t[35]));
    assert(crate::order::lex_lt(t[35], t[36]));
    assert(crate::order::lex_lt(t[36], t[37]));
    assert(crate::order::lex_lt(t[37], t[38]));
    assert(crate::order::lex_lt(t[38], t[39]));
    assert(crate::order::lex_lt(t[39], t[40]));
    assert(crate::order::lex_lt(t[40], t[41]));
    assert(crate::order::lex_lt(t[41], t[42]));
    assert(crate::order::lex_lt(t[42], t[43]));
    crate::order::lemma_adjacent_ascending(t);
}


/// No name of a strictly ascending list is covered by `fence` when the
/// fence sorts between the names at `p - 1` and `p` and is no prefix of
/// the name at `p`.
proof fn lemma_fence_clear(t: Seq<Seq<char>>, fence: Seq<char>, p: int)
    requires
        crate::order::strictly_ascending(t),
        0 <= p <= t.len(),
        p > 0 ==> crate::order::lex_lt(t[p - 1], fence),
        p < t.len() ==> crate::order::lex_lt(fence, t[p]) && !seq_starts_with(t[p], fence),
    ensures
        forall|i: int| 0 <= i < t.len() ==> !#[trigger] fence_covers(fence, t[i]),
{
    assert forall|i: int| 0 <= i < t.len() implies !#[trigger] fence_covers(fence, t[i]) by {
        if fence_covers(fence, t[i]) {
            if t[i] == fence {
                assert(t[i].take(fence.len() as int) =~= fence);
            } else {
                assert(t[i].take(fence.len() as int) =~= fence.push('.').take(fence.len() as int));
                assert(fence.push('.').take(fence.len() as int) =~= fence);
            }
            assert(seq_starts_with(t[i], fence));
            if i < p {
                if i < p - 1 {
                    assert(crate::order::lex_lt(t[i], t[p - 1]));
                    crate::order::lemma_lex_transitive(t[i], t[p - 1], fence);
                }
                crate::order::lemma_prefix_not_below(t[i], fence);
            } else {
                crate::order::lemma_prefix_below_bound(t[i], fence, t[p]);
                if i > p {
                    assert(crate::order::lex_lt(t[p], t[i]));
                    crate::order::lemma_lex_total(t[p], t[i]);
                } else {
                    crate::order::lemma_lex_irreflexive(t[i]);
                }
            }
        }
    }
}

/// Trusting a builtin trusted module never overlaps a module fence: no
/// builtin fence covers any builtin trusted module.
pub proof fn law_builtin_trust_never_meets_a_fence()
    ensures
        forall|i: int, r: int, f: int|
            0 <= i < builtin_trusted_table().len() && 0 <= r < builtin_sink_table().len()
                && 0 <= f < builtin_sink_table()[r].2.len()
                ==> !#[trigger] fence_covers(builtin_sink_table()[r].2[f], builtin_trusted_table()[i]),
{
    reveal_strlit("__future__");
    reveal_strlit("abc");
    reveal_strlit("array");
    reveal_strlit("base64");
    reveal_strlit("binascii");
    reveal_strlit("bisect");
    reveal_strlit("collections");
    reveal_strlit("contextlib");
    reveal_strlit("copy");
    reveal_strlit("dataclasses");
    reveal_strlit("datetime");
    reveal_strlit("decimal");
    reveal_strlit("enum");
    reveal_strlit("fractions");
    reveal_strlit("functools");
    reveal_strlit("hashlib");
    reveal_strlit("heapq");
    reveal_strlit("hmac");
    reveal_strlit("inspect");
    reveal_strlit("io");
    reveal_strlit("itertools");
    reveal_strlit("json");
    reveal_strlit("logging");
    reveal_strlit("math");
    reveal_strlit("numbers");
    reveal_strlit("operator");
    reveal_strlit("os");
    reveal_strlit("pprint");
    reveal_strlit("queue");
    reveal_strlit("re");
    reveal_strlit("string");
    reveal_strlit("struct");
    reveal_strlit("sys");
    reveal_strlit("textwrap");
    reveal_strlit("time");
    reveal_strlit("traceback");
    reveal_strlit("trigpoint_shims");
    reveal_strlit("types");
    reveal_strlit("typing");
    reveal_strlit("typing_extensions");
    reveal_strlit("unicodedata");
    reveal_strlit("uuid");
    reveal_strlit("warnings");
    reveal_strlit("weakref");
    reveal_strlit("random");
    reveal_strlit("secrets");
    reveal_strlit("numpy.random");
    reveal_strlit("threading");
    reveal_strlit("multiprocessing");
    reveal_strlit("concurrent.futures");
    reveal_strlit("pathlib");
    reveal_strlit("shutil");
    reveal_strlit("tempfile");
    reveal_strlit("glob");
    reveal_strlit("socket");
    reveal_strlit("ssl");
    reveal_strlit("http");
    reveal_strlit("urllib");
    reveal_strlit("asyncio.streams");
    reveal_strlit("platform");
    reveal_strlit("locale");
    reveal_strlit("subprocess");
    reveal_strlit("signal");
    law_builtin_trust_is_ascending();
    let t = builtin_trusted_table();
    reveal_with_fuel(crate::order::lex_lt, 6);
    lemma_fence_clear(t, "random"@, 29);
    lemma_fence_clear(t, "secrets"@, 30);
    lemma_fence_clear(t, "numpy.random"@, 25);
    lemma_fence_clear(t, "threading"@, 34);
    lemma_fence_clear(t, "multiprocessing"@, 24);
    lemma_fence_clear(t, "concurrent.futures"@, 7);
    lemma_fence_clear(t, "pathlib"@, 27);
    assert(t[30].take(6)[1] != "shutil"@[1]);
    lemma_fence_clear(t, "shutil"@, 30);
    assert(t[33].take(8)[2] != "tempfile"@[2]);
    lemma_fence_clear(t, "tempfile"@, 33);
    assert(t[15].take(4)[0] != "glob"@[0]);
    lemma_fence_clear(t, "glob"@, 15);
    assert(t[30].take(6)[1] != "socket"@[1]);
    lemma_fence_clear(t, "socket"@, 30);
    assert(t[30].take(3)[1] != "ssl"@[1]);
    lemma_fence_clear(t, "ssl"@, 30);
    assert(t[18].take(4)[0] != "http"@[0]);
    lemma_fence_clear(t, "http"@, 18);
    lemma_fence_clear(t, "urllib"@, 41);
    lemma_fence_clear(t, "asyncio.streams"@, 3);
    lemma_fence_clear(t, "platform"@, 27);
    assert(t[22].take(6)[2] != "locale"@[2]);
    lemma_fence_clear(t, "locale"@, 22);
    lemma_fence_clear(t, "subprocess"@, 32);
    assert(t[30].take(6)[1] != "signal"@[1]);
    lemma_fence_clear(t, "signal"@, 30);
    assert forall|i: int, r: int, f: int|
        0 <= i < builtin_trusted_table().len() && 0 <= r < builtin_sink_table().len()
            && 0 <= f < builtin_sink_table()[r].2.len()
            implies !#[trigger] fence_covers(builtin_sink_table()[r].2[f], builtin_trusted_table()[i]) by {
        if r == 0 {
            // This rule fences no module.
        } else if r == 1 {
            if f == 0 {
                assert(builtin_sink_table()[r].2[f] == "random"@);
            } else if f == 1 {
                assert(builtin_sink_table()[r].2[f] == "secrets"@);
            } else if f == 2 {
                assert(builtin_sink_table()[r].2[f] == "numpy.random"@);
            }
        } else if r == 2 {
            // This rule fences no module.
        } else if r == 3 {
            if f == 0 {
                assert(builtin_sink_table()[r].2[f] == "threading"@);
            } else if f == 1 {
                assert(builtin_sink_table()[r].2[f] == "multiprocessing"@);
            } else if f == 2 {
                assert(builtin_sink_table()[r].2[f] == "concurrent.futures"@);
            }
        } else if r == 4 {
            if f == 0 {
                assert(builtin_sink_table()[r].2[f] == "pathlib"@);
            } else if f == 1 {
                assert(builtin_sink_table()[r].2[f] == "shutil"@);
            } else if f == 2 {
                assert(builtin_sink_table()[r].2[f] == "tempfile"@);
            } else if f == 3 {
                assert(builtin_sink_table()[r].2[f] == "glob"@);
            }
        } else if r == 5 {
            if f == 0 {
                assert(builtin_sink_table()[r].2[f] == "socket"@);
            } else if f == 1 {
                assert(builtin_sink_table()[r].2[f] == "ssl"@);
            } else if f == 2 {
                assert(builtin_sink_table()[r].2[f] == "http"@);
            } else if f == 3 {
                assert(builtin_sink_table()[r].2[f] == "urllib"@);
            } else if f == 4 {
                assert(builtin_sink_table()[r].2[f] == "asyncio.streams"@);
            }
        } else if r == 6 {
            if f == 0 {
                assert(builtin_sink_table()[r].2[f] == "platform"@);
            } else if f == 1 {
                assert(builtin_sink_table()[r].2[f] == "locale"@);
            }
        } else if r == 7 {
            if f == 0 {
                assert(builtin_sink_table()[r].2[f] == "subprocess"@);
            } else if f == 1 {
                assert(builtin_sink_table()[r].2[f] == "signal"@);
            }
        } else if r == 8 {
            // This rule fences no module.
        }
    }
}

} // verus!
