//! Sim mode: the import graph, its closure from the declared roots, and the
//! witness chains that explain how a sink got there.
//!
//! Reachability is over *module imports*, not calls: importing a module pulls
//! its whole surface into simulation scope even when only one function is
//! used. That is deliberately over-approximate.
//!
//! Inside the closure the rule is absolute: zero sinks, blessing or not. A
//! shim implementation marked deterministic that names one is reported as a
//! broken claim rather than excused.

use vstd::prelude::*;

use crate::config::{Resolved, covered_by};
use crate::resolve::bindings::prefix_chain;
use crate::resolve::modules::{
    Module, ModuleId, ModuleTable, id_of_spec, join_spec, join_strings, module_names, package_spec,
    resolve_relative, resolve_relative_spec,
};
use crate::order::SortKey;
use crate::resolve::Program;
use crate::sinks::first_fence_hit;
use crate::syntax::{Alias, Child, Stmt, StmtKind, TextRange};
use crate::text::{
    char_string, chars_of, copy_str, opt_str_view, push_char, push_str, split_chars, split_spec, str_eq,
    string_of, views,
};

verus! {

broadcast use vstd::string::group_string_axioms;

/// One module-level import edge.
pub struct ImportTarget {
    /// Absolute dotted module path.
    pub module: String,
    pub range: TextRange,
    /// Whether failing to resolve this target is a hole. `from a import b`
    /// makes `a` required and `a.b` optional: `b` may simply be a function.
    pub required: bool,
}

pub ghost struct TargetView {
    pub module: Seq<char>,
    pub range: TextRange,
    pub required: bool,
}

impl View for ImportTarget {
    type V = TargetView;

    open spec fn view(&self) -> TargetView {
        TargetView { module: self.module@, range: self.range, required: self.required }
    }
}

pub open spec fn target_views(t: Seq<ImportTarget>) -> Seq<TargetView> {
    t.map_values(|x: ImportTarget| x@)
}

/// `a.b.c` gives `a`, `a.b`, `a.b.c`: importing a submodule executes its
/// packages.
pub open spec fn ancestry_spec(module: Seq<char>) -> Seq<Seq<char>> {
    prefix_chain(split_spec(module, '.'))
}

pub fn ancestry(module: &str) -> (r: Vec<String>)
    ensures
        views(r@) == ancestry_spec(module@),
{
    let t = chars_of(module);
    let parts = split_chars(t.as_slice(), '.');
    let ghost ps = split_spec(module@, '.');
    let mut out: Vec<String> = Vec::new();
    let mut prefix = String::new();
    let mut i: usize = 0;
    assert(ps.take(0) =~= Seq::<Seq<char>>::empty());
    assert(views(out@) =~= Seq::<Seq<char>>::empty());
    while i < parts.len()
        invariant
            i <= parts@.len(),
            parts@.len() == ps.len(),
            ps == split_spec(module@, '.'),
            forall|k: int| 0 <= k < parts@.len() ==> #[trigger] parts@[k]@ == ps[k],
            prefix@ == (if i == 0 { Seq::<char>::empty() } else { prefix_chain(ps.take(i as int)).last() }),
            prefix_chain(ps.take(i as int)).len() == i,
            views(out@) == prefix_chain(ps.take(i as int)),
        decreases parts@.len() - i,
    {
        assert(ps.take(i + 1).drop_last() =~= ps.take(i as int));
        assert(ps.take(i + 1).last() == ps[i as int]);
        if !prefix.as_str().is_empty() {
            push_char(&mut prefix, '.');
        }
        let piece = string_of(parts[i].as_slice());
        push_str(&mut prefix, piece.as_str());
        let ghost before = out@;
        let next = prefix.clone();
        out.push(next);
        proof {
            crate::text::lemma_views_push(before, next);
        }
        i = i + 1;
    }
    assert(ps.take(parts@.len() as int) =~= ps);
    out
}

/// The import edges of a statement, nested statements included, before
/// duplicates are dropped; `package` is the module's package.
pub open spec fn stmt_targets(package: Seq<char>, s: Stmt) -> Seq<TargetView>
    decreases s,
{
    match s.kind {
        StmtKind::Import { names } => import_targets_of(names@, s.range),
        StmtKind::ImportFrom { module, names, level } => {
            let base = if level == 0 {
                opt_str_view(module)
            } else {
                resolve_relative_spec(package, level as nat, opt_str_view(module))
            };
            match base {
                None => Seq::empty(),
                Some(b) => seq![TargetView { module: b, range: s.range, required: true }]
                    + from_targets_of(b, names@, s.range),
            }
        },
        StmtKind::FunctionDef { body, .. } => body_targets(package, body@),
        StmtKind::ClassDef { body, .. } => body_targets(package, body@),
        StmtKind::Other { children } => children_targets(package, children@),
        _ => Seq::empty(),
    }
}

pub open spec fn import_targets_of(aliases: Seq<Alias>, range: TextRange) -> Seq<TargetView>
    decreases aliases.len(),
{
    if aliases.len() == 0 {
        Seq::empty()
    } else {
        import_targets_of(aliases.drop_last(), range).push(
            TargetView { module: aliases.last().name@, range, required: true },
        )
    }
}

pub open spec fn from_targets_of(base: Seq<char>, aliases: Seq<Alias>, range: TextRange) -> Seq<TargetView>
    decreases aliases.len(),
{
    if aliases.len() == 0 {
        Seq::empty()
    } else {
        let earlier = from_targets_of(base, aliases.drop_last(), range);
        if aliases.last().name@ == seq!['*'] {
            earlier
        } else {
            earlier.push(TargetView { module: base.push('.') + aliases.last().name@, range, required: false })
        }
    }
}

pub open spec fn children_targets(package: Seq<char>, children: Seq<Child>) -> Seq<TargetView>
    decreases children,
{
    if children.len() == 0 {
        Seq::empty()
    } else {
        children_targets(package, children.drop_last()) + match children.last() {
            Child::Stmt(st) => stmt_targets(package, st),
            Child::Expr(_) => Seq::empty(),
        }
    }
}

pub open spec fn body_targets(package: Seq<char>, body: Seq<Stmt>) -> Seq<TargetView>
    decreases body,
{
    if body.len() == 0 {
        Seq::empty()
    } else {
        body_targets(package, body.drop_last()) + stmt_targets(package, body.last())
    }
}

/// Target `k` has the module and offset of target `i`.
pub open spec fn same_key(t: Seq<TargetView>, i: int, k: int) -> bool {
    t[k].module == t[i].module && t[k].range.start == t[i].range.start
}

/// Whether an earlier target has the same module at the same offset.
pub open spec fn seen_before(raw: Seq<TargetView>, i: int) -> bool {
    exists|j: int| 0 <= j < i && #[trigger] same_key(raw, i, j)
}

/// The targets not preceded by one with the same module at the same offset.
pub open spec fn first_targets(raw: Seq<TargetView>) -> Seq<TargetView>
    decreases raw.len(),
{
    if raw.len() == 0 {
        Seq::empty()
    } else if seen_before(raw, raw.len() - 1) {
        first_targets(raw.drop_last())
    } else {
        first_targets(raw.drop_last()).push(raw.last())
    }
}

/// Every import edge in a module, including imports nested inside functions:
/// they execute when the function runs, which is inside the simulation.
pub open spec fn import_targets_spec(module: Module) -> Seq<TargetView> {
    first_targets(body_targets(package_spec(module.name@, module.is_package), module.body@))
}

} // verus!

verus! {

/// Each imported name other than `*` of a from-import is an optional target
/// under the base.
proof fn lemma_from_targets_name(base: Seq<char>, aliases: Seq<Alias>, range: TextRange, k: int)
    requires
        0 <= k < aliases.len(),
        aliases[k].name@ != seq!['*'],
    ensures
        from_targets_of(base, aliases, range).contains(
            TargetView { module: base.push('.') + aliases[k].name@, range, required: false },
        ),
    decreases aliases.len(),
{
    let t = TargetView { module: base.push('.') + aliases[k].name@, range, required: false };
    let init = aliases.drop_last();
    if k < aliases.len() - 1 {
        assert(init[k] == aliases[k]);
        lemma_from_targets_name(base, init, range, k);
        let earlier = from_targets_of(base, init, range);
        let j = choose|j: int| 0 <= j < earlier.len() && earlier[j] == t;
        if aliases.last().name@ != seq!['*'] {
            assert(earlier.push(TargetView { module: base.push('.') + aliases.last().name@, range, required: false })[j] == t);
        }
    } else {
        let earlier = from_targets_of(base, init, range);
        assert(earlier.push(t)[earlier.len() as int] == t);
    }
}

/// What a from-import makes reachable: `from B import n1, ..., nk` imports
/// the module `B` itself (it must exist) and, for each name that is not `*`,
/// possibly the submodule `B.ni`; for a relative import `B` is resolved
/// against the importing module's package first.
pub proof fn law_from_import_targets(package: Seq<char>, s: Stmt)
    ensures
        match s.kind {
            StmtKind::ImportFrom { module, names, level } => {
                let base = if level == 0 {
                    opt_str_view(module)
                } else {
                    resolve_relative_spec(package, level as nat, opt_str_view(module))
                };
                match base {
                    None => stmt_targets(package, s).len() == 0,
                    Some(b) => {
                        &&& stmt_targets(package, s).contains(TargetView { module: b, range: s.range, required: true })
                        &&& forall|k: int| 0 <= k < names@.len() && names@[k].name@ != seq!['*'] ==>
                            stmt_targets(package, s).contains(
                                TargetView { module: b.push('.') + (#[trigger] names@[k]).name@, range: s.range, required: false },
                            )
                    },
                }
            },
            _ => true,
        },
{
    match s.kind {
        StmtKind::ImportFrom { module, names, level } => {
            let base = if level == 0 {
                opt_str_view(module)
            } else {
                resolve_relative_spec(package, level as nat, opt_str_view(module))
            };
            match base {
                None => {},
                Some(b) => {
                    let head = seq![TargetView { module: b, range: s.range, required: true }];
                    let rest = from_targets_of(b, names@, s.range);
                    assert((head + rest)[0] == head[0]);
                    assert forall|k: int| 0 <= k < names@.len() && names@[k].name@ != seq!['*'] implies
                        stmt_targets(package, s).contains(
                            TargetView { module: b.push('.') + (#[trigger] names@[k]).name@, range: s.range, required: false },
                        ) by {
                        lemma_from_targets_name(b, names@, s.range, k);
                        let t = TargetView { module: b.push('.') + names@[k].name@, range: s.range, required: false };
                        let j = choose|j: int| 0 <= j < rest.len() && rest[j] == t;
                        assert((head + rest)[j + 1] == t);
                    }
                },
            }
        },
        _ => {},
    }
}

/// Every target of a statement of a body is a target of the body.
proof fn lemma_body_targets_include(package: Seq<char>, body: Seq<Stmt>, k: int, t: TargetView)
    requires
        0 <= k < body.len(),
        stmt_targets(package, body[k]).contains(t),
    ensures
        body_targets(package, body).contains(t),
    decreases body.len(),
{
    let init = body.drop_last();
    let earlier = body_targets(package, init);
    let last = stmt_targets(package, body.last());
    if k < body.len() - 1 {
        assert(init[k] == body[k]);
        lemma_body_targets_include(package, init, k, t);
        let j = choose|j: int| 0 <= j < earlier.len() && earlier[j] == t;
        assert((earlier + last)[j] == t);
    } else {
        let j = choose|j: int| 0 <= j < last.len() && last[j] == t;
        assert((earlier + last)[earlier.len() + j] == t);
    }
}

/// Dropping repeats keeps, for every target, one with its module and offset.
proof fn lemma_first_targets_keep(raw: Seq<TargetView>, i: int)
    requires
        0 <= i < raw.len(),
    ensures
        exists|j: int| 0 <= j < first_targets(raw).len() && #[trigger] first_targets(raw)[j].module == raw[i].module
            && first_targets(raw)[j].range.start == raw[i].range.start,
    decreases raw.len(), i,
{
    let init = raw.drop_last();
    let n = raw.len() - 1;
    let fr = first_targets(raw);
    let fi = first_targets(init);
    if seen_before(raw, n) {
        assert(fr == fi);
    } else {
        assert(fr == fi.push(raw[n]));
    }
    if i < n {
        assert(init[i] == raw[i]);
        lemma_first_targets_keep(init, i);
        let j = choose|j: int| 0 <= j < fi.len() && #[trigger] fi[j].module == init[i].module
            && fi[j].range.start == init[i].range.start;
        assert(fr[j] == fi[j]);
        assert(fr[j].module == raw[i].module);
    } else if seen_before(raw, n) {
        let j = choose|j: int| 0 <= j < n && #[trigger] same_key(raw, n, j);
        assert(init[j] == raw[j]);
        lemma_first_targets_keep(init, j);
        let q = choose|q: int| 0 <= q < fi.len() && #[trigger] fi[q].module == init[j].module
            && fi[q].range.start == init[j].range.start;
        assert(fr[q].module == raw[i].module);
    } else {
        assert(fr[fi.len() as int] == raw[n]);
        assert(fr[fi.len() as int].module == raw[i].module);
    }
}

/// A from-import among a module's statements makes the module import the
/// base and each named submodule: `from B import n` in a module gives it an
/// import target `B.n`, at the statement's offset, whether or not it also
/// imports `B` otherwise.
pub proof fn law_from_import_reaches_submodules(module: Module, k: int, n: int)
    requires
        0 <= k < module.body@.len(),
    ensures
        match module.body@[k].kind {
            StmtKind::ImportFrom { module: from, names, level } => {
                let package = package_spec(module.name@, module.is_package);
                let base = if level == 0 {
                    opt_str_view(from)
                } else {
                    resolve_relative_spec(package, level as nat, opt_str_view(from))
                };
                base is Some && 0 <= n < names@.len() && names@[n].name@ != seq!['*'] ==> exists|j: int|
                    0 <= j < import_targets_spec(module).len()
                        && #[trigger] import_targets_spec(module)[j].module == base->Some_0.push('.') + names@[n].name@
                        && import_targets_spec(module)[j].range.start == module.body@[k].range.start
            },
            _ => true,
        },
{
    let s = module.body@[k];
    match s.kind {
        StmtKind::ImportFrom { module: from, names, level } => {
            let package = package_spec(module.name@, module.is_package);
            let base = if level == 0 {
                opt_str_view(from)
            } else {
                resolve_relative_spec(package, level as nat, opt_str_view(from))
            };
            if base is Some && 0 <= n < names@.len() && names@[n].name@ != seq!['*'] {
                let b = base->Some_0;
                let t = TargetView { module: b.push('.') + names@[n].name@, range: s.range, required: false };
                law_from_import_targets(package, s);
                assert(stmt_targets(package, s).contains(t));
                lemma_body_targets_include(package, module.body@, k, t);
                let raw = body_targets(package, module.body@);
                let i = choose|i: int| 0 <= i < raw.len() && raw[i] == t;
                lemma_first_targets_keep(raw, i);
                let f = first_targets(raw);
                assert(import_targets_spec(module) == f);
                let j = choose|j: int| 0 <= j < f.len() && #[trigger] f[j].module == raw[i].module
                    && f[j].range.start == raw[i].range.start;
                assert(import_targets_spec(module)[j].module == b.push('.') + names@[n].name@);
            }
        },
        _ => {},
    }
}

proof fn lemma_push_target(a: Seq<ImportTarget>, x: ImportTarget)
    ensures
        target_views(a.push(x)) == target_views(a).push(x@),
{
    assert(target_views(a.push(x)) =~= target_views(a).push(x@));
}

fn collect_stmt_targets(package: &str, s: &Stmt, out: &mut Vec<ImportTarget>)
    ensures
        target_views(final(out)@) == target_views(old(out)@) + stmt_targets(package@, *s),
    decreases *s,
{
    let ghost start = target_views(out@);
    match &s.kind {
        StmtKind::Import { names } => {
            let mut i: usize = 0;
            assert(start + Seq::empty() =~= start);
            while i < names.len()
                invariant
                    i <= names@.len(),
                    target_views(out@) == start + import_targets_of(names@.take(i as int), s.range),
                decreases names@.len() - i,
            {
                assert(names@.take(i + 1).drop_last() =~= names@.take(i as int));
                assert(names@.take(i + 1).last() == names@[i as int]);
                let ghost before = out@;
                let t = ImportTarget { module: names[i].name.clone(), range: s.range, required: true };
                out.push(t);
                proof { lemma_push_target(before, t); }
                assert(target_views(out@) =~= start + import_targets_of(names@.take(i + 1), s.range));
                i = i + 1;
            }
            assert(names@.take(i as int) =~= names@);
        },
        StmtKind::ImportFrom { module, names, level } => {
            let base = if *level == 0 {
                match module {
                    Some(m) => Some(m.clone()),
                    None => None,
                }
            } else {
                let tail = match module {
                    Some(m) => Some(m.as_str()),
                    None => None,
                };
                resolve_relative(package, *level, tail)
            };
            let base = match base {
                Some(b) => b,
                None => {
                    assert(start + Seq::empty() =~= start);
                    return;
                },
            };
            let ghost before = out@;
            let t = ImportTarget { module: base.clone(), range: s.range, required: true };
            out.push(t);
            proof { lemma_push_target(before, t); }
            let ghost mid = target_views(out@);
            let star = char_string('*');
            let mut i: usize = 0;
            assert(mid + Seq::empty() =~= mid);
            while i < names.len()
                invariant
                    i <= names@.len(),
                    star@ == seq!['*'],
                    target_views(out@) == mid + from_targets_of(base@, names@.take(i as int), s.range),
                decreases names@.len() - i,
            {
                assert(names@.take(i + 1).drop_last() =~= names@.take(i as int));
                assert(names@.take(i + 1).last() == names@[i as int]);
                let name = &names[i].name;
                if !str_eq(name.as_str(), star.as_str()) {
                    let mut q = base.clone();
                    push_char(&mut q, '.');
                    push_str(&mut q, name.as_str());
                    let ghost prior = out@;
                    let t = ImportTarget { module: q, range: s.range, required: false };
                    out.push(t);
                    proof { lemma_push_target(prior, t); }
                }
                assert(target_views(out@) =~= mid + from_targets_of(base@, names@.take(i + 1), s.range));
                i = i + 1;
            }
            assert(names@.take(i as int) =~= names@);
            assert(target_views(out@) =~= start + stmt_targets(package@, *s));
        },
        StmtKind::FunctionDef { body, .. } => collect_body_targets(package, body, out),
        StmtKind::ClassDef { body, .. } => collect_body_targets(package, body, out),
        StmtKind::Other { children } => {
            let mut i: usize = 0;
            assert(start + Seq::empty() =~= start);
            while i < children.len()
                invariant
                    i <= children@.len(),
                    s.kind is Other,
                    s.kind->Other_children == *children,
                    target_views(out@) == start + children_targets(package@, children@.take(i as int)),
                decreases children@.len() - i,
            {
                assert(children@.take(i + 1).drop_last() =~= children@.take(i as int));
                assert(children@.take(i + 1).last() == children@[i as int]);
                match &children[i] {
                    Child::Stmt(st) => {
                        proof {
                            assert(decreases_to!(*s => *st)) by {
                                assert(decreases_to!(s.kind => children@[i as int]));
                            }
                        }
                        collect_stmt_targets(package, st, out);
                    },
                    Child::Expr(_) => {},
                }
                assert(target_views(out@) =~= start + children_targets(package@, children@.take(i + 1)));
                i = i + 1;
            }
            assert(children@.take(i as int) =~= children@);
        },
        _ => {
            assert(start + Seq::empty() =~= start);
        },
    }
}

fn collect_body_targets(package: &str, body: &Vec<Stmt>, out: &mut Vec<ImportTarget>)
    ensures
        target_views(final(out)@) == target_views(old(out)@) + body_targets(package@, body@),
    decreases body@,
{
    let ghost start = target_views(out@);
    let mut i: usize = 0;
    assert(start + Seq::empty() =~= start);
    while i < body.len()
        invariant
            i <= body@.len(),
            target_views(out@) == start + body_targets(package@, body@.take(i as int)),
        decreases body@.len() - i,
    {
        assert(body@.take(i + 1).drop_last() =~= body@.take(i as int));
        assert(body@.take(i + 1).last() == body@[i as int]);
        collect_stmt_targets(package, &body[i], out);
        assert(target_views(out@) =~= start + body_targets(package@, body@.take(i + 1)));
        i = i + 1;
    }
    assert(body@.take(i as int) =~= body@);
}

/// Every import edge in a module, including imports nested inside functions,
/// each module at each offset once.
pub fn import_targets(module: &Module) -> (r: Vec<ImportTarget>)
    ensures
        target_views(r@) == import_targets_spec(*module),
{
    let package = module.package();
    let mut raw: Vec<ImportTarget> = Vec::new();
    collect_body_targets(package.as_str(), &module.body, &mut raw);
    assert(target_views(raw@) =~= body_targets(package@, module.body@));
    let ghost rv = target_views(raw@);
    let mut out: Vec<ImportTarget> = Vec::new();
    let mut i: usize = 0;
    assert(rv.take(0) =~= Seq::<TargetView>::empty());
    assert(target_views(out@) =~= Seq::<TargetView>::empty());
    while i < raw.len()
        invariant
            i <= raw@.len(),
            rv == target_views(raw@),
            target_views(out@) == first_targets(rv.take(i as int)),
        decreases raw@.len() - i,
    {
        let ghost pre = rv.take(i + 1);
        assert(pre.drop_last() =~= rv.take(i as int));
        assert(pre.last() == rv[i as int]);
        let mut j: usize = 0;
        let mut seen = false;
        while j < i
            invariant
                j <= i < raw@.len(),
                rv == target_views(raw@),
                pre == rv.take(i + 1),
                seen == exists|k: int| 0 <= k < j && #[trigger] same_key(pre, i as int, k),
            decreases i - j,
        {
            let c = raw[j].range.start == raw[i].range.start && str_eq(raw[j].module.as_str(), raw[i].module.as_str());
            proof {
                assert(pre[j as int] == rv[j as int]);
                assert(pre[i as int] == rv[i as int]);
                assert(c == same_key(pre, i as int, j as int));
            }
            if c {
                seen = true;
            }
            j = j + 1;
        }
        assert(seen == seen_before(pre, pre.len() - 1));
        if !seen {
            let ghost before = out@;
            let t = ImportTarget { module: raw[i].module.clone(), range: raw[i].range, required: raw[i].required };
            out.push(t);
            proof { lemma_push_target(before, t); }
        }
        i = i + 1;
    }
    assert(rv.take(i as int) =~= rv);
    out
}

} // verus!

verus! {

/// An import inside the closure that led somewhere the analysis cannot see.
pub struct UnresolvedImport {
    pub module: ModuleId,
    pub target: String,
    pub range: TextRange,
}

impl SortKey for UnresolvedImport {
    /// By module, then offset, then target, then end offset.
    open spec fn key_lt(&self, other: &Self) -> bool {
        ||| self.module.spec_index() < other.module.spec_index()
        ||| (self.module.spec_index() == other.module.spec_index() && self.range.start < other.range.start)
        ||| (self.module.spec_index() == other.module.spec_index() && self.range.start == other.range.start
            && crate::order::lex_lt(self.target@, other.target@))
        ||| (self.module.spec_index() == other.module.spec_index() && self.range.start == other.range.start
            && self.target@ == other.target@ && self.range.end < other.range.end)
    }

    fn less_than(&self, other: &Self) -> (r: bool) {
        let a = self.module.index();
        let b = other.module.index();
        if a != b {
            return a < b;
        }
        if self.range.start != other.range.start {
            return self.range.start < other.range.start;
        }
        if !crate::text::str_eq(self.target.as_str(), other.target.as_str()) {
            return crate::order::str_lt(self.target.as_str(), other.target.as_str());
        }
        proof {
            crate::order::lemma_lex_irreflexive(self.target@);
        }
        self.range.end < other.range.end
    }
}

/// The transitive import closure of the declared sim roots.
pub struct Closure {
    /// Modules in the closure, in discovery order.
    pub order: Vec<ModuleId>,
    /// Root to module, by module position; `Some` exactly for members.
    pub chains: Vec<Option<Vec<String>>>,
    pub unresolved: Vec<UnresolvedImport>,
}

/// Sim roots naming modules that were never collected. Failing loudly beats
/// silently checking nothing.
pub struct MissingRoots(pub Vec<String>);

/// The chains as values.
pub open spec fn chain_views(chains: Seq<Option<Vec<String>>>) -> Seq<Option<Seq<Seq<char>>>> {
    chains.map_values(|o: Option<Vec<String>>| match o {
        Some(v) => Some(views(v@)),
        None => None,
    })
}

/// The positions of modules, in order.
pub open spec fn id_indices(order: Seq<ModuleId>) -> Seq<int> {
    order.map_values(|id: ModuleId| id.spec_index() as int)
}

/// The module at `i` imports something whose ancestry includes `name`.
pub open spec fn import_edge(modules: Seq<Module>, i: int, name: Seq<char>) -> bool {
    exists|t: int| 0 <= t < import_targets_spec(modules[i]).len()
        && #[trigger] ancestry_spec(import_targets_spec(modules[i])[t].module).contains(name)
}

/// The module named `from` imports, directly or through a package, `to`.
pub open spec fn step(modules: Seq<Module>, from: Seq<char>, to: Seq<char>) -> bool {
    exists|i: int| 0 <= i < modules.len() && #[trigger] modules[i].name@ == from && import_edge(modules, i, to)
}

/// A witness chain: it starts at a sim root, names collected modules, and
/// each module in it imports the next.
pub open spec fn valid_chain(modules: Seq<Module>, roots: Seq<Seq<char>>, chain: Seq<Seq<char>>) -> bool {
    &&& chain.len() >= 1
    &&& roots.contains(chain[0])
    &&& forall|k: int| 0 <= k < chain.len() ==> module_names(modules).contains(#[trigger] chain[k])
    &&& forall|k: int| 0 <= k < chain.len() - 1 ==> #[trigger] step(modules, chain[k], chain[k + 1])
}

/// The search state: members are exactly those listed in `order`, once
/// each, and each member's chain is a witness ending at it.
pub open spec fn search_ok(modules: Seq<Module>, roots: Seq<Seq<char>>, chains: Seq<Option<Seq<Seq<char>>>>, order: Seq<int>) -> bool {
    &&& chains.len() == modules.len()
    &&& forall|k: int| 0 <= k < order.len() ==> 0 <= #[trigger] order[k] < modules.len() && chains[order[k]] is Some
    &&& forall|i: int| 0 <= i < chains.len() && #[trigger] chains[i] is Some ==> order.contains(i)
    &&& order.no_duplicates()
    &&& forall|i: int| 0 <= i < chains.len() && #[trigger] chains[i] is Some ==> valid_chain(modules, roots, chains[i]->Some_0)
        && chains[i]->Some_0.last() == modules[i].name@
}

/// Every collected module the member at `i` imports, directly or through a
/// package, is a member.
pub open spec fn closed_at(modules: Seq<Module>, chains: Seq<Option<Seq<Seq<char>>>>, i: int) -> bool {
    forall|t: int, c: Seq<char>|
        0 <= t < import_targets_spec(modules[i]).len() && #[trigger] ancestry_spec(import_targets_spec(modules[i])[t].module).contains(c)
            && module_names(modules).contains(c)
            ==> exists|j: int| 0 <= j < modules.len() && #[trigger] modules[j].name@ == c && chains[j] is Some
}

/// A required import target of the module at `i`, `c` itself, that is not
/// collected, not fenced (the import is reported by the scan already), and
/// not trusted or allowed.
pub open spec fn opaque_import(modules: Seq<Module>, config: Resolved, t: TargetView, c: Seq<char>) -> bool {
    &&& ancestry_spec(t.module).contains(c)
    &&& t.required
    &&& c == t.module
    &&& !module_names(modules).contains(c)
    &&& first_fence_hit(config.sinks_view(), c) is None
    &&& !covered_by(config.trusted_view(), c)
    &&& !config.opaque_allow_view().contains(c)
}

/// The unresolved entry `u` is an opaque import of a member.
pub open spec fn reports_opaque(modules: Seq<Module>, config: Resolved, u: UnresolvedImport) -> bool {
    let i = u.module.spec_index() as int;
    &&& 0 <= i < modules.len()
    &&& exists|t: int| 0 <= t < import_targets_spec(modules[i]).len()
        && #[trigger] opaque_import(modules, config, import_targets_spec(modules[i])[t], u.target@)
        && import_targets_spec(modules[i])[t].range == u.range
}

/// Every opaque import of the member at `i` has an entry.
pub open spec fn opaque_reported_at(modules: Seq<Module>, config: Resolved, unresolved: Seq<UnresolvedImport>, i: int) -> bool {
    forall|t: int, c: Seq<char>|
        0 <= t < import_targets_spec(modules[i]).len() && #[trigger] opaque_import(modules, config, import_targets_spec(modules[i])[t], c)
            ==> exists|q: int| 0 <= q < unresolved.len() && #[trigger] unresolved[q].module.spec_index() == i
                && unresolved[q].target@ == c && unresolved[q].range == import_targets_spec(modules[i])[t].range
}

/// The sim roots that name no collected module, in order.
pub open spec fn missing_roots(modules: Seq<Module>, roots: Seq<Seq<char>>) -> Seq<Seq<char>>
    decreases roots.len(),
{
    if roots.len() == 0 {
        Seq::empty()
    } else {
        let earlier = missing_roots(modules, roots.drop_last());
        if module_names(modules).contains(roots.last()) {
            earlier
        } else {
            earlier.push(roots.last())
        }
    }
}

} // verus!

verus! {

proof fn lemma_chain_views_update(s: Seq<Option<Vec<String>>>, i: int, v: Vec<String>)
    requires
        0 <= i < s.len(),
    ensures
        chain_views(s.update(i, Some(v))) == chain_views(s).update(i, Some(views(v@))),
{
    assert(chain_views(s.update(i, Some(v))) =~= chain_views(s).update(i, Some(views(v@))));
}

proof fn lemma_id_indices_push(s: Seq<ModuleId>, id: ModuleId)
    ensures
        id_indices(s.push(id)) == id_indices(s).push(id.spec_index() as int),
{
    assert(id_indices(s.push(id)) =~= id_indices(s).push(id.spec_index() as int));
}

/// Makes the module at `next` a member with the witness `chain`.
fn add_member(
    chains: &mut Vec<Option<Vec<String>>>,
    order: &mut Vec<ModuleId>,
    next: ModuleId,
    chain: Vec<String>,
    Ghost(modules): Ghost<Seq<Module>>,
    Ghost(roots): Ghost<Seq<Seq<char>>>,
)
    requires
        search_ok(modules, roots, chain_views(old(chains)@), id_indices(old(order)@)),
        next.spec_index() < modules.len(),
        old(chains)@[next.spec_index() as int] is None,
        valid_chain(modules, roots, views(chain@)),
        views(chain@).last() == modules[next.spec_index() as int].name@,
    ensures
        search_ok(modules, roots, chain_views(final(chains)@), id_indices(final(order)@)),
        chain_views(final(chains)@) == chain_views(old(chains)@).update(next.spec_index() as int, Some(views(chain@))),
        id_indices(final(order)@) == id_indices(old(order)@).push(next.spec_index() as int),
{
    let ghost old_chains = chains@;
    let ghost old_order = order@;
    let ghost cv = views(chain@);
    let ghost n = next.spec_index() as int;
    proof {
        lemma_chain_views_update(old_chains, n, chain);
        lemma_id_indices_push(old_order, next);
        assert(!id_indices(old_order).contains(n)) by {
            if id_indices(old_order).contains(n) {
                let k = choose|k: int| 0 <= k < id_indices(old_order).len() && id_indices(old_order)[k] == n;
                assert(chain_views(old_chains)[id_indices(old_order)[k]] is Some);
            }
        }
    }
    chains.set(next.index(), Some(chain));
    order.push(next);
    proof {
        let c2 = chain_views(chains@);
        let o2 = id_indices(order@);
        assert forall|k: int| 0 <= k < o2.len() implies 0 <= #[trigger] o2[k] < modules.len() && c2[o2[k]] is Some by {
            if k < old_order.len() {
                assert(o2[k] == id_indices(old_order)[k]);
            }
        }
        assert forall|i: int| 0 <= i < c2.len() && #[trigger] c2[i] is Some implies o2.contains(i) by {
            if i == n {
                assert(o2[o2.len() - 1] == n);
            } else {
                assert(chain_views(old_chains)[i] is Some);
                let k = choose|k: int| 0 <= k < id_indices(old_order).len() && id_indices(old_order)[k] == i;
                assert(o2[k] == i);
            }
        }
        assert(o2.no_duplicates()) by {
            assert forall|a: int, b: int| 0 <= a < o2.len() && 0 <= b < o2.len() && a != b implies o2[a] != o2[b] by {
                if a < old_order.len() && b < old_order.len() {
                    assert(o2[a] == id_indices(old_order)[a] && o2[b] == id_indices(old_order)[b]);
                } else if a < old_order.len() {
                    assert(o2[a] == id_indices(old_order)[a]);
                    assert(id_indices(old_order).contains(o2[a]));
                } else if b < old_order.len() {
                    assert(o2[b] == id_indices(old_order)[b]);
                    assert(id_indices(old_order).contains(o2[b]));
                }
            }
        }
    }
}

/// The witness chain `chain` extended by `c`.
fn extend_chain(chain: &Vec<String>, c: &String) -> (r: Vec<String>)
    ensures
        views(r@) == views(chain@).push(c@),
{
    let mut out = crate::text::copy_strings(chain);
    let ghost before = out@;
    out.push(c.clone());
    proof {
        crate::text::lemma_views_push(before, out@.last());
    }
    out
}

/// A witness chain extended by a module its last module imports is one.
proof fn lemma_extend_valid(modules: Seq<Module>, roots: Seq<Seq<char>>, chain: Seq<Seq<char>>, i: int, t: int, c: Seq<char>)
    requires
        valid_chain(modules, roots, chain),
        0 <= i < modules.len(),
        chain.last() == modules[i].name@,
        0 <= t < import_targets_spec(modules[i]).len(),
        ancestry_spec(import_targets_spec(modules[i])[t].module).contains(c),
        module_names(modules).contains(c),
    ensures
        valid_chain(modules, roots, chain.push(c)),
{
    let ext = chain.push(c);
    assert(ext[0] == chain[0]);
    assert forall|k: int| 0 <= k < ext.len() implies module_names(modules).contains(#[trigger] ext[k]) by {
        if k < chain.len() {
            assert(ext[k] == chain[k]);
        }
    }
    assert forall|k: int| 0 <= k < ext.len() - 1 implies #[trigger] step(modules, ext[k], ext[k + 1]) by {
        if k < chain.len() - 1 {
            assert(ext[k] == chain[k] && ext[k + 1] == chain[k + 1]);
        } else {
            assert(ext[k] == modules[i].name@);
            assert(ext[k + 1] == c);
            assert(import_edge(modules, i, c));
        }
    }
}

} // verus!

verus! {

/// Every member keeps its chain.
pub open spec fn chains_grow(before: Seq<Option<Seq<Seq<char>>>>, after: Seq<Option<Seq<Seq<char>>>>) -> bool {
    &&& before.len() == after.len()
    &&& forall|i: int| 0 <= i < before.len() && #[trigger] before[i] is Some ==> after[i] == before[i]
}

/// `before` is a prefix of `after`.
pub open spec fn extends<T>(before: Seq<T>, after: Seq<T>) -> bool {
    &&& before.len() <= after.len()
    &&& forall|k: int| 0 <= k < before.len() ==> #[trigger] after[k] == before[k]
}

/// The entries are opaque imports of members.
pub open spec fn entries_sound(modules: Seq<Module>, config: Resolved, chains: Seq<Option<Seq<Seq<char>>>>, raw: Seq<UnresolvedImport>) -> bool {
    forall|q: int| 0 <= q < raw.len() ==> reports_opaque(modules, config, #[trigger] raw[q])
        && chains[raw[q].module.spec_index() as int] is Some
}

/// Candidate `c` of the member at `i` is handled: a collected module is a
/// member, an opaque import has an entry.
pub open spec fn handled(
    modules: Seq<Module>,
    config: Resolved,
    chains: Seq<Option<Seq<Seq<char>>>>,
    raw: Seq<UnresolvedImport>,
    i: int,
    t: int,
    c: Seq<char>,
) -> bool {
    &&& module_names(modules).contains(c) ==> exists|j: int| 0 <= j < modules.len() && #[trigger] modules[j].name@ == c && chains[j] is Some
    &&& opaque_import(modules, config, import_targets_spec(modules[i])[t], c) ==> exists|q: int| 0 <= q < raw.len()
        && #[trigger] raw[q].module.spec_index() == i && raw[q].target@ == c
        && raw[q].range == import_targets_spec(modules[i])[t].range
}

proof fn lemma_handled_grows(
    modules: Seq<Module>,
    config: Resolved,
    c1: Seq<Option<Seq<Seq<char>>>>,
    r1: Seq<UnresolvedImport>,
    c2: Seq<Option<Seq<Seq<char>>>>,
    r2: Seq<UnresolvedImport>,
    i: int,
    t: int,
    c: Seq<char>,
)
    requires
        handled(modules, config, c1, r1, i, t, c),
        chains_grow(c1, c2),
        extends(r1, r2),
        c1.len() == modules.len(),
    ensures
        handled(modules, config, c2, r2, i, t, c),
{
    if module_names(modules).contains(c) {
        let j = choose|j: int| 0 <= j < modules.len() && #[trigger] modules[j].name@ == c && c1[j] is Some;
        assert(c2[j] == c1[j]);
    }
    if opaque_import(modules, config, import_targets_spec(modules[i])[t], c) {
        let q = choose|q: int| 0 <= q < r1.len() && #[trigger] r1[q].module.spec_index() == i && r1[q].target@ == c
            && r1[q].range == import_targets_spec(modules[i])[t].range;
        assert(r2[q] == r1[q]);
    }
}

/// The state of the breadth-first search: each module's witness chain, if
/// it is a member, and the members in the order they joined.
pub ghost struct Search {
    pub chains: Seq<Option<Seq<Seq<char>>>>,
    pub order: Seq<int>,
}

pub open spec fn search_of(chains: Seq<Option<Vec<String>>>, order: Seq<ModuleId>) -> Search {
    Search { chains: chain_views(chains), order: id_indices(order) }
}

/// Reaching the name `c` from a member whose witness is `chain`: a collected
/// module that is no member yet joins, with `chain` extended by `c`.
pub open spec fn reach(modules: Seq<Module>, s: Search, chain: Seq<Seq<char>>, c: Seq<char>) -> Search {
    match crate::resolve::modules::id_of_spec(modules, c) {
        Some(id) => if s.chains[id.spec_index() as int] is None {
            Search {
                chains: s.chains.update(id.spec_index() as int, Some(chain.push(c))),
                order: s.order.push(id.spec_index() as int),
            }
        } else {
            s
        },
        None => s,
    }
}

/// Reaching each of `names` in turn.
pub open spec fn reach_all(modules: Seq<Module>, s: Search, chain: Seq<Seq<char>>, names: Seq<Seq<char>>) -> Search
    decreases names.len(),
{
    if names.len() == 0 {
        s
    } else {
        reach(modules, reach_all(modules, s, chain, names.drop_last()), chain, names.last())
    }
}

/// Reaching the ancestry of each import target in turn.
pub open spec fn reach_targets(modules: Seq<Module>, s: Search, chain: Seq<Seq<char>>, targets: Seq<TargetView>) -> Search
    decreases targets.len(),
{
    if targets.len() == 0 {
        s
    } else {
        reach_all(modules, reach_targets(modules, s, chain, targets.drop_last()), chain, ancestry_spec(targets.last().module))
    }
}

/// Expanding the member at `i`.
pub open spec fn expand_spec(modules: Seq<Module>, s: Search, i: int) -> Search {
    reach_targets(modules, s, s.chains[i]->Some_0, import_targets_spec(modules[i]))
}

/// Expanding the members from `head` on, in the order they joined, until
/// every member is expanded (or `fuel` runs out).
pub open spec fn breadth_first(modules: Seq<Module>, s: Search, head: nat, fuel: nat) -> Search
    decreases fuel,
{
    if fuel == 0 || head >= s.order.len() {
        s
    } else {
        breadth_first(modules, expand_spec(modules, s, s.order[head as int]), head + 1, (fuel - 1) as nat)
    }
}

/// The roots as the search starts from them: each collected root joins,
/// in order, with itself as its witness.
pub open spec fn seeded(modules: Seq<Module>, roots: Seq<Seq<char>>) -> Search
    decreases roots.len(),
{
    if roots.len() == 0 {
        Search { chains: Seq::new(modules.len(), |i: int| None), order: Seq::empty() }
    } else {
        let s = seeded(modules, roots.drop_last());
        let r = roots.last();
        match crate::resolve::modules::id_of_spec(modules, r) {
            Some(id) => if s.chains[id.spec_index() as int] is None {
                Search {
                    chains: s.chains.update(id.spec_index() as int, Some(seq![r])),
                    order: s.order.push(id.spec_index() as int),
                }
            } else {
                s
            },
            None => s,
        }
    }
}

/// The closure's members, their order and their witness chains are those
/// of the breadth-first search from the roots.
pub open spec fn found_by_search(modules: Seq<Module>, roots: Seq<Seq<char>>, c: Closure) -> bool {
    search_of(c.chains@, c.order@) == breadth_first(modules, seeded(modules, roots), 0, (modules.len() + 1) as nat)
}

/// Follows every import of the member `id`: collected modules become
/// members, opaque imports get entries.
fn expand(
    table: &ModuleTable,
    config: &Resolved,
    id: ModuleId,
    chains: &mut Vec<Option<Vec<String>>>,
    order: &mut Vec<ModuleId>,
    raw: &mut Vec<UnresolvedImport>,
    Ghost(roots): Ghost<Seq<Seq<char>>>,
)
    requires
        search_ok(table.modules_view(), roots, chain_views(old(chains)@), id_indices(old(order)@)),
        entries_sound(table.modules_view(), *config, chain_views(old(chains)@), old(raw)@),
        id.spec_index() < table.modules_view().len(),
        chain_views(old(chains)@)[id.spec_index() as int] is Some,
    ensures
        search_ok(table.modules_view(), roots, chain_views(final(chains)@), id_indices(final(order)@)),
        entries_sound(table.modules_view(), *config, chain_views(final(chains)@), final(raw)@),
        chains_grow(chain_views(old(chains)@), chain_views(final(chains)@)),
        extends(id_indices(old(order)@), id_indices(final(order)@)),
        extends(old(raw)@, final(raw)@),
        closed_at(table.modules_view(), chain_views(final(chains)@), id.spec_index() as int),
        opaque_reported_at(table.modules_view(), *config, final(raw)@, id.spec_index() as int),
        search_of(final(chains)@, final(order)@) == expand_spec(table.modules_view(), search_of(old(chains)@, old(order)@), id.spec_index() as int),
{
    let ghost modules = table.modules_view();
    let ghost c0 = chain_views(chains@);
    let ghost o0 = id_indices(order@);
    let ghost s0 = search_of(chains@, order@);
    let ghost r0 = raw@;
    let ghost i = id.spec_index() as int;
    let module = table.module(id);
    let chain = match &chains[id.index()] {
        Some(c) => crate::text::copy_strings(c),
        None => {
            proof {
                assert(chain_views(chains@)[i] == None::<Seq<Seq<char>>>);
            }
            return;
        },
    };
    assert(views(chain@) == c0[i]->Some_0);
    let targets = import_targets(module);
    let ghost ts = import_targets_spec(modules[i]);
    let ghost cv = c0[i]->Some_0;
    assert(target_views(targets@) == ts);
    assert(ts.take(0) =~= Seq::<TargetView>::empty());
    let mut t: usize = 0;
    while t < targets.len()
        invariant
            modules == table.modules_view(),
            0 <= i < modules.len(),
            i == id.spec_index(),
            ts == import_targets_spec(modules[i]),
            target_views(targets@) == ts,
            t <= targets@.len(),
            views(chain@) == c0[i]->Some_0,
            search_ok(modules, roots, chain_views(chains@), id_indices(order@)),
            entries_sound(modules, *config, chain_views(chains@), raw@),
            chains_grow(c0, chain_views(chains@)),
            extends(o0, id_indices(order@)),
            extends(r0, raw@),
            c0[i] is Some,
            cv == c0[i]->Some_0,
            s0 == search_of(old(chains)@, old(order)@),
            s0.chains == c0,
            search_of(chains@, order@) == reach_targets(modules, s0, cv, ts.take(t as int)),
            forall|t2: int, c: Seq<char>| 0 <= t2 < t && #[trigger] ancestry_spec(ts[t2].module).contains(c)
                ==> handled(modules, *config, chain_views(chains@), raw@, i, t2, c),
        decreases targets@.len() - t,
    {
        let target = &targets[t];
        assert(target@ == ts[t as int]);
        let cands = ancestry(target.module.as_str());
        let ghost cs = ancestry_spec(ts[t as int].module);
        let ghost st = search_of(chains@, order@);
        assert(cs.take(0) =~= Seq::<Seq<char>>::empty());
        assert(ts.take(t + 1).drop_last() =~= ts.take(t as int));
        assert(ts.take(t + 1).last() == ts[t as int]);
        let mut ci: usize = 0;
        while ci < cands.len()
            invariant
                modules == table.modules_view(),
                0 <= i < modules.len(),
                i == id.spec_index(),
                ts == import_targets_spec(modules[i]),
                target_views(targets@) == ts,
                t < targets@.len(),
                target@ == ts[t as int],
                views(cands@) == cs,
                cs == ancestry_spec(ts[t as int].module),
                ci <= cands@.len(),
                views(chain@) == c0[i]->Some_0,
                search_ok(modules, roots, chain_views(chains@), id_indices(order@)),
                entries_sound(modules, *config, chain_views(chains@), raw@),
                chains_grow(c0, chain_views(chains@)),
                extends(o0, id_indices(order@)),
                extends(r0, raw@),
                c0[i] is Some,
                cv == c0[i]->Some_0,
                st == reach_targets(modules, s0, cv, ts.take(t as int)),
                search_of(chains@, order@) == reach_all(modules, st, cv, cs.take(ci as int)),
                forall|t2: int, c: Seq<char>| 0 <= t2 < t && #[trigger] ancestry_spec(ts[t2].module).contains(c)
                    ==> handled(modules, *config, chain_views(chains@), raw@, i, t2, c),
                forall|k: int| 0 <= k < ci ==> handled(modules, *config, chain_views(chains@), raw@, i, t as int, #[trigger] cs[k]),
            decreases cands@.len() - ci,
        {
            let c = &cands[ci];
            assert(c@ == cs[ci as int]);
            assert(cs.take(ci + 1).drop_last() =~= cs.take(ci as int));
            assert(cs.take(ci + 1).last() == cs[ci as int]);
            let ghost c1 = chain_views(chains@);
            let ghost o1 = id_indices(order@);
            let ghost r1 = raw@;
            let required = target.required && str_eq(c.as_str(), target.module.as_str());
            match table.id_of(c.as_str()) {
                Some(next) => {
                    let ghost nx = next.spec_index() as int;
                    assert(modules[nx].name@ == c@);
                    if chains[next.index()].is_none() {
                        assert(chain_views(chains@)[nx] is None);
                        assert(module_names(modules).contains(c@));
                        assert(cs.contains(c@)) by {
                            assert(cs[ci as int] == c@);
                        }
                        proof {
                            assert(c1[i] == c0[i]);
                            lemma_extend_valid(modules, roots, c0[i]->Some_0, i, t as int, c@);
                        }
                        let ext = extend_chain(&chain, c);
                        add_member(chains, order, next, ext, Ghost(modules), Ghost(roots));
                        proof {
                            let c2 = chain_views(chains@);
                            assert(chains_grow(c1, c2));
                            assert(c2[nx] is Some);
                        }
                    }
                    proof {
                        let c2 = chain_views(chains@);
                        assert(c2[nx] is Some);
                        assert(chains_grow(c1, c2));
                        assert(extends(r1, raw@));
                        assert forall|t2: int, cc: Seq<char>| 0 <= t2 < t && #[trigger] ancestry_spec(ts[t2].module).contains(cc)
                            implies handled(modules, *config, c2, raw@, i, t2, cc) by {
                            lemma_handled_grows(modules, *config, c1, r1, c2, raw@, i, t2, cc);
                        }
                        assert forall|k: int| 0 <= k < ci + 1 implies handled(modules, *config, c2, raw@, i, t as int, #[trigger] cs[k]) by {
                            if k < ci {
                                lemma_handled_grows(modules, *config, c1, r1, c2, raw@, i, t as int, cs[k]);
                            } else {
                                assert(modules[nx].name@ == cs[k]);
                                assert(!opaque_import(modules, *config, ts[t as int], cs[k]));
                            }
                        }
                    }
                    ci = ci + 1;
                    continue;
                },
                None => {},
            }
            assert(!module_names(modules).contains(c@));
            let fenced = config.sinks().match_module(c.as_str()).is_some();
            let trusted = config.is_trusted_module(c.as_str()) || config.is_opaque_allowed(c.as_str());
            if required && !fenced && !trusted {
                assert(opaque_import(modules, *config, ts[t as int], c@)) by {
                    assert(cs[ci as int] == c@);
                }
                let u = UnresolvedImport { module: id, target: c.clone(), range: target.range };
                raw.push(u);
                proof {
                    assert(raw@[raw@.len() - 1] == u);
                    assert(reports_opaque(modules, *config, u)) by {
                        assert(opaque_import(modules, *config, import_targets_spec(modules[i])[t as int], u.target@));
                    }
                    assert forall|q: int| 0 <= q < raw@.len() implies reports_opaque(modules, *config, #[trigger] raw@[q])
                        && chain_views(chains@)[raw@[q].module.spec_index() as int] is Some by {
                        if q < r1.len() {
                            assert(raw@[q] == r1[q]);
                        }
                    }
                }
            } else {
                proof {
                    if opaque_import(modules, *config, ts[t as int], c@) {
                        assert(required);
                        assert(!fenced);
                        assert(!trusted);
                    }
                }
            }
            proof {
                let c2 = chain_views(chains@);
                assert(extends(r1, raw@));
                assert(chains_grow(c1, c2));
                assert forall|t2: int, cc: Seq<char>| 0 <= t2 < t && #[trigger] ancestry_spec(ts[t2].module).contains(cc)
                    implies handled(modules, *config, c2, raw@, i, t2, cc) by {
                    lemma_handled_grows(modules, *config, c1, r1, c2, raw@, i, t2, cc);
                }
                assert forall|k: int| 0 <= k < ci + 1 implies handled(modules, *config, c2, raw@, i, t as int, #[trigger] cs[k]) by {
                    if k < ci {
                        lemma_handled_grows(modules, *config, c1, r1, c2, raw@, i, t as int, cs[k]);
                    } else {
                        if opaque_import(modules, *config, ts[t as int], cs[k]) {
                            assert(raw@[raw@.len() - 1].module.spec_index() == i);
                        }
                    }
                }
            }
            ci = ci + 1;
        }
        assert(cs.take(ci as int) =~= cs);
        proof {
            assert forall|t2: int, c: Seq<char>| 0 <= t2 < t + 1 && #[trigger] ancestry_spec(ts[t2].module).contains(c)
                implies handled(modules, *config, chain_views(chains@), raw@, i, t2, c) by {
                if t2 == t {
                    let k = choose|k: int| 0 <= k < cs.len() && cs[k] == c;
                }
            }
        }
        t = t + 1;
    }
    assert(ts.take(t as int) =~= ts);
    proof {
        let c2 = chain_views(chains@);
        assert forall|t2: int, c: Seq<char>|
            0 <= t2 < ts.len() && #[trigger] ancestry_spec(ts[t2].module).contains(c) && module_names(modules).contains(c)
                implies exists|j: int| 0 <= j < modules.len() && #[trigger] modules[j].name@ == c && c2[j] is Some by {
            assert(handled(modules, *config, c2, raw@, i, t2, c));
        }
        assert forall|t2: int, c: Seq<char>|
            0 <= t2 < ts.len() && #[trigger] opaque_import(modules, *config, ts[t2], c)
                implies exists|q: int| 0 <= q < raw@.len() && #[trigger] raw@[q].module.spec_index() == i
                    && raw@[q].target@ == c && raw@[q].range == ts[t2].range by {
            assert(ancestry_spec(ts[t2].module).contains(c));
            assert(handled(modules, *config, c2, raw@, i, t2, c));
        }
    }
}

} // verus!

verus! {

/// Two entries for the same import.
pub open spec fn same_entry(a: UnresolvedImport, b: UnresolvedImport) -> bool {
    a.module == b.module && a.target@ == b.target@ && a.range == b.range
}

/// Some entry of `s` is the same as `x`.
pub open spec fn has_same(s: Seq<UnresolvedImport>, x: UnresolvedImport) -> bool {
    exists|k: int| 0 <= k < s.len() && #[trigger] same_entry(s[k], x)
}

/// `s` without entries equal to the one just before them.
pub open spec fn dedup_entries(s: Seq<UnresolvedImport>) -> Seq<UnresolvedImport>
    decreases s.len(),
{
    if s.len() == 0 {
        s
    } else {
        let d = dedup_entries(s.drop_last());
        if s.len() >= 2 && same_entry(s[s.len() - 2], s.last()) {
            d
        } else {
            d.push(s.last())
        }
    }
}

/// No entry equals the one just before it.
pub open spec fn no_adjacent_repeats(s: Seq<UnresolvedImport>) -> bool {
    forall|k: int| 0 <= k < s.len() - 1 ==> !same_entry(#[trigger] s[k], s[k + 1])
}

/// Whether the last entry repeats the one before it.
pub open spec fn last_repeats(s: Seq<UnresolvedImport>) -> bool {
    s.len() >= 2 && same_entry(s[s.len() - 2], s.last())
}

proof fn lemma_dedup_step(s: Seq<UnresolvedImport>)
    requires
        s.len() > 0,
    ensures
        dedup_entries(s) == (if last_repeats(s) {
            dedup_entries(s.drop_last())
        } else {
            dedup_entries(s.drop_last()).push(s.last())
        }),
{
}

/// Dropping repeats keeps only entries of `s`, and the last one.
proof fn lemma_dedup_members(s: Seq<UnresolvedImport>)
    ensures
        forall|k: int| 0 <= k < dedup_entries(s).len() ==> s.contains(#[trigger] dedup_entries(s)[k]),
        s.len() > 0 ==> dedup_entries(s).len() > 0 && same_entry(dedup_entries(s).last(), s.last()),
        dedup_entries(s).len() <= s.len(),
    decreases s.len(),
{
    if s.len() > 0 {
        let init = s.drop_last();
        lemma_dedup_members(init);
        lemma_dedup_step(s);
        let d = dedup_entries(init);
        let r = dedup_entries(s);
        assert forall|k: int| 0 <= k < r.len() implies s.contains(#[trigger] r[k]) by {
            if k < d.len() {
                assert(r[k] == d[k]);
                assert(init.contains(d[k]));
                let j = choose|j: int| 0 <= j < init.len() && init[j] == d[k];
                assert(s[j] == init[j]);
            } else {
                assert(s[s.len() - 1] == r[k]);
            }
        }
        if last_repeats(s) {
            assert(init.last() == s[s.len() - 2]);
        }
    }
}

/// Every entry of `s` has the same entry among the kept ones.
proof fn lemma_dedup_covers(s: Seq<UnresolvedImport>)
    ensures
        forall|j: int| 0 <= j < s.len() ==> has_same(dedup_entries(s), #[trigger] s[j]),
    decreases s.len(),
{
    if s.len() > 0 {
        let init = s.drop_last();
        lemma_dedup_covers(init);
        lemma_dedup_members(init);
        lemma_dedup_step(s);
        let d = dedup_entries(init);
        let r = dedup_entries(s);
        assert forall|j: int| 0 <= j < s.len() implies has_same(r, #[trigger] s[j]) by {
            if j < s.len() - 1 {
                assert(init[j] == s[j]);
                assert(has_same(d, init[j]));
                let k = choose|k: int| 0 <= k < d.len() && #[trigger] same_entry(d[k], init[j]);
                assert(r[k] == d[k]);
            } else if last_repeats(s) {
                assert(init.last() == s[s.len() - 2]);
                assert(same_entry(r[r.len() - 1], s[j]));
            } else {
                assert(same_entry(r[r.len() - 1], s[j]));
            }
        }
    }
}

/// The kept entries never repeat their predecessor.
proof fn lemma_dedup_no_repeats(s: Seq<UnresolvedImport>)
    ensures
        no_adjacent_repeats(dedup_entries(s)),
    decreases s.len(),
{
    if s.len() > 0 {
        let init = s.drop_last();
        lemma_dedup_no_repeats(init);
        lemma_dedup_members(init);
        lemma_dedup_step(s);
        let d = dedup_entries(init);
        let r = dedup_entries(s);
        if !last_repeats(s) {
            assert forall|k: int| 0 <= k < r.len() - 1 implies !same_entry(#[trigger] r[k], r[k + 1]) by {
                if k < d.len() - 1 {
                    assert(r[k] == d[k] && r[k + 1] == d[k + 1]);
                } else {
                    assert(r[k] == d.last());
                    assert(init.last() == s[s.len() - 2]);
                }
            }
        }
    }
}

/// Dropping repeats keeps a sorted sequence sorted.
proof fn lemma_dedup_sorted(s: Seq<UnresolvedImport>)
    requires
        crate::order::key_sorted(s),
    ensures
        crate::order::key_sorted(dedup_entries(s)),
    decreases s.len(),
{
    if s.len() > 0 {
        let init = s.drop_last();
        assert forall|i: int, j: int| #![trigger init[i], init[j]] 0 <= i < j < init.len() implies !init[j].key_lt(&init[i]) by {
            assert(init[i] == s[i] && init[j] == s[j]);
        }
        lemma_dedup_sorted(init);
        lemma_dedup_members(init);
        lemma_dedup_step(s);
        let d = dedup_entries(init);
        let r = dedup_entries(s);
        if !last_repeats(s) {
            assert forall|i: int, j: int| #![trigger r[i], r[j]] 0 <= i < j < r.len() implies !r[j].key_lt(&r[i]) by {
                if j == r.len() - 1 {
                    assert(r[i] == d[i]);
                    assert(init.contains(d[i]));
                    let q = choose|q: int| 0 <= q < init.len() && init[q] == d[i];
                    assert(s[q] == init[q]);
                    assert(!s[s.len() - 1].key_lt(&s[q]));
                } else {
                    assert(r[i] == d[i] && r[j] == d[j]);
                }
            }
        }
    }
}

/// Entries are ordered by a strict weak order.
proof fn lemma_entry_order()
    ensures
        crate::order::strict_weak_order::<UnresolvedImport>(),
{
    assert forall|a: UnresolvedImport, b: UnresolvedImport| #![trigger a.key_lt(&b)] a.key_lt(&b) implies !b.key_lt(&a) by {
        crate::order::lemma_lex_total(a.target@, b.target@);
    }
    assert forall|a: UnresolvedImport, b: UnresolvedImport, c: UnresolvedImport|
        #![trigger a.key_lt(&b), b.key_lt(&c)] !a.key_lt(&b) && !b.key_lt(&c) implies !a.key_lt(&c) by {
        crate::order::lemma_lex_total(a.target@, b.target@);
        crate::order::lemma_lex_total(b.target@, c.target@);
        crate::order::lemma_lex_total(a.target@, c.target@);
        if a.module.spec_index() == b.module.spec_index() && b.module.spec_index() == c.module.spec_index()
            && a.range.start == b.range.start && b.range.start == c.range.start {
            crate::order::lemma_lex_not_lt_transitive(a.target@, b.target@, c.target@);
        }
    }
}

/// Every entry sorts strictly before each later one.
pub open spec fn entries_ascending(s: Seq<UnresolvedImport>) -> bool {
    forall|i: int, j: int| #![trigger s[i], s[j]] 0 <= i < j < s.len() ==> s[i].key_lt(&s[j])
}

/// Two entries neither of which sorts before the other are the same entry.
proof fn lemma_entry_ties_are_same(a: UnresolvedImport, b: UnresolvedImport)
    requires
        !a.key_lt(&b),
        !b.key_lt(&a),
    ensures
        same_entry(a, b),
{
    crate::order::lemma_lex_total(a.target@, b.target@);
    ModuleId::lemma_same_index(a.module, b.module);
}

/// No entry sorts before itself, nor before one that is the same.
proof fn lemma_entry_irreflexive(a: UnresolvedImport, b: UnresolvedImport)
    requires
        same_entry(a, b),
    ensures
        !a.key_lt(&b),
{
    crate::order::lemma_lex_irreflexive(a.target@);
}

/// Sorting before is transitive for entries.
proof fn lemma_entry_lt_transitive(a: UnresolvedImport, b: UnresolvedImport, c: UnresolvedImport)
    requires
        a.key_lt(&b),
        b.key_lt(&c),
    ensures
        a.key_lt(&c),
{
    lemma_entry_order();
    if !a.key_lt(&c) {
        assert(!c.key_lt(&b));
        assert(!a.key_lt(&b));
    }
}

/// A sorted list of entries with no entry repeating the one before it is
/// strictly ascending.
proof fn lemma_entries_ascending(s: Seq<UnresolvedImport>)
    requires
        crate::order::key_sorted(s),
        no_adjacent_repeats(s),
    ensures
        entries_ascending(s),
    decreases s.len(),
{
    if s.len() > 1 {
        let init = s.drop_last();
        let n = s.len() - 1;
        assert forall|i: int, j: int| #![trigger init[i], init[j]] 0 <= i < j < init.len() implies !init[j].key_lt(&init[i]) by {
            assert(init[i] == s[i] && init[j] == s[j]);
        }
        assert forall|k: int| 0 <= k < init.len() - 1 implies !same_entry(#[trigger] init[k], init[k + 1]) by {
            assert(init[k] == s[k] && init[k + 1] == s[k + 1]);
        }
        lemma_entries_ascending(init);
        assert(!s[n].key_lt(&s[n - 1]));
        assert(!same_entry(s[n - 1], s[n]));
        if !s[n - 1].key_lt(&s[n]) {
            lemma_entry_ties_are_same(s[n - 1], s[n]);
        }
        assert forall|i: int, j: int| #![trigger s[i], s[j]] 0 <= i < j < s.len() implies s[i].key_lt(&s[j]) by {
            if j < n {
                assert(init[i] == s[i] && init[j] == s[j]);
            } else if i < n - 1 {
                assert(init[i] == s[i] && init[n - 1] == s[n - 1]);
                lemma_entry_lt_transitive(s[i], s[n - 1], s[n]);
            }
        }
    }
}

/// Two strictly ascending lists of entries, each of whose entries the other
/// holds, are the same entry by entry.
proof fn lemma_ascending_entries_agree(u: Seq<UnresolvedImport>, v: Seq<UnresolvedImport>)
    requires
        entries_ascending(u),
        entries_ascending(v),
        forall|k: int| 0 <= k < u.len() ==> has_same(v, #[trigger] u[k]),
        forall|k: int| 0 <= k < v.len() ==> has_same(u, #[trigger] v[k]),
    ensures
        u.len() == v.len(),
        forall|k: int| 0 <= k < u.len() ==> same_entry(#[trigger] u[k], v[k]),
    decreases u.len(),
{
    if u.len() == 0 {
        if v.len() > 0 {
            assert(has_same(u, v[0]));
        }
    } else {
        assert(has_same(v, u[0]));
        let j = choose|j: int| 0 <= j < v.len() && #[trigger] same_entry(v[j], u[0]);
        assert(has_same(u, v[0]));
        let i = choose|i: int| 0 <= i < u.len() && #[trigger] same_entry(u[i], v[0]);
        if j > 0 {
            assert(v[0].key_lt(&v[j]));
            if i > 0 {
                assert(u[0].key_lt(&u[i]));
                lemma_entry_order();
                assert(!u[i].key_lt(&u[0]));
            } else {
                lemma_entry_irreflexive(v[0], v[j]);
            }
        }
        assert(same_entry(u[0], v[0]));
        let u2 = u.drop_first();
        let v2 = v.drop_first();
        assert forall|k: int| 0 <= k < u2.len() implies has_same(v2, #[trigger] u2[k]) by {
            assert(u2[k] == u[k + 1]);
            assert(has_same(v, u[k + 1]));
            let m = choose|m: int| 0 <= m < v.len() && #[trigger] same_entry(v[m], u[k + 1]);
            assert(u[0].key_lt(&u[k + 1]));
            if m == 0 {
                lemma_entry_irreflexive(u[0], u[k + 1]);
            }
            assert(v2[m - 1] == v[m]);
            assert(same_entry(v2[m - 1], u2[k]));
        }
        assert forall|k: int| 0 <= k < v2.len() implies has_same(u2, #[trigger] v2[k]) by {
            assert(v2[k] == v[k + 1]);
            assert(has_same(u, v[k + 1]));
            let m = choose|m: int| 0 <= m < u.len() && #[trigger] same_entry(u[m], v[k + 1]);
            assert(v[0].key_lt(&v[k + 1]));
            if m == 0 {
                lemma_entry_irreflexive(v[0], v[k + 1]);
            }
            assert(u2[m - 1] == u[m]);
            assert(same_entry(u2[m - 1], v2[k]));
        }
        assert forall|i2: int, j2: int| #![trigger u2[i2], u2[j2]] 0 <= i2 < j2 < u2.len() implies u2[i2].key_lt(&u2[j2]) by {
            assert(u2[i2] == u[i2 + 1] && u2[j2] == u[j2 + 1]);
        }
        assert forall|i2: int, j2: int| #![trigger v2[i2], v2[j2]] 0 <= i2 < j2 < v2.len() implies v2[i2].key_lt(&v2[j2]) by {
            assert(v2[i2] == v[i2 + 1] && v2[j2] == v[j2 + 1]);
        }
        lemma_ascending_entries_agree(u2, v2);
        assert forall|k: int| 0 <= k < u.len() implies same_entry(#[trigger] u[k], v[k]) by {
            if k > 0 {
                assert(u2[k - 1] == u[k] && v2[k - 1] == v[k]);
            }
        }
    }
}

/// Two closures that meet their guarantees and were found by the search
/// agree: the same members, order and chains, and the same entries in the
/// same order.
pub proof fn lemma_closures_agree(modules: Seq<Module>, roots: Seq<Seq<char>>, config: Resolved, c1: Closure, c2: Closure)
    requires
        closure_ok(modules, roots, config, c1),
        closure_ok(modules, roots, config, c2),
        found_by_search(modules, roots, c1),
        found_by_search(modules, roots, c2),
    ensures
        chain_views(c1.chains@) == chain_views(c2.chains@),
        id_indices(c1.order@) == id_indices(c2.order@),
        c1.unresolved@.len() == c2.unresolved@.len(),
        forall|k: int| 0 <= k < c1.unresolved@.len() ==> same_entry(#[trigger] c1.unresolved@[k], c2.unresolved@[k]),
{
    assert(search_of(c1.chains@, c1.order@) == search_of(c2.chains@, c2.order@));
    let chains = chain_views(c1.chains@);
    let u = c1.unresolved@;
    let v = c2.unresolved@;
    lemma_entries_ascending(u);
    lemma_entries_ascending(v);
    assert forall|k: int| 0 <= k < u.len() implies has_same(v, #[trigger] u[k]) by {
        lemma_entry_in_other(modules, roots, config, c1, c2, k);
    }
    assert forall|k: int| 0 <= k < v.len() implies has_same(u, #[trigger] v[k]) by {
        lemma_entry_in_other(modules, roots, config, c2, c1, k);
    }
    lemma_ascending_entries_agree(u, v);
}

/// An entry of one closure is an entry of another over the same members.
proof fn lemma_entry_in_other(modules: Seq<Module>, roots: Seq<Seq<char>>, config: Resolved, c1: Closure, c2: Closure, k: int)
    requires
        closure_ok(modules, roots, config, c1),
        closure_ok(modules, roots, config, c2),
        chain_views(c1.chains@) == chain_views(c2.chains@),
        0 <= k < c1.unresolved@.len(),
    ensures
        has_same(c2.unresolved@, c1.unresolved@[k]),
{
    let x = c1.unresolved@[k];
    let chains = chain_views(c1.chains@);
    assert(reports_opaque(modules, config, x) && chains[x.module.spec_index() as int] is Some);
    let i = x.module.spec_index() as int;
    let t = choose|t: int| 0 <= t < import_targets_spec(modules[i]).len()
        && #[trigger] opaque_import(modules, config, import_targets_spec(modules[i])[t], x.target@)
        && import_targets_spec(modules[i])[t].range == x.range;
    assert(opaque_reported_at(modules, config, c2.unresolved@, i));
    let v = c2.unresolved@;
    let q = choose|q: int| 0 <= q < v.len() && #[trigger] v[q].module.spec_index() == i
        && v[q].target@ == x.target@ && v[q].range == import_targets_spec(modules[i])[t].range;
    ModuleId::lemma_same_index(v[q].module, x.module);
    assert(same_entry(v[q], x));
}

/// Drops entries equal to the one just before them.
fn dedup_exec(v: Vec<UnresolvedImport>) -> (r: Vec<UnresolvedImport>)
    ensures
        r@ == dedup_entries(v@),
{
    let ghost all = v@;
    let mut out: Vec<UnresolvedImport> = Vec::new();
    let mut i: usize = 0;
    assert(all.take(0) =~= Seq::<UnresolvedImport>::empty());
    while i < v.len()
        invariant
            i <= v@.len(),
            all == v@,
            out@ == dedup_entries(all.take(i as int)),
        decreases v@.len() - i,
    {
        assert(all.take(i + 1).drop_last() =~= all.take(i as int));
        assert(all.take(i + 1).last() == all[i as int]);
        let repeat = i > 0 && v[i - 1].module == v[i].module && v[i - 1].range == v[i].range
            && str_eq(v[i - 1].target.as_str(), v[i].target.as_str());
        proof {
            if i > 0 {
                assert(all.take(i + 1)[i - 1] == all[i - 1]);
            }
        }
        if !repeat {
            let u = UnresolvedImport { module: v[i].module, target: v[i].target.clone(), range: v[i].range };
            proof {
                assert(u == all[i as int]) by {
                    assert(u.target == v[i as int].target);
                }
            }
            out.push(u);
        }
        i = i + 1;
    }
    assert(all.take(i as int) =~= all);
    out
}

} // verus!

verus! {

/// Distinct positions below `n` are at most `n`.
pub proof fn lemma_distinct_bounded(s: Seq<int>, n: int)
    requires
        s.no_duplicates(),
        forall|k: int| 0 <= k < s.len() ==> 0 <= #[trigger] s[k] < n,
        n >= 0,
    ensures
        s.len() <= n,
{
    s.unique_seq_to_set();
    vstd::set_lib::lemma_int_range(0, n);
    assert(s.to_set().subset_of(vstd::set_lib::set_int_range(0, n))) by {
        assert forall|x: int| s.to_set().contains(x) implies vstd::set_lib::set_int_range(0, n).contains(x) by {
            let k = choose|k: int| 0 <= k < s.len() && s[k] == x;
        }
    }
    vstd::set_lib::lemma_len_subset(s.to_set(), vstd::set_lib::set_int_range(0, n));
}

/// Some member is the module named `name`.
pub open spec fn member_named(modules: Seq<Module>, chains: Seq<Option<Seq<Seq<char>>>>, name: Seq<char>) -> bool {
    exists|j: int| 0 <= j < modules.len() && #[trigger] modules[j].name@ == name && chains[j] is Some
}

/// The closure's guarantees: members are exactly the listed modules, each
/// with a witness chain from a root; every root is a member; every collected
/// module a member imports is a member; every opaque import of a member has
/// an entry, and every entry is one; entries are sorted and never repeat
/// their predecessor.
pub open spec fn closure_ok(modules: Seq<Module>, roots: Seq<Seq<char>>, config: Resolved, c: Closure) -> bool {
    let chains = chain_views(c.chains@);
    &&& search_ok(modules, roots, chains, id_indices(c.order@))
    &&& forall|r: int| 0 <= r < roots.len() ==> member_named(modules, chains, #[trigger] roots[r])
    &&& forall|i: int| 0 <= i < modules.len() && #[trigger] chains[i] is Some ==> closed_at(modules, chains, i)
        && opaque_reported_at(modules, config, c.unresolved@, i)
    &&& entries_sound(modules, config, chains, c.unresolved@)
    &&& crate::order::key_sorted(c.unresolved@)
    &&& no_adjacent_repeats(c.unresolved@)
}

/// Chains for no module yet.
fn no_chains(n: usize) -> (r: Vec<Option<Vec<String>>>)
    ensures
        r@.len() == n,
        forall|i: int| 0 <= i < n ==> #[trigger] r@[i] is None,
{
    let mut chains: Vec<Option<Vec<String>>> = Vec::new();
    let mut z: usize = 0;
    while z < n
        invariant
            z <= n,
            chains@.len() == z,
            forall|i: int| 0 <= i < z ==> #[trigger] chains@[i] is None,
        decreases n - z,
    {
        chains.push(None);
        z = z + 1;
    }
    chains
}

/// Makes every collected root a member; returns the roots that name no
/// collected module.
fn seed_roots(
    table: &ModuleTable,
    roots: &Vec<String>,
    chains: &mut Vec<Option<Vec<String>>>,
    order: &mut Vec<ModuleId>,
) -> (missing: Vec<String>)
    requires
        old(chains)@.len() == table.modules_view().len(),
        forall|i: int| 0 <= i < old(chains)@.len() ==> #[trigger] old(chains)@[i] is None,
        old(order)@.len() == 0,
    ensures
        search_ok(table.modules_view(), views(roots@), chain_views(final(chains)@), id_indices(final(order)@)),
        views(missing@) == missing_roots(table.modules_view(), views(roots@)),
        forall|k: int| 0 <= k < roots@.len() && module_names(table.modules_view()).contains(views(roots@)[k])
            ==> member_named(table.modules_view(), chain_views(final(chains)@), #[trigger] views(roots@)[k]),
        search_of(final(chains)@, final(order)@) == seeded(table.modules_view(), views(roots@)),
{
    let ghost modules = table.modules_view();
    let ghost rv = views(roots@);
    let mut missing: Vec<String> = Vec::new();
    proof {
        assert(id_indices(order@) =~= Seq::<int>::empty());
        assert(chain_views(chains@) =~= Seq::new(modules.len(), |i: int| None::<Seq<Seq<char>>>));
        assert(search_of(chains@, order@) == seeded(modules, rv.take(0)));
        assert forall|i: int| 0 <= i < chain_views(chains@).len() implies !(#[trigger] chain_views(chains@)[i] is Some) by {
            assert(chains@[i] is None);
        }
        assert(rv.take(0) =~= Seq::<Seq<char>>::empty());
        assert(views(missing@) =~= Seq::<Seq<char>>::empty());
    }
    let mut i: usize = 0;
    while i < roots.len()
        invariant
            i <= roots@.len(),
            rv == views(roots@),
            modules == table.modules_view(),
            search_ok(modules, rv, chain_views(chains@), id_indices(order@)),
            views(missing@) == missing_roots(modules, rv.take(i as int)),
            forall|k: int| 0 <= k < i && module_names(modules).contains(rv[k]) ==> member_named(modules, chain_views(chains@), #[trigger] rv[k]),
            search_of(chains@, order@) == seeded(modules, rv.take(i as int)),
        decreases roots@.len() - i,
    {
        let root = &roots[i];
        assert(root@ == rv[i as int]);
        assert(rv.take(i + 1).drop_last() =~= rv.take(i as int));
        assert(rv.take(i + 1).last() == rv[i as int]);
        let ghost c1 = chain_views(chains@);
        match table.id_of(root.as_str()) {
            Some(id) => {
                let ghost ix = id.spec_index() as int;
                if chains[id.index()].is_none() {
                    let mut chain: Vec<String> = Vec::new();
                    chain.push(root.clone());
                    proof {
                        assert(views(chain@) =~= seq![root@]);
                        assert(rv.contains(root@));
                        assert(module_names(modules).contains(root@));
                        assert(chain_views(chains@)[ix] is None);
                    }
                    add_member(chains, order, id, chain, Ghost(modules), Ghost(rv));
                }
                proof {
                    assert(chain_views(chains@)[ix] is Some);
                    assert(modules[ix].name@ == rv[i as int]);
                    assert forall|k: int| 0 <= k < i + 1 && module_names(modules).contains(rv[k]) implies member_named(modules, chain_views(chains@), #[trigger] rv[k]) by {
                        if k < i {
                            assert(member_named(modules, c1, rv[k]));
                            let j = choose|j: int| 0 <= j < modules.len() && #[trigger] modules[j].name@ == rv[k] && c1[j] is Some;
                            assert(chain_views(chains@)[j] is Some);
                        } else {
                            assert(modules[ix].name@ == rv[k]);
                        }
                    }
                    assert(module_names(modules).contains(rv[i as int]));
                }
            },
            None => {
                let ghost before = missing@;
                missing.push(root.clone());
                proof {
                    crate::text::lemma_views_push(before, missing@.last());
                    assert(!module_names(modules).contains(rv[i as int]));
                }
            },
        }
        i = i + 1;
    }
    assert(rv.take(i as int) =~= rv);
    assert(search_of(chains@, order@) == seeded(modules, rv));
    missing
}

/// Expands members in the order they joined until every member has been
/// expanded; returns the entries for opaque imports, in discovery order.
fn search(
    table: &ModuleTable,
    config: &Resolved,
    chains: &mut Vec<Option<Vec<String>>>,
    order: &mut Vec<ModuleId>,
    Ghost(roots): Ghost<Seq<Seq<char>>>,
) -> (raw: Vec<UnresolvedImport>)
    requires
        search_ok(table.modules_view(), roots, chain_views(old(chains)@), id_indices(old(order)@)),
    ensures
        search_ok(table.modules_view(), roots, chain_views(final(chains)@), id_indices(final(order)@)),
        chains_grow(chain_views(old(chains)@), chain_views(final(chains)@)),
        entries_sound(table.modules_view(), *config, chain_views(final(chains)@), raw@),
        forall|i: int| 0 <= i < table.modules_view().len() && #[trigger] chain_views(final(chains)@)[i] is Some
            ==> closed_at(table.modules_view(), chain_views(final(chains)@), i)
                && opaque_reported_at(table.modules_view(), *config, raw@, i),
        search_of(final(chains)@, final(order)@) == breadth_first(
            table.modules_view(),
            search_of(old(chains)@, old(order)@),
            0,
            (table.modules_view().len() + 1) as nat,
        ),
{
    let ghost modules = table.modules_view();
    let ghost c0 = chain_views(chains@);
    let ghost start = search_of(chains@, order@);
    let n = table.len();
    let mut raw: Vec<UnresolvedImport> = Vec::new();
    let mut head: usize = 0;
    proof {
        lemma_distinct_bounded(id_indices(order@), n as int);
    }
    while head < order.len()
        invariant
            modules == table.modules_view(),
            n == modules.len(),
            search_ok(modules, roots, chain_views(chains@), id_indices(order@)),
            chains_grow(c0, chain_views(chains@)),
            entries_sound(modules, *config, chain_views(chains@), raw@),
            head <= order@.len(),
            order@.len() <= n,
            forall|k: int| 0 <= k < head ==> closed_at(modules, chain_views(chains@), #[trigger] id_indices(order@)[k])
                && opaque_reported_at(modules, *config, raw@, id_indices(order@)[k]),
            start == search_of(old(chains)@, old(order)@),
            breadth_first(modules, search_of(chains@, order@), head as nat, (n + 1 - head) as nat)
                == breadth_first(modules, start, 0, (n + 1) as nat),
        decreases n - head,
    {
        let ghost before = search_of(chains@, order@);
        let id = order[head];
        let ghost c1 = chain_views(chains@);
        let ghost o1 = id_indices(order@);
        let ghost r1 = raw@;
        assert(o1[head as int] == id.spec_index());
        assert(c1[o1[head as int]] is Some);
        expand(table, config, id, chains, order, &mut raw, Ghost(roots));
        proof {
            let c2 = chain_views(chains@);
            let o2 = id_indices(order@);
            assert forall|k: int| 0 <= k < head + 1 implies closed_at(modules, c2, #[trigger] o2[k])
                && opaque_reported_at(modules, *config, raw@, o2[k]) by {
                assert(o2[k] == o1[k]);
                if k < head {
                    lemma_closed_grows(modules, c1, c2, o1[k]);
                    lemma_reported_grows(modules, *config, r1, raw@, o1[k]);
                }
            }
            assert forall|i: int| 0 <= i < c0.len() && #[trigger] c0[i] is Some implies c2[i] == c0[i] by {
                assert(c1[i] == c0[i]);
            }
            lemma_distinct_bounded(o2, n as int);
            assert(before.order[head as int] == id.spec_index());
            assert(breadth_first(modules, before, head as nat, (n + 1 - head) as nat)
                == breadth_first(modules, expand_spec(modules, before, id.spec_index() as int), (head + 1) as nat, (n - head) as nat));
        }
        head = head + 1;
    }
    assert(breadth_first(modules, search_of(chains@, order@), head as nat, (n + 1 - head) as nat) == search_of(chains@, order@));
    proof {
        let c2 = chain_views(chains@);
        let o2 = id_indices(order@);
        assert forall|i: int| 0 <= i < modules.len() && #[trigger] c2[i] is Some implies closed_at(modules, c2, i)
            && opaque_reported_at(modules, *config, raw@, i) by {
            let k = choose|k: int| 0 <= k < o2.len() && o2[k] == i;
            assert(closed_at(modules, c2, o2[k]));
        }
    }
    raw
}

/// The entries sorted by module, offset and target, without repeats.
fn finish_entries(
    raw: Vec<UnresolvedImport>,
    Ghost(modules): Ghost<Seq<Module>>,
    Ghost(config): Ghost<Resolved>,
    Ghost(chains): Ghost<Seq<Option<Seq<Seq<char>>>>>,
) -> (r: Vec<UnresolvedImport>)
    requires
        entries_sound(modules, config, chains, raw@),
    ensures
        entries_sound(modules, config, chains, r@),
        forall|i: int| 0 <= i < modules.len() && opaque_reported_at(modules, config, raw@, i)
            ==> #[trigger] opaque_reported_at(modules, config, r@, i),
        crate::order::key_sorted(r@),
        no_adjacent_repeats(r@),
{
    let ghost raw_all = raw@;
    let sorted = crate::order::stable_sort(raw);
    let unresolved = dedup_exec(sorted);
    proof {
        lemma_entry_order();
        crate::order::lemma_stable_sorted(raw_all);
        crate::order::lemma_stable_sorted_members(raw_all);
        let ss = crate::order::stable_sorted(raw_all);
        lemma_dedup_sorted(ss);
        lemma_dedup_no_repeats(ss);
        lemma_dedup_members(ss);
        lemma_dedup_covers(ss);
        let u = unresolved@;
        assert forall|q: int| 0 <= q < u.len() implies reports_opaque(modules, config, #[trigger] u[q])
            && chains[u[q].module.spec_index() as int] is Some by {
            assert(ss.contains(u[q]));
            let k = choose|k: int| 0 <= k < ss.len() && ss[k] == u[q];
            assert(raw_all.contains(ss[k]));
            let j = choose|j: int| 0 <= j < raw_all.len() && raw_all[j] == ss[k];
        }
        assert forall|i: int| 0 <= i < modules.len() && opaque_reported_at(modules, config, raw_all, i)
            implies #[trigger] opaque_reported_at(modules, config, u, i) by {
            assert forall|t: int, c: Seq<char>|
                0 <= t < import_targets_spec(modules[i]).len() && #[trigger] opaque_import(modules, config, import_targets_spec(modules[i])[t], c)
                    implies exists|q: int| 0 <= q < u.len() && #[trigger] u[q].module.spec_index() == i
                        && u[q].target@ == c && u[q].range == import_targets_spec(modules[i])[t].range by {
                let q0 = choose|q: int| 0 <= q < raw_all.len() && #[trigger] raw_all[q].module.spec_index() == i
                    && raw_all[q].target@ == c && raw_all[q].range == import_targets_spec(modules[i])[t].range;
                assert(ss.contains(raw_all[q0]));
                let k2 = choose|k: int| 0 <= k < ss.len() && ss[k] == raw_all[q0];
                assert(has_same(u, ss[k2]));
                let q = choose|q: int| 0 <= q < u.len() && #[trigger] same_entry(u[q], ss[k2]);
                assert(u[q].module.spec_index() == i);
            }
        }
    }
    unresolved
}

/// Walks the import graph outward from the sim roots. Every root must name
/// a collected module.
pub fn closure(program: &Program, config: &Resolved) -> (r: Result<Closure, MissingRoots>)
    requires
        program.wf(),
    ensures
        match r {
            Err(m) => missing_roots(program.table().modules_view(), config.sim_roots_view()).len() > 0
                && views(m.0@) == missing_roots(program.table().modules_view(), config.sim_roots_view()),
            Ok(c) => missing_roots(program.table().modules_view(), config.sim_roots_view()).len() == 0
                && closure_ok(program.table().modules_view(), config.sim_roots_view(), *config, c)
                && found_by_search(program.table().modules_view(), config.sim_roots_view(), c),
        },
{
    let table = program.modules();
    let ghost modules = table.modules_view();
    let roots = config.sim_roots();
    let ghost rv = config.sim_roots_view();
    let mut chains = no_chains(table.len());
    let mut order: Vec<ModuleId> = Vec::new();
    let missing = seed_roots(table, roots, &mut chains, &mut order);
    if missing.len() > 0 {
        return Err(MissingRoots(missing));
    }
    let ghost c0 = chain_views(chains@);
    proof {
        assert forall|r: int| 0 <= r < rv.len() implies member_named(modules, c0, #[trigger] rv[r]) by {
            if !module_names(modules).contains(rv[r]) {
                lemma_missing_has(modules, rv, r);
            }
        }
    }
    let raw = search(table, config, &mut chains, &mut order, Ghost(rv));
    let ghost c1 = chain_views(chains@);
    let unresolved = finish_entries(raw, Ghost(modules), Ghost(*config), Ghost(c1));
    proof {
        assert forall|r: int| 0 <= r < rv.len() implies member_named(modules, c1, #[trigger] rv[r]) by {
            assert(member_named(modules, c0, rv[r]));
            let j = choose|j: int| 0 <= j < modules.len() && #[trigger] modules[j].name@ == rv[r] && c0[j] is Some;
            assert(c1[j] == c0[j]);
        }
    }
    Ok(Closure { order, chains, unresolved })
}

/// A root that names no collected module is among the missing ones.
proof fn lemma_missing_has(modules: Seq<Module>, roots: Seq<Seq<char>>, r: int)
    requires
        0 <= r < roots.len(),
        !module_names(modules).contains(roots[r]),
    ensures
        missing_roots(modules, roots).len() > 0,
    decreases roots.len(),
{
    if r < roots.len() - 1 {
        assert(roots.drop_last()[r] == roots[r]);
        lemma_missing_has(modules, roots.drop_last(), r);
    }
}

proof fn lemma_closed_grows(modules: Seq<Module>, c1: Seq<Option<Seq<Seq<char>>>>, c2: Seq<Option<Seq<Seq<char>>>>, i: int)
    requires
        c1.len() == modules.len(),
        closed_at(modules, c1, i),
        chains_grow(c1, c2),
    ensures
        closed_at(modules, c2, i),
{
    assert forall|t: int, c: Seq<char>|
        0 <= t < import_targets_spec(modules[i]).len() && #[trigger] ancestry_spec(import_targets_spec(modules[i])[t].module).contains(c)
            && module_names(modules).contains(c)
            implies exists|j: int| 0 <= j < modules.len() && #[trigger] modules[j].name@ == c && c2[j] is Some by {
        let j = choose|j: int| 0 <= j < modules.len() && #[trigger] modules[j].name@ == c && c1[j] is Some;
        assert(c2[j] == c1[j]);
    }
}

proof fn lemma_reported_grows(modules: Seq<Module>, config: Resolved, r1: Seq<UnresolvedImport>, r2: Seq<UnresolvedImport>, i: int)
    requires
        opaque_reported_at(modules, config, r1, i),
        extends(r1, r2),
    ensures
        opaque_reported_at(modules, config, r2, i),
{
    assert forall|t: int, c: Seq<char>|
        0 <= t < import_targets_spec(modules[i]).len() && #[trigger] opaque_import(modules, config, import_targets_spec(modules[i])[t], c)
            implies exists|q: int| 0 <= q < r2.len() && #[trigger] r2[q].module.spec_index() == i
                && r2[q].target@ == c && r2[q].range == import_targets_spec(modules[i])[t].range by {
        let q = choose|q: int| 0 <= q < r1.len() && #[trigger] r1[q].module.spec_index() == i
            && r1[q].target@ == c && r1[q].range == import_targets_spec(modules[i])[t].range;
        assert(r2[q] == r1[q]);
    }
}

} // verus!

verus! {

/// The witness chain of a member, rendered as `root > middle > module`;
/// empty for anything else.
pub open spec fn witness_spec(chains: Seq<Option<Seq<Seq<char>>>>, i: int) -> Seq<char> {
    if 0 <= i < chains.len() && chains[i] is Some {
        join_spec(chains[i]->Some_0, " > "@)
    } else {
        Seq::empty()
    }
}

impl Closure {
    pub fn contains(&self, id: ModuleId) -> (r: bool)
        ensures
            r == (id.spec_index() < self.chains@.len() && chain_views(self.chains@)[id.spec_index() as int] is Some),
    {
        id.index() < self.chains.len() && self.chains[id.index()].is_some()
    }

    /// The witness chain for a module, rendered as `root > middle > module`.
    pub fn witness(&self, id: ModuleId) -> (r: String)
        ensures
            r@ == witness_spec(chain_views(self.chains@), id.spec_index() as int),
    {
        if id.index() < self.chains.len() {
            match &self.chains[id.index()] {
                Some(chain) => return join_strings(chain, " > "),
                None => {},
            }
        }
        String::new()
    }
}

/// Modules in the closure, paired with the witness chain that reached them.
pub fn closure_modules<'a>(table: &'a ModuleTable, closure: &'a Closure) -> (r: Vec<(&'a Module, String)>)
    requires
        forall|k: int| 0 <= k < closure.order@.len() ==> (#[trigger] closure.order@[k]).spec_index() < table.modules_view().len(),
    ensures
        r@.len() == closure.order@.len(),
        forall|k: int| 0 <= k < r@.len() ==> *(#[trigger] r@[k]).0 == table.modules_view()[closure.order@[k].spec_index() as int]
            && r@[k].1@ == witness_spec(chain_views(closure.chains@), closure.order@[k].spec_index() as int),
{
    let mut out: Vec<(&'a Module, String)> = Vec::new();
    let mut k: usize = 0;
    while k < closure.order.len()
        invariant
            k <= closure.order@.len(),
            out@.len() == k,
            forall|j: int| 0 <= j < closure.order@.len() ==> (#[trigger] closure.order@[j]).spec_index() < table.modules_view().len(),
            forall|j: int| 0 <= j < k ==> *(#[trigger] out@[j]).0 == table.modules_view()[closure.order@[j].spec_index() as int]
                && out@[j].1@ == witness_spec(chain_views(closure.chains@), closure.order@[j].spec_index() as int),
        decreases closure.order@.len() - k,
    {
        let id = closure.order[k];
        out.push((table.module(id), closure.witness(id)));
        k = k + 1;
    }
    out
}

} // verus!
