//! Per-module binding tables and qualified-name resolution.
//!
//! The table answers one question: *what dotted name does this local name
//! stand for?* It is built from imports (absolute, aliased, `from`, relative),
//! module-level `NAME = dotted.name` aliases, and module-level `def`/`class`
//! statements (so a shim protocol defined in the module it is declared in
//! resolves to `<module>.<Class>`).
//!
//! Two deliberate over-approximations, both erring towards *more* findings:
//!
//! * Imports are collected from the whole module, not just its top level. A
//!   function-local `import random` therefore binds `random` for the module.
//! * A name that is assigned anywhere in the module is recorded as *shadowed*
//!   and stops resolving to a builtin, module-wide.

use vstd::prelude::*;

use crate::resolve::modules::{
    Module, ModuleTable, module_names, package_spec, resolve_relative, resolve_relative_spec,
};
use crate::syntax::{Alias, Arguments, Child, Expr, ExprContext, ExprKind, Parameter, Stmt, StmtKind, TextRange};
use crate::text::{
    char_string, chars_of, concat, contains_str, copy_str, holds, opt_str_view, push_char, push_str,
    split_chars, split_spec, str_eq, string_of, views,
};

verus! {

broadcast use vstd::string::group_string_axioms;

/// A `from x import *` whose target could not be resolved to analyzed source.
pub struct UnresolvedStar {
    pub target: String,
    pub range: TextRange,
}

/// What a resolved dotted name denotes, as far as the binding table can tell.
#[derive(Debug, Clone, Copy, PartialEq, Eq, Structural)]
pub enum NameKind {
    /// The name denotes a module object (an `import` target or a collected
    /// module). Attribute assignment on one of these is monkeypatching.
    Module,
    /// Anything else: a function, class, constant, or an attribute of a module.
    Value,
}

pub struct ResolvedName {
    pub qualified: String,
    pub kind: NameKind,
}

/// The strings held in `v`, as a set.
pub open spec fn string_set(v: Seq<String>) -> Set<Seq<char>> {
    Set::new(|s: Seq<char>| holds(v, s))
}

/// Local names and what they are bound to; a later pair rebinds its name.
pub open spec fn pairs_map(p: Seq<(String, String)>) -> Map<Seq<char>, Seq<char>>
    decreases p.len(),
{
    if p.len() == 0 {
        Map::empty()
    } else {
        pairs_map(p.drop_last()).insert(p.last().0@, p.last().1@)
    }
}

/// The binding table as values.
pub ghost struct BindingsView {
    pub names: Map<Seq<char>, Seq<char>>,
    pub shadowed: Set<Seq<char>>,
    pub modules: Set<Seq<char>>,
    pub star_targets: Seq<Seq<char>>,
    pub unresolved_stars: Seq<(Seq<char>, TextRange)>,
}

/// What the binding table of one module is built against: the module's
/// dotted name, its package, and the names of all collected modules.
pub ghost struct Scope {
    pub module_name: Seq<char>,
    pub package: Seq<char>,
    pub known: Set<Seq<char>>,
}

pub struct Bindings {
    /// Local name and dotted qualified name; the last pair for a name counts.
    names: Vec<(String, String)>,
    /// Names assigned somewhere in the module: they no longer denote builtins.
    shadowed: Vec<String>,
    /// Dotted names known to denote modules.
    modules: Vec<String>,
    /// `from x import *` targets that are in analyzed source, pending merge.
    star_targets: Vec<String>,
    /// `from x import *` targets that are not, reported as holes.
    unresolved_stars: Vec<UnresolvedStar>,
}

impl Bindings {
    pub closed spec fn view(&self) -> BindingsView {
        BindingsView {
            names: pairs_map(self.names@),
            shadowed: string_set(self.shadowed@),
            modules: string_set(self.modules@),
            star_targets: views(self.star_targets@),
            unresolved_stars: self.unresolved_stars@.map_values(|u: UnresolvedStar| (u.target@, u.range)),
        }
    }
}

/// The last pair for a name decides what it is bound to.
pub proof fn lemma_pairs_map_last(p: Seq<(String, String)>, k: Seq<char>, j: int)
    requires
        0 <= j < p.len(),
        p[j].0@ == k,
        forall|i: int| j < i < p.len() ==> #[trigger] p[i].0@ != k,
    ensures
        pairs_map(p).contains_key(k),
        pairs_map(p)[k] == p[j].1@,
    decreases p.len(),
{
    if j < p.len() - 1 {
        assert forall|i: int| j < i < p.drop_last().len() implies #[trigger] p.drop_last()[i].0@ != k by {
            assert(p.drop_last()[i] == p[i]);
        }
        lemma_pairs_map_last(p.drop_last(), k, j);
    }
}

/// A name no pair mentions is unbound.
pub proof fn lemma_pairs_map_absent(p: Seq<(String, String)>, k: Seq<char>)
    requires
        forall|i: int| 0 <= i < p.len() ==> #[trigger] p[i].0@ != k,
    ensures
        !pairs_map(p).contains_key(k),
    decreases p.len(),
{
    if p.len() > 0 {
        assert forall|i: int| 0 <= i < p.drop_last().len() implies #[trigger] p.drop_last()[i].0@ != k by {
            assert(p.drop_last()[i] == p[i]);
        }
        lemma_pairs_map_absent(p.drop_last(), k);
    }
}

/// The bound names are finitely many.
pub proof fn lemma_pairs_map_finite(p: Seq<(String, String)>)
    ensures
        pairs_map(p).dom().finite(),
    decreases p.len(),
{
    if p.len() > 0 {
        lemma_pairs_map_finite(p.drop_last());
    }
}

impl Bindings {
    /// A table with nothing bound and nothing known.
    fn empty() -> (r: Bindings)
        ensures
            r.view() == (BindingsView {
                names: Map::empty(),
                shadowed: Set::empty(),
                modules: Set::empty(),
                star_targets: Seq::empty(),
                unresolved_stars: Seq::empty(),
            }),
    {
        let r = Bindings {
            names: Vec::new(),
            shadowed: Vec::new(),
            modules: Vec::new(),
            star_targets: Vec::new(),
            unresolved_stars: Vec::new(),
        };
        proof {
            assert(string_set(r.shadowed@) =~= Set::empty());
            assert(string_set(r.modules@) =~= Set::empty());
            assert(views(r.star_targets@) =~= Seq::empty());
            assert(r.unresolved_stars@.map_values(|u: UnresolvedStar| (u.target@, u.range)) =~= Seq::empty());
        }
        r
    }

    /// What `name` is bound to, if anything.
    pub fn lookup(&self, name: &str) -> (r: Option<&str>)
        ensures
            match r {
                Some(q) => self.view().names.contains_key(name@) && self.view().names[name@] == q@,
                None => !self.view().names.contains_key(name@),
            },
    {
        let mut i: usize = self.names.len();
        while i > 0
            invariant
                i <= self.names@.len(),
                forall|k: int| i <= k < self.names@.len() ==> #[trigger] self.names@[k].0@ != name@,
            decreases i,
        {
            if str_eq(self.names[i - 1].0.as_str(), name) {
                proof {
                    lemma_pairs_map_last(self.names@, name@, i - 1);
                }
                return Some(self.names[i - 1].1.as_str());
            }
            i = i - 1;
        }
        proof {
            lemma_pairs_map_absent(self.names@, name@);
        }
        None
    }

    /// Whether something in the module assigns `name`.
    pub fn is_shadowed(&self, name: &str) -> (r: bool)
        ensures
            r == self.view().shadowed.contains(name@),
    {
        contains_str(&self.shadowed, name)
    }

    /// Whether the dotted name denotes a module.
    pub fn is_module(&self, qualified: &str) -> (r: bool)
        ensures
            r == self.view().modules.contains(qualified@),
    {
        contains_str(&self.modules, qualified)
    }

    /// The `from x import *` targets outside analyzed source.
    pub fn unresolved_stars(&self) -> (r: &Vec<UnresolvedStar>)
        ensures
            r@.map_values(|u: UnresolvedStar| (u.target@, u.range)) == self.view().unresolved_stars,
    {
        &self.unresolved_stars
    }

    /// The `from x import *` targets inside analyzed source.
    pub fn star_targets(&self) -> (r: &Vec<String>)
        ensures
            views(r@) == self.view().star_targets,
    {
        &self.star_targets
    }

    /// Resolves an expression to the dotted name it denotes, if any.
    pub fn resolve(&self, expr: &Expr) -> (r: Option<ResolvedName>)
        ensures
            match r {
                Some(n) => resolve_spec(self.view(), *expr) == Some(n.qualified@)
                    && n.kind == kind_spec(self.view(), n.qualified@),
                None => resolve_spec(self.view(), *expr) is None,
            },
        decreases *expr,
    {
        match &expr.kind {
            ExprKind::Name { id, .. } => {
                match self.lookup(id.as_str()) {
                    Some(q) => {
                        let kind = self.kind_of(q);
                        Some(ResolvedName { qualified: copy_str(q), kind })
                    },
                    None => {
                        if self.is_shadowed(id.as_str()) {
                            None
                        } else {
                            let kind = self.kind_of(id.as_str());
                            Some(ResolvedName { qualified: id.clone(), kind })
                        }
                    },
                }
            },
            ExprKind::Attribute { value, attr, .. } => {
                let base = match self.resolve(value) {
                    Some(b) => b,
                    None => return None,
                };
                let mut qualified = base.qualified;
                push_char(&mut qualified, '.');
                push_str(&mut qualified, attr.as_str());
                let kind = self.kind_of(qualified.as_str());
                Some(ResolvedName { qualified, kind })
            },
            _ => None,
        }
    }

    fn kind_of(&self, qualified: &str) -> (r: NameKind)
        ensures
            r == kind_spec(self.view(), qualified@),
    {
        if self.is_module(qualified) {
            NameKind::Module
        } else {
            NameKind::Value
        }
    }

    fn bind(&mut self, local: &str, qualified: String)
        ensures
            final(self).view() == bind_v(old(self).view(), local@, qualified@),
    {
        let ghost before = self.names@;
        self.names.push((copy_str(local), qualified));
        proof {
            assert(self.names@.drop_last() =~= before);
        }
    }

    fn shadow(&mut self, name: &str)
        ensures
            final(self).view() == shadow_v(old(self).view(), set![name@]),
    {
        let ghost before = self.view();
        if !contains_str(&self.shadowed, name) {
            let ghost old_shadowed = self.shadowed@;
            self.shadowed.push(copy_str(name));
            proof {
                assert forall|x: Seq<char>| holds(self.shadowed@, x) <==> holds(old_shadowed, x) || x == name@ by {
                    if holds(self.shadowed@, x) {
                        let i = choose|i: int| 0 <= i < self.shadowed@.len() && #[trigger] self.shadowed@[i]@ == x;
                        if i < old_shadowed.len() {
                            assert(old_shadowed[i] == self.shadowed@[i]);
                        }
                    }
                    if holds(old_shadowed, x) {
                        let i = choose|i: int| 0 <= i < old_shadowed.len() && #[trigger] old_shadowed[i]@ == x;
                        assert(self.shadowed@[i] == old_shadowed[i]);
                    }
                    if x == name@ {
                        assert(self.shadowed@[old_shadowed.len() as int]@ == x);
                    }
                }
            }
        }
        assert(self.view().shadowed =~= before.shadowed + set![name@]);
    }

    fn add_module(&mut self, qualified: String)
        ensures
            final(self).view() == (BindingsView { modules: old(self).view().modules.insert(qualified@), ..old(self).view() }),
    {
        let ghost before = self.view();
        let ghost q = qualified@;
        let ghost old_modules = self.modules@;
        self.modules.push(qualified);
        proof {
            assert forall|x: Seq<char>| holds(self.modules@, x) <==> holds(old_modules, x) || x == q by {
                if holds(self.modules@, x) {
                    let i = choose|i: int| 0 <= i < self.modules@.len() && #[trigger] self.modules@[i]@ == x;
                    if i < old_modules.len() {
                        assert(old_modules[i] == self.modules@[i]);
                    }
                }
                if holds(old_modules, x) {
                    let i = choose|i: int| 0 <= i < old_modules.len() && #[trigger] old_modules[i]@ == x;
                    assert(self.modules@[i] == old_modules[i]);
                }
                if x == q {
                    assert(self.modules@[old_modules.len() as int]@ == x);
                }
            }
        }
        assert(before.modules == string_set(old_modules));
        assert(self.view().modules == string_set(self.modules@));
        assert(string_set(self.modules@) =~= string_set(old_modules).insert(q)) by {
            assert forall|x: Seq<char>| string_set(self.modules@).contains(x) <==> string_set(old_modules).insert(q).contains(x) by {
                assert(string_set(self.modules@).contains(x) == holds(self.modules@, x));
                assert(string_set(old_modules).contains(x) == holds(old_modules, x));
            }
        }
    }

    /// Importing `a.b.c` executes `a` and `a.b` too; all three are modules.
    fn note_module(&mut self, qualified: &str)
        ensures
            final(self).view() == note_module_v(old(self).view(), qualified@),
    {
        let ghost before = self.view();
        let t = chars_of(qualified);
        let parts = split_chars(t.as_slice(), '.');
        let ghost ps = split_spec(qualified@, '.');
        let mut prefix = String::new();
        let mut i: usize = 0;
        assert(prefix_chain(ps.take(0)).to_set() =~= Set::empty());
        assert(before.modules + Set::empty() =~= before.modules);
        while i < parts.len()
            invariant
                i <= parts@.len(),
                parts@.len() == ps.len(),
                ps == split_spec(qualified@, '.'),
                forall|k: int| 0 <= k < parts@.len() ==> #[trigger] parts@[k]@ == ps[k],
                prefix@ == (if i == 0 { Seq::<char>::empty() } else { prefix_chain(ps.take(i as int)).last() }),
                prefix_chain(ps.take(i as int)).len() == i,
                self.view() == (BindingsView { modules: before.modules + prefix_chain(ps.take(i as int)).to_set(), ..before }),
            decreases parts@.len() - i,
        {
            let ghost chain = prefix_chain(ps.take(i as int));
            assert(ps.take(i + 1).drop_last() =~= ps.take(i as int));
            assert(ps.take(i + 1).last() == ps[i as int]);
            if !prefix.as_str().is_empty() {
                push_char(&mut prefix, '.');
            }
            let piece = string_of(parts[i].as_slice());
            push_str(&mut prefix, piece.as_str());
            let ghost next = prefix@;
            assert(prefix_chain(ps.take(i + 1)) == chain.push(next));
            self.add_module(prefix.clone());
            assert(self.view().modules =~= before.modules + chain.push(next).to_set()) by {
                chain.lemma_push_to_set_commute(next);
            }
            i = i + 1;
        }
        assert(ps.take(parts@.len() as int) =~= ps);
    }
}

// ---------------------------------------------------------------------------
// The table as the module's statements build it.

pub open spec fn bind_v(v: BindingsView, local: Seq<char>, qualified: Seq<char>) -> BindingsView {
    BindingsView { names: v.names.insert(local, qualified), ..v }
}

pub open spec fn shadow_v(v: BindingsView, names: Set<Seq<char>>) -> BindingsView {
    BindingsView { shadowed: v.shadowed + names, ..v }
}

/// The dotted prefixes that importing `q` runs, as the segments of `q` are
/// appended one by one: importing `a.b.c` executes `a`, `a.b` and `a.b.c`.
pub open spec fn prefix_chain(parts: Seq<Seq<char>>) -> Seq<Seq<char>>
    decreases parts.len(),
{
    if parts.len() == 0 {
        Seq::empty()
    } else {
        let earlier = prefix_chain(parts.drop_last());
        let prev = if earlier.len() == 0 {
            Seq::<char>::empty()
        } else {
            earlier.last()
        };
        let next = if prev.len() > 0 {
            prev.push('.') + parts.last()
        } else {
            parts.last()
        };
        earlier.push(next)
    }
}

pub open spec fn note_module_v(v: BindingsView, qualified: Seq<char>) -> BindingsView {
    BindingsView { modules: v.modules + prefix_chain(split_spec(qualified, '.')).to_set(), ..v }
}

/// The names an assignment target binds.
pub open spec fn target_names(e: Expr) -> Set<Seq<char>>
    decreases e,
{
    match e.kind {
        ExprKind::Name { id, .. } => set![id@],
        ExprKind::Tuple { elts, .. } => targets_names(elts@),
        ExprKind::List { elts, .. } => targets_names(elts@),
        ExprKind::Starred { value, .. } => target_names(*value),
        _ => Set::empty(),
    }
}

pub open spec fn targets_names(es: Seq<Expr>) -> Set<Seq<char>>
    decreases es,
{
    if es.len() == 0 {
        Set::empty()
    } else {
        targets_names(es.drop_last()) + target_names(es.last())
    }
}

/// The names an expression stores or deletes anywhere inside it, the
/// targets of `:=` and the parameters of lambdas included.
pub open spec fn expr_shadows(e: Expr) -> Set<Seq<char>>
    decreases e,
{
    match e.kind {
        ExprKind::Name { id, ctx } => if ctx == ExprContext::Load {
            Set::empty()
        } else {
            set![id@]
        },
        ExprKind::Attribute { value, .. } => expr_shadows(*value),
        ExprKind::Call { func, arguments } => expr_shadows(*func) + exprs_shadows(arguments.args@)
            + exprs_shadows(arguments.keywords@),
        ExprKind::StringLiteral => Set::empty(),
        ExprKind::SetLiteral { elts } => exprs_shadows(elts@),
        ExprKind::SetComp { children } => exprs_shadows(children@),
        ExprKind::Subscript { value, slice, .. } => expr_shadows(*value) + expr_shadows(*slice),
        ExprKind::Tuple { elts, .. } => exprs_shadows(elts@),
        ExprKind::List { elts, .. } => exprs_shadows(elts@),
        ExprKind::Starred { value, .. } => expr_shadows(*value),
        ExprKind::Named { target, value } => target_names(*target) + expr_shadows(*target)
            + expr_shadows(*value),
        ExprKind::Lambda { parameters, body } => params_shadows(parameters@) + expr_shadows(*body),
        ExprKind::Other { children } => exprs_shadows(children@),
    }
}

pub open spec fn exprs_shadows(es: Seq<Expr>) -> Set<Seq<char>>
    decreases es,
{
    if es.len() == 0 {
        Set::empty()
    } else {
        exprs_shadows(es.drop_last()) + expr_shadows(es.last())
    }
}

/// Parameter names, and what their annotations and defaults store.
pub open spec fn params_shadows(ps: Seq<Parameter>) -> Set<Seq<char>>
    decreases ps,
{
    if ps.len() == 0 {
        Set::empty()
    } else {
        params_shadows(ps.drop_last()) + set![ps.last().name@] + exprs_shadows(ps.last().exprs@)
    }
}

pub open spec fn opt_expr_shadows(e: Option<Expr>) -> Set<Seq<char>> {
    match e {
        Some(x) => expr_shadows(x),
        None => Set::empty(),
    }
}

pub open spec fn opt_args_shadows(a: Option<Arguments>) -> Set<Seq<char>> {
    match a {
        Some(x) => exprs_shadows(x.args@) + exprs_shadows(x.keywords@),
        None => Set::empty(),
    }
}

/// `import a.b as c` binds `c` to `a.b`; `import a.b` binds only `a`.
pub open spec fn import_alias(v: BindingsView, a: Alias) -> BindingsView {
    let v1 = note_module_v(v, a.name@);
    match a.asname {
        Some(x) => bind_v(v1, x@, a.name@),
        None => {
            let head = split_spec(a.name@, '.')[0];
            bind_v(v1, head, head)
        },
    }
}

/// The first piece of `s` split at `c` is the text before the first `c`.
proof fn lemma_split_head(s: Seq<char>, c: char, p: int)
    requires
        0 <= p <= s.len(),
        p == s.len() || s[p] == c,
        forall|k: int| 0 <= k < p ==> s[k] != c,
    ensures
        split_spec(s, c)[0] == s.take(p),
{
    if p < s.len() {
        crate::text::lemma_index_of(s, c, p);
    } else {
        crate::text::lemma_index_of_none(s, c);
        assert(s.take(p) =~= s);
    }
}

/// `import a.b.c` binds the local name `a` to the module `a` (the dotted
/// name's first segment) and nothing else; `import a.b.c as x` binds `x`
/// to `a.b.c`. Every other name keeps its binding.
pub proof fn law_import_binds_the_head_segment(v: BindingsView, a: Alias, p: int)
    requires
        0 <= p <= a.name@.len(),
        p == a.name@.len() || a.name@[p] == '.',
        forall|k: int| 0 <= k < p ==> a.name@[k] != '.',
    ensures
        a.asname is None ==> import_alias(v, a).names.contains_key(a.name@.take(p))
            && import_alias(v, a).names[a.name@.take(p)] == a.name@.take(p),
        a.asname matches Some(x) ==> import_alias(v, a).names.contains_key(x@)
            && import_alias(v, a).names[x@] == a.name@,
        forall|other: Seq<char>| other != (match a.asname { Some(x) => x@, None => a.name@.take(p) })
            ==> #[trigger] import_alias(v, a).names.contains_key(other) == v.names.contains_key(other)
            && (v.names.contains_key(other) ==> import_alias(v, a).names[other] == v.names[other]),
{
    lemma_split_head(a.name@, '.', p);
}

pub open spec fn import_aliases(v: BindingsView, aliases: Seq<Alias>) -> BindingsView
    decreases aliases.len(),
{
    if aliases.len() == 0 {
        v
    } else {
        import_alias(import_aliases(v, aliases.drop_last()), aliases.last())
    }
}

/// The absolute module a `from` import names.
pub open spec fn from_base(sc: Scope, module: Option<String>, level: u32) -> Option<Seq<char>> {
    if level == 0 {
        opt_str_view(module)
    } else {
        resolve_relative_spec(sc.package, level as nat, opt_str_view(module))
    }
}

pub open spec fn star_name() -> Seq<char> {
    seq!['*']
}

pub open spec fn from_alias(v: BindingsView, sc: Scope, base: Seq<char>, a: Alias, range: TextRange) -> BindingsView {
    if a.name@ == star_name() {
        if sc.known.contains(base) {
            BindingsView { star_targets: v.star_targets.push(base), ..v }
        } else {
            BindingsView { unresolved_stars: v.unresolved_stars.push((base, range)), ..v }
        }
    } else {
        let qualified = base.push('.') + a.name@;
        let v1 = if sc.known.contains(qualified) {
            note_module_v(v, qualified)
        } else {
            v
        };
        let local = match a.asname {
            Some(x) => x@,
            None => a.name@,
        };
        bind_v(v1, local, qualified)
    }
}

pub open spec fn from_aliases(v: BindingsView, sc: Scope, base: Seq<char>, aliases: Seq<Alias>, range: TextRange) -> BindingsView
    decreases aliases.len(),
{
    if aliases.len() == 0 {
        v
    } else {
        from_alias(from_aliases(v, sc, base, aliases.drop_last(), range), sc, base, aliases.last(), range)
    }
}

/// A top-level `def`/`class` binds its name as `<module>.<name>`.
pub open spec fn def_binding(v: BindingsView, sc: Scope, name: Seq<char>, top: bool) -> BindingsView {
    if top {
        bind_v(v, name, sc.module_name.push('.') + name)
    } else {
        v
    }
}

/// The table after the statement `s`; `top` when `s` stands directly in the
/// module body.
pub open spec fn collect_stmt(v: BindingsView, sc: Scope, s: Stmt, top: bool) -> BindingsView
    decreases s,
{
    match s.kind {
        StmtKind::Import { names } => import_aliases(v, names@),
        StmtKind::ImportFrom { module, names, level } => match from_base(sc, module, level) {
            None => v,
            Some(base) => from_aliases(note_module_v(v, base), sc, base, names@, s.range),
        },
        StmtKind::FunctionDef { name, decorators, parameters, result_annotation, body, .. } => {
            let v1 = def_binding(shadow_v(v, set![name@]), sc, name@, top);
            let v2 = shadow_v(v1, exprs_shadows(decorators@) + params_shadows(parameters@) + opt_expr_shadows(result_annotation));
            collect_body(v2, sc, body@, false)
        },
        StmtKind::ClassDef { name, decorators, arguments, body, .. } => {
            let v1 = def_binding(shadow_v(v, set![name@]), sc, name@, top);
            let v2 = shadow_v(v1, exprs_shadows(decorators@) + opt_args_shadows(arguments));
            collect_body(v2, sc, body@, false)
        },
        StmtKind::Assign { targets, value } => shadow_v(v, expr_shadows(value) + exprs_shadows(targets@)),
        StmtKind::AugAssign { target, value } => shadow_v(v, expr_shadows(value) + expr_shadows(target)),
        StmtKind::AnnAssign { target, annotation, value } => shadow_v(
            v,
            opt_expr_shadows(value) + expr_shadows(annotation) + expr_shadows(target),
        ),
        StmtKind::Global { names } => shadow_v(v, string_set(names@)),
        StmtKind::Nonlocal { names } => shadow_v(v, string_set(names@)),
        StmtKind::Other { children } => collect_children(v, sc, children@),
    }
}

pub open spec fn collect_children(v: BindingsView, sc: Scope, children: Seq<Child>) -> BindingsView
    decreases children,
{
    if children.len() == 0 {
        v
    } else {
        let before = collect_children(v, sc, children.drop_last());
        match children.last() {
            Child::Stmt(st) => collect_stmt(before, sc, st, false),
            Child::Expr(e) => shadow_v(before, expr_shadows(e)),
        }
    }
}

pub open spec fn collect_body(v: BindingsView, sc: Scope, body: Seq<Stmt>, top: bool) -> BindingsView
    decreases body,
{
    if body.len() == 0 {
        v
    } else {
        collect_stmt(collect_body(v, sc, body.drop_last(), top), sc, body.last(), top)
    }
}

// ---------------------------------------------------------------------------
// Resolution.

/// The dotted name `e` denotes: a `Name` through the table, or itself when
/// nothing in the module assigns it (which is how builtins are matched); an
/// `Attribute` extends its base. Nothing else resolves.
pub open spec fn resolve_spec(v: BindingsView, e: Expr) -> Option<Seq<char>>
    decreases e,
{
    match e.kind {
        ExprKind::Name { id, .. } => if v.names.contains_key(id@) {
            Some(v.names[id@])
        } else if v.shadowed.contains(id@) {
            None
        } else {
            Some(id@)
        },
        ExprKind::Attribute { value, attr, .. } => match resolve_spec(v, *value) {
            Some(base) => Some(base.push('.') + attr@),
            None => None,
        },
        _ => None,
    }
}

pub open spec fn kind_spec(v: BindingsView, qualified: Seq<char>) -> NameKind {
    if v.modules.contains(qualified) {
        NameKind::Module
    } else {
        NameKind::Value
    }
}

/// A module-level `NAME = dotted.name` rebinds `NAME` to what the right-hand
/// side resolves to, unless that is `NAME` itself.
pub open spec fn alias_stmt(v: BindingsView, s: Stmt) -> BindingsView {
    match s.kind {
        StmtKind::Assign { targets, value } => if targets@.len() == 1 && targets@[0].kind is Name {
            let id = targets@[0].kind->Name_id@;
            match resolve_spec(v, value) {
                Some(q) => if q == id {
                    v
                } else {
                    bind_v(v, id, q)
                },
                None => v,
            }
        } else {
            v
        },
        _ => v,
    }
}

/// One pass over the module body, in source order.
pub open spec fn alias_pass(v: BindingsView, body: Seq<Stmt>) -> BindingsView
    decreases body.len(),
{
    if body.len() == 0 {
        v
    } else {
        alias_stmt(alias_pass(v, body.drop_last()), body.last())
    }
}

/// The scope a module's table is built in.
pub open spec fn scope_of(module: Module, table: ModuleTable) -> Scope {
    Scope {
        module_name: module.name@,
        package: package_spec(module.name@, module.is_package),
        known: module_names(table.modules_view()),
    }
}

/// The table of a module: every collected module name is a module; the
/// statements add their bindings; then two alias passes, which catch one
/// level of alias chaining (`a = time.time; b = a`).
pub open spec fn build_spec(sc: Scope, body: Seq<Stmt>) -> BindingsView {
    let start = BindingsView {
        names: Map::empty(),
        shadowed: Set::empty(),
        modules: sc.known,
        star_targets: Seq::empty(),
        unresolved_stars: Seq::empty(),
    };
    let collected = collect_body(start, sc, body, true);
    alias_pass(alias_pass(collected, body), body)
}

} // verus!

verus! {

pub proof fn lemma_shadow_twice(v: BindingsView, a: Set<Seq<char>>, b: Set<Seq<char>>)
    ensures
        shadow_v(shadow_v(v, a), b) == shadow_v(v, a + b),
{
    assert(v.shadowed + a + b =~= v.shadowed + (a + b));
}

pub proof fn lemma_shadow_none(v: BindingsView)
    ensures
        shadow_v(v, Set::empty()) == v,
{
    assert(v.shadowed + Set::empty() =~= v.shadowed);
}

/// Records the names an assignment target binds.
fn shadow_target(b: &mut Bindings, e: &Expr)
    ensures
        final(b).view() == shadow_v(old(b).view(), target_names(*e)),
    decreases *e,
{
    let ghost v0 = b.view();
    match &e.kind {
        ExprKind::Name { id, .. } => b.shadow(id.as_str()),
        ExprKind::Tuple { elts, .. } => shadow_targets(b, elts),
        ExprKind::List { elts, .. } => shadow_targets(b, elts),
        ExprKind::Starred { value, .. } => shadow_target(b, value),
        _ => {
            proof { lemma_shadow_none(v0); }
        },
    }
}

fn shadow_targets(b: &mut Bindings, es: &Vec<Expr>)
    ensures
        final(b).view() == shadow_v(old(b).view(), targets_names(es@)),
    decreases es@,
{
    let ghost v0 = b.view();
    let mut i: usize = 0;
    proof { lemma_shadow_none(v0); }
    while i < es.len()
        invariant
            i <= es@.len(),
            b.view() == shadow_v(v0, targets_names(es@.take(i as int))),
        decreases es@.len() - i,
    {
        assert(es@.take(i + 1).drop_last() =~= es@.take(i as int));
        assert(es@.take(i + 1).last() == es@[i as int]);
        shadow_target(b, &es[i]);
        proof { lemma_shadow_twice(v0, targets_names(es@.take(i as int)), target_names(es@[i as int])); }
        i = i + 1;
    }
    assert(es@.take(i as int) =~= es@);
}

/// Records what an expression stores or deletes.
fn visit_expr(b: &mut Bindings, e: &Expr)
    ensures
        final(b).view() == shadow_v(old(b).view(), expr_shadows(*e)),
    decreases *e,
{
    let ghost v0 = b.view();
    match &e.kind {
        ExprKind::Name { id, ctx } => {
            if *ctx == ExprContext::Load {
                proof { lemma_shadow_none(v0); }
            } else {
                b.shadow(id.as_str());
            }
        },
        ExprKind::Attribute { value, .. } => visit_expr(b, value),
        ExprKind::Call { func, arguments } => {
            visit_expr(b, func);
            let ghost v1 = b.view();
            visit_exprs(b, &arguments.args);
            let ghost v2 = b.view();
            visit_exprs(b, &arguments.keywords);
            proof {
                lemma_shadow_twice(v0, expr_shadows(**func), exprs_shadows(arguments.args@));
                lemma_shadow_twice(v0, expr_shadows(**func) + exprs_shadows(arguments.args@), exprs_shadows(arguments.keywords@));
            }
        },
        ExprKind::StringLiteral => {
            proof { lemma_shadow_none(v0); }
        },
        ExprKind::SetLiteral { elts } => visit_exprs(b, elts),
        ExprKind::SetComp { children } => visit_exprs(b, children),
        ExprKind::Subscript { value, slice, .. } => {
            visit_expr(b, value);
            visit_expr(b, slice);
            proof { lemma_shadow_twice(v0, expr_shadows(**value), expr_shadows(**slice)); }
        },
        ExprKind::Tuple { elts, .. } => visit_exprs(b, elts),
        ExprKind::List { elts, .. } => visit_exprs(b, elts),
        ExprKind::Starred { value, .. } => visit_expr(b, value),
        ExprKind::Named { target, value } => {
            shadow_target(b, target);
            visit_expr(b, target);
            visit_expr(b, value);
            proof {
                lemma_shadow_twice(v0, target_names(**target), expr_shadows(**target));
                lemma_shadow_twice(v0, target_names(**target) + expr_shadows(**target), expr_shadows(**value));
            }
        },
        ExprKind::Lambda { parameters, body } => {
            visit_params(b, parameters);
            visit_expr(b, body);
            proof { lemma_shadow_twice(v0, params_shadows(parameters@), expr_shadows(**body)); }
        },
        ExprKind::Other { children } => visit_exprs(b, children),
    }
}

fn visit_exprs(b: &mut Bindings, es: &Vec<Expr>)
    ensures
        final(b).view() == shadow_v(old(b).view(), exprs_shadows(es@)),
    decreases es@,
{
    let ghost v0 = b.view();
    let mut i: usize = 0;
    proof { lemma_shadow_none(v0); }
    while i < es.len()
        invariant
            i <= es@.len(),
            b.view() == shadow_v(v0, exprs_shadows(es@.take(i as int))),
        decreases es@.len() - i,
    {
        assert(es@.take(i + 1).drop_last() =~= es@.take(i as int));
        assert(es@.take(i + 1).last() == es@[i as int]);
        visit_expr(b, &es[i]);
        proof { lemma_shadow_twice(v0, exprs_shadows(es@.take(i as int)), expr_shadows(es@[i as int])); }
        i = i + 1;
    }
    assert(es@.take(i as int) =~= es@);
}

fn visit_params(b: &mut Bindings, ps: &Vec<Parameter>)
    ensures
        final(b).view() == shadow_v(old(b).view(), params_shadows(ps@)),
    decreases ps@,
{
    let ghost v0 = b.view();
    let mut i: usize = 0;
    proof { lemma_shadow_none(v0); }
    while i < ps.len()
        invariant
            i <= ps@.len(),
            b.view() == shadow_v(v0, params_shadows(ps@.take(i as int))),
        decreases ps@.len() - i,
    {
        assert(ps@.take(i + 1).drop_last() =~= ps@.take(i as int));
        assert(ps@.take(i + 1).last() == ps@[i as int]);
        let p = &ps[i];
        b.shadow(p.name.as_str());
        visit_exprs(b, &p.exprs);
        proof {
            lemma_shadow_twice(v0, params_shadows(ps@.take(i as int)), set![p.name@]);
            lemma_shadow_twice(v0, params_shadows(ps@.take(i as int)) + set![p.name@], exprs_shadows(p.exprs@));
        }
        i = i + 1;
    }
    assert(ps@.take(i as int) =~= ps@);
}

} // verus!

verus! {

/// What one module's statements are collected against.
struct Ctx<'a> {
    module_name: &'a str,
    package: String,
    table: &'a ModuleTable,
}

impl<'a> Ctx<'a> {
    spec fn scope(&self) -> Scope {
        Scope {
            module_name: self.module_name@,
            package: self.package@,
            known: module_names(self.table.modules_view()),
        }
    }
}

/// The first dotted segment of a name.
fn head_segment(name: &str) -> (r: String)
    ensures
        r@ == split_spec(name@, '.')[0],
{
    let t = chars_of(name);
    let parts = split_chars(t.as_slice(), '.');
    proof {
        crate::text::lemma_split_nonempty(name@, '.');
    }
    string_of(parts[0].as_slice())
}

fn import_aliases_exec(b: &mut Bindings, aliases: &Vec<Alias>)
    ensures
        final(b).view() == import_aliases(old(b).view(), aliases@),
{
    let ghost v0 = b.view();
    let mut i: usize = 0;
    while i < aliases.len()
        invariant
            i <= aliases@.len(),
            b.view() == import_aliases(v0, aliases@.take(i as int)),
        decreases aliases@.len() - i,
    {
        assert(aliases@.take(i + 1).drop_last() =~= aliases@.take(i as int));
        assert(aliases@.take(i + 1).last() == aliases@[i as int]);
        let a = &aliases[i];
        b.note_module(a.name.as_str());
        match &a.asname {
            Some(x) => b.bind(x.as_str(), a.name.clone()),
            None => {
                let head = head_segment(a.name.as_str());
                b.bind(head.as_str(), head.clone());
            },
        }
        i = i + 1;
    }
    assert(aliases@.take(i as int) =~= aliases@);
}

fn from_aliases_exec(b: &mut Bindings, cx: &Ctx, base: &str, aliases: &Vec<Alias>, range: TextRange)
    ensures
        final(b).view() == from_aliases(old(b).view(), cx.scope(), base@, aliases@, range),
{
    let ghost v0 = b.view();
    let mut i: usize = 0;
    let star = char_string('*');
    while i < aliases.len()
        invariant
            i <= aliases@.len(),
            star@ == star_name(),
            b.view() == from_aliases(v0, cx.scope(), base@, aliases@.take(i as int), range),
        decreases aliases@.len() - i,
    {
        assert(aliases@.take(i + 1).drop_last() =~= aliases@.take(i as int));
        assert(aliases@.take(i + 1).last() == aliases@[i as int]);
        let a = &aliases[i];
        if str_eq(a.name.as_str(), star.as_str()) {
            if cx.table.contains(base) {
                let ghost before = b.view();
                let ghost old_st = b.star_targets@;
                let t = copy_str(base);
                proof {
                    crate::text::lemma_views_push(old_st, t);
                }
                b.star_targets.push(t);
                assert(b.view() == (BindingsView { star_targets: before.star_targets.push(base@), ..before }));
            } else {
                let ghost before = b.view();
                let ghost old_u = b.unresolved_stars@;
                b.unresolved_stars.push(UnresolvedStar { target: copy_str(base), range });
                assert(b.unresolved_stars@.map_values(|u: UnresolvedStar| (u.target@, u.range))
                    =~= old_u.map_values(|u: UnresolvedStar| (u.target@, u.range)).push((base@, range)));
                assert(b.view() == (BindingsView { unresolved_stars: before.unresolved_stars.push((base@, range)), ..before }));
            }
        } else {
            let mut qualified = copy_str(base);
            push_char(&mut qualified, '.');
            push_str(&mut qualified, a.name.as_str());
            if cx.table.contains(qualified.as_str()) {
                b.note_module(qualified.as_str());
            }
            let local = match &a.asname {
                Some(x) => x.as_str(),
                None => a.name.as_str(),
            };
            b.bind(local, qualified);
        }
        i = i + 1;
    }
    assert(aliases@.take(i as int) =~= aliases@);
}

} // verus!

verus! {

fn visit_stmt(b: &mut Bindings, cx: &Ctx, s: &Stmt, top: bool)
    ensures
        final(b).view() == collect_stmt(old(b).view(), cx.scope(), *s, top),
    decreases *s,
{
    let ghost v0 = b.view();
    match &s.kind {
        StmtKind::Import { names } => import_aliases_exec(b, names),
        StmtKind::ImportFrom { module, names, level } => {
            let base = if *level == 0 {
                match module {
                    Some(m) => Some(m.clone()),
                    None => None,
                }
            } else {
                let tail = match module {
                    Some(m) => Some(m.as_str()),
                    None => None,
                };
                resolve_relative(cx.package.as_str(), *level, tail)
            };
            match base {
                None => {},
                Some(base) => {
                    b.note_module(base.as_str());
                    from_aliases_exec(b, cx, base.as_str(), names, s.range);
                },
            }
        },
        StmtKind::FunctionDef { name, decorators, parameters, result_annotation, body, .. } => {
            b.shadow(name.as_str());
            if top {
                let qualified = def_qualified(cx.module_name, name.as_str());
                b.bind(name.as_str(), qualified);
            }
            let ghost v1 = b.view();
            visit_exprs(b, decorators);
            visit_params(b, parameters);
            match result_annotation {
                Some(r) => visit_expr(b, r),
                None => {
                    proof { lemma_shadow_none(b.view()); }
                },
            }
            proof {
                lemma_shadow_twice(v1, exprs_shadows(decorators@), params_shadows(parameters@));
                lemma_shadow_twice(v1, exprs_shadows(decorators@) + params_shadows(parameters@), opt_expr_shadows(*result_annotation));
            }
            visit_body(b, cx, body, false);
        },
        StmtKind::ClassDef { name, decorators, arguments, body, .. } => {
            b.shadow(name.as_str());
            if top {
                let qualified = def_qualified(cx.module_name, name.as_str());
                b.bind(name.as_str(), qualified);
            }
            let ghost v1 = b.view();
            visit_exprs(b, decorators);
            match arguments {
                Some(a) => {
                    let ghost v2 = b.view();
                    visit_exprs(b, &a.args);
                    visit_exprs(b, &a.keywords);
                    proof { lemma_shadow_twice(v2, exprs_shadows(a.args@), exprs_shadows(a.keywords@)); }
                },
                None => {
                    proof { lemma_shadow_none(b.view()); }
                },
            }
            proof {
                lemma_shadow_twice(v1, exprs_shadows(decorators@), opt_args_shadows(*arguments));
            }
            visit_body(b, cx, body, false);
        },
        StmtKind::Assign { targets, value } => {
            visit_expr(b, value);
            visit_exprs(b, targets);
            proof { lemma_shadow_twice(v0, expr_shadows(*value), exprs_shadows(targets@)); }
        },
        StmtKind::AugAssign { target, value } => {
            visit_expr(b, value);
            visit_expr(b, target);
            proof { lemma_shadow_twice(v0, expr_shadows(*value), expr_shadows(*target)); }
        },
        StmtKind::AnnAssign { target, annotation, value } => {
            match value {
                Some(x) => visit_expr(b, x),
                None => {
                    proof { lemma_shadow_none(v0); }
                },
            }
            visit_expr(b, annotation);
            visit_expr(b, target);
            proof {
                lemma_shadow_twice(v0, opt_expr_shadows(*value), expr_shadows(*annotation));
                lemma_shadow_twice(v0, opt_expr_shadows(*value) + expr_shadows(*annotation), expr_shadows(*target));
            }
        },
        StmtKind::Global { names } => shadow_names(b, names),
        StmtKind::Nonlocal { names } => shadow_names(b, names),
        StmtKind::Other { children } => visit_children(b, cx, children),
    }
}

/// `<module>.<name>`.
fn def_qualified(module_name: &str, name: &str) -> (r: String)
    ensures
        r@ == module_name@.push('.') + name@,
{
    let mut q = copy_str(module_name);
    push_char(&mut q, '.');
    push_str(&mut q, name);
    q
}

fn shadow_names(b: &mut Bindings, names: &Vec<String>)
    ensures
        final(b).view() == shadow_v(old(b).view(), string_set(names@)),
{
    let ghost v0 = b.view();
    let mut i: usize = 0;
    proof {
        assert(string_set(names@.take(0)) =~= Set::empty());
        lemma_shadow_none(v0);
    }
    while i < names.len()
        invariant
            i <= names@.len(),
            b.view() == shadow_v(v0, string_set(names@.take(i as int))),
        decreases names@.len() - i,
    {
        b.shadow(names[i].as_str());
        proof {
            lemma_shadow_twice(v0, string_set(names@.take(i as int)), set![names@[i as int]@]);
            assert(string_set(names@.take(i + 1)) =~= string_set(names@.take(i as int)) + set![names@[i as int]@]) by {
                assert forall|x: Seq<char>| holds(names@.take(i + 1), x) <==> holds(names@.take(i as int), x) || x == names@[i as int]@ by {
                    if holds(names@.take(i + 1), x) {
                        let j = choose|j: int| 0 <= j < names@.take(i + 1).len() && #[trigger] names@.take(i + 1)[j]@ == x;
                        if j < i {
                            assert(names@.take(i as int)[j] == names@.take(i + 1)[j]);
                        }
                    }
                    if holds(names@.take(i as int), x) {
                        let j = choose|j: int| 0 <= j < names@.take(i as int).len() && #[trigger] names@.take(i as int)[j]@ == x;
                        assert(names@.take(i + 1)[j] == names@.take(i as int)[j]);
                    }
                    if x == names@[i as int]@ {
                        assert(names@.take(i + 1)[i as int]@ == x);
                    }
                }
            }
        }
        i = i + 1;
    }
    assert(names@.take(i as int) =~= names@);
}

fn visit_children(b: &mut Bindings, cx: &Ctx, children: &Vec<Child>)
    ensures
        final(b).view() == collect_children(old(b).view(), cx.scope(), children@),
    decreases children@,
{
    let ghost v0 = b.view();
    let mut i: usize = 0;
    while i < children.len()
        invariant
            i <= children@.len(),
            b.view() == collect_children(v0, cx.scope(), children@.take(i as int)),
        decreases children@.len() - i,
    {
        assert(children@.take(i + 1).drop_last() =~= children@.take(i as int));
        assert(children@.take(i + 1).last() == children@[i as int]);
        match &children[i] {
            Child::Stmt(st) => visit_stmt(b, cx, st, false),
            Child::Expr(e) => visit_expr(b, e),
        }
        i = i + 1;
    }
    assert(children@.take(i as int) =~= children@);
}

fn visit_body(b: &mut Bindings, cx: &Ctx, body: &Vec<Stmt>, top: bool)
    ensures
        final(b).view() == collect_body(old(b).view(), cx.scope(), body@, top),
    decreases body@,
{
    let ghost v0 = b.view();
    let mut i: usize = 0;
    while i < body.len()
        invariant
            i <= body@.len(),
            b.view() == collect_body(v0, cx.scope(), body@.take(i as int), top),
        decreases body@.len() - i,
    {
        assert(body@.take(i + 1).drop_last() =~= body@.take(i as int));
        assert(body@.take(i + 1).last() == body@[i as int]);
        visit_stmt(b, cx, &body[i], top);
        i = i + 1;
    }
    assert(body@.take(i as int) =~= body@);
}

} // verus!

verus! {

fn alias_pass_exec(b: &mut Bindings, body: &Vec<Stmt>)
    ensures
        final(b).view() == alias_pass(old(b).view(), body@),
{
    let ghost v0 = b.view();
    let mut i: usize = 0;
    while i < body.len()
        invariant
            i <= body@.len(),
            b.view() == alias_pass(v0, body@.take(i as int)),
        decreases body@.len() - i,
    {
        assert(body@.take(i + 1).drop_last() =~= body@.take(i as int));
        assert(body@.take(i + 1).last() == body@[i as int]);
        match &body[i].kind {
            StmtKind::Assign { targets, value } => {
                if targets.len() == 1 {
                    match &targets[0].kind {
                        ExprKind::Name { id, .. } => {
                            match b.resolve(value) {
                                Some(resolved) => {
                                    if !str_eq(resolved.qualified.as_str(), id.as_str()) {
                                        b.bind(id.as_str(), resolved.qualified);
                                    }
                                },
                                None => {},
                            }
                        },
                        _ => {},
                    }
                }
            },
            _ => {},
        }
        i = i + 1;
    }
    assert(body@.take(i as int) =~= body@);
}

/// Builds the binding table for one module. Star imports are recorded but
/// not merged; call [`merge_star_imports`] once every module has a table.
pub fn build(module: &Module, table: &ModuleTable) -> (r: Bindings)
    ensures
        r.view() == build_spec(scope_of(*module, *table), module.body@),
{
    let mut bindings = Bindings::empty();
    let names = table.module_names();
    let mut i: usize = 0;
    assert(Set::new(|n: Seq<char>| exists|k: int| 0 <= k < 0 && #[trigger] table.modules_view()[k].name@ == n) =~= Set::<Seq<char>>::empty());
    while i < names.len()
        invariant
            i <= names@.len(),
            names@.len() == table.modules_view().len(),
            forall|k: int| 0 <= k < names@.len() ==> #[trigger] names@[k]@ == table.modules_view()[k].name@,
            bindings.view() == (BindingsView {
                names: Map::empty(),
                shadowed: Set::empty(),
                modules: Set::new(|n: Seq<char>| exists|k: int| 0 <= k < i && #[trigger] table.modules_view()[k].name@ == n),
                star_targets: Seq::empty(),
                unresolved_stars: Seq::empty(),
            }),
        decreases names@.len() - i,
    {
        let ghost before = bindings.view();
        bindings.add_module(names[i].clone());
        assert(bindings.view().modules =~= Set::new(|n: Seq<char>| exists|k: int| 0 <= k < i + 1 && #[trigger] table.modules_view()[k].name@ == n)) by {
            assert forall|n: Seq<char>| bindings.view().modules.contains(n) <==> exists|k: int| 0 <= k < i + 1 && #[trigger] table.modules_view()[k].name@ == n by {
                if n == names@[i as int]@ {
                    assert(table.modules_view()[i as int].name@ == n);
                }
            }
        }
        i = i + 1;
    }
    assert(bindings.view().modules =~= module_names(table.modules_view()));
    let package = module.package();
    let cx = Ctx { module_name: module.name.as_str(), package, table };
    assert(cx.scope() == scope_of(*module, *table));
    visit_body(&mut bindings, &cx, &module.body, true);
    alias_pass_exec(&mut bindings, &module.body);
    alias_pass_exec(&mut bindings, &module.body);
    bindings
}

} // verus!

verus! {

/// `own` with every binding of `incoming` whose name `own` leaves unbound.
pub open spec fn adopt(own: Map<Seq<char>, Seq<char>>, incoming: Map<Seq<char>, Seq<char>>) -> Map<Seq<char>, Seq<char>> {
    Map::new(
        |k: Seq<char>| own.contains_key(k) || incoming.contains_key(k),
        |k: Seq<char>| if own.contains_key(k) { own[k] } else { incoming[k] },
    )
}

/// Putting a pair in front only binds its name when the rest leaves it unbound.
proof fn lemma_pairs_map_prepend(x: (String, String), rest: Seq<(String, String)>)
    ensures
        pairs_map(seq![x] + rest) == (if pairs_map(rest).contains_key(x.0@) {
            pairs_map(rest)
        } else {
            pairs_map(rest).insert(x.0@, x.1@)
        }),
    decreases rest.len(),
{
    if rest.len() == 0 {
        assert((seq![x] + rest).drop_last() =~= Seq::<(String, String)>::empty());
        assert(pairs_map(Seq::<(String, String)>::empty()) =~= Map::empty());
    } else {
        let init = rest.drop_last();
        lemma_pairs_map_prepend(x, init);
        assert((seq![x] + rest).drop_last() =~= seq![x] + init);
        assert((seq![x] + rest).last() == rest.last());
        let l = rest.last();
        if pairs_map(init).contains_key(x.0@) {
        } else if l.0@ == x.0@ {
            assert(pairs_map(init).insert(x.0@, x.1@).insert(l.0@, l.1@) =~= pairs_map(init).insert(l.0@, l.1@));
        } else {
            assert(pairs_map(init).insert(x.0@, x.1@).insert(l.0@, l.1@) =~= pairs_map(init).insert(l.0@, l.1@).insert(x.0@, x.1@));
        }
    }
}

impl Bindings {
    /// Binds every name of `incoming` that this table leaves unbound, as
    /// `incoming` binds it; true when that bound anything.
    fn adopt_from(&mut self, incoming: &Vec<(String, String)>) -> (changed: bool)
        ensures
            final(self).view() == (BindingsView { names: adopt(old(self).view().names, pairs_map(incoming@)), ..old(self).view() }),
            changed == !pairs_map(incoming@).dom().subset_of(old(self).view().names.dom()),
    {
        let ghost v0 = self.view();
        let ghost p = incoming@;
        let mut changed = false;
        let mut j: usize = incoming.len();
        assert(p.skip(p.len() as int) =~= Seq::<(String, String)>::empty());
        assert(adopt(v0.names, pairs_map(Seq::<(String, String)>::empty())) =~= v0.names);
        while j > 0
            invariant
                j <= p.len(),
                p == incoming@,
                self.view() == (BindingsView { names: adopt(v0.names, pairs_map(p.skip(j as int))), ..v0 }),
                changed == !pairs_map(p.skip(j as int)).dom().subset_of(v0.names.dom()),
            decreases j,
        {
            let ghost before = self.view();
            let ghost rest = p.skip(j as int);
            assert(p.skip(j - 1) =~= seq![p[j - 1]] + rest);
            proof {
                lemma_pairs_map_prepend(p[j - 1], rest);
            }
            let pair = &incoming[j - 1];
            match self.lookup(pair.0.as_str()) {
                Some(_) => {
                    assert(adopt(v0.names, pairs_map(p.skip(j - 1))) =~= adopt(v0.names, pairs_map(rest)));
                },
                None => {
                    self.bind(pair.0.as_str(), pair.1.clone());
                    changed = true;
                    assert(adopt(v0.names, pairs_map(p.skip(j - 1))) =~= adopt(v0.names, pairs_map(rest)).insert(pair.0@, pair.1@));
                    assert(pairs_map(p.skip(j - 1)).contains_key(pair.0@));
                    assert(!v0.names.contains_key(pair.0@));
                },
            }
            j = j - 1;
        }
        assert(p.skip(0) =~= p);
        changed
    }
}

} // verus!

verus! {

/// The tables as values.
pub open spec fn table_views(tables: Seq<Bindings>) -> Seq<BindingsView> {
    tables.map_values(|b: Bindings| b.view())
}

/// The position of the module a star target names.
pub open spec fn star_source(modules: Seq<Module>, target: Seq<char>) -> Option<int> {
    match crate::resolve::modules::id_of_spec(modules, target) {
        Some(id) => Some(id.spec_index() as int),
        None => None,
    }
}

/// The `t`-th star target of table `i` names table `s`, another table.
pub open spec fn feeds(modules: Seq<Module>, tables: Seq<BindingsView>, i: int, t: int, s: int) -> bool {
    &&& 0 <= i < tables.len()
    &&& 0 <= t < tables[i].star_targets.len()
    &&& star_source(modules, tables[i].star_targets[t]) == Some(s)
    &&& s != i
}

/// Every table keeps all it had; only bindings are added.
pub open spec fn only_names_grow(before: Seq<BindingsView>, after: Seq<BindingsView>) -> bool {
    &&& before.len() == after.len()
    &&& forall|i: int| #![trigger after[i]] 0 <= i < after.len() ==> {
        &&& after[i].shadowed == before[i].shadowed
        &&& after[i].modules == before[i].modules
        &&& after[i].star_targets == before[i].star_targets
        &&& after[i].unresolved_stars == before[i].unresolved_stars
    }
    &&& forall|i: int, k: Seq<char>| 0 <= i < after.len() && #[trigger] before[i].names.contains_key(k)
        ==> after[i].names.contains_key(k) && after[i].names[k] == before[i].names[k]
}

/// Every binding a table gained it shares with a table one of its star
/// targets names.
pub open spec fn gained_from_stars(modules: Seq<Module>, before: Seq<BindingsView>, after: Seq<BindingsView>) -> bool {
    forall|i: int, k: Seq<char>|
        0 <= i < after.len() && #[trigger] after[i].names.contains_key(k) && !before[i].names.contains_key(k)
            ==> exists|t: int, s: int| #[trigger] feeds(modules, before, i, t, s)
                && 0 <= s < after.len()
                && after[s].names.contains_key(k) && after[s].names[k] == after[i].names[k]
}

/// No star import has anything left to copy: each table binds every name
/// that a table its star targets name binds.
pub open spec fn settled(modules: Seq<Module>, tables: Seq<BindingsView>) -> bool {
    forall|i: int, t: int, s: int, k: Seq<char>|
        #[trigger] feeds(modules, tables, i, t, s) && 0 <= s < tables.len() && #[trigger] tables[s].names.contains_key(k)
            ==> tables[i].names.contains_key(k)
}

/// Every name some table binds.
pub open spec fn all_keys(tables: Seq<BindingsView>) -> Set<Seq<char>>
    decreases tables.len(),
{
    if tables.len() == 0 {
        Set::empty()
    } else {
        all_keys(tables.drop_last()) + tables.last().names.dom()
    }
}

/// How many (table, name) bindings from `u` are still missing.
pub open spec fn missing(tables: Seq<BindingsView>, u: Set<Seq<char>>) -> nat
    decreases tables.len(),
{
    if tables.len() == 0 {
        0
    } else {
        missing(tables.drop_last(), u) + u.difference(tables.last().names.dom()).len()
    }
}

proof fn lemma_all_keys(tables: Seq<BindingsView>)
    requires
        forall|i: int| 0 <= i < tables.len() ==> (#[trigger] tables[i]).names.dom().finite(),
    ensures
        all_keys(tables).finite(),
        forall|i: int| 0 <= i < tables.len() ==> (#[trigger] tables[i]).names.dom().subset_of(all_keys(tables)),
    decreases tables.len(),
{
    if tables.len() > 0 {
        let init = tables.drop_last();
        assert forall|i: int| 0 <= i < init.len() implies (#[trigger] init[i]).names.dom().finite() by {
            assert(init[i] == tables[i]);
        }
        lemma_all_keys(init);
        assert forall|i: int| 0 <= i < tables.len() implies (#[trigger] tables[i]).names.dom().subset_of(all_keys(tables)) by {
            if i < tables.len() - 1 {
                assert(init[i] == tables[i]);
            }
        }
    }
}

proof fn lemma_missing_update(tables: Seq<BindingsView>, i: int, nv: BindingsView, u: Set<Seq<char>>, k: Seq<char>)
    requires
        0 <= i < tables.len(),
        u.finite(),
        tables[i].names.dom().subset_of(nv.names.dom()),
    ensures
        missing(tables.update(i, nv), u) <= missing(tables, u),
        u.contains(k) && nv.names.contains_key(k) && !tables[i].names.contains_key(k)
            ==> missing(tables.update(i, nv), u) < missing(tables, u),
    decreases tables.len(),
{
    let after = tables.update(i, nv);
    if i == tables.len() - 1 {
        assert(after.drop_last() =~= tables.drop_last());
        let d = u.difference(tables[i].names.dom());
        let d2 = u.difference(nv.names.dom());
        vstd::set_lib::lemma_len_subset(d, u);
        vstd::set_lib::lemma_len_subset(d2, d);
        if u.contains(k) && nv.names.contains_key(k) && !tables[i].names.contains_key(k) {
            vstd::set::axiom_set_remove_len(d, k);
            vstd::set::axiom_set_remove_finite(d, k);
            vstd::set_lib::lemma_len_subset(d2, d.remove(k));
        }
    } else {
        assert(after.drop_last() =~= tables.drop_last().update(i, nv));
        lemma_missing_update(tables.drop_last(), i, nv, u, k);
    }
}

} // verus!

verus! {

/// Copies into table `index` every binding of table `source` it leaves
/// unbound; true when that bound anything.
fn adopt_step(tables: &mut Vec<Bindings>, index: usize, source: usize) -> (changed: bool)
    requires
        index < old(tables)@.len(),
        source < old(tables)@.len(),
        index != source,
    ensures
        table_views(final(tables)@) == table_views(old(tables)@).update(
            index as int,
            BindingsView {
                names: adopt(table_views(old(tables)@)[index as int].names, table_views(old(tables)@)[source as int].names),
                ..table_views(old(tables)@)[index as int]
            },
        ),
        changed == !table_views(old(tables)@)[source as int].names.dom().subset_of(
            table_views(old(tables)@)[index as int].names.dom(),
        ),
{
    let ghost start = tables@;
    let mut b = Bindings::empty();
    tables.set_and_swap(index, &mut b);
    assert(tables@[source as int] == start[source as int]);
    let changed = b.adopt_from(&tables[source].names);
    tables.set_and_swap(index, &mut b);
    assert(table_views(tables@) =~= table_views(start).update(
        index as int,
        BindingsView {
            names: adopt(table_views(start)[index as int].names, table_views(start)[source as int].names),
            ..table_views(start)[index as int]
        },
    ));
    changed
}

} // verus!

verus! {

/// One copy from a star target's table keeps the round's invariants and does
/// not increase what is missing; it decreases it when it binds anything.
proof fn lemma_adopt_step(
    modules: Seq<Module>,
    st: Seq<BindingsView>,
    cur: Seq<BindingsView>,
    index: int,
    t: int,
    s: int,
    u: Set<Seq<char>>,
)
    requires
        only_names_grow(st, cur),
        gained_from_stars(modules, st, cur),
        forall|j: int| 0 <= j < cur.len() ==> (#[trigger] cur[j]).names.dom().subset_of(u),
        u.finite(),
        feeds(modules, st, index, t, s),
        0 <= s < cur.len(),
    ensures
        ({
            let nv = BindingsView { names: adopt(cur[index].names, cur[s].names), ..cur[index] };
            let cur2 = cur.update(index, nv);
            &&& only_names_grow(st, cur2)
            &&& gained_from_stars(modules, st, cur2)
            &&& forall|j: int| 0 <= j < cur2.len() ==> (#[trigger] cur2[j]).names.dom().subset_of(u)
            &&& missing(cur2, u) <= missing(cur, u)
            &&& !cur[s].names.dom().subset_of(cur[index].names.dom()) ==> missing(cur2, u) < missing(cur, u)
        }),
{
    let nv = BindingsView { names: adopt(cur[index].names, cur[s].names), ..cur[index] };
    let cur2 = cur.update(index, nv);
    assert(cur2[s] == cur[s]);
    assert forall|i: int, k: Seq<char>|
        0 <= i < cur2.len() && #[trigger] cur2[i].names.contains_key(k) && !st[i].names.contains_key(k)
            implies exists|t2: int, s2: int| #[trigger] feeds(modules, st, i, t2, s2)
                && 0 <= s2 < cur2.len()
                && cur2[s2].names.contains_key(k) && cur2[s2].names[k] == cur2[i].names[k] by {
        if i == index && !cur[index].names.contains_key(k) {
            assert(feeds(modules, st, i, t, s));
        } else {
            assert(cur[i].names.contains_key(k));
            let (t2, s2) = choose|t2: int, s2: int| #[trigger] feeds(modules, st, i, t2, s2)
                && 0 <= s2 < cur.len()
                && cur[s2].names.contains_key(k) && cur[s2].names[k] == cur[i].names[k];
            assert(feeds(modules, st, i, t2, s2));
        }
    }
    assert forall|j: int| 0 <= j < cur2.len() implies (#[trigger] cur2[j]).names.dom().subset_of(u) by {
        if j == index {
            assert(cur[index].names.dom().subset_of(u));
            assert(cur[s].names.dom().subset_of(u));
        }
    }
    let k = if !cur[s].names.dom().subset_of(cur[index].names.dom()) {
        choose|k: Seq<char>| cur[s].names.dom().contains(k) && !cur[index].names.dom().contains(k)
    } else {
        Seq::<char>::empty()
    };
    assert(cur[index].names.dom().subset_of(nv.names.dom()));
    assert(cur[s].names.dom().subset_of(u));
    lemma_missing_update(cur, index, nv, u, k);
}

/// `tables` after table `index` copies the bindings of the table `target`
/// names, unless it names no collected module or the table itself; names
/// the table has already keep their binding.
pub open spec fn copy_from_target(modules: Seq<Module>, tables: Seq<BindingsView>, index: int, target: Seq<char>) -> Seq<BindingsView> {
    match star_source(modules, target) {
        Some(s) => if s != index {
            tables.update(index, BindingsView { names: adopt(tables[index].names, tables[s].names), ..tables[index] })
        } else {
            tables
        },
        None => tables,
    }
}

/// Table `index` copying from each of `targets` in turn.
pub open spec fn copy_from_targets(modules: Seq<Module>, tables: Seq<BindingsView>, index: int, targets: Seq<Seq<char>>) -> Seq<BindingsView>
    decreases targets.len(),
{
    if targets.len() == 0 {
        tables
    } else {
        copy_from_target(modules, copy_from_targets(modules, tables, index, targets.drop_last()), index, targets.last())
    }
}

/// The first `n` tables of a round, in order, each copying from its star
/// targets.
pub open spec fn round_prefix(modules: Seq<Module>, tables: Seq<BindingsView>, n: nat) -> Seq<BindingsView>
    decreases n,
{
    if n == 0 {
        tables
    } else {
        copy_from_targets(modules, round_prefix(modules, tables, (n - 1) as nat), n - 1, tables[n - 1].star_targets)
    }
}

/// One round over every table.
pub open spec fn merge_round_spec(modules: Seq<Module>, tables: Seq<BindingsView>) -> Seq<BindingsView> {
    round_prefix(modules, tables, tables.len())
}

/// `k` rounds.
pub open spec fn rounds(modules: Seq<Module>, tables: Seq<BindingsView>, k: nat) -> Seq<BindingsView>
    decreases k,
{
    if k == 0 {
        tables
    } else {
        merge_round_spec(modules, rounds(modules, tables, (k - 1) as nat))
    }
}

/// `result` is what merging `tables` gives when at most `limit` rounds
/// run: the tables after the first round that changes nothing, or after
/// `limit` rounds.
pub open spec fn merged_within(modules: Seq<Module>, tables: Seq<BindingsView>, result: Seq<BindingsView>, limit: nat) -> bool {
    exists|k: nat| k <= limit && #[trigger] rounds(modules, tables, k) == result
        && (merge_round_spec(modules, result) == result || k == limit)
}

/// Some round before `limit` changes nothing.
pub open spec fn settles_within(modules: Seq<Module>, tables: Seq<BindingsView>, limit: nat) -> bool {
    exists|k: nat| k < limit && #[trigger] rounds(modules, tables, k + 1) == rounds(modules, tables, k)
}

/// One round: every table, in order, copies from the table of each of its
/// star targets in turn. True when anything was bound.
fn merge_round(tables: &mut Vec<Bindings>, table: &ModuleTable, Ghost(u): Ghost<Set<Seq<char>>>) -> (changed: bool)
    requires
        old(tables)@.len() == table.modules_view().len(),
        u.finite(),
        forall|j: int| 0 <= j < old(tables)@.len() ==> (#[trigger] table_views(old(tables)@)[j]).names.dom().subset_of(u),
    ensures
        only_names_grow(table_views(old(tables)@), table_views(final(tables)@)),
        gained_from_stars(table.modules_view(), table_views(old(tables)@), table_views(final(tables)@)),
        forall|j: int| 0 <= j < final(tables)@.len() ==> (#[trigger] table_views(final(tables)@)[j]).names.dom().subset_of(u),
        missing(table_views(final(tables)@), u) <= missing(table_views(old(tables)@), u),
        changed ==> missing(table_views(final(tables)@), u) < missing(table_views(old(tables)@), u),
        !changed ==> settled(table.modules_view(), table_views(final(tables)@)),
        !changed ==> table_views(final(tables)@) == table_views(old(tables)@),
        table_views(final(tables)@) == merge_round_spec(table.modules_view(), table_views(old(tables)@)),
{
    let ghost st = table_views(tables@);
    let ghost modules = table.modules_view();
    let mut changed = false;
    let mut index: usize = 0;
    let n = tables.len();
    while index < tables.len()
        invariant
            tables@.len() == n,
            n == st.len(),
            n == modules.len(),
            modules == table.modules_view(),
            u.finite(),
            index <= n,
            table_views(tables@) == round_prefix(modules, st, index as nat),
            only_names_grow(st, table_views(tables@)),
            gained_from_stars(modules, st, table_views(tables@)),
            forall|j: int| 0 <= j < n ==> (#[trigger] table_views(tables@)[j]).names.dom().subset_of(u),
            missing(table_views(tables@), u) <= missing(st, u),
            changed ==> missing(table_views(tables@), u) < missing(st, u),
            !changed ==> table_views(tables@) == st,
            !changed ==> forall|j: int, t: int, s: int, k: Seq<char>|
                j < index && #[trigger] feeds(modules, st, j, t, s) && 0 <= s < n && #[trigger] st[s].names.contains_key(k)
                    ==> st[j].names.contains_key(k),
        decreases n - index,
    {
        assert(table_views(tables@)[index as int].star_targets == st[index as int].star_targets);
        let targets = crate::text::copy_strings(&tables[index].star_targets);
        assert(views(targets@) == st[index as int].star_targets);
        assert(views(targets@).take(0) =~= Seq::<Seq<char>>::empty());
        let mut t: usize = 0;
        while t < targets.len()
            invariant
                tables@.len() == n,
                n == st.len(),
                n == modules.len(),
                modules == table.modules_view(),
                u.finite(),
                index < n,
                t <= targets@.len(),
                views(targets@) == st[index as int].star_targets,
                table_views(tables@) == copy_from_targets(modules, round_prefix(modules, st, index as nat), index as int, views(targets@).take(t as int)),
                only_names_grow(st, table_views(tables@)),
                gained_from_stars(modules, st, table_views(tables@)),
                forall|j: int| 0 <= j < n ==> (#[trigger] table_views(tables@)[j]).names.dom().subset_of(u),
                missing(table_views(tables@), u) <= missing(st, u),
                changed ==> missing(table_views(tables@), u) < missing(st, u),
                !changed ==> table_views(tables@) == st,
                !changed ==> forall|j: int, t2: int, s: int, k: Seq<char>|
                    j < index && #[trigger] feeds(modules, st, j, t2, s) && 0 <= s < n && #[trigger] st[s].names.contains_key(k)
                        ==> st[j].names.contains_key(k),
                !changed ==> forall|t2: int, s: int, k: Seq<char>|
                    t2 < t && #[trigger] feeds(modules, st, index as int, t2, s) && 0 <= s < n && #[trigger] st[s].names.contains_key(k)
                        ==> st[index as int].names.contains_key(k),
            decreases targets@.len() - t,
        {
            assert(views(targets@)[t as int] == targets@[t as int]@);
            assert(views(targets@).take(t + 1).drop_last() =~= views(targets@).take(t as int));
            assert(views(targets@).take(t + 1).last() == targets@[t as int]@);
            match table.id_of(targets[t].as_str()) {
                Some(id) => {
                    let source = id.index();
                    if source != index {
                        let ghost cur = table_views(tables@);
                        assert(feeds(modules, st, index as int, t as int, source as int));
                        proof {
                            lemma_adopt_step(modules, st, cur, index as int, t as int, source as int, u);
                        }
                        let c = adopt_step(tables, index, source);
                        if c {
                            changed = true;
                        } else {
                            proof {
                                assert(adopt(cur[index as int].names, cur[source as int].names) =~= cur[index as int].names);
                                assert(table_views(tables@) =~= cur);
                            }
                        }
                    }
                },
                None => {},
            }
            t = t + 1;
        }
        assert(views(targets@).take(t as int) =~= st[index as int].star_targets);
        index = index + 1;
    }
    changed
}

/// Resolves `from x import *` by copying `x`'s bindings into the importer,
/// round after round until a round copies nothing, so chains of star
/// imports settle; at most one round more than there are tables runs.
///
/// Names already bound locally win; a star import cannot displace an
/// explicit one. Targets outside analyzed source stay in `unresolved_stars`.
pub fn merge_star_imports(tables: &mut Vec<Bindings>, table: &ModuleTable)
    requires
        old(tables)@.len() == table.modules_view().len(),
    ensures
        only_names_grow(table_views(old(tables)@), table_views(final(tables)@)),
        gained_from_stars(table.modules_view(), table_views(old(tables)@), table_views(final(tables)@)),
        merged_within(table.modules_view(), table_views(old(tables)@), table_views(final(tables)@), (old(tables)@.len() + 1) as nat),
        settles_within(table.modules_view(), table_views(old(tables)@), (old(tables)@.len() + 1) as nat)
            ==> settled(table.modules_view(), table_views(final(tables)@)),
{
    let ghost orig = table_views(tables@);
    let ghost modules = table.modules_view();
    let ghost u = all_keys(orig);
    proof {
        assert forall|i: int| 0 <= i < orig.len() implies (#[trigger] orig[i]).names.dom().finite() by {
            lemma_pairs_map_finite(tables@[i].names@);
        }
        lemma_all_keys(orig);
        assert(only_names_grow(orig, orig));
        assert(gained_from_stars(modules, orig, orig));
    }
    let n = tables.len();
    let mut round: u128 = 0;
    while round <= n as u128
        invariant_except_break
            round <= n + 1,
        invariant
            tables@.len() == orig.len(),
            n == orig.len(),
            orig.len() == modules.len(),
            modules == table.modules_view(),
            u.finite(),
            only_names_grow(orig, table_views(tables@)),
            gained_from_stars(modules, orig, table_views(tables@)),
            forall|j: int| 0 <= j < tables@.len() ==> (#[trigger] table_views(tables@)[j]).names.dom().subset_of(u),
            table_views(tables@) == rounds(modules, orig, round as nat),
            forall|j: nat| j < round ==> #[trigger] rounds(modules, orig, j + 1) != rounds(modules, orig, j),
        ensures
            merged_within(modules, orig, table_views(tables@), (n + 1) as nat),
            settles_within(modules, orig, (n + 1) as nat) ==> settled(modules, table_views(tables@)),
        decreases n + 1 - round,
    {
        let ghost before = table_views(tables@);
        let changed = merge_round(tables, table, Ghost(u));
        proof {
            lemma_compose(modules, orig, before, table_views(tables@));
            assert(table_views(tables@) == rounds(modules, orig, (round + 1) as nat));
        }
        if !changed {
            proof {
                assert(merge_round_spec(modules, table_views(tables@)) == table_views(tables@));
                assert(rounds(modules, orig, (round + 1) as nat) == table_views(tables@));
            }
            break;
        }
        proof {
            assert(missing(table_views(tables@), u) < missing(before, u));
            assert(rounds(modules, orig, (round + 1) as nat) != rounds(modules, orig, round as nat));
        }
        round = round + 1;
    }
    proof {
        if round == n + 1 {
            assert(rounds(modules, orig, (n + 1) as nat) == table_views(tables@));
        }
    }
}

/// Two stretches of growth compose.
proof fn lemma_compose(modules: Seq<Module>, a: Seq<BindingsView>, b: Seq<BindingsView>, c: Seq<BindingsView>)
    requires
        only_names_grow(a, b),
        gained_from_stars(modules, a, b),
        only_names_grow(b, c),
        gained_from_stars(modules, b, c),
    ensures
        only_names_grow(a, c),
        gained_from_stars(modules, a, c),
{
    assert forall|i: int, k: Seq<char>|
        0 <= i < c.len() && #[trigger] c[i].names.contains_key(k) && !a[i].names.contains_key(k)
            implies exists|t: int, s: int| #[trigger] feeds(modules, a, i, t, s)
                && 0 <= s < c.len()
                && c[s].names.contains_key(k) && c[s].names[k] == c[i].names[k] by {
        assert(b[i].star_targets == a[i].star_targets);
        if b[i].names.contains_key(k) {
            let (t, s) = choose|t: int, s: int| #[trigger] feeds(modules, a, i, t, s)
                && 0 <= s < b.len()
                && b[s].names.contains_key(k) && b[s].names[k] == b[i].names[k];
            assert(feeds(modules, a, i, t, s));
            assert(c[s].names.contains_key(k));
        } else {
            let (t, s) = choose|t: int, s: int| #[trigger] feeds(modules, b, i, t, s)
                && 0 <= s < c.len()
                && c[s].names.contains_key(k) && c[s].names[k] == c[i].names[k];
            assert(feeds(modules, a, i, t, s));
        }
    }
}

} // verus!
