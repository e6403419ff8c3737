//! Module mapping, binding tables, and qualified-name resolution.
//!
//! * [`modules`]: source files to dotted module paths, and relative-import
//!   arithmetic.
//! * [`bindings`]: per-module binding tables and the `Expr` to dotted-name
//!   resolution they power.

pub mod bindings;
pub mod modules;
pub mod settle;

use vstd::prelude::*;

use crate::resolve::bindings::{
    BindingsView, build, build_spec, gained_from_stars, merge_star_imports, merged_within, only_names_grow, scope_of,
    settled, table_views,
};
pub use crate::resolve::bindings::{Bindings, NameKind, ResolvedName};
use crate::resolve::modules::CollectError;
pub use crate::resolve::modules::{Module, ModuleId, ModuleTable};

verus! {

pub enum ResolveError {
    Collect(CollectError),
}

impl ResolveError {
    /// The message shown for the error.
    pub fn message(&self) -> (r: String)
        ensures
            match self {
                ResolveError::Collect(e) => r@ == e.message_spec(),
            },
    {
        match self {
            ResolveError::Collect(e) => e.message(),
        }
    }
}

/// Everything the checks need about a project's Python sources: the module
/// table plus one binding table per module, indexed by [`ModuleId`].
pub struct Program {
    pub modules: ModuleTable,
    bindings: Vec<Bindings>,
}

/// The tables of the modules as each module's own statements build them,
/// before star imports are merged.
pub open spec fn built_tables(table: ModuleTable) -> Seq<BindingsView> {
    Seq::new(
        table.modules_view().len(),
        |i: int| build_spec(scope_of(table.modules_view()[i], table), table.modules_view()[i].body@),
    )
}

impl Program {
    /// The module table.
    pub closed spec fn table(&self) -> ModuleTable {
        self.modules
    }

    /// The module table.
    pub fn modules(&self) -> (r: &ModuleTable)
        ensures
            *r == self.table(),
    {
        &self.modules
    }

    /// One binding table per module.
    pub closed spec fn wf(&self) -> bool {
        self.bindings@.len() == self.modules.modules_view().len()
    }

    /// Whether there is one binding table per module.
    pub fn is_wf(&self) -> (r: bool)
        ensures
            r == self.wf(),
    {
        self.bindings.len() == self.modules.len()
    }

    /// The binding tables, by module position.
    pub closed spec fn bindings_view(&self) -> Seq<BindingsView> {
        table_views(self.bindings@)
    }

    /// Builds every module's table, then merges star imports.
    pub fn from_modules(modules: ModuleTable) -> (r: Program)
        ensures
            r.wf(),
            r.table() == modules,
            only_names_grow(built_tables(modules), r.bindings_view()),
            gained_from_stars(modules.modules_view(), built_tables(modules), r.bindings_view()),
            merged_within(modules.modules_view(), built_tables(modules), r.bindings_view(), (modules.modules_view().len() + 1) as nat),
            settled(modules.modules_view(), r.bindings_view()),
    {
        let mut bindings: Vec<Bindings> = Vec::new();
        let all = modules.iter();
        let mut i: usize = 0;
        while i < all.len()
            invariant
                i <= all@.len(),
                all@ == modules.modules_view(),
                bindings@.len() == i,
                forall|k: int| 0 <= k < i ==> #[trigger] table_views(bindings@)[k] == built_tables(modules)[k],
            decreases all@.len() - i,
        {
            let b = build(&all[i], &modules);
            let ghost before = bindings@;
            bindings.push(b);
            assert(table_views(bindings@) =~= table_views(before).push(b.view()));
            i = i + 1;
        }
        assert(table_views(bindings@) =~= built_tables(modules));
        merge_star_imports(&mut bindings, &modules);
        proof {
            crate::resolve::settle::law_star_imports_settle(modules.modules_view(), built_tables(modules));
        }
        Program { modules, bindings }
    }

    pub fn bindings(&self, id: ModuleId) -> (r: &Bindings)
        requires
            self.wf(),
            id.spec_index() < self.table().modules_view().len(),
        ensures
            r.view() == self.bindings_view()[id.spec_index() as int],
    {
        &self.bindings[id.index()]
    }

    /// Every module with its binding table, in table order.
    pub fn iter(&self) -> (r: Vec<(&Module, &Bindings)>)
        requires
            self.wf(),
        ensures
            r@.len() == self.table().modules_view().len(),
            forall|i: int| 0 <= i < r@.len() ==> *(#[trigger] r@[i]).0 == self.table().modules_view()[i]
                && r@[i].1.view() == self.bindings_view()[i],
    {
        let all = self.modules.iter();
        let mut out: Vec<(&Module, &Bindings)> = Vec::new();
        let mut i: usize = 0;
        while i < all.len()
            invariant
                i <= all@.len(),
                all@ == self.modules.modules_view(),
                self.bindings@.len() == all@.len(),
                out@.len() == i,
                forall|k: int| 0 <= k < i ==> *(#[trigger] out@[k]).0 == all@[k]
                    && out@[k].1.view() == table_views(self.bindings@)[k],
            decreases all@.len() - i,
        {
            out.push((&all[i], &self.bindings[i]));
            i = i + 1;
        }
        out
    }
}

} // verus!
