use trigpoint::config::{PythonConfig, Resolved};
use trigpoint::resolve::modules::{classify_entry, EntryAction, ModuleTable, SourceFile};
use trigpoint::resolve::{NameKind, Program};
use trigpoint::simscope::closure;
use trigpoint::syntax::{
    Alias, Arguments, Expr, ExprContext, ExprKind, Parameter, Stmt, StmtKind, TextRange,
};

fn at(start: u32, end: u32) -> TextRange {
    TextRange { start, end }
}

fn stmt(kind: StmtKind) -> Stmt {
    Stmt { range: at(0, 1), kind }
}

fn import(name: &str, asname: Option<&str>) -> Stmt {
    stmt(StmtKind::Import { names: vec![Alias { name: name.to_owned(), asname: asname.map(str::to_owned) }] })
}

fn import_from(module: Option<&str>, name: &str, level: u32) -> Stmt {
    stmt(StmtKind::ImportFrom {
        module: module.map(str::to_owned),
        names: vec![Alias { name: name.to_owned(), asname: None }],
        level,
    })
}

fn name(id: &str, ctx: ExprContext) -> Expr {
    Expr { range: at(0, 1), kind: ExprKind::Name { id: id.to_owned(), ctx } }
}

fn module(name: &str, is_package: bool, body: Vec<Stmt>) -> SourceFile {
    let file = if is_package {
        format!("{}/__init__.py", name.replace('.', "/"))
    } else {
        format!("{}.py", name.replace('.', "/"))
    };
    SourceFile {
        name: name.to_owned(),
        path: format!("/proj/{file}"),
        display_path: file,
        is_package,
        source: String::new(),
        parsed: Ok(body),
    }
}

/// The `sim_relative` tree: a package with a sub-package and relative
/// imports in its harness.
fn sim_relative() -> Program {
    let harness = vec![import_from(None, "helper", 1), import_from(Some("sub.deep"), "value", 1)];
    Program::from_modules(ModuleTable::build(vec![
        module("pkg", true, vec![]),
        module("pkg.harness", false, harness),
        module("pkg.helper", false, vec![]),
        module("pkg.sub", true, vec![]),
        module("pkg.sub.deep", false, vec![]),
    ]))
}

/// The parts of the `prod` corpus the binding assertions look at.
fn prod() -> Program {
    let module_alias = vec![
        import("time", None),
        stmt(StmtKind::Assign {
            targets: vec![name("NOW", ExprContext::Store)],
            value: Expr {
                range: at(0, 1),
                kind: ExprKind::Attribute {
                    value: Box::new(name("time", ExprContext::Load)),
                    attr: "time".to_owned(),
                    ctx: ExprContext::Load,
                },
            },
        }),
    ];
    let shimdefs = vec![
        import_from(Some("trigpoint_shims"), "DeterministicShim", 0),
        stmt(StmtKind::ClassDef {
            name: "ClockShim".to_owned(),
            name_start: 0,
            decorators: vec![],
            arguments: Some(Arguments { args: vec![], keywords: vec![] }),
            body: vec![],
        }),
    ];
    let monkeypatch = vec![
        import("time", None),
        stmt(StmtKind::FunctionDef {
            name: "install".to_owned(),
            name_start: 0,
            decorators: vec![],
            parameters: vec![Parameter { name: "fake".to_owned(), exprs: vec![] }],
            result_annotation: None,
            body: vec![],
        }),
    ];
    Program::from_modules(ModuleTable::build(vec![
        module("aliased_import", false, vec![import("time", Some("clock"))]),
        module("direct_call", false, vec![import("time", None)]),
        module("from_import", false, vec![import_from(Some("time"), "monotonic", 0)]),
        module("module_alias", false, module_alias),
        module("monkeypatch", false, monkeypatch),
        module("shimdefs", false, shimdefs),
        module("star_import", false, vec![import_from(Some("unvendored_pkg"), "*", 0)]),
    ]))
}

/// The `sim_transitive` tree: the harness imports a middle module, which
/// imports the inner one.
fn sim_transitive() -> Program {
    Program::from_modules(ModuleTable::build(vec![
        module("app", true, vec![]),
        module("app.harness", false, vec![import("app.middle", None)]),
        module("app.inner", false, vec![]),
        module("app.middle", false, vec![import("app.inner", None)]),
    ]))
}

fn sim_config(roots: &[&str]) -> Resolved {
    let mut python = PythonConfig::default();
    python.sim.roots = roots.iter().map(|r| (*r).to_owned()).collect();
    Resolved::new("/proj", python)
}

#[test]
fn module_paths_honour_packages() {
    let program = sim_relative();
    let mut names = program.modules.names();
    names.sort_unstable();
    assert_eq!(names, ["pkg", "pkg.harness", "pkg.helper", "pkg.sub", "pkg.sub.deep"]);
    // `__init__.py` *is* its package; a plain module is not.
    assert!(program.modules.get("pkg").expect("package").is_package);
    assert!(!program.modules.get("pkg.harness").expect("module").is_package);
    assert_eq!(program.modules.get("pkg.sub.deep").expect("module").package(), "pkg.sub");
    assert_eq!(program.modules.get("pkg").expect("package").package(), "pkg");
}

#[test]
fn names_include_the_ancestor_packages_of_a_lone_module() {
    let table = ModuleTable::build(vec![module("ns.mod", false, vec![]), module("app.sim.harness", false, vec![])]);
    assert_eq!(table.names(), ["app", "app.sim", "app.sim.harness", "ns", "ns.mod"]);
    assert_eq!(table.module_names(), ["ns.mod", "app.sim.harness"]);
}

#[test]
fn file_names_map_to_module_paths() {
    let prefix = vec!["pkg".to_owned(), "sub".to_owned()];
    match classify_entry("deep.py", false, &prefix) {
        EntryAction::Module { name, is_package } => {
            assert_eq!(name, "pkg.sub.deep");
            assert!(!is_package);
        }
        _ => panic!("a module file maps to a module"),
    }
    match classify_entry("__init__.py", false, &prefix) {
        EntryAction::Module { name, is_package } => {
            assert_eq!(name, "pkg.sub");
            assert!(is_package);
        }
        _ => panic!("`__init__.py` is its package"),
    }
    assert!(matches!(classify_entry("__init__.py", false, &vec![]), EntryAction::Skip));
    assert!(matches!(classify_entry("sub", true, &prefix), EntryAction::Descend));
    assert!(matches!(classify_entry("__pycache__", true, &prefix), EntryAction::Skip));
    assert!(matches!(classify_entry(".hidden", true, &prefix), EntryAction::Skip));
    assert!(matches!(classify_entry("my-module.py", false, &prefix), EntryAction::Skip));
    assert!(matches!(classify_entry("notes.txt", false, &prefix), EntryAction::Skip));
}

#[test]
fn relative_imports_resolve_through_the_binding_table() {
    let program = sim_relative();
    let id = program.modules.id_of("pkg.harness").expect("harness");
    let bindings = program.bindings(id);
    // `from . import helper`
    assert_eq!(bindings.lookup("helper"), Some("pkg.helper"));
    // `from .sub.deep import value`
    assert_eq!(bindings.lookup("value"), Some("pkg.sub.deep.value"));
    assert!(bindings.is_module("pkg.helper"));
    assert!(!bindings.is_module("pkg.sub.deep.value"));
}

#[test]
fn import_forms_bind_the_right_names() {
    let program = prod();

    let aliased = program.modules.id_of("aliased_import").expect("module");
    assert_eq!(program.bindings(aliased).lookup("clock"), Some("time"));

    let from_import = program.modules.id_of("from_import").expect("module");
    assert_eq!(program.bindings(from_import).lookup("monotonic"), Some("time.monotonic"));

    let direct = program.modules.id_of("direct_call").expect("module");
    assert_eq!(program.bindings(direct).lookup("time"), Some("time"));

    // Module-level `NAME = dotted.name` aliases.
    let alias = program.modules.id_of("module_alias").expect("module");
    assert_eq!(program.bindings(alias).lookup("NOW"), Some("time.time"));

    // Top-level `class` statements resolve as `<module>.<Class>`.
    let shimdefs = program.modules.id_of("shimdefs").expect("module");
    assert_eq!(program.bindings(shimdefs).lookup("ClockShim"), Some("shimdefs.ClockShim"));
}

#[test]
fn unresolvable_star_imports_are_recorded() {
    let program = prod();
    let id = program.modules.id_of("star_import").expect("module");
    let stars = program.bindings(id).unresolved_stars();
    assert_eq!(stars.len(), 1);
    assert_eq!(stars[0].target, "unvendored_pkg");
}

#[test]
fn module_objects_are_distinguished_from_values() {
    let program = prod();
    let id = program.modules.id_of("monkeypatch").expect("module");
    let bindings = program.bindings(id);
    assert!(bindings.is_module("time"));
    assert!(!bindings.is_module("time.time"));

    let shimdefs = program.modules.id_of("shimdefs").expect("module");
    let bindings = program.bindings(shimdefs);
    assert!(bindings.is_module("trigpoint_shims"));
    assert_eq!(bindings.lookup("DeterministicShim"), Some("trigpoint_shims.DeterministicShim"));
}

#[test]
fn locally_assigned_names_stop_resolving_to_builtins() {
    let program = prod();
    let id = program.modules.id_of("monkeypatch").expect("module");
    let bindings = program.bindings(id);
    // `install(fake)` binds `fake` as a parameter.
    assert!(bindings.is_shadowed("fake"));
    assert!(!bindings.is_shadowed("open"));
}

#[test]
fn sim_closure_walks_transitively_with_witness_chains() {
    let program = sim_transitive();
    let config = sim_config(&["app.harness"]);
    let closure = closure(&program, &config).ok().expect("roots resolve");

    let inner = program.modules.id_of("app.inner").expect("inner module");
    assert!(closure.contains(inner));
    assert_eq!(closure.witness(inner), "app.harness > app.middle > app.inner");
    assert_eq!(closure.order.len(), 4);
    assert!(closure.unresolved.is_empty());
}

#[test]
fn missing_sim_roots_are_an_error() {
    let program = sim_transitive();
    let config = sim_config(&["app.nonexistent"]);
    let error = closure(&program, &config).err().expect("a missing root must not pass silently");
    assert_eq!(error.0, vec!["app.nonexistent".to_owned()]);
}

#[test]
fn name_kinds_are_reported_for_resolved_expressions() {
    // A guard that the public `NameKind` distinction stays meaningful.
    assert_ne!(NameKind::Module, NameKind::Value);
}
