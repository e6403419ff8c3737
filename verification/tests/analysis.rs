use trigpoint::analysis::{analyze, sources_indexable, PylintError};
use trigpoint::config::{PythonConfig, Resolved, ShimSpec};
use trigpoint::diagnostics::Lint;
use trigpoint::lint::python::{report, run, Outcome};
use trigpoint::resolve::modules::{source_file, ModuleTable, SourceFile};
use trigpoint::resolve::Program;
use trigpoint::syntax::{Alias, Arguments, Child, Expr, ExprContext, ExprKind, Stmt, StmtKind, TextRange};

fn range(start: u32, end: u32) -> TextRange {
    TextRange { start, end }
}

fn name(id: &str, start: u32) -> Expr {
    Expr {
        range: range(start, start + id.len() as u32),
        kind: ExprKind::Name { id: id.to_owned(), ctx: ExprContext::Load },
    }
}

fn attribute(value: Expr, attr: &str) -> Expr {
    let start = value.range.start;
    let end = value.range.end + 1 + attr.len() as u32;
    Expr {
        range: range(start, end),
        kind: ExprKind::Attribute { value: Box::new(value), attr: attr.to_owned(), ctx: ExprContext::Load },
    }
}

fn call0(func: Expr) -> Expr {
    let start = func.range.start;
    let end = func.range.end + 2;
    Expr {
        range: range(start, end),
        kind: ExprKind::Call { func: Box::new(func), arguments: Arguments { args: vec![], keywords: vec![] } },
    }
}

fn import(module: &str, start: u32) -> Stmt {
    Stmt {
        range: range(start, start + 7 + module.len() as u32),
        kind: StmtKind::Import { names: vec![Alias { name: module.to_owned(), asname: None }] },
    }
}

fn assign(target: &str, start: u32, value: Expr) -> Stmt {
    Stmt {
        range: range(start, value.range.end),
        kind: StmtKind::Assign { targets: vec![Expr {
            range: range(start, start + target.len() as u32),
            kind: ExprKind::Name { id: target.to_owned(), ctx: ExprContext::Store },
        }], value },
    }
}

fn expression(value: Expr) -> Stmt {
    Stmt { range: value.range, kind: StmtKind::Other { children: vec![Child::Expr(value)] } }
}

fn file(name: &str, display: &str, is_package: bool, source: &str, body: Vec<Stmt>) -> SourceFile {
    SourceFile {
        name: name.to_owned(),
        path: format!("/proj/{display}"),
        display_path: display.to_owned(),
        is_package,
        source: source.to_owned(),
        parsed: Ok(body),
    }
}

/// `import time` then `x = time.time()` on the second line.
fn clock_module(name: &str, display: &str, trailer: &str) -> SourceFile {
    let source = format!("import time\nx = time.time(){trailer}\n");
    let body = vec![import("time", 0), assign("x", 12, call0(attribute(name_at("time", 16), "time")))];
    file(name, display, false, &source, body)
}

fn name_at(id: &str, start: u32) -> Expr {
    name(id, start)
}

fn prod_config() -> Resolved {
    let mut python = PythonConfig::default();
    python.shims = vec![ShimSpec { protocol: "app.ClockShim".to_owned(), grants: vec!["time".to_owned()] }];
    Resolved::new("/proj", python)
}

fn sim_config(roots: &[&str]) -> Resolved {
    let mut python = PythonConfig::default();
    python.sim.roots = roots.iter().map(|r| (*r).to_owned()).collect();
    Resolved::new("/proj", python)
}

#[test]
fn a_sink_named_outside_any_shim_is_denied() {
    let table = ModuleTable::build(vec![clock_module("app", "app.py", "")]);
    let program = Program::from_modules(table);
    let analysis = analyze(&prod_config(), &program).ok().expect("prod analysis runs");
    assert_eq!(analysis.summaries(), vec!["deny shim-nondeterminism app.py:2:5 time time.time unblessed".to_owned()]);
    assert_eq!(analysis.denials(), 1);
    assert!(analysis.has_denials());
    assert_eq!(analysis.diagnostics[0].lint, Lint::ShimNondeterminism);
    assert_eq!(analysis.for_file("app.py").len(), 1);
    assert!(analysis.for_file("other.py").is_empty());
    assert_eq!(analysis.modules_collected, 1);
    assert_eq!(analysis.sim_modules, 0);
}

#[test]
fn an_allow_comment_on_the_line_suppresses_the_finding() {
    let table = ModuleTable::build(vec![clock_module(
        "app",
        "app.py",
        "  # triglint: allow(shim-nondeterminism)",
    )]);
    let program = Program::from_modules(table);
    let analysis = analyze(&prod_config(), &program).ok().expect("prod analysis runs");
    assert!(analysis.diagnostics.is_empty());
    assert!(!analysis.has_denials());
}

#[test]
fn a_sink_reachable_from_a_sim_root_names_its_witness_chain() {
    let harness_source = "import app.inner\n";
    let harness = file("app.harness", "app/harness.py", false, harness_source, vec![import("app.inner", 0)]);
    let package = file("app", "app/__init__.py", true, "", vec![]);
    let inner = clock_module("app.inner", "app/inner.py", "");
    let program = Program::from_modules(ModuleTable::build(vec![package, harness, inner]));
    let config = sim_config(&["app.harness"]);
    let analysis = analyze(&config, &program).ok().expect("sim analysis runs");
    assert_eq!(
        analysis.summaries(),
        vec!["deny sim-nondeterminism app/inner.py:2:5 time time.time witness=app.harness > app.inner".to_owned()]
    );
    // Importing `app.inner` runs the package `app` too.
    assert_eq!(analysis.sim_modules, 3);
}

#[test]
fn missing_sim_roots_fail_the_analysis() {
    let program = Program::from_modules(ModuleTable::build(vec![clock_module("app", "app.py", "")]));
    let config = sim_config(&["app.nonexistent"]);
    match analyze(&config, &program) {
        Err(PylintError::MissingSimRoots { roots }) => assert_eq!(roots, vec!["app.nonexistent".to_owned()]),
        _ => panic!("a missing root must not pass silently"),
    }
    match run(Some(&config), &program) {
        Err(error) => assert_eq!(
            error.message(),
            "[python.sim] roots name modules that were not collected: app.nonexistent"
        ),
        Ok(_) => panic!("a missing root must not pass silently"),
    }
}

#[test]
fn unparsable_files_are_reported_as_unresolved() {
    let broken = SourceFile {
        name: "app".to_owned(),
        path: "/proj/app.py".to_owned(),
        display_path: "app.py".to_owned(),
        is_package: false,
        source: "def (:\n".to_owned(),
        parsed: Err("invalid syntax".to_owned()),
    };
    let program = Program::from_modules(ModuleTable::build(vec![broken]));
    let analysis = analyze(&prod_config(), &program).ok().expect("analysis runs");
    assert_eq!(analysis.diagnostics.len(), 1);
    assert_eq!(analysis.diagnostics[0].lint, Lint::Unresolved);
    assert_eq!(analysis.denials(), 0);
    assert_eq!(analysis.modules_collected, 0);
}

#[test]
fn a_run_without_a_python_section_is_inert() {
    let program = Program::from_modules(ModuleTable::build(vec![]));
    match run(None, &program) {
        Ok((Outcome::Inert, None)) => {}
        _ => panic!("no [python] section means nothing to check"),
    }
}

#[test]
fn a_run_reports_and_counts_denials() {
    let program = Program::from_modules(ModuleTable::build(vec![clock_module("app", "app.py", "")]));
    let config = prod_config();
    let (outcome, analysis) = run(Some(&config), &program).ok().expect("run succeeds");
    assert_eq!(outcome, Outcome::Checked { denials: 1 });
    assert!(outcome.failed());
    let analysis = analysis.expect("a checked run has an analysis");
    assert!(analysis.spans_fit_sources());
    let text = report(&analysis);
    assert!(text.ends_with(
        "trigp: python: 1 module(s) checked, 0 in simulation scope, 1 error(s), 0 warning(s)\n"
    ));
    assert!(text.contains("shim-nondeterminism"));
    assert!(text.contains("app.py"));
}

#[test]
fn trusting_a_module_never_masks_a_sink_in_it() {
    let mut python = PythonConfig::default();
    python.shims = vec![ShimSpec { protocol: "app.ClockShim".to_owned(), grants: vec!["time".to_owned()] }];
    python.opaque.trusted_modules = vec!["time".to_owned()];
    let config = Resolved::new("/proj", python);
    let program = Program::from_modules(ModuleTable::build(vec![clock_module("app", "app.py", "")]));
    let analysis = analyze(&config, &program).ok().expect("prod analysis runs");
    assert_eq!(analysis.summaries(), vec!["deny shim-nondeterminism app.py:2:5 time time.time unblessed".to_owned()]);
}

#[test]
fn star_imports_copy_bindings_without_displacing_local_ones() {
    // `from app.base import *` with `clock` already bound locally.
    let base = file("app.base", "app/base.py", false, "import time\n", vec![import("time", 0)]);
    let package = file("app", "app/__init__.py", true, "", vec![]);
    let user_source = "import clock\nfrom app.base import *\n";
    let user_body = vec![
        import("clock", 0),
        Stmt {
            range: range(13, 34),
            kind: StmtKind::ImportFrom {
                module: Some("app.base".to_owned()),
                names: vec![Alias { name: "*".to_owned(), asname: None }],
                level: 0,
            },
        },
    ];
    let user = file("app.user", "app/user.py", false, user_source, user_body);
    let program = Program::from_modules(ModuleTable::build(vec![package, base, user]));
    let id = program.modules.id_of("app.user").expect("module");
    let bindings = program.bindings(id);
    assert_eq!(bindings.lookup("time"), Some("time"));
    assert_eq!(bindings.lookup("clock"), Some("clock"));
    assert!(bindings.unresolved_stars().is_empty());
}

/// The `sim_clean` case: a harness importing a sink-free engine.
#[test]
fn clean_fixtures_produce_no_denials() {
    let package = file("app", "app/__init__.py", true, "", vec![]);
    let harness = file("app.harness", "app/harness.py", false, "import app.engine\n", vec![import("app.engine", 0)]);
    let engine = file("app.engine", "app/engine.py", false, "", vec![]);
    let program = Program::from_modules(ModuleTable::build(vec![package, harness, engine]));
    let analysis = analyze(&sim_config(&["app.harness"]), &program).ok().expect("analysis runs");
    assert!(!analysis.has_denials());
    assert_eq!(analysis.diagnostics.len(), 0);
    // The whole package is in scope: harness, package `__init__`, and engine.
    assert_eq!(analysis.sim_modules, 3);
}

/// The `sim_transitive` case: harness, middle, and an inner module naming
/// a sink.
#[test]
fn violations_set_the_deny_flag() {
    let package = file("app", "app/__init__.py", true, "", vec![]);
    let harness = file("app.harness", "app/harness.py", false, "import app.middle\n", vec![import("app.middle", 0)]);
    let middle = file("app.middle", "app/middle.py", false, "import app.inner\n", vec![import("app.inner", 0)]);
    let inner = clock_module("app.inner", "app/inner.py", "");
    let program = Program::from_modules(ModuleTable::build(vec![package, harness, inner, middle]));
    let analysis = analyze(&sim_config(&["app.harness"]), &program).ok().expect("analysis runs");
    assert!(analysis.has_denials());
    assert_eq!(analysis.denials(), 1);
    assert_eq!(
        analysis.summaries(),
        vec!["deny sim-nondeterminism app/inner.py:2:5 time time.time witness=app.harness > app.middle > app.inner".to_owned()]
    );
}

#[test]
fn writing_to_a_module_attribute_reports_only_the_monkeypatch() {
    // `import random` then `random.seed = f`.
    let target = Expr {
        range: range(14, 25),
        kind: ExprKind::Attribute {
            value: Box::new(name("random", 14)),
            attr: "seed".to_owned(),
            ctx: ExprContext::Store,
        },
    };
    let patch = Stmt { range: range(14, 29), kind: StmtKind::Assign { targets: vec![target], value: name("f", 28) } };
    let source = "import random\nrandom.seed = f\n";
    let app = file("app", "app.py", false, source, vec![import("random", 0), patch]);
    let program = Program::from_modules(ModuleTable::build(vec![app]));
    let analysis = analyze(&prod_config(), &program).ok().expect("prod analysis runs");
    assert_eq!(analysis.diagnostics.len(), 1);
    assert_eq!(analysis.diagnostics[0].lint, Lint::Unresolved);
    assert_eq!(analysis.denials(), 0);
}

#[test]
fn findings_come_sorted_by_file_and_never_twice() {
    let table = ModuleTable::build(vec![clock_module("zeta", "zeta.py", ""), clock_module("alpha", "alpha.py", "")]);
    let program = Program::from_modules(table);
    let analysis = analyze(&prod_config(), &program).ok().expect("prod analysis runs");
    assert_eq!(
        analysis.summaries(),
        vec![
            "deny shim-nondeterminism alpha.py:2:5 time time.time unblessed".to_owned(),
            "deny shim-nondeterminism zeta.py:2:5 time time.time unblessed".to_owned(),
        ]
    );
    let again = analyze(&prod_config(), &program).ok().expect("prod analysis runs");
    assert_eq!(analysis.summaries(), again.summaries());
}

fn parsed(name: &str, display: &str, is_package: bool, source: &str) -> SourceFile {
    source_file(name.to_owned(), format!("/proj/{display}"), "/proj", is_package, source.to_owned())
}

/// The `sim_transitive` case, parsed from its sources: the rendering names
/// the sink, its place in the file and the witness chain.
#[test]
fn rendered_sim_diagnostic_matches_golden() {
    let files = vec![
        parsed("app", "app/__init__.py", true, ""),
        parsed("app.harness", "app/harness.py", false, "import app.middle\n"),
        parsed("app.inner", "app/inner.py", false, "import time\nx = time.time()\n"),
        parsed("app.middle", "app/middle.py", false, "import app.inner\n"),
    ];
    let program = Program::from_modules(ModuleTable::build(files));
    let analysis = analyze(&sim_config(&["app.harness"]), &program).ok().expect("analysis runs");
    assert_eq!(
        analysis.summaries(),
        vec!["deny sim-nondeterminism app/inner.py:2:5 time time.time witness=app.harness > app.middle > app.inner".to_owned()]
    );
    assert!(analysis.spans_fit_sources());
    let rendered = analysis.render();
    for expected in [
        "nondeterminism sink `time.time` (time) is reachable from a simulation root",
        "app/inner.py:2:5",
        "x = time.time()",
        "time sink named here",
        "witness: app.harness > app.middle > app.inner",
    ] {
        assert!(rendered.contains(expected), "missing {expected:?} in\n{rendered}");
    }
    assert!(rendered.ends_with('\n'));
}

#[test]
fn warnings_are_exactly_the_unresolved_diagnostics() {
    let broken = SourceFile {
        name: "broken".to_owned(),
        path: "/proj/broken.py".to_owned(),
        display_path: "broken.py".to_owned(),
        is_package: false,
        source: "def (:\n".to_owned(),
        parsed: Err("invalid syntax".to_owned()),
    };
    let program = Program::from_modules(ModuleTable::build(vec![clock_module("app", "app.py", ""), broken]));
    assert!(program.is_wf());
    assert!(sources_indexable(&program));
    let analysis = analyze(&prod_config(), &program).ok().expect("prod analysis runs");
    let unresolved = analysis.diagnostics.iter().filter(|d| d.lint == Lint::Unresolved).count();
    assert_eq!(analysis.diagnostics.len(), 2);
    assert_eq!(analysis.denials() + unresolved, analysis.diagnostics.len());
    assert_eq!(unresolved, 1);
}

/// Sinks nested in every kind of statement and expression the analysis has
/// no rule of its own for are still found once the source is parsed.
#[test]
fn parsed_sources_reach_sinks_in_every_construct() {
    let source = [
        "import time\n",
        "for i in [time.time()]:\n",
        "    pass\n",
        "while time.time():\n",
        "    break\n",
        "if time.time():\n",
        "    pass\n",
        "elif time.time():\n",
        "    pass\n",
        "with time.time() as t:\n",
        "    pass\n",
        "try:\n",
        "    x = 1\n",
        "except time.time():\n",
        "    pass\n",
        "match time.time():\n",
        "    case 1 if time.time():\n",
        "        pass\n",
        "y = [v for v in range(3) if time.time()]\n",
        "z = {k: time.time() for k in range(3)}\n",
        "w = f\"{time.time()}\"\n",
        "u = (lambda a=time.time(): a)\n",
        "s = x[time.time():]\n",
        "r = -time.time() + (time.time() if x else 0)\n",
        "assert time.time(), time.time()\n",
        "def f(p=time.time()) -> int:\n",
        "    return time.time()\n",
        "@time.time()\n",
        "class C:\n",
        "    pass\n",
    ]
    .concat();
    let source = source.as_str();
    let file = source_file("app".to_owned(), "/proj/app.py".to_owned(), "/proj", false, source.to_owned());
    assert!(file.parsed.is_ok());
    let program = Program::from_modules(ModuleTable::build(vec![file]));
    let analysis = analyze(&prod_config(), &program).ok().expect("prod analysis runs");
    let mut expected = Vec::new();
    for (number, line) in source.lines().enumerate() {
        let mut from = 0;
        while let Some(at) = line[from..].find("time.time()") {
            let column = line[..from + at].chars().count() + 1;
            expected.push(format!("deny shim-nondeterminism app.py:{}:{} time time.time unblessed", number + 1, column));
            from += at + 1;
        }
    }
    assert_eq!(expected.len(), 20);
    assert_eq!(analysis.summaries(), expected);
}
