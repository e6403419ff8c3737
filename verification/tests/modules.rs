use trigpoint::resolve::modules::{display_path, is_identifier, resolve_relative, source_file};
use trigpoint::syntax::{Child, Expr, ExprContext, ExprKind, StmtKind, TextRange};

#[test]
fn identifiers_gate_module_names() {
    assert!(is_identifier("harness"));
    assert!(is_identifier("_private"));
    assert!(!is_identifier("my-module"));
    assert!(!is_identifier("2fast"));
}

#[test]
fn relative_imports_resolve_against_the_package() {
    // Inside `pkg.sub.mod`, whose package is `pkg.sub`.
    assert_eq!(
        resolve_relative("pkg.sub", 1, Some("sibling")).as_deref(),
        Some("pkg.sub.sibling")
    );
    assert_eq!(
        resolve_relative("pkg.sub", 1, None).as_deref(),
        Some("pkg.sub")
    );
    assert_eq!(
        resolve_relative("pkg.sub", 2, Some("other")).as_deref(),
        Some("pkg.other")
    );
    assert_eq!(resolve_relative("pkg.sub", 3, None), None);
    assert_eq!(resolve_relative("", 1, Some("x")), None);
}

#[test]
fn display_paths_are_relative_and_slashed() {
    assert_eq!(display_path("/proj", "/proj/src/pkg/mod.py"), "src/pkg/mod.py");
}

#[test]
fn paths_outside_the_base_keep_one_leading_slash() {
    assert_eq!(display_path("/proj", "/other/m.py"), "/other/m.py");
    assert_eq!(display_path("/proj/src", "/proj/lib//x.py"), "/proj/lib/x.py");
    assert_eq!(display_path("proj", "other/m.py"), "other/m.py");
}

#[test]
fn dots_past_the_top_level_package_resolve_to_nothing() {
    assert_eq!(resolve_relative("pkg.sub", 3, Some("x")), None);
    assert_eq!(resolve_relative("pkg", 2, Some("x")), None);
    assert_eq!(resolve_relative("pkg", 1, Some("x")).as_deref(), Some("pkg.x"));
    assert_eq!(resolve_relative("", 0, Some("x")).as_deref(), Some("x"));
}

#[test]
fn identifiers_take_unicode_letters_and_reject_the_empty_name() {
    assert!(is_identifier("модуль"));
    assert!(is_identifier("x2"));
    assert!(!is_identifier(""));
}

#[test]
fn a_read_file_is_shown_relative_to_the_display_root_and_parsed() {
    let file = source_file(
        "pkg.mod".to_owned(),
        "/proj/src/pkg/mod.py".to_owned(),
        "/proj",
        false,
        "import time\nx = time.time()\n".to_owned(),
    );
    assert_eq!(file.display_path, "src/pkg/mod.py");
    assert_eq!(file.name, "pkg.mod");
    assert_eq!(file.path, "/proj/src/pkg/mod.py");
    assert_eq!(file.source, "import time\nx = time.time()\n");
    assert!(!file.is_package);
    let body = file.parsed.as_ref().expect("the source parses");
    assert_eq!(body.len(), 2);
    assert_eq!(body[0].range, TextRange { start: 0, end: 11 });
    match &body[0].kind {
        StmtKind::Import { names } => {
            assert_eq!(names.len(), 1);
            assert_eq!(names[0].name, "time");
            assert_eq!(names[0].asname, None);
        }
        other => panic!("expected an import, got {other:?}"),
    }
    match &body[1].kind {
        StmtKind::Assign { targets, value } => {
            assert!(matches!(&targets[0].kind, ExprKind::Name { id, ctx: ExprContext::Store } if id == "x"));
            assert_eq!(value.range, TextRange { start: 16, end: 27 });
            assert!(matches!(&value.kind, ExprKind::Call { .. }));
        }
        other => panic!("expected an assignment, got {other:?}"),
    }

    let broken = source_file(
        "pkg".to_owned(),
        "/elsewhere/pkg/__init__.py".to_owned(),
        "/proj",
        true,
        "def (:\n".to_owned(),
    );
    assert_eq!(broken.display_path, "/elsewhere/pkg/__init__.py");
    assert!(broken.is_package);
    assert!(broken.parsed.is_err());
}

#[test]
fn statements_without_a_rule_keep_their_children_in_source_order() {
    let source = "for i in items:\n    print(i)\nelse:\n    done()\n";
    let file = source_file("m".to_owned(), "/p/m.py".to_owned(), "/p", false, source.to_owned());
    let body = file.parsed.expect("the source parses");
    match &body[0].kind {
        StmtKind::Other { children } => {
            assert_eq!(children.len(), 4);
            assert!(matches!(&children[0], Child::Expr(Expr { kind: ExprKind::Name { id, .. }, .. }) if id == "i"));
            assert!(matches!(&children[1], Child::Expr(Expr { kind: ExprKind::Name { id, .. }, .. }) if id == "items"));
            assert!(matches!(&children[2], Child::Stmt(_)));
            assert!(matches!(&children[3], Child::Stmt(_)));
        }
        other => panic!("a for loop has no rule of its own, got {other:?}"),
    }
}
