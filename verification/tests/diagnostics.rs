use trigpoint::diagnostics::{decimal, parse_allow, AllowComments, Level, LineIndex, Lint};

#[test]
fn levels_follow_the_lint() {
    assert_eq!(Lint::ShimNondeterminism.level(), Level::Deny);
    assert_eq!(Lint::SimNondeterminism.level(), Level::Deny);
    assert_eq!(Lint::Unresolved.level(), Level::Warn);
}

#[test]
fn allow_comments_parse() {
    assert_eq!(
        parse_allow("x = time.time()  # triglint: allow(shim-nondeterminism)"),
        Some(vec!["shim-nondeterminism".to_owned()])
    );
    assert_eq!(
        parse_allow("# triglint: allow(shim-nondeterminism, unresolved)"),
        Some(vec![
            "shim-nondeterminism".to_owned(),
            "unresolved".to_owned()
        ])
    );
    assert_eq!(parse_allow("# just a comment"), None);
    assert_eq!(parse_allow("x = 1"), None);
    assert_eq!(parse_allow("# triglint: allow()"), None);
}

#[test]
fn line_index_counts_from_one() {
    let source = "a = 1\nb = 2\n";
    let index = LineIndex::new(source);
    assert_eq!(index.line_column(source, 0), (1, 1));
    assert_eq!(index.line_column(source, 6), (2, 1));
    assert_eq!(index.line_column(source, 10), (2, 5));
}

#[test]
fn columns_count_characters_not_bytes() {
    let source = "é = 1\nx";
    let index = LineIndex::new(source);
    // `=` sits after a two-byte character and a space.
    assert_eq!(index.line_column(source, 3), (1, 3));
    assert_eq!(index.line(7), 2);
}

#[test]
fn names_and_levels_render() {
    assert_eq!(Lint::ShimNondeterminism.name(), "shim-nondeterminism");
    assert_eq!(Lint::SimNondeterminism.name(), "sim-nondeterminism");
    assert_eq!(Lint::Unresolved.name(), "unresolved");
    assert_eq!(Level::Deny.as_str(), "deny");
    assert_eq!(Level::Warn.as_str(), "warn");
    assert_eq!(decimal(0), "0");
    assert_eq!(decimal(4096), "4096");
}

#[test]
fn a_line_marker_and_a_standalone_marker_above_both_apply() {
    let source = "# triglint: allow(unresolved)\nx = eval(s)  # triglint: allow(shim-nondeterminism)\n";
    let index = LineIndex::new(source);
    let allow = AllowComments::scan(source, &vec![], &index);
    assert!(allow.suppresses(Lint::Unresolved, 2, 34));
    assert!(allow.suppresses(Lint::ShimNondeterminism, 2, 34));
    assert!(!allow.suppresses(Lint::SimNondeterminism, 2, 34));
    // The marker on line 2 follows code, so it covers no line beneath it.
    assert!(!allow.suppresses(Lint::ShimNondeterminism, 3, 90));
}

#[test]
fn a_line_is_one_more_than_the_newlines_before_it() {
    let source = "a\nbc\n\nd\n";
    let index = LineIndex::new(source);
    for offset in 0..=source.len() {
        let newlines = source.as_bytes()[..offset].iter().filter(|b| **b == b'\n').count() as u32;
        assert_eq!(index.line(offset as u32), 1 + newlines, "offset {offset}");
    }
    assert_eq!(index.line(0), 1);
}
