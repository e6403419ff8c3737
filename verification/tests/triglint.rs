use trigpoint::triglint::callgraph::{Analysis, Callee, CalleeKind, Edge, SinkKind, UnresolvedKind};
use trigpoint::triglint::prodcheck::{blessing_of, check_body, Blessing, Context, Owner, ProdCall, ProdSinkKind};
use trigpoint::triglint::report::{
    broken_claim_note, chain_note, context_note, prod_help, prod_message, root_note, type_note, unresolved_message,
    violation_help, violation_message,
};

fn callee(instance: u64, path: &str) -> Callee {
    Callee {
        instance,
        marked: None,
        path: path.to_owned(),
        sink: None,
        type_sink: None,
        kind: CalleeKind::Other,
        has_body: true,
        trusted: false,
        foreign: false,
    }
}

/// Root 1 calls 2 (local span 10), 2 calls 3 (span 20, not local).
fn three_deep() -> Analysis {
    let mut analysis = Analysis::new();
    analysis.add_root(1, None);
    let (root, instance) = analysis.next_frame().expect("the root is queued");
    assert_eq!((root, instance), (0, 1));
    analysis.handle_callee(root, true, false, &callee(2, "app::middle"), 10);
    let (middle, _) = analysis.next_frame().expect("the callee is queued");
    analysis.handle_callee(middle, false, false, &callee(3, "dep::inner"), 20);
    analysis
}

#[test]
fn a_reachable_sink_carries_its_chain_from_the_root() {
    let mut analysis = three_deep();
    let (inner, instance) = analysis.next_frame().expect("queued");
    assert_eq!(instance, 3);
    let mut sink = callee(99, "std::time::Instant::now");
    sink.sink = Some("time".to_owned());
    analysis.handle_callee(inner, false, false, &sink, 30);
    assert_eq!(analysis.violations.len(), 1);
    let v = &analysis.violations[0];
    assert_eq!(v.kind, SinkKind::Call);
    assert_eq!(v.capability, "time");
    assert_eq!(v.sink_path, "std::time::Instant::now");
    let instances: Vec<u64> = v.chain.iter().map(|s| s.instance).collect();
    assert_eq!(instances, vec![1, 2, 3]);
    // Only the root's edge lies in local code.
    assert_eq!(v.chain[0].call_span, Some(10));
    assert_eq!(v.chain[1].call_span, None);
    assert_eq!(v.chain[2].call_span, None);
    assert_eq!(v.primary_span, Some(10));
    assert_eq!(v.broken_claim, None);
    assert!(analysis.next_frame().is_none());
}

#[test]
fn a_sink_is_reported_once_per_root() {
    let mut analysis = three_deep();
    let (inner, _) = analysis.next_frame().expect("queued");
    let mut sink = callee(99, "std::time::Instant::now");
    sink.sink = Some("time".to_owned());
    analysis.handle_callee(inner, false, false, &sink, 30);
    analysis.handle_callee(0, true, false, &sink, 31);
    assert_eq!(analysis.violations.len(), 1);
}

#[test]
fn trust_never_masks_a_sink_but_excuses_missing_bodies() {
    let mut analysis = Analysis::new();
    analysis.add_root(1, None);
    let (root, _) = analysis.next_frame().unwrap();
    let mut sink = callee(5, "std::thread::sleep");
    sink.sink = Some("thread".to_owned());
    sink.trusted = true;
    analysis.handle_callee(root, true, true, &sink, 7);
    assert_eq!(analysis.violations.len(), 1);
    let mut opaque = callee(6, "std::sys::opaque");
    opaque.has_body = false;
    opaque.trusted = true;
    analysis.handle_callee(root, true, false, &opaque, 8);
    assert!(analysis.unresolved.is_empty());
    assert!(analysis.next_frame().is_none());
}

#[test]
fn opaque_callees_are_ffi_sinks_or_holes() {
    let mut analysis = Analysis::new();
    analysis.add_root(1, None);
    let (root, _) = analysis.next_frame().unwrap();
    let mut foreign = callee(7, "libc::rand");
    foreign.has_body = false;
    foreign.foreign = true;
    analysis.handle_callee(root, true, false, &foreign, 11);
    let mut missing = callee(8, "dep::compiled");
    missing.has_body = false;
    analysis.handle_callee(root, true, false, &missing, 12);
    assert_eq!(analysis.violations.len(), 1);
    assert_eq!(analysis.violations[0].capability, "ffi");
    assert_eq!(analysis.unresolved.len(), 1);
    match &analysis.unresolved[0].kind {
        UnresolvedKind::MissingMir { def_path } => assert_eq!(def_path, "dep::compiled"),
        _ => panic!("a missing body is a missing-MIR hole"),
    }
    assert_eq!(analysis.unresolved[0].root, 1);
    assert_eq!(analysis.unresolved[0].primary_span, Some(12));
}

#[test]
fn holes_are_reported_once_per_span_and_never_inside_trusted_callers() {
    let mut analysis = Analysis::new();
    analysis.add_root(1, None);
    let (root, _) = analysis.next_frame().unwrap();
    analysis.visit_edge(root, true, false, &Edge::FnPointer, 40);
    analysis.visit_edge(root, true, false, &Edge::InlineAsm, 40);
    analysis.visit_edge(root, true, true, &Edge::FnPointer, 41);
    analysis.visit_edge(root, true, false, &Edge::ResolutionError, 42);
    let mut dynamic = callee(9, "dyn Trait::call");
    dynamic.kind = CalleeKind::Virtual;
    analysis.visit_edge(root, true, false, &Edge::Call(dynamic), 43);
    assert_eq!(analysis.unresolved.len(), 2);
    assert!(matches!(analysis.unresolved[0].kind, UnresolvedKind::FnPointer));
    assert!(matches!(analysis.unresolved[1].kind, UnresolvedKind::DynDispatch));
}

#[test]
fn instances_are_visited_once_and_marked_types_break_claims() {
    let mut analysis = Analysis::new();
    analysis.add_root(1, None);
    analysis.add_root(1, None);
    let (root, _) = analysis.next_frame().unwrap();
    assert!(analysis.next_frame().is_none());
    let mut marked = callee(2, "<SimClock as ClockShim>::now");
    marked.marked = Some(77);
    analysis.handle_callee(root, true, false, &marked, 5);
    let (inner, _) = analysis.next_frame().unwrap();
    let mut sink = callee(3, "std::time::SystemTime::now");
    sink.sink = Some("time".to_owned());
    let mut typed = callee(4, "std::collections::HashMap::<K, V, S>::insert");
    typed.type_sink = Some(("std::hash::RandomState".to_owned(), "hash_order".to_owned()));
    analysis.handle_callee(inner, true, false, &sink, 6);
    analysis.handle_callee(inner, true, false, &typed, 7);
    assert_eq!(analysis.violations.len(), 2);
    assert_eq!(analysis.violations[0].broken_claim, Some(77));
    assert_eq!(analysis.violations[1].kind, SinkKind::Type);
    assert_eq!(analysis.violations[1].sink_path, "std::hash::RandomState");
    assert_eq!(analysis.violations[1].primary_span, Some(7));
    // The typed callee still has a body, so it is traversed.
    assert_eq!(analysis.next_frame().map(|f| f.1), Some(4));
}

#[test]
fn blessings_follow_the_enclosing_item() {
    let shim = Owner::TraitImplMethod {
        trait_path: "demo::ClockShim".to_owned(),
        grants: vec!["time".to_owned()],
        marked_self: None,
    };
    let blessing = blessing_of(&shim);
    assert!(blessing.covers("time"));
    assert!(!blessing.covers("random"));
    let marked = Owner::TraitImplMethod {
        trait_path: "demo::ClockShim".to_owned(),
        grants: vec!["time".to_owned()],
        marked_self: Some("demo::SimClock".to_owned()),
    };
    assert!(!blessing_of(&marked).covers("time"));
    assert!(matches!(blessing_of(&marked).to_context(), Context::MarkedDeterministic { .. }));
    let plain = Owner::TraitImplMethod { trait_path: "demo::Display".to_owned(), grants: vec![], marked_self: None };
    assert!(matches!(blessing_of(&plain), Blessing::Unblessed));
    assert!(matches!(blessing_of(&Owner::InherentMethod), Blessing::Unblessed));
    let default_body = Owner::TraitMethod { trait_path: "demo::ClockShim".to_owned(), grants: vec!["time".to_owned()] };
    assert!(blessing_of(&default_body).covers("time"));
}

#[test]
fn bodies_report_uncovered_sinks_and_each_sink_type_once() {
    let blessing = blessing_of(&Owner::TraitImplMethod {
        trait_path: "demo::ClockShim".to_owned(),
        grants: vec!["time".to_owned()],
        marked_self: None,
    });
    let calls = vec![
        ProdCall { span: 1, sink: Some(("time".to_owned(), "std::time::Instant::now".to_owned())), type_sink: None },
        ProdCall { span: 2, sink: Some(("thread".to_owned(), "std::thread::sleep".to_owned())), type_sink: None },
        ProdCall { span: 3, sink: None, type_sink: Some(("std::hash::RandomState".to_owned(), "hash_order".to_owned())) },
        ProdCall { span: 4, sink: None, type_sink: Some(("std::hash::RandomState".to_owned(), "hash_order".to_owned())) },
    ];
    let mut violations = Vec::new();
    check_body(&blessing, 9, &calls, &mut violations);
    assert_eq!(violations.len(), 2);
    assert_eq!(violations[0].kind, ProdSinkKind::Call);
    assert_eq!(violations[0].sink_path, "std::thread::sleep");
    assert_eq!(violations[0].span, 2);
    assert_eq!(violations[1].kind, ProdSinkKind::Type);
    assert_eq!(violations[1].span, 3);
    assert_eq!(violations[1].body, 9);
    assert_eq!(
        context_note(&violations[0].context),
        "the enclosing `demo::ClockShim` impl grants only [time]"
    );
}

#[test]
fn diagnostic_texts_match_the_lints() {
    assert_eq!(
        violation_message(SinkKind::Call, "std::time::Instant::now", "time"),
        "nondeterminism sink `std::time::Instant::now` (time) is reachable from a simulation root"
    );
    assert_eq!(
        chain_note(&vec!["sim::main".to_owned(), "app::tick".to_owned()], "std::time::Instant::now"),
        "call chain to sink:\n  [0] sim::main\n  [1] app::tick\n  [2] std::time::Instant::now <- sink"
    );
    assert_eq!(
        prod_message(ProdSinkKind::Type, "std::hash::RandomState", "hash_order"),
        "nondeterministic type `std::hash::RandomState` (hash_order) used outside a shim impl granting `hash_order`"
    );
    assert_eq!(
        unresolved_message(&UnresolvedKind::MissingMir { def_path: "dep::f".to_owned() }),
        "no MIR available for `dep::f`; its body cannot be checked (run with DYLINT_RUSTFLAGS=-Zalways-encode-mir, or trust it via [opaque] in triglint.toml)"
    );
    assert_eq!(
        broken_claim_note("demo::SimClock"),
        "`demo::SimClock` implements a deterministic marker trait, but this sink is reachable through it: the determinism claim is broken"
    );
    assert_eq!(
        context_note(&Context::GrantsMissing { trait_path: "demo::Rng".to_owned(), grants: vec!["random".to_owned(), "hash_order".to_owned()] }),
        "the enclosing `demo::Rng` impl grants only [random, hash_order]"
    );
}

#[test]
fn fixed_notes_and_help_read_as_the_lints_print_them() {
    assert_eq!(root_note("sim::main"), "reachable from simulation root `sim::main`");
    assert!(type_note().starts_with("this type carries per-process random state"));
    assert!(violation_help(SinkKind::Call).starts_with("route this capability through a shim trait"));
    assert!(violation_help(SinkKind::Type).starts_with("use a deterministic replacement"));
    assert!(prod_help().starts_with("move this into a granting shim impl"));
    assert_eq!(
        violation_message(SinkKind::Type, "std::hash::RandomState", "hash_order"),
        "nondeterministic type `std::hash::RandomState` (hash_order) is reachable from a simulation root"
    );
}
