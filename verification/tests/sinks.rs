use trigpoint::config::SinkSpec;
use trigpoint::sinks::{builtin_sinks, builtin_trusted_modules, rule, CallSink, SinkDb, SinkHit, SinkRule, Usage};

fn db() -> SinkDb {
    SinkDb::new(builtin_sinks())
}

fn hit(db: &SinkDb, name: &str) -> Option<SinkHit> {
    db.match_name(name, Usage::Called { arguments: 0 })
}

#[test]
fn exact_call_sinks_match() {
    let db = db();
    assert_eq!(
        hit(&db, "time.time").map(|h| h.capability).as_deref(),
        Some("time")
    );
    assert_eq!(
        hit(&db, "datetime.datetime.utcnow")
            .map(|h| h.capability)
            .as_deref(),
        Some("time")
    );
    assert!(hit(&db, "time.timezone").is_none());
}

#[test]
fn module_fences_match_names_underneath() {
    let db = db();
    assert_eq!(
        hit(&db, "random.randint").map(|h| h.capability).as_deref(),
        Some("random")
    );
    assert_eq!(
        hit(&db, "random").map(|h| h.capability).as_deref(),
        Some("random")
    );
    // Fences respect dotted-segment boundaries.
    assert!(hit(&db, "randomizer.pick").is_none());
    assert_eq!(
        db.match_module("numpy.random.default_rng")
            .map(|h| h.capability)
            .as_deref(),
        Some("random")
    );
    assert!(db.match_module("numpy.linalg").is_none());
}

#[test]
fn wildcard_call_sinks_match_families() {
    let db = db();
    assert_eq!(
        hit(&db, "os.spawnvpe").map(|h| h.capability).as_deref(),
        Some("process")
    );
    assert_eq!(
        hit(&db, "os.execv").map(|h| h.capability).as_deref(),
        Some("process")
    );
    assert!(hit(&db, "os.path").is_none());
}

#[test]
fn arity_sensitive_sinks_respect_their_call_site() {
    let db = db();
    assert!(
        db.match_name("time.localtime", Usage::Called { arguments: 0 })
            .is_some()
    );
    assert!(
        db.match_name("time.localtime", Usage::Called { arguments: 1 })
            .is_none()
    );
    // A bare reference cannot be proven safe, so it stays a sink.
    assert!(db.match_name("time.localtime", Usage::Referenced).is_some());
}

#[test]
fn precedence_is_exact_then_wildcard_then_fence() {
    let db = SinkDb::new(vec![
        rule("fence", vec![], &["pkg"]),
        rule("wild", vec![CallSink::wildcard("pkg.spawn")], &[]),
        rule("exact", vec![CallSink::exact("pkg.spawnl")], &[]),
    ]);
    assert_eq!(
        hit(&db, "pkg.spawnl").map(|h| h.capability).as_deref(),
        Some("exact")
    );
    assert_eq!(
        hit(&db, "pkg.spawnv").map(|h| h.capability).as_deref(),
        Some("wild")
    );
    assert_eq!(
        hit(&db, "pkg.other").map(|h| h.capability).as_deref(),
        Some("fence")
    );
}

#[test]
fn print_is_not_a_sink() {
    let db = db();
    assert!(hit(&db, "print").is_none());
    assert!(hit(&db, "sys.stdout").is_none());
}

#[test]
fn user_sinks_merge_with_builtins() {
    let spec = SinkSpec {
        capability: "time".to_owned(),
        calls: vec!["arrow.utcnow".to_owned()],
        modules: vec!["pendulum".to_owned()],
    };
    let mut rules = builtin_sinks();
    rules.push(SinkRule::from_spec(&spec));
    let db = SinkDb::new(rules);
    assert_eq!(
        hit(&db, "arrow.utcnow").map(|h| h.capability).as_deref(),
        Some("time")
    );
    assert_eq!(
        hit(&db, "pendulum.now").map(|h| h.capability).as_deref(),
        Some("time")
    );
    assert_eq!(
        hit(&db, "time.time").map(|h| h.capability).as_deref(),
        Some("time")
    );
}

#[test]
fn sink_kinds_render_what_matched() {
    let db = db();
    assert_eq!(hit(&db, "time.time").unwrap().kind.rendered(), "time.time");
    assert_eq!(db.match_module("random").unwrap().kind.rendered(), "random");
    assert_eq!(CallSink::wildcard("os.spawn").pattern.rendered(), "os.spawn*");
    assert!(!db.is_empty());
    assert_eq!(db.len(), builtin_sinks().len());
}

#[test]
fn builtin_trusted_modules_are_sorted_and_never_fenced() {
    let trusted = builtin_trusted_modules();
    for pair in trusted.windows(2) {
        assert!(pair[0] < pair[1], "{} before {}", pair[0], pair[1]);
    }
    for name in ["time", "os", "sys", "datetime", "io", "uuid", "typing", "dataclasses", "json", "functools"] {
        assert!(trusted.contains(&name), "{name} is trusted");
    }
    let db = SinkDb::new(builtin_sinks());
    for name in trusted {
        assert!(db.match_module(name).is_none(), "{name} is fenced");
    }
}
