use trigpoint::config::{discover, path_join, Opaque, PythonConfig, Resolved, ShimSpec, SimSection};

/// The `[python]` section of a complete configuration, as it parses.
fn full() -> Resolved {
    let mut python = PythonConfig::default();
    python.source_roots = vec!["src".to_owned()];
    python.sim = SimSection { roots: vec!["myproj.sim.harness".to_owned()] };
    python.shims = vec![
        ShimSpec { protocol: "myproj.shims.ClockShim".to_owned(), grants: vec!["time".to_owned()] },
        ShimSpec {
            protocol: "myproj.shims.EntropyShim".to_owned(),
            grants: vec!["random".to_owned(), "hash_order".to_owned()],
        },
    ];
    python.opaque = Opaque { trusted_modules: vec!["attrs".to_owned()], allow: vec!["myproj.plugins.load".to_owned()] };
    Resolved::new("/proj", python)
}

#[test]
fn full_schema_parses_alongside_rust_keys() {
    let config = full();
    assert_eq!(config.source_roots(), &vec!["/proj/src".to_owned()]);
    assert_eq!(config.sim_roots(), &vec!["myproj.sim.harness".to_owned()]);
    assert!(config.prod_enabled());
    assert!(config.sim_enabled());
    assert_eq!(config.grants_for_protocol("myproj.shims.ClockShim"), vec!["time"]);
    assert_eq!(config.grants_for_protocol("myproj.shims.EntropyShim"), vec!["random", "hash_order"]);
    assert!(config.grants_for_protocol("myproj.shims.Nope").is_empty());
    assert!(config.is_shim_protocol("myproj.shims.ClockShim"));
    assert!(!config.is_shim_protocol("myproj.shims.Nope"));
    assert!(config.is_deterministic_marker("trigpoint_shims.DeterministicShim"));
    assert!(config.is_trusted_module("attrs"));
    assert!(config.is_trusted_module("attrs.converters"));
    assert!(!config.is_trusted_module("attrsx"));
    assert!(config.is_opaque_allowed("myproj.plugins.load"));
    assert!(!config.is_opaque_allowed("myproj.plugins"));
    assert_eq!(config.root_dir(), "/proj");
}

#[test]
fn defaults_are_the_documented_ones() {
    let config = Resolved::new("/proj", PythonConfig::default());
    assert_eq!(config.source_roots(), &vec!["/proj/.".to_owned()]);
    assert!(!config.prod_enabled());
    assert!(!config.sim_enabled());
    assert!(config.is_deterministic_marker("trigpoint_shims.DeterministicShim"));
    // Builtins are on by default, and the builtin trusted modules with them.
    assert!(!config.sinks().is_empty());
    assert!(config.is_trusted_module("typing"));
}

#[test]
fn builtin_sinks_can_be_disabled() {
    let mut python = PythonConfig::default();
    python.builtin_sinks = false;
    let config = Resolved::new("/proj", python);
    assert_eq!(config.sinks().len(), 0);
}

#[test]
fn paths_join_like_unix_paths() {
    assert_eq!(path_join("/proj", "src"), "/proj/src");
    assert_eq!(path_join("/proj/", "src"), "/proj/src");
    assert_eq!(path_join("/proj", "/abs"), "/abs");
    assert_eq!(path_join("", "src"), "src");
}

#[test]
fn discovery_walks_up() {
    let base = "/tmp/trigpylint-test-discover";
    let nested = format!("{base}/a/b");
    let config = format!("{base}/triglint.toml");
    assert_eq!(discover(&nested, |p: &str| p == config), Some(config.clone()));
}

#[test]
fn discovery_finds_the_nearest_config() {
    let found = discover("/a/b/c", |p: &str| p == "/a/triglint.toml" || p == "/a/b/triglint.toml");
    assert_eq!(found.as_deref(), Some("/a/b/triglint.toml"));
    assert_eq!(discover("relative/dir", |p: &str| p == "relative/triglint.toml").as_deref(), Some("relative/triglint.toml"));
    assert_eq!(discover("/", |_: &str| false), None);
}
