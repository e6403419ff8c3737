use trigpoint::lint::dylint::{
    analysis_cache_dir, declares_dylint, has_metadata, manifest_declares_dylint, merged_dylint_rustflags, MetadataError, TomlNode,
    ALWAYS_ENCODE_MIR,
};
use trigpoint::lint::python::Outcome;
use trigpoint::config::discover;
use trigpoint::lint::{exit_code, find_triglint_toml, Targets};

#[test]
fn detection_follows_the_evidence() {
    assert_eq!(
        Targets::detect(false, false, true, false),
        Targets {
            rust: true,
            python: false
        }
    );
    assert_eq!(
        Targets::detect(false, false, false, true),
        Targets {
            rust: false,
            python: true
        }
    );
    assert_eq!(
        Targets::detect(false, false, true, true),
        Targets {
            rust: true,
            python: true
        }
    );
    assert!(Targets::detect(false, false, false, false).none());
}

#[test]
fn explicit_flags_override_detection() {
    // `--python` in a dylint workspace must not also run cargo-dylint.
    assert_eq!(
        Targets::detect(false, true, true, true),
        Targets {
            rust: false,
            python: true
        }
    );
    // `--rust` runs the Rust lint even where no dylint metadata was found.
    assert_eq!(
        Targets::detect(true, false, false, true),
        Targets {
            rust: true,
            python: false
        }
    );
}

#[test]
fn either_target_failing_fails_the_run() {
    assert_eq!(exit_code(0, false), 0);
    assert_eq!(exit_code(0, true), 1);
    assert_eq!(exit_code(101, false), 101u8);
    assert_eq!(exit_code(101, true), 101u8);
}

#[test]
fn rust_codes_that_are_not_a_byte_become_one() {
    assert_eq!(exit_code(256, false), 1);
    assert_eq!(exit_code(-1, true), 1);
    assert_eq!(exit_code(255, false), 255);
}

#[test]
fn merges_flag_into_empty_env() {
    assert_eq!(
        merged_dylint_rustflags(None, true).as_deref(),
        Some(ALWAYS_ENCODE_MIR)
    );
}

#[test]
fn appends_flag_to_existing_flags() {
    assert_eq!(
        merged_dylint_rustflags(Some("-Zthreads=2"), true).as_deref(),
        Some("-Zthreads=2 -Zalways-encode-mir")
    );
}

#[test]
fn does_not_duplicate_flag() {
    assert_eq!(
        merged_dylint_rustflags(Some("-Zalways-encode-mir"), true).as_deref(),
        Some(ALWAYS_ENCODE_MIR)
    );
}

#[test]
fn no_deps_mir_leaves_env_untouched() {
    assert_eq!(merged_dylint_rustflags(None, false), None);
    assert_eq!(
        merged_dylint_rustflags(Some("-Zthreads=2"), false).as_deref(),
        Some("-Zthreads=2")
    );
}

#[test]
fn flag_is_found_among_other_tokens_only_as_a_whole_token() {
    assert_eq!(
        merged_dylint_rustflags(Some("-Zthreads=2\t-Zalways-encode-mir  -Cdebuginfo=0"), true).as_deref(),
        Some("-Zthreads=2\t-Zalways-encode-mir  -Cdebuginfo=0")
    );
    assert_eq!(
        merged_dylint_rustflags(Some("-Zalways-encode-mirx"), true).as_deref(),
        Some("-Zalways-encode-mirx -Zalways-encode-mir")
    );
}

#[test]
fn outcome_fails_only_on_denials() {
    assert!(!Outcome::Inert.failed());
    assert!(!Outcome::Checked { denials: 0 }.failed());
    assert!(Outcome::Checked { denials: 2 }.failed());
}

#[test]
fn finds_config_walking_up() {
    let base = "/tmp/trigp-test-find-config";
    let nested = format!("{base}/a/b");
    let config = format!("{base}/triglint.toml");
    assert_eq!(find_triglint_toml(&nested, |p: &str| p == config), Some(config.clone()));
}

#[test]
fn config_is_found_walking_up() {
    let found = find_triglint_toml("/base/a/b", |p: &str| p == "/base/triglint.toml");
    assert_eq!(found.as_deref(), Some("/base/triglint.toml"));
    let nearest = find_triglint_toml("/base/a/b", |p: &str| {
        p == "/base/triglint.toml" || p == "/base/a/b/triglint.toml"
    });
    assert_eq!(nearest.as_deref(), Some("/base/a/b/triglint.toml"));
    assert_eq!(find_triglint_toml("/base/a", |_: &str| false), None);
}

#[test]
fn config_walk_probes_every_ancestor_in_order() {
    let probed = std::cell::RefCell::new(Vec::new());
    let found = find_triglint_toml("/x/y", |p: &str| {
        probed.borrow_mut().push(p.to_owned());
        false
    });
    assert_eq!(found, None);
    assert_eq!(
        probed.into_inner(),
        vec![
            "/x/y/triglint.toml".to_owned(),
            "/x/triglint.toml".to_owned(),
            "/triglint.toml".to_owned()
        ]
    );
}

#[test]
fn detects_dylint_metadata_in_a_manifest() {
    assert!(manifest_declares_dylint(
        "[workspace]\nmembers = []\n\n[workspace.metadata.dylint]\nlibraries = []\n"
    ));
    assert!(manifest_declares_dylint(
        "[package]\nname = \"x\"\n\n[package.metadata.dylint]\nlibraries = []\n"
    ));
    assert!(!manifest_declares_dylint("[package]\nname = \"x\"\n"));
    assert!(!manifest_declares_dylint("not toml ["));
}

#[test]
fn dylint_metadata_must_sit_under_a_table() {
    assert!(!manifest_declares_dylint("workspace = 1\n"));
    assert!(!manifest_declares_dylint("[workspace.metadata]\nother = 1\n"));
    assert!(manifest_declares_dylint("[package.metadata]\ndylint = 3\n"));
    let document = TomlNode::Table(vec![(
        "workspace".to_owned(),
        TomlNode::Table(vec![(
            "metadata".to_owned(),
            TomlNode::Table(vec![("dylint".to_owned(), TomlNode::Other)]),
        )]),
    )]);
    assert!(declares_dylint(&document));
    assert!(!declares_dylint(&TomlNode::Other));
}

#[test]
fn the_analysis_cache_sits_under_the_target_directory() {
    let stdout = br#"{"packages":[],"target_directory":"/work/target","version":1}"#;
    assert_eq!(analysis_cache_dir(stdout), Ok("/work/target/dylint/target".to_owned()));
    assert_eq!(analysis_cache_dir(br#"{"target_directory":"/t/"}"#), Ok("/t/dylint/target".to_owned()));
}

#[test]
fn metadata_without_a_target_directory_is_refused() {
    assert_eq!(analysis_cache_dir(br#"{"packages":[]}"#), Err(MetadataError::NoTargetDirectory));
    assert_eq!(analysis_cache_dir(br#"{"target_directory":7}"#), Err(MetadataError::NoTargetDirectory));
    assert_eq!(
        MetadataError::NoTargetDirectory.message(),
        "cargo metadata failed: metadata has no target_directory"
    );
}

#[test]
fn metadata_that_is_not_json_is_a_parse_error() {
    match analysis_cache_dir(b"warning: not json") {
        Err(error @ MetadataError::Parse { .. }) => {
            assert!(error.message().starts_with("could not parse cargo metadata: "));
        }
        other => panic!("expected a parse error, got {other:?}"),
    }
}

#[test]
fn both_walks_find_the_same_nearest_config() {
    let present = ["/w/triglint.toml", "/w/a/triglint.toml", "/triglint.toml"];
    for start in ["/w/a/b", "/w/a", "/w", "/", "/elsewhere/deep"] {
        let probe = |p: &str| present.contains(&p);
        assert_eq!(find_triglint_toml(start, probe), discover(start, probe));
    }
    assert_eq!(find_triglint_toml("/w/a/b", |p: &str| present.contains(&p)).as_deref(), Some("/w/a/triglint.toml"));
}

#[test]
fn dylint_metadata_is_found_at_or_above_the_directory() {
    let declaring = "[workspace.metadata.dylint]\nlibraries = []\n";
    let plain = "[package]\nname = \"x\"\n";
    let read = |p: &str| match p {
        "/ws/Cargo.toml" => Some(declaring.to_owned()),
        "/ws/crate/Cargo.toml" => Some(plain.to_owned()),
        "/other/Cargo.toml" => Some("not = [toml".to_owned()),
        _ => None,
    };
    assert!(has_metadata("/ws/crate/src", read));
    assert!(has_metadata("/ws", read));
    assert!(!has_metadata("/other/deep", read));
    assert!(!has_metadata("/nowhere", read));
}
