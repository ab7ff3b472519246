use built::environment::{CIPlatform, EnvError, EnvironmentMap, EnvironmentValue, VersionSource};

fn entries(pairs: &[(&str, &str)]) -> Vec<(String, String)> {
    pairs.iter().map(|(k, v)| (k.to_string(), v.to_string())).collect()
}

fn map_of(pairs: &[(&str, &str)]) -> EnvironmentMap {
    EnvironmentMap::new(entries(pairs)).expect("snapshot must build")
}

#[test]
fn snapshot_requires_package_name() {
    assert!(EnvironmentMap::new(entries(&[("HOME", "/root")])).is_none());
    assert!(EnvironmentMap::new(entries(&[("CARGO_PKG_NAME", "demo")])).is_some());
}

#[test]
fn get_and_contains() {
    let mut env = map_of(&[("CARGO_PKG_NAME", "demo"), ("TARGET", "x86_64-unknown-linux-gnu")]);
    assert_eq!(env.get("TARGET"), Some("x86_64-unknown-linux-gnu".to_string()));
    assert_eq!(env.get("HOST"), None);
    assert!(env.contains_key("TARGET"));
    assert!(!env.contains_key("HOST"));
}

#[test]
fn usage_states_only_move_forward() {
    let mut st = EnvironmentValue::Unused;
    assert!(st.is_unused());
    assert!(!st.is_used());
    st.upgrade_to_queried();
    assert!(!st.is_unused());
    assert!(!st.is_used());
    st.upgrade_to_used();
    assert!(st.is_used());
    st.upgrade_to_queried();
    assert!(st.is_used(), "a lookup must not downgrade a used key");

    let mut env = map_of(&[
        ("CARGO_PKG_NAME", "demo"),
        ("BUILT_OVERRIDE_demo_DEBUG", "true"),
        ("BUILT_OVERRIDE_demo_FEATURES", "a,b"),
    ]);
    let unused = env.unused_override_vars();
    assert_eq!(unused.len(), 2);

    let got: Result<Option<bool>, _> = env.get_override_var("DEBUG");
    assert_eq!(got, Ok(Some(true)));
    let unused = env.unused_override_vars();
    assert_eq!(unused, vec!["BUILT_OVERRIDE_demo_FEATURES".to_string()]);
    assert_eq!(env.used_override_vars(), vec!["DEBUG".to_string()]);

    // Looking the same override up again keeps it used.
    let again: Result<Option<bool>, _> = env.get_override_var("DEBUG");
    assert_eq!(again, Ok(Some(true)));
    assert_eq!(env.used_override_vars(), vec!["DEBUG".to_string()]);
}

#[test]
fn override_parse_failure_is_fatal_and_names_the_field() {
    let mut env = map_of(&[
        ("CARGO_PKG_NAME", "demo"),
        ("BUILT_OVERRIDE_demo_DEBUG", "maybe"),
    ]);
    let got: Result<Option<bool>, _> = env.get_override_var("DEBUG");
    let err = got.unwrap_err();
    assert_eq!(err.key, "DEBUG");
    assert_eq!(err.value, "maybe");
    // The bad override was seen, so it is no longer unused, but not used.
    assert!(env.unused_override_vars().is_empty());
    assert!(env.used_override_vars().is_empty());
}

#[test]
fn unqueried_override_is_reported_unused() {
    let env = map_of(&[
        ("CARGO_PKG_NAME", "demo"),
        ("BUILT_OVERRIDE_demo_STALE", "whatever"),
    ]);
    assert_eq!(env.unused_override_vars(), vec!["BUILT_OVERRIDE_demo_STALE".to_string()]);
}

#[test]
fn override_absent_is_ok_none() {
    let mut env = map_of(&[("CARGO_PKG_NAME", "demo")]);
    let got: Result<Option<String>, _> = env.get_override_var("FEATURES");
    assert_eq!(got, Ok(None));
}

#[test]
fn override_prefix_uses_package_name() {
    let mut env = map_of(&[
        ("CARGO_PKG_NAME", "other"),
        ("BUILT_OVERRIDE_other_OPT_LEVEL", "3"),
        ("BUILT_OVERRIDE_demo_OPT_LEVEL", "1"),
    ]);
    assert_eq!(env.override_key("OPT_LEVEL"), "BUILT_OVERRIDE_other_OPT_LEVEL");
    let got: Result<Option<String>, _> = env.get_override_var("OPT_LEVEL");
    assert_eq!(got, Ok(Some("3".to_string())));
}

#[test]
fn detect_ci_finds_specific_platform() {
    let mut env = map_of(&[("CARGO_PKG_NAME", "demo"), ("GITLAB_CI", "1")]);
    assert_eq!(env.detect_ci(), Some(CIPlatform::GitLab));

    let mut env = map_of(&[("CARGO_PKG_NAME", "demo"), ("TASK_ID", "1"), ("RUN_ID", "2")]);
    assert_eq!(env.detect_ci(), Some(CIPlatform::TaskCluster));

    let mut env = map_of(&[("CARGO_PKG_NAME", "demo"), ("CI_NAME", "codeship")]);
    assert_eq!(env.detect_ci(), Some(CIPlatform::Codeship));

    // The exact-value table comes before the presence table.
    let mut env = map_of(&[("CARGO_PKG_NAME", "demo"), ("CI_NAME", "codeship"), ("TRAVIS", "1")]);
    assert_eq!(env.detect_ci(), Some(CIPlatform::Codeship));

    let mut env = map_of(&[("CARGO_PKG_NAME", "demo"), ("CI_NAME", "other"), ("TRAVIS", "1")]);
    assert_eq!(env.detect_ci(), Some(CIPlatform::Travis));

    let mut env = map_of(&[("CARGO_PKG_NAME", "demo"), ("CI_NAME", "other")]);
    assert_eq!(env.detect_ci(), None);

    let mut env = map_of(&[("CARGO_PKG_NAME", "demo"), ("BUILD_NUMBER", "7")]);
    assert_eq!(env.detect_ci(), Some(CIPlatform::Generic));

    let mut env = map_of(&[("CARGO_PKG_NAME", "demo")]);
    assert_eq!(env.detect_ci(), None);
}

#[test]
fn specific_platform_beats_generic_marker() {
    let mut env = map_of(&[
        ("CARGO_PKG_NAME", "demo"),
        ("CI", "true"),
        ("CONTINUOUS_INTEGRATION", "true"),
        ("TRAVIS", "true"),
    ]);
    assert_eq!(env.detect_ci(), Some(CIPlatform::Travis));

    let mut env = map_of(&[
        ("CARGO_PKG_NAME", "demo"),
        ("CI", "true"),
        ("GITHUB_ACTIONS", "true"),
    ]);
    assert_eq!(env.detect_ci(), Some(CIPlatform::GitHubActions));

    // The free function goes through the same detection.
    let mut env = map_of(&[("CARGO_PKG_NAME", "demo"), ("CI", "woo"), ("APPVEYOR", "x")]);
    assert_eq!(built::util::detect_ci(&mut env), Some(CIPlatform::AppVeyor));
}

#[test]
fn display_names() {
    assert_eq!(CIPlatform::Travis.display_name(), "Travis CI");
    assert_eq!(CIPlatform::TFS.display_name(), "Team Foundation Server");
    assert_eq!(CIPlatform::GitHubActions.display_name(), "GitHub Actions");
    assert_eq!(CIPlatform::Generic.display_name(), "Generic CI");
}

#[test]
fn resolve_str_prefers_override() {
    let mut env = map_of(&[
        ("CARGO_PKG_NAME", "demo"),
        ("CARGO_PKG_VERSION", "1.2.3"),
        ("BUILT_OVERRIDE_demo_PKG_VERSION", "9.9.9"),
    ]);
    assert_eq!(env.resolve_str("PKG_VERSION", "CARGO_PKG_VERSION"), Ok("9.9.9".to_string()));
    assert_eq!(env.resolve_str("PKG_NAME", "CARGO_PKG_NAME"), Ok("demo".to_string()));
    assert_eq!(
        env.resolve_str("HOST", "HOST"),
        Err(EnvError::Missing { key: "HOST".to_string() })
    );
}

#[test]
fn resolve_str_or_empty_falls_back() {
    let mut env = map_of(&[("CARGO_PKG_NAME", "demo")]);
    assert_eq!(env.resolve_str_or_empty("CFG_FAMILY", "CARGO_CFG_TARGET_FAMILY"), "");
    let mut env = map_of(&[("CARGO_PKG_NAME", "demo"), ("CARGO_CFG_TARGET_FAMILY", "unix")]);
    assert_eq!(env.resolve_str_or_empty("CFG_FAMILY", "CARGO_CFG_TARGET_FAMILY"), "unix");
}

#[test]
fn resolve_debug_compares_against_true() {
    let mut env = map_of(&[("CARGO_PKG_NAME", "demo"), ("DEBUG", "true")]);
    assert_eq!(env.resolve_debug(), Ok(true));
    let mut env = map_of(&[("CARGO_PKG_NAME", "demo"), ("DEBUG", "2")]);
    assert_eq!(env.resolve_debug(), Ok(false));
    let mut env = map_of(&[("CARGO_PKG_NAME", "demo"), ("BUILT_OVERRIDE_demo_DEBUG", "false"), ("DEBUG", "true")]);
    assert_eq!(env.resolve_debug(), Ok(false));
    let mut env = map_of(&[("CARGO_PKG_NAME", "demo")]);
    assert_eq!(env.resolve_debug(), Err(EnvError::Missing { key: "DEBUG".to_string() }));
}

#[test]
fn resolve_num_jobs_honors_reproducible_builds() {
    let mut env = map_of(&[("CARGO_PKG_NAME", "demo"), ("NUM_JOBS", "8")]);
    assert_eq!(env.resolve_num_jobs(), Ok(8));
    let mut env = map_of(&[
        ("CARGO_PKG_NAME", "demo"),
        ("NUM_JOBS", "8"),
        ("SOURCE_DATE_EPOCH", "1716000000"),
    ]);
    assert_eq!(env.resolve_num_jobs(), Ok(1));
    let mut env = map_of(&[
        ("CARGO_PKG_NAME", "demo"),
        ("NUM_JOBS", "8"),
        ("BUILT_OVERRIDE_demo_NUM_JOBS", "3"),
    ]);
    assert_eq!(env.resolve_num_jobs(), Ok(3));
    let mut env = map_of(&[("CARGO_PKG_NAME", "demo"), ("NUM_JOBS", "lots")]);
    assert_eq!(
        env.resolve_num_jobs(),
        Err(EnvError::Malformed { key: "NUM_JOBS".to_string(), value: "lots".to_string() })
    );
    let mut env = map_of(&[("CARGO_PKG_NAME", "demo")]);
    assert_eq!(env.resolve_num_jobs(), Err(EnvError::Missing { key: "NUM_JOBS".to_string() }));
}

#[test]
fn resolve_ci_override_wins() {
    let mut env = map_of(&[
        ("CARGO_PKG_NAME", "demo"),
        ("TRAVIS", "1"),
        ("BUILT_OVERRIDE_demo_CI_PLATFORM", "MyCI"),
    ]);
    assert_eq!(env.resolve_ci(), Ok(Some("MyCI".to_string())));
    let mut env = map_of(&[
        ("CARGO_PKG_NAME", "demo"),
        ("TRAVIS", "1"),
        ("BUILT_OVERRIDE_demo_CI_PLATFORM", "BUILT_OVERRIDE_NONE"),
    ]);
    assert_eq!(env.resolve_ci(), Ok(None));
    let mut env = map_of(&[("CARGO_PKG_NAME", "demo"), ("TRAVIS", "1")]);
    assert_eq!(env.resolve_ci(), Ok(Some("Travis CI".to_string())));
    let mut env = map_of(&[("CARGO_PKG_NAME", "demo")]);
    assert_eq!(env.resolve_ci(), Ok(None));
}

#[test]
fn default_state_is_unused() {
    assert!(EnvironmentValue::default().is_unused());
}

#[test]
fn resolve_features_keeps_override_duplicates() {
    let mut env = map_of(&[
        ("CARGO_PKG_NAME", "demo"),
        ("BUILT_OVERRIDE_demo_FEATURES", "b, a, b"),
    ]);
    assert_eq!(
        env.resolve_features(),
        vec!["a".to_string(), "b".to_string(), "b".to_string()]
    );
}

#[test]
fn resolve_features_collects_and_sorts() {
    let mut env = map_of(&[
        ("CARGO_PKG_NAME", "demo"),
        ("CARGO_FEATURE_ZETA", "1"),
        ("CARGO_FEATURE_ALPHA", "1"),
        ("OTHER", "x"),
    ]);
    assert_eq!(env.resolve_features(), vec!["ALPHA".to_string(), "ZETA".to_string()]);

    let mut env = map_of(&[
        ("CARGO_PKG_NAME", "demo"),
        ("CARGO_FEATURE_ZETA", "1"),
        ("BUILT_OVERRIDE_demo_FEATURES", "gamma , beta"),
    ]);
    assert_eq!(env.resolve_features(), vec!["beta".to_string(), "gamma".to_string()]);

    let mut env = map_of(&[("CARGO_PKG_NAME", "demo")]);
    assert!(env.resolve_features().is_empty());
}

#[test]
fn filter_map_keys_applies_the_closure() {
    let mut env = map_of(&[
        ("CARGO_PKG_NAME", "demo"),
        ("CARGO_FEATURE_FAST", "1"),
    ]);
    let mut hits = env.filter_map_keys(|k: String| {
        k.strip_prefix("CARGO_FEATURE_").map(|t| t.to_string())
    });
    hits.sort();
    assert_eq!(hits, vec!["FAST".to_string()]);
}

#[test]
fn resolve_tools() {
    let mut env = map_of(&[("CARGO_PKG_NAME", "demo"), ("RUSTC", "/usr/bin/rustc")]);
    let plan = env.resolve_rustc().unwrap();
    assert_eq!(plan.tool, "/usr/bin/rustc");
    assert_eq!(plan.version, VersionSource::Probe);

    let mut env = map_of(&[
        ("CARGO_PKG_NAME", "demo"),
        ("BUILT_OVERRIDE_demo_RUSTC", "myrustc"),
    ]);
    assert_eq!(
        env.resolve_rustc(),
        Err(EnvError::Missing { key: "RUSTC_VERSION".to_string() })
    );

    let mut env = map_of(&[
        ("CARGO_PKG_NAME", "demo"),
        ("BUILT_OVERRIDE_demo_RUSTC", "myrustc"),
        ("BUILT_OVERRIDE_demo_RUSTC_VERSION", "rustc 9.9.9"),
    ]);
    let plan = env.resolve_rustc().unwrap();
    assert_eq!(plan.tool, "myrustc");
    assert_eq!(plan.version, VersionSource::Overridden("rustc 9.9.9".to_string()));

    let mut env = map_of(&[
        ("CARGO_PKG_NAME", "demo"),
        ("BUILT_OVERRIDE_demo_RUSTDOC", "mydoc"),
    ]);
    let plan = env.resolve_rustdoc().unwrap();
    assert_eq!(plan.tool, "mydoc");
    assert_eq!(plan.version, VersionSource::Overridden(String::new()));

    let mut env = map_of(&[("CARGO_PKG_NAME", "demo")]);
    assert_eq!(
        env.resolve_rustdoc(),
        Err(EnvError::Missing { key: "RUSTDOC".to_string() })
    );
}

#[test]
fn fmt_option_str_renders() {
    assert_eq!(built::fmt_option_str(Some("x".to_string())), "Some(\"x\")");
    assert_eq!(built::fmt_option_str(None), "None");
}

#[test]
fn source_date_epoch_parsing() {
    let mut env = map_of(&[("CARGO_PKG_NAME", "demo"), ("SOURCE_DATE_EPOCH", "1716000000")]);
    assert!(built::krono::get_source_date_epoch_from_env(&mut env).is_some());
    let mut env = map_of(&[("CARGO_PKG_NAME", "demo"), ("SOURCE_DATE_EPOCH", "not-a-number")]);
    assert!(built::krono::get_source_date_epoch_from_env(&mut env).is_none());
    let mut env = map_of(&[("CARGO_PKG_NAME", "demo")]);
    assert!(built::krono::get_source_date_epoch_from_env(&mut env).is_none());
    // Parses as a number, but far outside the representable range.
    let mut env = map_of(&[("CARGO_PKG_NAME", "demo"), ("SOURCE_DATE_EPOCH", "9223372036854775807")]);
    assert!(built::krono::get_source_date_epoch_from_env(&mut env).is_none());
}

#[test]
fn strptime_round_trips_through_chrono() {
    let t = built::krono::strptime("Tue, 14 Feb 2017 05:21:41 GMT").expect("must parse");
    assert_eq!(t.inner.to_rfc2822(), "Tue, 14 Feb 2017 05:21:41 +0000");
    assert!(built::krono::strptime("yesterday-ish").is_none());
}
