use built::dependencies::{classify, classify_lockfile, parse_lockfile, Dependencies};

static LOCK_TOML_BUFFER: &str = r#"
# This file is automatically @generated by Cargo.
# It is not intended for manual editing.
version = 3

[[package]]
name = "foo"
version = "0.0.0"
source = "registry+https://github.com/rust-lang/crates.io-index"
checksum = "f7dbb6acfeff1d490fba693a402456f76b344fea77a5e7cae43b5970c3332b8f"

[[package]]
name = "foobar"
version = "0.0.0"
source = "registry+https://github.com/rust-lang/crates.io-index"
checksum = "d9c0d152c1d2a9673211b9f3c02a4786715ce730dbd5f94f2f895fc0bb9eed63"

[[package]]
name = "memchr"
version = "2.6.3"
source = "registry+https://github.com/rust-lang/crates.io-index"
checksum = "8f232d6ef707e1956a43342693d2a31e72989554d58299d7a88738cc95b0d35c"

[[package]]
name = "minimal-lexical"
version = "0.2.1"
source = "registry+https://github.com/rust-lang/crates.io-index"
checksum = "68354c5c6bd36d73ff3feceb05efa59b6acb7626617f4962be322a825e61f79a"

[[package]]
name = "nom"
version = "7.1.3"
source = "registry+https://github.com/rust-lang/crates.io-index"
checksum = "d273983c5a657a70a3e8f2a01329822f3b8c8172b73826411a55751e404a0a4a"
dependencies = [
 "memchr",
 "minimal-lexical",
]

[[package]]
name = "dummy"
version = "0.1.0"
dependencies = [
 "foo",
 "foobar",
 "nom",
]
"#;

#[test]
fn parse_deps() {
    let packages = parse_lockfile(LOCK_TOML_BUFFER).expect("Failed to parse lockfile");
    let deps = built::dependencies::package_names(&packages);
    assert_eq!(
        deps,
        [
            ("dummy".to_owned(), "0.1.0".to_owned()),
            ("foo".to_owned(), "0.0.0".to_owned()),
            ("foobar".to_owned(), "0.0.0".to_owned()),
            ("memchr".to_owned(), "2.6.3".to_owned()),
            ("minimal-lexical".to_owned(), "0.2.1".to_owned()),
            ("nom".to_owned(), "7.1.3".to_owned()),
        ]
    );
}

#[test]
fn direct_deps() {
    let packages = parse_lockfile(LOCK_TOML_BUFFER).expect("Failed to parse lockfile");
    let dependencies = Dependencies::new(&packages);
    assert_eq!(
        dependencies.deps,
        [
            ("foo".to_owned(), "0.0.0".to_owned()),
            ("foobar".to_owned(), "0.0.0".to_owned()),
            ("memchr".to_owned(), "2.6.3".to_owned()),
            ("minimal-lexical".to_owned(), "0.2.1".to_owned()),
            ("nom".to_owned(), "7.1.3".to_owned()),
        ]
    );
    assert_eq!(
        dependencies.direct_deps,
        [
            ("foo".to_owned(), "0.0.0".to_owned()),
            ("foobar".to_owned(), "0.0.0".to_owned()),
            ("nom".to_owned(), "7.1.3".to_owned()),
        ]
    );
    assert_eq!(
        dependencies.indirect_deps,
        [
            ("memchr".to_owned(), "2.6.3".to_owned()),
            ("minimal-lexical".to_owned(), "0.2.1".to_owned()),
        ]
    );
}

static CHAIN_LOCK: &str = r#"
version = 3

[[package]]
name = "a"
version = "1.0.0"
dependencies = [
 "b",
]

[[package]]
name = "b"
version = "1.0.0"
dependencies = [
 "c",
]

[[package]]
name = "c"
version = "1.0.0"
"#;

#[test]
fn chain_classification() {
    let packages = parse_lockfile(CHAIN_LOCK).expect("Failed to parse lockfile");
    let c = classify(&packages);
    assert_eq!(
        c.all,
        [
            ("a".to_owned(), "1.0.0".to_owned()),
            ("b".to_owned(), "1.0.0".to_owned()),
            ("c".to_owned(), "1.0.0".to_owned()),
        ]
    );
    assert_eq!(c.direct, [("b".to_owned(), "1.0.0".to_owned())]);
    assert_eq!(c.indirect, [("c".to_owned(), "1.0.0".to_owned())]);
}

static TWO_ROOTS_LOCK: &str = r#"
version = 3

[[package]]
name = "r1"
version = "1.0.0"
dependencies = [
 "s",
]

[[package]]
name = "r2"
version = "1.0.0"
dependencies = [
 "s",
]

[[package]]
name = "s"
version = "2.0.0"
"#;

#[test]
fn shared_direct_dependency_deduplicated() {
    let packages = parse_lockfile(TWO_ROOTS_LOCK).expect("Failed to parse lockfile");
    let c = classify(&packages);
    assert_eq!(c.direct, [("s".to_owned(), "2.0.0".to_owned())]);
    assert!(c.indirect.is_empty());
    let d = Dependencies::new(&packages);
    assert_eq!(d.deps, [("s".to_owned(), "2.0.0".to_owned())]);
    assert!(!d.deps.contains(&("r1".to_owned(), "1.0.0".to_owned())));
    assert!(!d.direct_deps.contains(&("r1".to_owned(), "1.0.0".to_owned())));
    assert!(!d.indirect_deps.contains(&("r2".to_owned(), "1.0.0".to_owned())));
}

#[test]
fn single_root_no_transitive() {
    let packages = parse_lockfile(TWO_ROOTS_LOCK).expect("Failed to parse lockfile");
    let d = Dependencies::new(&packages);
    assert!(d.indirect_deps.is_empty());
    assert_eq!(d.direct_deps, d.deps);
}

#[test]
fn classify_twice_is_identical() {
    let packages = parse_lockfile(LOCK_TOML_BUFFER).expect("Failed to parse lockfile");
    let c1 = classify(&packages);
    let c2 = classify(&packages);
    assert_eq!(c1.all, c2.all);
    assert_eq!(c1.direct, c2.direct);
    assert_eq!(c1.indirect, c2.indirect);

    let again = parse_lockfile(LOCK_TOML_BUFFER).expect("Failed to parse lockfile");
    let c3 = classify(&again);
    assert_eq!(c1.all, c3.all);
    assert_eq!(c1.direct, c3.direct);
    assert_eq!(c1.indirect, c3.indirect);
}

#[test]
fn malformed_lockfile_is_rejected() {
    assert!(parse_lockfile("this is not a lockfile [[[").is_none());
    assert!(classify_lockfile("version = ").is_none());
}

#[test]
fn classify_lockfile_matches_classify() {
    let c1 = classify_lockfile(LOCK_TOML_BUFFER).expect("Failed to parse lockfile");
    let packages = parse_lockfile(LOCK_TOML_BUFFER).expect("Failed to parse lockfile");
    let c2 = classify(&packages);
    assert_eq!(c1.all, c2.all);
    assert_eq!(c1.direct, c2.direct);
    assert_eq!(c1.indirect, c2.indirect);
}

#[test]
fn join_name_versions_renders_pairs() {
    let v = vec![
        ("foo".to_owned(), "0.1.0".to_owned()),
        ("bar".to_owned(), "2.0.0".to_owned()),
    ];
    assert_eq!(built::dependencies::join_name_versions(&v), "foo 0.1.0, bar 2.0.0");
}
