use built::util::{ParseFromEnv, ParseError};

const DEPS: [(&'static str, &'static str); 2] = [("Foo", "1.2.3-alpha"), ("Bar", "0.1.3-456")];

#[test]
fn parse_versions() {
    let v: Vec<(String, String)> = DEPS.iter().map(|(n, ver)| (n.to_string(), ver.to_string())).collect();
    let parsed = built::util::parse_versions(&v).unwrap();
    assert_eq!(
        parsed,
        vec![
            ("Foo".to_string(), semver::Version::parse("1.2.3-alpha").unwrap()),
            ("Bar".to_string(), semver::Version::parse("0.1.3-456").unwrap()),
        ]
    );

    assert!(built::util::parse_versions(&v)
        .unwrap()
        .iter()
        .any(|(name, ver)| name == "Bar" && *ver < semver::Version::parse("0.1.4").unwrap()));
}

#[test]
fn parse_versions_rejects_bad_version() {
    let v = vec![("Foo".to_string(), "not-a-version".to_string())];
    assert!(built::util::parse_versions(&v).is_none());
}

#[test]
fn test_parse_env() {
    assert_eq!(String::parse_from_env("foo"), Ok("foo".to_owned()));
    assert_eq!(<&str>::parse_from_env("foo"), Ok("foo"));

    assert_eq!(i64::parse_from_env("123"), Ok(123));
    assert_eq!(i32::parse_from_env("123"), Ok(123));
    assert_eq!(i16::parse_from_env("123"), Ok(123));
    assert_eq!(i8::parse_from_env("123"), Ok(123));
    assert_eq!(u64::parse_from_env("123"), Ok(123));
    assert_eq!(u32::parse_from_env("123"), Ok(123));
    assert_eq!(u16::parse_from_env("123"), Ok(123));
    assert_eq!(u8::parse_from_env("123"), Ok(123));

    assert_eq!(i8::parse_from_env("-123"), Ok(-123));
    assert!(u8::parse_from_env("-123").is_err());
    assert!(i32::parse_from_env("foo").is_err());
    assert!(i32::parse_from_env("").is_err());

    assert_eq!(bool::parse_from_env("true"), Ok(true));
    assert_eq!(bool::parse_from_env("false"), Ok(false));
    assert!(bool::parse_from_env("").is_err());
    assert!(bool::parse_from_env("foo").is_err());

    assert!(Option::<i32>::parse_from_env("").is_err());
    assert_eq!(Option::<&str>::parse_from_env(""), Ok(Some("")));
    assert_eq!(
        Option::parse_from_env("BUILT_OVERRIDE_NONE"),
        Ok(Option::<i32>::None)
    );
    assert_eq!(Option::parse_from_env("123"), Ok(Some(123u8)));
    assert_eq!(Option::<bool>::parse_from_env("true"), Ok(Some(true)));
    assert!(Option::<bool>::parse_from_env("123").is_err());

    assert_eq!(
        Vec::<&str>::parse_from_env("foo, b a r , foo"),
        Ok(vec!["foo", "b a r", "foo"])
    );
    assert_eq!(
        Vec::<i32>::parse_from_env("123,456,789"),
        Ok(vec![123, 456, 789])
    );

    assert_eq!(
        Option::parse_from_env("123,456"),
        Ok(Some(vec![123u32, 456u32]))
    );
}

#[test]
fn parse_env_bounds() {
    assert_eq!(i64::parse_from_env("-9223372036854775808"), Ok(i64::MIN));
    assert_eq!(i64::parse_from_env("9223372036854775807"), Ok(i64::MAX));
    assert!(i64::parse_from_env("9223372036854775808").is_err());
    assert_eq!(u64::parse_from_env("18446744073709551615"), Ok(u64::MAX));
    assert!(u64::parse_from_env("18446744073709551616").is_err());
    assert_eq!(u8::parse_from_env("255"), Ok(255));
    assert!(u8::parse_from_env("256").is_err());
    assert_eq!(i8::parse_from_env("+127"), Ok(127));
    assert!(i8::parse_from_env("128").is_err());
    assert_eq!(i8::parse_from_env("-128"), Ok(-128));
    assert!(i8::parse_from_env("-129").is_err());
    assert!(u8::parse_from_env("+").is_err());
    assert!(u8::parse_from_env("12 3").is_err());
    assert_eq!(u8::parse_from_env("007"), Ok(7));
    assert_eq!(Err(ParseError), bool::parse_from_env("True"));
}

#[test]
fn trim_and_sort() {
    assert_eq!(built::util::trim("  b a r \t"), "b a r");
    assert_eq!(built::util::trim("\u{a0}x\u{3000}"), "x");
    assert_eq!(built::util::trim("   "), "");
    assert_eq!(built::util::trim(""), "");

    let v = vec!["pear".to_string(), "apple".to_string(), "pear".to_string(), "fig".to_string()];
    assert_eq!(
        built::util::sort_strings(v),
        vec!["apple".to_string(), "fig".to_string(), "pear".to_string(), "pear".to_string()]
    );
}

#[test]
fn join_and_lowercase() {
    let v = vec!["a".to_string(), "b".to_string(), "c".to_string()];
    assert_eq!(built::util::join_strings(&v, ", "), "a, b, c");
    assert_eq!(built::util::join_strings(&Vec::new(), ", "), "");
    assert_eq!(built::util::join_strings(&vec!["x".to_string()], ", "), "x");

    let lows = built::util::lowercase_all(&vec!["MiXeD".to_string(), "ÄÖÜ".to_string()]);
    assert_eq!(lows, vec!["mixed".to_string(), "äöü".to_string()]);
}
