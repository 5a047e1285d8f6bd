use std::path::PathBuf;
use std::str::FromStr;

use semver::VersionReq;
use webc_resolver::{Locator, ParseError, WebcIdentifier};

#[test]
fn parse_some_webc_identifiers() {
    let inputs = [
        (
            "first",
            WebcIdentifier {
                full_name: "first".to_string(),
                locator: Locator::Registry,
                version: VersionReq::STAR,
            },
        ),
        (
            "namespace/package",
            WebcIdentifier {
                full_name: "namespace/package".to_string(),
                locator: Locator::Registry,
                version: VersionReq::STAR,
            },
        ),
        (
            "namespace/package@1.0.0",
            WebcIdentifier {
                full_name: "namespace/package".to_string(),
                locator: Locator::Registry,
                version: "1.0.0".parse().unwrap(),
            },
        ),
    ];

    for (src, expected) in inputs {
        let parsed = WebcIdentifier::from_str(src).unwrap();
        assert_eq!(parsed, expected);
    }
}

#[test]
fn parse_exact_version() {
    let id = WebcIdentifier::parse("ns/pkg@=1.0.0").unwrap();
    assert_eq!(id.full_name, "ns/pkg");
    assert_eq!(id.locator, Locator::Registry);
    assert_eq!(id.version, VersionReq::parse("=1.0.0").unwrap());
}

#[test]
fn star_is_the_same_as_no_version() {
    let with_star = WebcIdentifier::parse("ns/pkg@*").unwrap();
    let without = WebcIdentifier::parse("ns/pkg").unwrap();
    assert_eq!(with_star, without);
    assert_eq!(with_star.version, VersionReq::STAR);
}

#[test]
fn parse_rejects_a_space_with_its_offset() {
    match WebcIdentifier::parse("bad name") {
        Err(ParseError::InvalidCharacter { character, offset }) => {
            assert_eq!(character, ' ');
            assert_eq!(offset, 3);
        }
        other => panic!("unexpected: {other:?}"),
    }
}

#[test]
fn parse_reports_the_first_bad_character_before_the_version() {
    match WebcIdentifier::parse("a+b@not valid") {
        Err(ParseError::InvalidCharacter { character, offset }) => {
            assert_eq!(character, '+');
            assert_eq!(offset, 1);
        }
        other => panic!("unexpected: {other:?}"),
    }
}

#[test]
fn parse_offset_is_in_bytes_for_a_non_ascii_character() {
    match WebcIdentifier::parse("pkgé") {
        Err(ParseError::InvalidCharacter { character, offset }) => {
            assert_eq!(character, 'é');
            assert_eq!(offset, 3);
        }
        other => panic!("unexpected: {other:?}"),
    }
}

#[test]
fn parse_rejects_a_bad_version() {
    match WebcIdentifier::parse("pkg@not-a-version") {
        Err(ParseError::InvalidVersion { version, .. }) => assert_eq!(version, "not-a-version"),
        other => panic!("unexpected: {other:?}"),
    }
}

#[test]
fn parse_splits_at_the_first_at_sign() {
    assert!(matches!(
        WebcIdentifier::parse("pkg@1.0.0@2.0.0"),
        Err(ParseError::InvalidVersion { ref version, .. }) if version == "1.0.0@2.0.0"
    ));
}

#[test]
fn parse_accepts_an_empty_name() {
    let id = WebcIdentifier::parse("@1.2").unwrap();
    assert_eq!(id.full_name, "");
    assert_eq!(id.version, VersionReq::parse("1.2").unwrap());
}

#[test]
fn format_registry_identifier() {
    let id = WebcIdentifier::parse("ns/pkg@1.0.0").unwrap();
    assert_eq!(id.to_string(), "ns/pkg@^1.0.0");
    let plain = WebcIdentifier::parse("first").unwrap();
    assert_eq!(plain.to_string(), "first@*");
}

#[test]
fn format_then_parse_gives_the_same_identifier() {
    for text in ["first", "ns/pkg@1.0.0", "ns/pkg@>=1.2, <2", "a.b-c_d/e@~0.3.1-beta.2"] {
        let id = WebcIdentifier::parse(text).unwrap();
        let again = WebcIdentifier::parse(&id.to_string()).unwrap();
        assert_eq!(again, id);
    }
}

#[test]
fn format_local_and_url_locators() {
    let local = WebcIdentifier {
        full_name: "ns/pkg".to_string(),
        locator: Locator::Local(PathBuf::from("/tmp/pkg.webc")),
        version: VersionReq::STAR,
    };
    assert_eq!(local.to_string(), "ns/pkg@* (/tmp/pkg.webc)");
    let remote = WebcIdentifier {
        full_name: "ns/pkg".to_string(),
        locator: Locator::Url(url::Url::parse("https://example.com/pkg.webc").unwrap()),
        version: VersionReq::parse("1.0.0").unwrap(),
    };
    assert_eq!(remote.to_string(), "ns/pkg@^1.0.0 (https://example.com/pkg.webc)");
}

#[test]
fn identifiers_differing_in_locator_or_version_are_distinct() {
    let registry = WebcIdentifier::parse("ns/pkg@1.0.0").unwrap();
    let mut local = registry.clone();
    local.locator = Locator::Local(PathBuf::from("pkg.webc"));
    assert_ne!(registry, local);
    let other_version = WebcIdentifier::parse("ns/pkg@1.0.1").unwrap();
    assert_ne!(registry, other_version);
    let same_url_a = Locator::Url(url::Url::parse("https://example.com/a").unwrap());
    let same_url_b = Locator::Url(url::Url::parse("https://example.com/a").unwrap());
    assert_eq!(same_url_a, same_url_b);
}

#[test]
fn from_str_reports_errors_as_parse_does() {
    match "bad name".parse::<WebcIdentifier>() {
        Err(ParseError::InvalidCharacter { character, offset }) => {
            assert_eq!(character, ' ');
            assert_eq!(offset, 3);
        }
        other => panic!("unexpected: {other:?}"),
    }
    match WebcIdentifier::from_str("pkg@not-a-version") {
        Err(ParseError::InvalidVersion { version, .. }) => assert_eq!(version, "not-a-version"),
        other => panic!("unexpected: {other:?}"),
    }
}
