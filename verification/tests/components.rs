//! Versions built from their parts, truncated at a level, compared field by field.

use semantic_version::version::Version;

fn s(x: &str) -> String {
    x.to_string()
}

#[test]
fn from_parts_builds_a_version() {
    let v = Version::from_components(None, Some(1), Some(2), Some(3), Some(vec![s("rc"), s("1")]), None, false)
        .unwrap();
    assert_eq!(v.to_string(), "1.2.3-rc.1");
    assert_eq!(v.build.as_deref().unwrap().len(), 0);
    let w = Version::from_components(None, Some(1), Some(2), Some(3), None, Some(vec![s("001")]), false)
        .unwrap();
    assert_eq!(w.to_string(), "1.2.3+001");
}

#[test]
fn from_text_parses() {
    let v = Version::from_components(Some("1.2"), None, None, None, None, None, true).unwrap();
    assert_eq!((v.major, v.minor, v.patch), (1, Some(2), None));
    assert!(Version::from_components(Some("1.2"), None, None, None, None, None, false).is_err());
}

#[test]
fn from_components_errors() {
    let both = Version::from_components(Some("1.2.3"), Some(1), None, None, None, None, false);
    assert_eq!(both.unwrap_err().to_string(), "Call either Version('1.2.3') or Version(major=1, ...).");
    let none = Version::from_components(None, None, None, None, None, None, false);
    assert_eq!(none.unwrap_err().to_string(), "Call either Version('1.2.3') or Version(major=1, ...).");
    let no_major = Version::from_components(None, None, Some(1), None, None, None, false);
    assert_eq!(no_major.unwrap_err().to_string(), "Invalid kwargs to Version(major=None, ...)");
    let missing = Version::from_components(None, Some(1), Some(2), None, None, None, false);
    assert_eq!(
        missing.unwrap_err().to_string(),
        "Invalid kwargs to Version(major=..., minor=..., patch=..., ...)"
    );
    let zero = Version::from_components(None, Some(1), Some(2), Some(3), Some(vec![s("01")]), None, false);
    assert_eq!(zero.unwrap_err().to_string(), "Invalid leading zero in identifier \"01\"");
    let empty = Version::from_components(None, Some(1), Some(2), Some(3), Some(vec![s("a"), s("")]), None, false);
    assert_eq!(empty.unwrap_err().to_string(), "Invalid empty identifier \"\" in \"a.\"");
}

#[test]
fn partial_from_parts_keeps_missing_lists() {
    let v = Version::from_components(None, Some(1), None, None, None, None, true).unwrap();
    assert!(v.prerelease.is_none());
    assert!(v.build.is_none());
    assert!(v.partial);
}

#[test]
fn truncation_levels() {
    let v = Version::parse("1.2.3-rc.1+b").unwrap();
    assert_eq!(v.truncate_level("build").unwrap().to_string(), "1.2.3-rc.1+b");
    assert_eq!(v.truncate_level("prerelease").unwrap().to_string(), "1.2.3-rc.1");
    assert_eq!(v.truncate_level("patch").unwrap().to_string(), "1.2.3");
    assert_eq!(v.truncate_level("minor").unwrap().to_string(), "1.2.0");
    assert_eq!(v.truncate_level("major").unwrap().to_string(), "1.0.0");
    assert_eq!(v.truncate_level("foo").unwrap_err().to_string(), "Invalid truncation level `foo`.");
}

#[test]
fn fields_equality_tells_missing_from_empty() {
    let full = Version::parse("1.2.3").unwrap();
    let parts = Version::from_components(None, Some(1), Some(2), Some(3), None, None, true).unwrap();
    assert!(full == parts);
    assert!(!full.fields_equal(&parts));
    assert!(full.fields_equal(&Version::parse("1.2.3").unwrap()));
}

#[test]
fn bumps_keep_partial() {
    let p = Version::parse_partial("1.2").unwrap();
    let n = p.bump_major();
    assert_eq!((n.major, n.minor, n.patch), (2, Some(0), Some(0)));
    assert!(n.partial);
    assert!(n.build.is_none());
    let f = Version::parse("1.2.3+b").unwrap().bump_patch();
    assert_eq!(f.to_string(), "1.2.4");
    assert_eq!(Version::parse("1.2.3").unwrap().bump_minor().to_string(), "1.3.0");
}
