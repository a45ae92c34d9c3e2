//! Identifier parsing and ordering.

use semantic_version::identifiers::{
    parse_build_identifiers, parse_prerelease_identifiers, BuildIdent, PreReleaseIdent,
};
use std::cmp::Ordering::{Equal, Greater, Less};

#[test]
fn test_prerelease_ident_ordering() {
    // Numeric < Alpha (SemVer §11.4.1)
    assert_eq!(PreReleaseIdent::Numeric(9).cmp(&PreReleaseIdent::Alpha("a".into())), Less);
    assert_eq!(PreReleaseIdent::Alpha("a".into()).cmp(&PreReleaseIdent::Numeric(9)), Greater);

    // Numeric < Max, Alpha < Max
    assert_eq!(PreReleaseIdent::Numeric(0).cmp(&PreReleaseIdent::Max), Less);
    assert_eq!(PreReleaseIdent::Alpha("z".into()).cmp(&PreReleaseIdent::Max), Less);
    assert_eq!(PreReleaseIdent::Max.cmp(&PreReleaseIdent::Max), Equal);

    // Numeric comparison by value
    assert_eq!(PreReleaseIdent::Numeric(2).cmp(&PreReleaseIdent::Numeric(11)), Less);
    assert_eq!(PreReleaseIdent::Numeric(11).cmp(&PreReleaseIdent::Numeric(2)), Greater);

    // Alpha comparison: ASCII lexicographic
    assert_eq!(
        PreReleaseIdent::Alpha("aa".into()).cmp(&PreReleaseIdent::Alpha("ab".into())),
        Less
    );
}

#[test]
fn test_parse_prerelease_identifiers_valid() {
    let ids = parse_prerelease_identifiers("rc1.3.14").unwrap();
    assert_eq!(ids, vec![
        PreReleaseIdent::Alpha("rc1".into()),
        PreReleaseIdent::Numeric(3),
        PreReleaseIdent::Numeric(14),
    ]);
}

#[test]
fn test_parse_prerelease_leading_zero_error() {
    assert!(parse_prerelease_identifiers("01").is_err());
    assert!(parse_prerelease_identifiers("a.00").is_err());
    // "0" alone is fine
    assert!(parse_prerelease_identifiers("0").is_ok());
}

#[test]
fn test_parse_prerelease_empty_ident_error() {
    assert!(parse_prerelease_identifiers("a..b").is_err());
}

#[test]
fn test_build_ident_leading_zeros_ok() {
    // Build metadata allows leading zeros
    let ids = parse_build_identifiers("01.0a.2012-01-01").unwrap();
    assert_eq!(ids[0], BuildIdent::Numeric("01".into()));
    assert_eq!(ids[1], BuildIdent::Alpha("0a".into()));
}

// 1.0.0-alpha < 1.0.0-alpha.1 < 1.0.0-alpha.beta < 1.0.0-beta < ...
#[test]
fn test_prerelease_ordering_chain() {
    let alpha  = vec![PreReleaseIdent::Alpha("alpha".into())];
    let alpha1 = vec![PreReleaseIdent::Alpha("alpha".into()), PreReleaseIdent::Numeric(1)];
    let alpha_beta = vec![PreReleaseIdent::Alpha("alpha".into()), PreReleaseIdent::Alpha("beta".into())];
    let beta   = vec![PreReleaseIdent::Alpha("beta".into())];

    assert!(alpha < alpha1);       // longer set with equal prefix wins
    assert!(alpha1 < alpha_beta);  // Numeric(1) < Alpha("beta")
    assert!(alpha_beta < beta);    // "alpha" < "beta" lexicographically
}

#[test]
fn build_numeric_order_is_by_value() {
    let n = |s: &str| BuildIdent::Numeric(s.into());
    assert_eq!(n("99999999999999999999").compare_to(&n("1")), 1);
    assert_eq!(n("1").compare_to(&n("99999999999999999999")), -1);
    assert_eq!(n("2").compare_to(&n("10")), -1);
    assert_eq!(n("007").compare_to(&n("7")), 0);
    assert_eq!(n("0010").compare_to(&n("9")), 1);
    assert_eq!(n("100000000000000000000").compare_to(&n("99999999999999999999")), 1);
    assert_eq!(n("9").compare_to(&BuildIdent::Alpha("a".into())), -1);
    assert_eq!(BuildIdent::Alpha("a".into()).compare_to(&n("9")), 1);
}

#[test]
fn alpha_order_is_utf8_byte_order() {
    let pairs = [("é", "z"), ("\u{10000}", "\u{FFFF}"), ("a\u{7FF}", "a\u{800}"), ("ab", "a"), ("x", "x")];
    for (a, b) in pairs {
        let r = PreReleaseIdent::Alpha(a.into()).compare_to(&PreReleaseIdent::Alpha(b.into()));
        let expected = match a.as_bytes().cmp(b.as_bytes()) {
            Less => -1,
            Equal => 0,
            Greater => 1,
        };
        assert_eq!(r, expected, "{} {}", a, b);
    }
}
