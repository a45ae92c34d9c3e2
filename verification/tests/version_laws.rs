//! Properties of versions on concrete values: round trips, coercion of valid
//! texts, the accepted shape, the next release and simplified clauses.

use semantic_version::error::SemverError;
use semantic_version::clause::{BuildPolicy, Clause, Operator, PrereleasePolicy, Range};
use semantic_version::identifiers::{parse_prerelease_identifiers, PreReleaseIdent};
use semantic_version::version::{compare, Version};

fn v(s: &str) -> Version {
    Version::parse(s).unwrap()
}

#[test]
fn prerelease_texts_join_back() {
    for s in ["rc.1", "alpha-2.0.x", "99999999999999999999999.a", "0.1-b"] {
        let ids = parse_prerelease_identifiers(s).unwrap();
        let texts: Vec<String> = ids.iter().map(|i| i.text().into_iter().collect()).collect();
        assert_eq!(texts.join("."), s);
    }
}

#[test]
fn coerce_of_valid_is_parse() {
    for s in ["1.2.3", "0.0.0", "10.20.30-rc.1+build.5", "1.0.0+meta", "1.0.0-x-y.0"] {
        assert_eq!(Version::coerce(s, false).unwrap(), Version::parse(s).unwrap(), "{}", s);
        assert_eq!(Version::coerce(s, false).unwrap().to_string(), s);
    }
}

#[test]
fn parse_accepts_exactly_the_semver_shape() {
    for s in ["1.2.3", "0.0.0-0", "1.2.3-a.b-c+d.e-f", "1.2.3+007"] {
        assert!(Version::parse(s).is_ok(), "{}", s);
    }
    for s in ["1.2", "01.2.3", "1.02.3", "1.2.03", "1.2.3-", "1.2.3+", "1.2.3-a..b", "1.2.3-01",
              "1.2.3+a..b", "1.2.3.4", "v1.2.3", "1.2.3-a_b", "18446744073709551616.0.0"] {
        assert!(Version::parse(s).is_err(), "{}", s);
    }
}

#[test]
fn next_patch_is_least_release_above() {
    assert_eq!(v("1.0.0-pre+build").next_patch(), v("1.0.0"));
    assert_eq!(v("1.0.0+build").next_patch(), v("1.0.1"));
    let w = v("1.2.3").next_patch();
    assert!(v("1.2.3").precedence_lt(&w));
    for u in ["1.2.4", "1.3.0", "2.0.0", "1.2.5"] {
        assert!(w.precedence_le(&v(u)), "{}", u);
    }
}

#[test]
fn simplified_shape() {
    let r = |op, t| Clause::Range(Range::new(op, v(t), PrereleasePolicy::Natural, BuildPolicy::Implicit).unwrap());
    let a = r(Operator::Gte, "1.0.0");
    let b = r(Operator::Lt, "2.0.0");
    let c = Clause::AllOf(vec![Clause::Always, Clause::AllOf(vec![a.clone(), b.clone()]), Clause::AllOf(vec![])]);
    assert_eq!(c.simplify(), Clause::AllOf(vec![a.clone(), b.clone()]));
    let d = Clause::AllOf(vec![a.clone(), Clause::AnyOf(vec![Clause::Never])]);
    assert_eq!(d.simplify(), Clause::Never);
    let e = Clause::AnyOf(vec![a.clone(), Clause::AllOf(vec![])]);
    assert_eq!(e.simplify(), Clause::Always);
    let f = Clause::AnyOf(vec![Clause::AnyOf(vec![a.clone()]), Clause::Never]);
    assert_eq!(f.simplify(), a.clone());
}

#[test]
fn coerce_finds_digits_of_any_script() {
    for s in ["\u{661}", "1.\u{662}", "\u{661}.2.3", "1.2.\u{663}-rc"] {
        assert!(matches!(Version::coerce(s, false), Err(SemverError::InvalidVersion(_))), "{}", s);
    }
    assert!(matches!(Version::coerce("abc", false), Err(SemverError::InvalidCoerce(_))));
    assert!(matches!(Version::parse("\u{661}.2.3"), Err(SemverError::InvalidVersion(_))));
    assert_eq!(Version::coerce("1.2x\u{661}", false).unwrap().to_string(), "1.2.0-x-");
}

#[test]
fn big_numeric_prerelease_identifiers_compare_by_value() {
    assert_eq!(
        compare("1.0.0-99999999999999999999", "1.0.0-100000000000000000000").unwrap(),
        Some(-1)
    );
    assert_eq!(compare("1.0.0-100000000000000000000", "1.0.0--").unwrap(), Some(-1));
    assert_eq!(compare("1.0.0-18446744073709551615", "1.0.0-18446744073709551616").unwrap(), Some(-1));
    assert_eq!(compare("1.0.0-18446744073709551616", "1.0.0-18446744073709551616").unwrap(), Some(0));
    let ids = parse_prerelease_identifiers("18446744073709551616.5").unwrap();
    assert_eq!(
        ids[0],
        PreReleaseIdent::BigNumeric { len: 20, digits: "18446744073709551616".to_string() }
    );
    assert!(ids[0] > PreReleaseIdent::Numeric(u64::MAX));
    assert!(ids[0] < PreReleaseIdent::Alpha("-".to_string()));
    assert_eq!(v("1.0.0-18446744073709551616").to_string(), "1.0.0-18446744073709551616");
}

#[test]
fn simplify_keeps_the_order_of_children() {
    let r = |op, t| Clause::Range(Range::new(op, v(t), PrereleasePolicy::Natural, BuildPolicy::Implicit).unwrap());
    let a = r(Operator::Gte, "1.0.0");
    let b = r(Operator::Lt, "3.0.0");
    let c = r(Operator::Neq, "1.5.0");
    let d = r(Operator::Neq, "2.5.0");
    let e = Clause::AllOf(vec![d.clone(), Clause::AllOf(vec![b.clone(), c.clone()]), Clause::Always, a.clone()]);
    assert_eq!(e.simplify(), Clause::AllOf(vec![d.clone(), b.clone(), c.clone(), a.clone()]));
    let f = Clause::AnyOf(vec![c.clone(), Clause::Never, Clause::AnyOf(vec![a.clone(), b.clone()])]);
    assert_eq!(f.simplify(), Clause::AnyOf(vec![c.clone(), a.clone(), b.clone()]));
}
