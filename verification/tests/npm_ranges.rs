//! More npm ranges: alternatives, duplicates, build metadata, errors.

use semantic_version::clause::{BuildPolicy, Clause, Operator, PrereleasePolicy, Range};
use semantic_version::npm_spec::NpmSpec;
use semantic_version::version::Version;

fn v(s: &str) -> Version {
    Version::parse(s).unwrap()
}

fn same_patch(op: Operator, target: &str) -> Clause {
    Clause::Range(Range::new(op, v(target), PrereleasePolicy::SamePatch, BuildPolicy::Implicit).unwrap())
}

fn err(s: &str) -> String {
    NpmSpec::parse(s).unwrap_err().to_string()
}

#[test]
fn npm_alternatives() {
    let spec = NpmSpec::parse("1.x || >=2.5.0").unwrap();
    assert_eq!(
        spec.clause,
        Clause::AnyOf(vec![
            Clause::AllOf(vec![same_patch(Operator::Lt, "2.0.0"), same_patch(Operator::Gte, "1.0.0")]),
            Clause::AllOf(vec![same_patch(Operator::Gte, "2.5.0")]),
        ])
    );
    assert!(spec.match_version(&v("1.5.0")));
    assert!(!spec.match_version(&v("2.2.0")));
    assert!(spec.match_version(&v("2.6.0")));
}

#[test]
fn npm_single_block_is_all_of() {
    assert_eq!(NpmSpec::parse(">=1.2.3").unwrap().clause, Clause::AllOf(vec![same_patch(Operator::Gte, "1.2.3")]));
    assert_eq!(NpmSpec::parse("v1.2.3").unwrap().clause, Clause::AllOf(vec![same_patch(Operator::Eq, "1.2.3")]));
}

#[test]
fn npm_duplicates_dropped() {
    assert_eq!(
        NpmSpec::parse(">=1.0.0 >=1.0.0").unwrap().clause,
        Clause::AllOf(vec![same_patch(Operator::Gte, "1.0.0")])
    );
    assert_eq!(
        NpmSpec::parse("1.2.3 || 1.2.3").unwrap().clause,
        Clause::AnyOf(vec![Clause::AllOf(vec![same_patch(Operator::Eq, "1.2.3")])])
    );
}

#[test]
fn npm_empty_alternative_is_any_version() {
    let spec = NpmSpec::parse("1.2.3 ||").unwrap();
    assert_eq!(
        spec.clause,
        Clause::AnyOf(vec![
            Clause::AllOf(vec![same_patch(Operator::Eq, "1.2.3")]),
            Clause::AllOf(vec![same_patch(Operator::Gte, "0.0.0")]),
        ])
    );
    assert!(spec.match_version(&v("5.0.0")));
}

#[test]
fn npm_build_kept_only_for_equals() {
    assert_eq!(NpmSpec::parse("1.2.3+build").unwrap().clause, Clause::AllOf(vec![same_patch(Operator::Eq, "1.2.3")]));
    match &NpmSpec::parse("=1.2.3+build").unwrap().clause {
        Clause::AllOf(cs) => match &cs[0] {
            Clause::Range(r) => {
                assert_eq!(r.build_policy, BuildPolicy::Strict);
                assert_eq!(r.target.to_string(), "1.2.3+build");
            }
            other => panic!("unexpected {:?}", other),
        },
        other => panic!("unexpected {:?}", other),
    }
    assert_eq!(NpmSpec::parse(">1.2.3+build").unwrap().clause, Clause::AllOf(vec![same_patch(Operator::Gt, "1.2.3")]));
}

#[test]
fn npm_wildcard_operators() {
    assert_eq!(NpmSpec::parse(">1.x").unwrap().clause, Clause::AllOf(vec![same_patch(Operator::Gte, "2.0.0")]));
    assert_eq!(NpmSpec::parse("<=1.2.x").unwrap().clause, Clause::AllOf(vec![same_patch(Operator::Lt, "1.3.0")]));
    assert_eq!(NpmSpec::parse("<1.2.x").unwrap().clause, Clause::AllOf(vec![same_patch(Operator::Lt, "1.2.0")]));
    assert_eq!(NpmSpec::parse(">=x").unwrap().clause, Clause::AllOf(vec![same_patch(Operator::Gte, "0.0.0")]));
    assert_eq!(
        NpmSpec::parse("^0.x").unwrap().clause,
        Clause::AllOf(vec![same_patch(Operator::Lt, "1.0.0"), same_patch(Operator::Gte, "0.0.0")])
    );
    assert_eq!(
        NpmSpec::parse("~1").unwrap().clause,
        Clause::AllOf(vec![same_patch(Operator::Lt, "2.0.0"), same_patch(Operator::Gte, "1.0.0")])
    );
}

#[test]
fn npm_errors() {
    assert_eq!(err("~=1.2"), "Invalid npm block '~=1.2'");
    assert_eq!(err("1.x-rc"), "Invalid NPM spec: '1.x-rc'");
    assert_eq!(err(">x"), "Invalid expression '>x'");
    assert_eq!(err("1.2.3 - x"), "Invalid major");
    assert_eq!(err("1.2.3 -"), "Invalid npm block '-'");
    assert!(NpmSpec::parse("1.2.3 - 2.0").is_ok());
}

#[test]
fn npm_text() {
    assert_eq!(NpmSpec::parse("1.x || >=2.5.0").unwrap().to_string(), "||<2.0.0,>=1.0.0||>=2.5.0");
}

#[test]
fn npm_union_of_groups() {
    let whole = NpmSpec::parse("^1.2.0 || ~2.4.1 || 3.0.0-rc.1 - 3.1").unwrap();
    let groups = [
        NpmSpec::parse("^1.2.0").unwrap(),
        NpmSpec::parse("~2.4.1").unwrap(),
        NpmSpec::parse("3.0.0-rc.1 - 3.1").unwrap(),
    ];
    for s in ["1.2.0", "1.9.9", "2.0.0", "2.4.0", "2.4.5", "2.5.0", "3.0.0-rc.1", "3.0.0-rc.2", "3.0.5", "3.1.9", "3.2.0", "0.9.0"] {
        let version = v(s);
        let any = groups.iter().any(|g| g.match_version(&version));
        assert_eq!(whole.match_version(&version), any, "{}", s);
    }
    assert!(whole.match_version(&v("1.9.9")));
    assert!(whole.match_version(&v("2.4.5")));
    assert!(whole.match_version(&v("3.0.0-rc.2")));
    assert!(!whole.match_version(&v("2.5.0")));
    assert!(!whole.match_version(&v("3.2.0")));
}

#[test]
fn npm_caret_tilde_refuse_bare_wildcard() {
    for s in ["^*", "~*", "^x", "~X", "^*.1"] {
        assert!(NpmSpec::parse(s).is_err(), "{}", s);
    }
    assert_eq!(err("^*"), "Invalid expression '^*'");
    assert_eq!(err("~*"), "Invalid expression '~*'");
    assert!(NpmSpec::parse("*").is_ok());
    assert!(NpmSpec::parse(">=*").is_ok());
    assert!(NpmSpec::parse("^1.x").is_ok());
    assert!(NpmSpec::parse("~1").is_ok());
}
