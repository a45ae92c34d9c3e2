//! The full simple syntax: `*` parts, partial versions, requirements and
//! specs made of several requirements.

use semantic_version::clause::{BuildPolicy, Clause, Operator, PrereleasePolicy, Range};
use semantic_version::legacy::{match_version, parse_block, parse_expression, Spec, SpecItem};
use semantic_version::version::Version;

fn v(s: &str) -> Version {
    Version::parse(s).unwrap()
}

fn range(op: Operator, target: &str) -> Clause {
    Clause::Range(
        Range::new(op, v(target), PrereleasePolicy::Natural, BuildPolicy::Implicit).unwrap(),
    )
}

fn err_text(r: Result<Clause, semantic_version::error::SemverError>) -> String {
    r.unwrap_err().to_string()
}

#[test]
fn legacy_star_is_any_version() {
    assert_eq!(parse_expression("*").unwrap(), range(Operator::Gte, "0.0.0"));
}

#[test]
fn legacy_partial_equality_is_a_range() {
    let c = parse_expression("==0.1.*").unwrap();
    assert_eq!(c, Clause::AllOf(vec![range(Operator::Gte, "0.1.0"), range(Operator::Lt, "0.2.0")]));
    assert!(c.matches(&v("0.1.5")));
    assert!(!c.matches(&v("0.2.0")));
    assert_eq!(
        parse_expression("1").unwrap(),
        Clause::AllOf(vec![range(Operator::Gte, "1.0.0"), range(Operator::Lt, "2.0.0")])
    );
}

#[test]
fn legacy_partial_inequality_is_either_side() {
    let c = parse_expression("!=1.*").unwrap();
    assert_eq!(c, Clause::AnyOf(vec![range(Operator::Lt, "1.0.0"), range(Operator::Gte, "2.0.0")]));
    assert!(c.matches(&v("0.9.0")));
    assert!(!c.matches(&v("1.5.0")));
    assert!(c.matches(&v("2.0.0")));
}

#[test]
fn legacy_partial_bounds() {
    assert_eq!(parse_expression(">1.2").unwrap(), range(Operator::Gte, "1.3.0"));
    assert_eq!(parse_expression(">1").unwrap(), range(Operator::Gte, "2.0.0"));
    assert_eq!(parse_expression("<=1").unwrap(), range(Operator::Lt, "2.0.0"));
    assert_eq!(parse_expression("<=1.2").unwrap(), range(Operator::Lt, "1.3.0"));
    assert_eq!(parse_expression("<=1.2.3").unwrap(), range(Operator::Lte, "1.2.3"));
    assert_eq!(parse_expression("<1.2").unwrap(), range(Operator::Lt, "1.2.0"));
}

#[test]
fn legacy_caret_tilde_compatible() {
    assert_eq!(
        parse_expression("~1").unwrap(),
        Clause::AllOf(vec![range(Operator::Gte, "1.0.0"), range(Operator::Lt, "2.0.0")])
    );
    assert_eq!(
        parse_expression("~1.2.3").unwrap(),
        Clause::AllOf(vec![range(Operator::Gte, "1.2.3"), range(Operator::Lt, "1.3.0")])
    );
    assert_eq!(
        parse_expression("~=1.2").unwrap(),
        Clause::AllOf(vec![range(Operator::Gte, "1.2.0"), range(Operator::Lt, "2.0.0")])
    );
    assert_eq!(
        parse_expression("^0.0.3").unwrap(),
        Clause::AllOf(vec![range(Operator::Gte, "0.0.3"), range(Operator::Lt, "0.0.4")])
    );
    assert_eq!(
        parse_expression("^1.2.3-rc").unwrap(),
        Clause::AllOf(vec![range(Operator::Gte, "1.2.3-rc"), range(Operator::Lt, "2.0.0")])
    );
}

#[test]
fn legacy_suffixes_set_policies() {
    match parse_expression("==1.2.3+").unwrap() {
        Clause::Range(r) => {
            assert_eq!(r.operator, Operator::Eq);
            assert_eq!(r.build_policy, BuildPolicy::Strict);
        }
        other => panic!("unexpected {:?}", other),
    }
    match parse_expression("<1.2.3-").unwrap() {
        Clause::Range(r) => {
            assert_eq!(r.operator, Operator::Lt);
            assert_eq!(r.prerelease_policy, PrereleasePolicy::Always);
        }
        other => panic!("unexpected {:?}", other),
    }
    match parse_expression("!=1.2.3-").unwrap() {
        Clause::Range(r) => {
            assert_eq!(r.operator, Operator::Neq);
            assert_eq!(r.prerelease_policy, PrereleasePolicy::Always);
        }
        other => panic!("unexpected {:?}", other),
    }
}

#[test]
fn legacy_comma_gives_deduplicated_all_of() {
    assert_eq!(
        parse_expression(">=1.0.0,>=1.0.0").unwrap(),
        Clause::AllOf(vec![range(Operator::Gte, "1.0.0")])
    );
    assert_eq!(
        parse_expression(">=0.1.1,<0.1.4").unwrap(),
        Clause::AllOf(vec![range(Operator::Gte, "0.1.1"), range(Operator::Lt, "0.1.4")])
    );
}

#[test]
fn legacy_errors() {
    assert_eq!(err_text(parse_expression("")), "Invalid simple spec: empty string");
    assert_eq!(err_text(parse_expression("  ")), "Invalid simple spec: empty string");
    assert_eq!(err_text(parse_expression("1.x")), "Invalid simple block '1.x'");
    assert_eq!(err_text(parse_expression("01.2.3")), "Invalid simple block '01.2.3'");
    assert_eq!(err_text(parse_expression("==1.*-rc")), "Invalid simple spec '==1.*-rc'");
    assert_eq!(err_text(parse_expression(">=1.2.3+build")), "Invalid simple spec '>=1.2.3+build'");
    assert_eq!(
        err_text(parse_expression("==1.2.3-a..b")),
        "Invalid empty identifier '' in \"a..b\""
    );
    assert_eq!(
        err_text(parse_expression("99999999999999999999.0.0")),
        "Invalid simple block '99999999999999999999.0.0'"
    );
}

#[test]
fn legacy_block_alone() {
    let block: Vec<char> = ">=1.2.3".chars().collect();
    assert_eq!(parse_block(&block).unwrap(), range(Operator::Gte, "1.2.3"));
}

#[test]
fn requirement_kinds_and_versions() {
    let item = SpecItem::parse_requirement(">=1.2.3").unwrap();
    assert_eq!(item.kind, ">=");
    let spec = item.spec.clone().unwrap();
    assert_eq!((spec.major, spec.minor, spec.patch), (1, Some(2), Some(3)));
    assert!(spec.partial);
    assert_eq!(item.clause, range(Operator::Gte, "1.2.3"));

    let item = SpecItem::parse_requirement("=1.2").unwrap();
    assert_eq!(item.kind, "==");
    assert_eq!(item.spec.clone().unwrap().patch, None);
    assert!(item.matches(&v("1.2.9")));
    assert!(!item.matches(&v("1.3.0")));

    assert_eq!(SpecItem::parse_requirement("1").unwrap().kind, "==");
    assert_eq!(SpecItem::parse_requirement("~=1.2").unwrap().kind, "~=");
    assert_eq!(SpecItem::parse_requirement("~1.2").unwrap().kind, "~");
    assert_eq!(SpecItem::parse_requirement("^1.2").unwrap().kind, "^");
    assert_eq!(SpecItem::parse_requirement("<0.0.0-").unwrap().kind, "<");

    let any = SpecItem::parse_requirement("*").unwrap();
    assert_eq!(any.kind, "*");
    assert!(any.spec.is_none());
}

#[test]
fn requirement_errors() {
    assert_eq!(
        SpecItem::parse_requirement("").unwrap_err().to_string(),
        "Invalid empty requirement specification: \"\""
    );
    assert_eq!(
        SpecItem::parse_requirement("foo").unwrap_err().to_string(),
        "Invalid requirement specification: \"foo\""
    );
    assert_eq!(
        SpecItem::parse_requirement(">=1.2.3+build").unwrap_err().to_string(),
        "Invalid requirement specification \">=1.2.3+build\": build numbers have no ordering."
    );
    assert!(SpecItem::parse_requirement("==1.2.3+build").is_ok());
}

#[test]
fn legacy_spec_filter_and_select() {
    let spec = Spec::new(vec![">=0.1.1".to_string(), "<0.1.4".to_string()]).unwrap();
    assert_eq!(spec.expression, ">=0.1.1,<0.1.4");
    let versions = vec![v("0.1.0"), v("0.1.1"), v("0.1.3"), v("0.1.2"), v("0.1.4")];
    let kept = spec.filter(&versions);
    let texts: Vec<String> = kept.iter().map(|x| x.to_string()).collect();
    assert_eq!(texts, vec!["0.1.1", "0.1.3", "0.1.2"]);
    assert_eq!(spec.select(&versions).unwrap().to_string(), "0.1.3");
    assert!(spec.select(&vec![v("0.2.0")]).is_none());
    assert!(spec.match_version(&v("0.1.2")));
    assert!(!spec.match_version(&v("0.1.4")));
}

#[test]
fn legacy_select_prefers_first_of_equal_precedence() {
    let spec = Spec::new(vec!["*".to_string()]).unwrap();
    let versions = vec![v("1.0.0+a"), v("1.0.0+b")];
    assert_eq!(spec.select(&versions).unwrap().to_string(), "1.0.0+a");
}

#[test]
fn legacy_spec_items() {
    let spec = Spec::new(vec![">=0.1.1".to_string(), "<0.1.4".to_string()]).unwrap();
    let items = spec.items().unwrap();
    let kinds: Vec<String> = items.iter().map(|i| i.kind.clone()).collect();
    assert_eq!(kinds, vec![">=", "<"]);
    let any = Spec::new(vec!["*".to_string()]).unwrap().items().unwrap();
    assert_eq!(any.len(), 1);
    assert_eq!(any[0].kind, ">=");
}

#[test]
fn legacy_match_function() {
    assert_eq!(match_version("==0.1.*", "0.1.3").unwrap(), true);
    assert_eq!(match_version("<0.1.0", "0.1.3").unwrap(), false);
    assert!(match_version("<0.1.0", "0.1").is_err());
    assert!(match_version("", "0.1.3").is_err());
}

#[test]
fn legacy_comma_is_every_block() {
    let whole = parse_expression(">=0.1.1,<0.3.0,!=0.2.0,==0.2.*").unwrap();
    let blocks = [">=0.1.1", "<0.3.0", "!=0.2.0", "==0.2.*"];
    for s in ["0.1.0", "0.1.1", "0.2.0", "0.2.1", "0.2.9", "0.3.0", "0.2.1-alpha", "0.2.1+build"] {
        let version = v(s);
        let every = blocks.iter().all(|b| parse_expression(b).unwrap().matches(&version));
        assert_eq!(whole.matches(&version), every, "{}", s);
    }
    assert!(whole.matches(&v("0.2.1")));
    assert!(!whole.matches(&v("0.2.0")));
    assert!(!whole.matches(&v("0.1.5")));
}
