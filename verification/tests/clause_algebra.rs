//! Combining, simplifying, comparing and rendering clauses.

use semantic_version::clause::{BuildPolicy, Clause, Operator, PrereleasePolicy, Range};
use semantic_version::simple_spec::SimpleSpec;
use semantic_version::version::Version;

fn v(s: &str) -> Version {
    Version::parse(s).unwrap()
}

fn range(op: Operator, target: &str) -> Clause {
    Clause::Range(Range::new(op, v(target), PrereleasePolicy::Natural, BuildPolicy::Implicit).unwrap())
}

#[test]
fn and_or_identities() {
    let r = range(Operator::Gte, "1.0.0");
    assert_eq!(Clause::Never & r.clone(), Clause::Never);
    assert_eq!(r.clone() & Clause::Always, r.clone());
    assert_eq!(Clause::Always | r.clone(), Clause::Always);
    assert_eq!(r.clone() | Clause::Never, r.clone());
    let a = range(Operator::Lt, "2.0.0");
    assert_eq!(r.clone() & a.clone(), Clause::AllOf(vec![r.clone(), a.clone()]));
    assert_eq!(r.clone() | a.clone(), Clause::AnyOf(vec![r.clone(), a.clone()]));
    let both = (r.clone() & a.clone()) & range(Operator::Neq, "1.5.0");
    assert_eq!(both, Clause::AllOf(vec![r.clone(), a.clone(), range(Operator::Neq, "1.5.0")]));
}

#[test]
fn and_or_matching() {
    let r = range(Operator::Gte, "1.0.0");
    let a = range(Operator::Lt, "2.0.0");
    let x = v("2.5.0");
    assert_eq!((r.clone() & a.clone()).matches(&x), r.matches(&x) && a.matches(&x));
    assert_eq!((r.clone() | a.clone()).matches(&x), r.matches(&x) || a.matches(&x));
}

#[test]
fn simplify_flattens_and_resolves() {
    let r = range(Operator::Gte, "1.0.0");
    let a = range(Operator::Lt, "2.0.0");
    let nested = Clause::AllOf(vec![Clause::AllOf(vec![r.clone(), Clause::Always]), a.clone()]);
    assert_eq!(nested.clone().simplify(), Clause::AllOf(vec![r.clone(), a.clone()]));
    assert_eq!(Clause::AllOf(vec![r.clone(), Clause::Never]).simplify(), Clause::Never);
    assert_eq!(Clause::AnyOf(vec![r.clone(), Clause::Always]).simplify(), Clause::Always);
    assert_eq!(Clause::AllOf(vec![]).simplify(), Clause::Always);
    assert_eq!(Clause::AnyOf(vec![]).simplify(), Clause::Never);
    assert_eq!(Clause::AllOf(vec![r.clone()]).simplify(), r.clone());
    for s in ["0.5.0", "1.5.0", "2.5.0"] {
        assert_eq!(nested.clone().simplify().matches(&v(s)), nested.matches(&v(s)));
    }
}

#[test]
fn equivalence_ignores_order_and_repeats() {
    let r = range(Operator::Gte, "1.0.0");
    let a = range(Operator::Lt, "2.0.0");
    let x = Clause::AllOf(vec![r.clone(), a.clone()]);
    let y = Clause::AllOf(vec![a.clone(), r.clone(), a.clone()]);
    assert!(x.equivalent(&y));
    assert!(y.equivalent(&x));
    assert!(x.equivalent(&x));
    assert!(!x.equivalent(&Clause::AllOf(vec![r.clone()])));
    assert!(!x.equivalent(&Clause::AnyOf(vec![r.clone(), a.clone()])));
    let d = Clause::dedup_list(vec![a.clone(), r.clone(), a.clone()]);
    assert_eq!(d, vec![a.clone(), r.clone()]);
    let z = Clause::AllOf(vec![r.clone(), r.clone(), a.clone()]);
    assert!(y.equivalent(&z));
    assert!(x.equivalent(&z));
    for s in ["0.9.0", "1.0.0", "1.5.0-rc.1", "1.9.9", "2.0.0"] {
        assert_eq!(x.matches(&v(s)), y.matches(&v(s)), "{}", s);
    }
}

#[test]
fn clause_text_and_repr() {
    let spec = SimpleSpec::parse(">=1.0.0,<2.0.0").unwrap();
    assert_eq!(spec.to_string(), ">=1.0.0,<2.0.0");
    assert_eq!(Clause::Never.text(), "NEVER".chars().collect::<Vec<char>>());
    let c = Clause::AllOf(vec![range(Operator::Gte, "1.0.0"), range(Operator::Lt, "2.0.0")]);
    assert_eq!(c.repr(), "AllOf(Range('<', Version('2.0.0')), Range('>=', Version('1.0.0')))");
    let p = Clause::Range(Range::new(Operator::Lt, v("1.2.3"), PrereleasePolicy::Always, BuildPolicy::Strict).unwrap());
    assert_eq!(p.repr(), "Range('<', Version('1.2.3'), prerelease_policy='always', build_policy='strict')");
    assert_eq!(Clause::Always.repr(), "Always()");
    assert_eq!(Clause::AnyOf(vec![Clause::Never]).repr(), "AnyOf(Never())");
}

#[test]
fn range_policies() {
    // Implicit build policy: build metadata of the version is ignored.
    let eq = range(Operator::Eq, "1.2.3");
    assert_eq!(eq.matches(&v("1.2.3+b")), eq.matches(&v("1.2.3")));
    // Natural: `<1.2.3` leaves out prereleases of 1.2.3.
    assert!(!range(Operator::Lt, "1.2.3").matches(&v("1.2.3-alpha")));
    // Same patch: a prerelease only matches bounds on its own release.
    let sp = Clause::Range(Range::new(Operator::Gte, v("1.0.0"), PrereleasePolicy::SamePatch, BuildPolicy::Implicit).unwrap());
    assert!(!sp.matches(&v("1.1.0-rc.1")));
    assert!(sp.matches(&v("1.1.0")));
    let err = Range::new(Operator::Gt, v("1.2.3+b"), PrereleasePolicy::Natural, BuildPolicy::Implicit);
    assert_eq!(err.unwrap_err().to_string(), "Invalid range >1.2.3+b: build numbers have no ordering.");
}
