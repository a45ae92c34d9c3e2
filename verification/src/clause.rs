//! Range clauses: single comparisons (`Range`) and their combinations.
//!
//! - `Operator`: `==`, `!=`, `<`, `<=`, `>`, `>=`.
//! - `PrereleasePolicy`: `Natural` (default), `Always` (bound written with a
//!   trailing `-`), `SamePatch` (npm ranges).
//! - `BuildPolicy`: `Implicit` (default), `Strict` (the target has build
//!   metadata, or the bound was written with a trailing `+`).
//! - `Clause`: `Always`, `Never`, `Range`, `AllOf`, `AnyOf`.

use vstd::prelude::*;

use crate::error::{ErrorView, SemverError};
use crate::text::{append_chars, append_str, chars_of};
use crate::version::{
    build_or_empty, pre_or_empty, precedence_key, precedence_order, spec_truncate_to_patch,
    spec_truncate_to_prerelease, version_eq, version_text, Version, VersionView,
};

verus! {

#[derive(Debug, Clone, Copy, PartialEq, Eq, Hash, Structural)]
pub enum Operator {
    /// `==`, `=` or nothing
    Eq,
    /// `!=`
    Neq,
    /// `<`
    Lt,
    /// `<=`
    Lte,
    /// `>`
    Gt,
    /// `>=`
    Gte,
}

/// How a range treats prerelease versions.
#[derive(Debug, Clone, Copy, PartialEq, Eq, Hash, Structural)]
pub enum PrereleasePolicy {
    /// Default: `<1.2.3` does not match `1.2.3-alpha` (a prerelease of its own release).
    Natural,
    /// Written with a trailing `-` (`<1.2.3-`): `1.2.3-alpha` matches too.
    Always,
    /// npm ranges: a prerelease matches only when its release is the target's release.
    SamePatch,
}

/// How a range treats build metadata.
#[derive(Debug, Clone, Copy, PartialEq, Eq, Hash, Structural)]
pub enum BuildPolicy {
    /// Build metadata of the version is ignored (`1.2.3` matches `1.2.3+build42`).
    Implicit,
    /// Build metadata must match too.
    Strict,
}

/// The text of an operator.
pub open spec fn operator_text(op: Operator) -> Seq<char> {
    match op {
        Operator::Eq => "=="@,
        Operator::Neq => "!="@,
        Operator::Lt => "<"@,
        Operator::Lte => "<="@,
        Operator::Gt => ">"@,
        Operator::Gte => ">="@,
    }
}

impl Operator {
    /// The text of this operator (`==`, `!=`, `<`, `<=`, `>`, `>=`).
    pub fn text(&self) -> (r: &'static str)
        ensures
            r@ == operator_text(*self),
    {
        match self {
            Operator::Eq => "==",
            Operator::Neq => "!=",
            Operator::Lt => "<",
            Operator::Lte => "<=",
            Operator::Gt => ">",
            Operator::Gte => ">=",
        }
    }
}

/// One comparison against a target version.
#[derive(Debug, Clone, PartialEq, Eq, Hash)]
pub struct Range {
    pub operator: Operator,
    pub target: Version,
    pub prerelease_policy: PrereleasePolicy,
    pub build_policy: BuildPolicy,
}

pub struct RangeView {
    pub operator: Operator,
    pub target: VersionView,
    pub prerelease_policy: PrereleasePolicy,
    pub build_policy: BuildPolicy,
}

impl View for Range {
    type V = RangeView;

    open spec fn view(&self) -> RangeView {
        RangeView {
            operator: self.operator,
            target: self.target@,
            prerelease_policy: self.prerelease_policy,
            build_policy: self.build_policy,
        }
    }
}

/// A tree of comparisons.
#[derive(Debug, PartialEq, Eq, Hash)]
pub enum Clause {
    Always,
    Never,
    Range(Range),
    AllOf(Vec<Clause>),
    AnyOf(Vec<Clause>),
}

/// The mathematical value of a `Clause`.
pub enum ClauseView {
    Always,
    Never,
    Range(RangeView),
    AllOf(Seq<ClauseView>),
    AnyOf(Seq<ClauseView>),
}

pub open spec fn clause_view(c: Clause) -> ClauseView
    decreases c,
{
    match c {
        Clause::Always => ClauseView::Always,
        Clause::Never => ClauseView::Never,
        Clause::Range(r) => ClauseView::Range(r@),
        Clause::AllOf(v) => ClauseView::AllOf(clauses_view(v@)),
        Clause::AnyOf(v) => ClauseView::AnyOf(clauses_view(v@)),
    }
}

pub open spec fn clauses_view(s: Seq<Clause>) -> Seq<ClauseView>
    decreases s,
{
    if s.len() == 0 {
        Seq::empty()
    } else {
        seq![clause_view(s[0])] + clauses_view(s.drop_first())
    }
}

impl View for Clause {
    type V = ClauseView;

    open spec fn view(&self) -> ClauseView {
        clause_view(*self)
    }
}

pub proof fn lemma_clauses_view(s: Seq<Clause>)
    ensures
        clauses_view(s).len() == s.len(),
        forall|i: int| 0 <= i < s.len() ==> #[trigger] clauses_view(s)[i] == s[i]@,
    decreases s.len(),
{
    if s.len() > 0 {
        lemma_clauses_view(s.drop_first());
        assert forall|i: int| 0 <= i < s.len() implies #[trigger] clauses_view(s)[i] == s[i]@ by {
            if i > 0 {
                assert(clauses_view(s)[i] == clauses_view(s.drop_first())[i - 1]);
            }
        }
    }
}

pub proof fn lemma_clauses_view_push(s: Seq<Clause>, c: Clause)
    ensures
        clauses_view(s.push(c)) == clauses_view(s).push(c@),
{
    lemma_clauses_view(s);
    lemma_clauses_view(s.push(c));
    assert(clauses_view(s.push(c)) =~= clauses_view(s).push(c@));
}

pub proof fn lemma_clauses_view_add(s: Seq<Clause>, t: Seq<Clause>)
    ensures
        clauses_view(s + t) == clauses_view(s) + clauses_view(t),
{
    lemma_clauses_view(s);
    lemma_clauses_view(t);
    lemma_clauses_view(s + t);
    assert(clauses_view(s + t) =~= clauses_view(s) + clauses_view(t));
}

// ---------------------------------------------------------------------------
// Matching
// ---------------------------------------------------------------------------

pub open spec fn has_prerelease(v: VersionView) -> bool {
    pre_or_empty(v).len() > 0
}

/// Whether `version` satisfies the range `r`.
pub open spec fn range_matches(r: RangeView, version: VersionView) -> bool {
    let check = if r.build_policy != BuildPolicy::Strict {
        spec_truncate_to_prerelease(version)
    } else {
        version
    };
    let version_pre = has_prerelease(check);
    let same_patch = version_eq(spec_truncate_to_patch(r.target), spec_truncate_to_patch(check));
    let target_pre = has_prerelease(r.target);
    let strict_equal = version_eq(
        spec_truncate_to_prerelease(r.target),
        spec_truncate_to_prerelease(check),
    ) && check.build == r.target.build;
    let natural_same_patch_excluded = version_pre && r.prerelease_policy
        == PrereleasePolicy::Natural && same_patch && !target_pre;
    if version_pre && r.prerelease_policy == PrereleasePolicy::SamePatch && !same_patch {
        false
    } else {
        match r.operator {
            Operator::Eq => if r.build_policy == BuildPolicy::Strict {
                strict_equal
            } else {
                version_eq(check, r.target)
            },
            Operator::Gt => precedence_order(check, r.target) > 0,
            Operator::Gte => precedence_order(check, r.target) >= 0,
            Operator::Lt => !natural_same_patch_excluded && precedence_order(check, r.target) < 0,
            Operator::Lte => precedence_order(check, r.target) <= 0,
            Operator::Neq => if r.build_policy == BuildPolicy::Strict {
                !strict_equal
            } else {
                !natural_same_patch_excluded && !version_eq(check, r.target)
            },
        }
    }
}

/// Whether `version` satisfies the clause `c`.
pub open spec fn clause_matches(c: ClauseView, version: VersionView) -> bool
    decreases c,
{
    match c {
        ClauseView::Always => true,
        ClauseView::Never => false,
        ClauseView::Range(r) => range_matches(r, version),
        ClauseView::AllOf(cs) => all_clauses_match(cs, version),
        ClauseView::AnyOf(cs) => any_clause_matches(cs, version),
    }
}

/// Whether `version` satisfies every clause of `cs`.
pub open spec fn all_clauses_match(cs: Seq<ClauseView>, version: VersionView) -> bool
    decreases cs,
{
    if cs.len() == 0 {
        true
    } else {
        clause_matches(cs[0], version) && all_clauses_match(cs.drop_first(), version)
    }
}

/// Whether `version` satisfies some clause of `cs`.
pub open spec fn any_clause_matches(cs: Seq<ClauseView>, version: VersionView) -> bool
    decreases cs,
{
    if cs.len() == 0 {
        false
    } else {
        clause_matches(cs[0], version) || any_clause_matches(cs.drop_first(), version)
    }
}

/// `AllOf` matches when every child does; `AnyOf` when some child does.
pub proof fn lemma_list_matches(cs: Seq<ClauseView>, v: VersionView)
    ensures
        all_clauses_match(cs, v) == (forall|j: int|
            0 <= j < cs.len() ==> #[trigger] clause_matches(cs[j], v)),
        any_clause_matches(cs, v) == (exists|j: int|
            0 <= j < cs.len() && #[trigger] clause_matches(cs[j], v)),
    decreases cs.len(),
{
    if cs.len() > 0 {
        lemma_list_matches(cs.drop_first(), v);
        assert forall|j: int| 0 < j < cs.len() implies #[trigger] cs[j] == cs.drop_first()[j - 1] by {}
        if !all_clauses_match(cs, v) {
            if clause_matches(cs[0], v) {
                let k = choose|k: int| 0 <= k < cs.len() - 1 && !clause_matches(cs.drop_first()[k], v);
                assert(cs[k + 1] == cs.drop_first()[k]);
            }
        }
        if any_clause_matches(cs, v) {
            if !clause_matches(cs[0], v) {
                let k = choose|k: int| 0 <= k < cs.len() - 1 && clause_matches(cs.drop_first()[k], v);
                assert(cs[k + 1] == cs.drop_first()[k]);
            }
        }
    }
}

// ---------------------------------------------------------------------------
// Equivalence: lists of children compare as sets
// ---------------------------------------------------------------------------

/// Two ranges with the same operator, equal targets and the same policies.
pub open spec fn range_equiv(x: RangeView, y: RangeView) -> bool {
    &&& x.operator == y.operator
    &&& version_eq(x.target, y.target)
    &&& x.prerelease_policy == y.prerelease_policy
    &&& x.build_policy == y.build_policy
}

/// Clauses equal up to the order and repetition of the children of `AllOf`
/// and `AnyOf` (children compare as sets).
pub open spec fn clause_equiv(a: ClauseView, b: ClauseView) -> bool
    decreases a, 0nat,
{
    match (a, b) {
        (ClauseView::Always, ClauseView::Always) => true,
        (ClauseView::Never, ClauseView::Never) => true,
        (ClauseView::Range(x), ClauseView::Range(y)) => range_equiv(x, y),
        (ClauseView::AllOf(xs), ClauseView::AllOf(ys)) => every_has_match(xs, ys) && every_matched(
            xs,
            ys,
        ),
        (ClauseView::AnyOf(xs), ClauseView::AnyOf(ys)) => every_has_match(xs, ys) && every_matched(
            xs,
            ys,
        ),
        _ => false,
    }
}

/// Every clause of `xs` is equivalent to some clause of `ys`.
pub open spec fn every_has_match(xs: Seq<ClauseView>, ys: Seq<ClauseView>) -> bool
    decreases xs, 0nat,
{
    xs.len() == 0 || (has_match(xs[0], ys) && every_has_match(xs.drop_first(), ys))
}

/// `x` is equivalent to some clause of `ys`.
pub open spec fn has_match(x: ClauseView, ys: Seq<ClauseView>) -> bool
    decreases x, ys.len() + 1,
{
    ys.len() > 0 && (clause_equiv(x, ys[0]) || has_match(x, ys.drop_first()))
}

/// Every clause of `ys` has an equivalent among `xs`.
pub open spec fn every_matched(xs: Seq<ClauseView>, ys: Seq<ClauseView>) -> bool
    decreases xs, ys.len() + 1,
{
    ys.len() == 0 || (matched_by(xs, ys[0]) && every_matched(xs, ys.drop_first()))
}

/// Some clause of `xs` is equivalent to `y`.
pub open spec fn matched_by(xs: Seq<ClauseView>, y: ClauseView) -> bool
    decreases xs, 0nat,
{
    xs.len() > 0 && (clause_equiv(xs[0], y) || matched_by(xs.drop_first(), y))
}

/// The quantified forms of the list relations behind `clause_equiv`.
pub proof fn lemma_equiv_lists(xs: Seq<ClauseView>, ys: Seq<ClauseView>)
    ensures
        every_has_match(xs, ys) == (forall|i: int|
            0 <= i < xs.len() ==> #[trigger] has_match(xs[i], ys)),
        every_matched(xs, ys) == (forall|j: int|
            0 <= j < ys.len() ==> #[trigger] matched_by(xs, ys[j])),
    decreases xs.len() + ys.len(),
{
    if xs.len() > 0 {
        lemma_equiv_lists(xs.drop_first(), ys);
        assert forall|i: int| 0 < i < xs.len() implies #[trigger] xs[i] == xs.drop_first()[i
            - 1] by {}
        if !every_has_match(xs, ys) && has_match(xs[0], ys) {
            let k = choose|k: int| 0 <= k < xs.len() - 1 && !has_match(xs.drop_first()[k], ys);
            assert(xs[k + 1] == xs.drop_first()[k]);
        }
    }
    if ys.len() > 0 {
        lemma_equiv_lists(xs, ys.drop_first());
        assert forall|j: int| 0 < j < ys.len() implies #[trigger] ys[j] == ys.drop_first()[j
            - 1] by {}
        if !every_matched(xs, ys) && matched_by(xs, ys[0]) {
            let k = choose|k: int| 0 <= k < ys.len() - 1 && !matched_by(xs, ys.drop_first()[k]);
            assert(ys[k + 1] == ys.drop_first()[k]);
        }
    }
}

/// The quantified forms of `has_match` and `matched_by`.
pub proof fn lemma_match_exists(x: ClauseView, xs: Seq<ClauseView>)
    ensures
        has_match(x, xs) == (exists|j: int| 0 <= j < xs.len() && #[trigger] clause_equiv(x, xs[j])),
        matched_by(xs, x) == (exists|j: int|
            0 <= j < xs.len() && #[trigger] clause_equiv(xs[j], x)),
    decreases xs.len(),
{
    if xs.len() > 0 {
        lemma_match_exists(x, xs.drop_first());
        assert forall|j: int| 0 < j < xs.len() implies #[trigger] xs[j] == xs.drop_first()[j
            - 1] by {}
        if has_match(x, xs) && !clause_equiv(x, xs[0]) {
            let k = choose|k: int|
                0 <= k < xs.len() - 1 && #[trigger] clause_equiv(x, xs.drop_first()[k]);
            assert(xs[k + 1] == xs.drop_first()[k]);
        }
        if matched_by(xs, x) && !clause_equiv(xs[0], x) {
            let k = choose|k: int|
                0 <= k < xs.len() - 1 && #[trigger] clause_equiv(xs.drop_first()[k], x);
            assert(xs[k + 1] == xs.drop_first()[k]);
        }
    }
}

/// `s` with every clause dropped that is equivalent to an earlier one.
pub open spec fn dedup_clauses(s: Seq<ClauseView>) -> Seq<ClauseView>
    decreases s.len(),
{
    if s.len() == 0 {
        Seq::empty()
    } else {
        let d = dedup_clauses(s.drop_last());
        if matched_by(d, s.last()) {
            d
        } else {
            d.push(s.last())
        }
    }
}

// ---------------------------------------------------------------------------
// Equivalent clauses accept the same versions
// ---------------------------------------------------------------------------

/// The target of a strict range lists its build identifiers (an empty list
/// when there are none), as the parsers build it.
pub open spec fn range_strict_build_listed(r: RangeView) -> bool {
    r.build_policy == BuildPolicy::Strict ==> r.target.build is Some
}

/// Every strict range of `c` lists the build identifiers of its target.
pub open spec fn build_listed(c: ClauseView) -> bool
    decreases c, 1nat,
{
    match c {
        ClauseView::Range(r) => range_strict_build_listed(r),
        ClauseView::AllOf(cs) => all_build_listed(cs),
        ClauseView::AnyOf(cs) => all_build_listed(cs),
        _ => true,
    }
}

/// `build_listed` of every clause of `cs`.
pub open spec fn all_build_listed(cs: Seq<ClauseView>) -> bool
    decreases cs, 0nat,
{
    cs.len() == 0 || (build_listed(cs[0]) && all_build_listed(cs.drop_first()))
}

/// The quantified form of `all_build_listed`.
pub proof fn lemma_all_build_listed(cs: Seq<ClauseView>)
    ensures
        all_build_listed(cs) == (forall|i: int|
            0 <= i < cs.len() ==> #[trigger] build_listed(cs[i])),
    decreases cs.len(),
{
    if cs.len() > 0 {
        lemma_all_build_listed(cs.drop_first());
        assert forall|i: int| 0 < i < cs.len() implies #[trigger] cs[i] == cs.drop_first()[i
            - 1] by {}
        if !all_build_listed(cs) && build_listed(cs[0]) {
            let k = choose|k: int|
                0 <= k < cs.len() - 1 && !build_listed(cs.drop_first()[k]);
            assert(cs[k + 1] == cs.drop_first()[k]);
        }
    }
}

/// Equivalent clauses accept the same versions, when their strict ranges
/// list the build identifiers of their targets.
pub proof fn lemma_equiv_same_matches(a: ClauseView, b: ClauseView, v: VersionView)
    requires
        clause_equiv(a, b),
        build_listed(a),
        build_listed(b),
    ensures
        clause_matches(a, v) == clause_matches(b, v),
    decreases a,
{
    match (a, b) {
        (ClauseView::Range(x), ClauseView::Range(y)) => {
            assert(precedence_key(x.target) == precedence_key(y.target));
            if x.build_policy == BuildPolicy::Strict {
                assert(x.target.build == y.target.build);
            }
        },
        (ClauseView::AllOf(xs), ClauseView::AllOf(ys)) => {
            lemma_list_matches(xs, v);
            lemma_list_matches(ys, v);
            lemma_equiv_lists(xs, ys);
            lemma_all_build_listed(xs);
            lemma_all_build_listed(ys);
            if all_clauses_match(xs, v) {
                assert forall|j: int| 0 <= j < ys.len() implies #[trigger] clause_matches(
                    ys[j],
                    v,
                ) by {
                    assert(matched_by(xs, ys[j]));
                    lemma_match_exists(ys[j], xs);
                    let i = choose|i: int| 0 <= i < xs.len() && #[trigger] clause_equiv(xs[i], ys[j]);
                    lemma_equiv_same_matches(xs[i], ys[j], v);
                }
            }
            if all_clauses_match(ys, v) {
                assert forall|i: int| 0 <= i < xs.len() implies #[trigger] clause_matches(
                    xs[i],
                    v,
                ) by {
                    assert(has_match(xs[i], ys));
                    lemma_match_exists(xs[i], ys);
                    let j = choose|j: int| 0 <= j < ys.len() && #[trigger] clause_equiv(xs[i], ys[j]);
                    lemma_equiv_same_matches(xs[i], ys[j], v);
                }
            }
        },
        (ClauseView::AnyOf(xs), ClauseView::AnyOf(ys)) => {
            lemma_list_matches(xs, v);
            lemma_list_matches(ys, v);
            lemma_equiv_lists(xs, ys);
            lemma_all_build_listed(xs);
            lemma_all_build_listed(ys);
            if any_clause_matches(xs, v) {
                let i = choose|i: int| 0 <= i < xs.len() && #[trigger] clause_matches(xs[i], v);
                assert(has_match(xs[i], ys));
                lemma_match_exists(xs[i], ys);
                let j = choose|j: int| 0 <= j < ys.len() && #[trigger] clause_equiv(xs[i], ys[j]);
                lemma_equiv_same_matches(xs[i], ys[j], v);
            }
            if any_clause_matches(ys, v) {
                let j = choose|j: int| 0 <= j < ys.len() && #[trigger] clause_matches(ys[j], v);
                assert(matched_by(xs, ys[j]));
                lemma_match_exists(ys[j], xs);
                let i = choose|i: int| 0 <= i < xs.len() && #[trigger] clause_equiv(xs[i], ys[j]);
                lemma_equiv_same_matches(xs[i], ys[j], v);
            }
        },
        _ => {},
    }
}

/// Every clause that `dedup_clauses` keeps comes from `s`.
pub proof fn lemma_dedup_from(s: Seq<ClauseView>)
    ensures
        forall|j: int|
            0 <= j < dedup_clauses(s).len() ==> s.contains(#[trigger] dedup_clauses(s)[j]),
    decreases s.len(),
{
    if s.len() > 0 {
        let p = s.drop_last();
        lemma_dedup_from(p);
        let d = dedup_clauses(p);
        assert forall|j: int| 0 <= j < dedup_clauses(s).len() implies s.contains(
            #[trigger] dedup_clauses(s)[j],
        ) by {
            if j < d.len() {
                assert(dedup_clauses(s)[j] == d[j]);
                let i = choose|i: int| 0 <= i < p.len() && p[i] == d[j];
                assert(s[i] == p[i]);
            } else {
                assert(dedup_clauses(s)[j] == s[s.len() - 1]);
            }
        }
    }
}

/// `some clause of cs.push(x) accepts v` is `some clause of cs does, or x does`.
pub proof fn lemma_any_push(cs: Seq<ClauseView>, x: ClauseView, v: VersionView)
    ensures
        any_clause_matches(cs.push(x), v) == (any_clause_matches(cs, v) || clause_matches(x, v)),
{
    lemma_list_matches(cs, v);
    lemma_list_matches(cs.push(x), v);
    if any_clause_matches(cs, v) {
        let i = choose|i: int| 0 <= i < cs.len() && #[trigger] clause_matches(cs[i], v);
        assert(cs.push(x)[i] == cs[i]);
    }
    if clause_matches(x, v) {
        assert(cs.push(x)[cs.len() as int] == x);
    }
    if any_clause_matches(cs.push(x), v) {
        let i = choose|i: int| 0 <= i < cs.len() + 1 && #[trigger] clause_matches(cs.push(x)[i], v);
        if i < cs.len() {
            assert(cs.push(x)[i] == cs[i]);
        }
    }
}

/// `some clause of a + b accepts v` is `some clause of a does, or some clause of b does`.
pub proof fn lemma_any_append(a: Seq<ClauseView>, b: Seq<ClauseView>, v: VersionView)
    ensures
        any_clause_matches(a + b, v) == (any_clause_matches(a, v) || any_clause_matches(b, v)),
{
    lemma_list_matches(a, v);
    lemma_list_matches(b, v);
    lemma_list_matches(a + b, v);
    if any_clause_matches(a, v) {
        let i = choose|i: int| 0 <= i < a.len() && #[trigger] clause_matches(a[i], v);
        assert((a + b)[i] == a[i]);
    }
    if any_clause_matches(b, v) {
        let j = choose|j: int| 0 <= j < b.len() && #[trigger] clause_matches(b[j], v);
        assert((a + b)[a.len() + j] == b[j]);
    }
    if any_clause_matches(a + b, v) {
        let k = choose|k: int| 0 <= k < (a + b).len() && #[trigger] clause_matches((a + b)[k], v);
        if k < a.len() {
            assert((a + b)[k] == a[k]);
        } else {
            assert((a + b)[k] == b[k - a.len()]);
        }
    }
}

/// Dropping the clauses equivalent to earlier ones keeps which versions
/// some clause of the list accepts.
pub proof fn lemma_dedup_any_matches(s: Seq<ClauseView>, v: VersionView)
    requires
        forall|i: int| 0 <= i < s.len() ==> #[trigger] build_listed(s[i]),
    ensures
        any_clause_matches(dedup_clauses(s), v) == any_clause_matches(s, v),
    decreases s.len(),
{
    if s.len() > 0 {
        let p = s.drop_last();
        let x = s.last();
        assert forall|i: int| 0 <= i < p.len() implies #[trigger] build_listed(p[i]) by {
            assert(p[i] == s[i]);
        }
        lemma_dedup_any_matches(p, v);
        let d = dedup_clauses(p);
        assert(p.push(x) =~= s);
        lemma_any_push(p, x, v);
        if matched_by(d, x) {
            if clause_matches(x, v) {
                lemma_match_exists(x, d);
                let j = choose|j: int| 0 <= j < d.len() && #[trigger] clause_equiv(d[j], x);
                lemma_dedup_from(p);
                assert(p.contains(d[j]));
                let i = choose|i: int| 0 <= i < p.len() && p[i] == d[j];
                assert(build_listed(s[s.len() - 1]));
                lemma_equiv_same_matches(d[j], x, v);
                lemma_list_matches(d, v);
            }
        } else {
            lemma_any_push(d, x, v);
        }
    }
}

/// Every clause of `cs` has its strict ranges list their build identifiers.
pub open spec fn each_build_listed(cs: Seq<ClauseView>) -> bool {
    forall|i: int| 0 <= i < cs.len() ==> #[trigger] build_listed(cs[i])
}

/// `each_build_listed` of two lists gives it of their concatenation.
pub proof fn lemma_each_listed_append(a: Seq<ClauseView>, b: Seq<ClauseView>)
    requires
        each_build_listed(a),
        each_build_listed(b),
    ensures
        each_build_listed(a + b),
{
    assert forall|i: int| 0 <= i < (a + b).len() implies #[trigger] build_listed((a + b)[i]) by {
        if i < a.len() {
            assert((a + b)[i] == a[i]);
        } else {
            assert((a + b)[i] == b[i - a.len()]);
        }
    }
}

/// `AllOf` and `AnyOf` of two clauses whose strict ranges list their builds.
pub proof fn lemma_pair_listed(a: ClauseView, b: ClauseView)
    requires
        build_listed(a),
        build_listed(b),
    ensures
        build_listed(ClauseView::AllOf(seq![a, b])),
        build_listed(ClauseView::AnyOf(seq![a, b])),
{
    lemma_all_build_listed(seq![a, b]);
}

/// `a & b` keeps the strict ranges of `a` and `b` listing their builds.
pub proof fn lemma_and_view_listed(a: ClauseView, b: ClauseView)
    requires
        build_listed(a),
        build_listed(b),
    ensures
        build_listed(and_view(a, b)),
{
    match (a, b) {
        (ClauseView::Never, _) => {},
        (_, ClauseView::Never) => {},
        (ClauseView::Always, _) => {},
        (_, ClauseView::Always) => {},
        (ClauseView::AllOf(x), ClauseView::AllOf(y)) => {
            lemma_all_build_listed(x);
            lemma_all_build_listed(y);
            lemma_each_listed_append(x, y);
            lemma_all_build_listed(x + y);
        },
        (ClauseView::AllOf(x), c) => {
            lemma_all_build_listed(x);
            lemma_all_build_listed(seq![c]);
            lemma_each_listed_append(x, seq![c]);
            assert(x.push(c) =~= x + seq![c]);
            lemma_all_build_listed(x.push(c));
        },
        (c, ClauseView::AllOf(x)) => {
            lemma_all_build_listed(x);
            lemma_all_build_listed(seq![c]);
            lemma_each_listed_append(x, seq![c]);
            assert(x.push(c) =~= x + seq![c]);
            lemma_all_build_listed(x.push(c));
        },
        (c1, c2) => {
            lemma_pair_listed(c1, c2);
        },
    }
}

/// `a | b` keeps the strict ranges of `a` and `b` listing their builds.
pub proof fn lemma_or_view_listed(a: ClauseView, b: ClauseView)
    requires
        build_listed(a),
        build_listed(b),
    ensures
        build_listed(or_view(a, b)),
{
    match (a, b) {
        (ClauseView::Always, _) => {},
        (_, ClauseView::Always) => {},
        (ClauseView::Never, _) => {},
        (_, ClauseView::Never) => {},
        (ClauseView::AnyOf(x), ClauseView::AnyOf(y)) => {
            lemma_all_build_listed(x);
            lemma_all_build_listed(y);
            lemma_each_listed_append(x, y);
            lemma_all_build_listed(x + y);
        },
        (ClauseView::AnyOf(x), c) => {
            lemma_all_build_listed(x);
            lemma_all_build_listed(seq![c]);
            lemma_each_listed_append(x, seq![c]);
            assert(x.push(c) =~= x + seq![c]);
            lemma_all_build_listed(x.push(c));
        },
        (c, ClauseView::AnyOf(x)) => {
            lemma_all_build_listed(x);
            lemma_all_build_listed(seq![c]);
            lemma_each_listed_append(x, seq![c]);
            assert(x.push(c) =~= x + seq![c]);
            lemma_all_build_listed(x.push(c));
        },
        (c1, c2) => {
            lemma_pair_listed(c1, c2);
        },
    }
}

/// `dedup_clauses` keeps the strict ranges listing their builds.
pub proof fn lemma_dedup_listed(s: Seq<ClauseView>)
    requires
        each_build_listed(s),
    ensures
        each_build_listed(dedup_clauses(s)),
{
    lemma_dedup_from(s);
    assert forall|j: int| 0 <= j < dedup_clauses(s).len() implies #[trigger] build_listed(
        dedup_clauses(s)[j],
    ) by {
        assert(s.contains(dedup_clauses(s)[j]));
    }
}

/// `every clause of cs.push(x) accepts v` is `every clause of cs does, and x does`.
pub proof fn lemma_all_push(cs: Seq<ClauseView>, x: ClauseView, v: VersionView)
    ensures
        all_clauses_match(cs.push(x), v) == (all_clauses_match(cs, v) && clause_matches(x, v)),
{
    lemma_list_matches(cs, v);
    lemma_list_matches(cs.push(x), v);
    if all_clauses_match(cs.push(x), v) {
        assert(cs.push(x)[cs.len() as int] == x);
        assert forall|i: int| 0 <= i < cs.len() implies #[trigger] clause_matches(cs[i], v) by {
            assert(cs.push(x)[i] == cs[i]);
        }
    }
    if all_clauses_match(cs, v) && clause_matches(x, v) {
        assert forall|i: int| 0 <= i < cs.len() + 1 implies #[trigger] clause_matches(
            cs.push(x)[i],
            v,
        ) by {
            if i < cs.len() {
                assert(cs.push(x)[i] == cs[i]);
            }
        }
    }
}

/// Dropping the clauses equivalent to earlier ones keeps which versions
/// every clause of the list accepts.
pub proof fn lemma_dedup_all_matches(s: Seq<ClauseView>, v: VersionView)
    requires
        each_build_listed(s),
    ensures
        all_clauses_match(dedup_clauses(s), v) == all_clauses_match(s, v),
    decreases s.len(),
{
    if s.len() > 0 {
        let p = s.drop_last();
        let x = s.last();
        assert forall|i: int| 0 <= i < p.len() implies #[trigger] build_listed(p[i]) by {
            assert(p[i] == s[i]);
        }
        lemma_dedup_all_matches(p, v);
        let d = dedup_clauses(p);
        assert(p.push(x) =~= s);
        lemma_all_push(p, x, v);
        if matched_by(d, x) {
            if all_clauses_match(p, v) {
                lemma_match_exists(x, d);
                let j = choose|j: int| 0 <= j < d.len() && #[trigger] clause_equiv(d[j], x);
                lemma_dedup_from(p);
                assert(p.contains(d[j]));
                let i = choose|i: int| 0 <= i < p.len() && p[i] == d[j];
                assert(build_listed(s[s.len() - 1]));
                lemma_list_matches(p, v);
                assert(clause_matches(p[i], v));
                lemma_equiv_same_matches(d[j], x, v);
            }
        } else {
            lemma_all_push(d, x, v);
        }
    }
}

/// The message for a range with build metadata and an ordering operator.
pub open spec fn msg_build_has_no_order(op: Operator, target: VersionView) -> Seq<char> {
    "Invalid range "@ + operator_text(op) + version_text(target) + ": build numbers have no ordering."@
}

/// What `Range::new` gives.
pub open spec fn spec_range_new(
    op: Operator,
    target: VersionView,
    prerelease_policy: PrereleasePolicy,
    build_policy: BuildPolicy,
) -> Result<RangeView, ErrorView> {
    let has_build = build_or_empty(target).len() > 0;
    if has_build && op != Operator::Eq && op != Operator::Neq {
        Err(ErrorView::InvalidSpec(msg_build_has_no_order(op, target)))
    } else {
        Ok(
            RangeView {
                operator: op,
                target,
                prerelease_policy,
                build_policy: if has_build {
                    BuildPolicy::Strict
                } else {
                    build_policy
                },
            },
        )
    }
}

pub open spec fn range_result_view(r: Result<Range, SemverError>) -> Result<RangeView, ErrorView> {
    match r {
        Ok(x) => Ok(x@),
        Err(e) => Err(e@),
    }
}

impl Range {
    /// A range `operator target`. A target with build metadata forces the
    /// strict build policy and is refused with an ordering operator.
    pub fn new(
        operator: Operator,
        target: Version,
        prerelease_policy: PrereleasePolicy,
        build_policy: BuildPolicy,
    ) -> (r: Result<Self, SemverError>)
        ensures
            range_result_view(r) == spec_range_new(
                operator,
                target@,
                prerelease_policy,
                build_policy,
            ),
    {
        let has_build = match &target.build {
            Some(b) => b.len() > 0,
            None => false,
        };
        if has_build && operator != Operator::Eq && operator != Operator::Neq {
            let mut m: Vec<char> = Vec::new();
            append_str(&mut m, "Invalid range ");
            append_str(&mut m, operator.text());
            let t = target.text();
            append_chars(&mut m, &t);
            append_str(&mut m, ": build numbers have no ordering.");
            return Err(SemverError::invalid_spec(m));
        }
        let effective = if has_build {
            BuildPolicy::Strict
        } else {
            build_policy
        };
        Ok(Range { operator, target, prerelease_policy, build_policy: effective })
    }

    /// A copy of this range.
    pub fn duplicate(&self) -> (r: Self)
        ensures
            r@ == self@,
    {
        Range {
            operator: self.operator,
            target: self.target.duplicate(),
            prerelease_policy: self.prerelease_policy,
            build_policy: self.build_policy,
        }
    }

    /// Whether `version` satisfies this range.
    pub fn matches(&self, version: &Version) -> (r: bool)
        ensures
            r == range_matches(self@, version@),
    {
        let check = if self.build_policy != BuildPolicy::Strict {
            version.truncate_to_prerelease()
        } else {
            version.duplicate()
        };
        let version_pre = match &check.prerelease {
            Some(p) => p.len() > 0,
            None => false,
        };
        let target_patch = self.target.truncate_to_patch();
        let check_patch = check.truncate_to_patch();
        let same_patch = target_patch.equals(&check_patch);
        if version_pre && self.prerelease_policy == PrereleasePolicy::SamePatch && !same_patch {
            return false;
        }
        let target_pre = match &self.target.prerelease {
            Some(p) => p.len() > 0,
            None => false,
        };
        let natural_excluded = version_pre && self.prerelease_policy == PrereleasePolicy::Natural
            && same_patch && !target_pre;
        match self.operator {
            Operator::Eq => {
                if self.build_policy == BuildPolicy::Strict {
                    self.strict_equal(&check)
                } else {
                    check.equals(&self.target)
                }
            },
            Operator::Gt => check.precedence_gt(&self.target),
            Operator::Gte => check.precedence_ge(&self.target),
            Operator::Lt => !natural_excluded && check.precedence_lt(&self.target),
            Operator::Lte => check.precedence_le(&self.target),
            Operator::Neq => {
                if self.build_policy == BuildPolicy::Strict {
                    !self.strict_equal(&check)
                } else {
                    !natural_excluded && !check.equals(&self.target)
                }
            },
        }
    }

    /// Equal up to build metadata, and with the very same build metadata.
    fn strict_equal(&self, check: &Version) -> (r: bool)
        ensures
            r == (version_eq(
                spec_truncate_to_prerelease(self.target@),
                spec_truncate_to_prerelease(check@),
            ) && check@.build == self.target@.build),
    {
        let a = self.target.truncate_to_prerelease();
        let b = check.truncate_to_prerelease();
        if !a.equals(&b) {
            return false;
        }
        match (&check.build, &self.target.build) {
            (Some(x), Some(y)) => crate::identifiers::build_list_equal(x, y),
            (None, None) => true,
            _ => false,
        }
    }

    /// The text of this range, e.g. `>=1.2.3`.
    pub fn text(&self) -> (r: Vec<char>)
        ensures
            r@ == operator_text(self.operator) + version_text(self.target@),
    {
        let mut m: Vec<char> = Vec::new();
        append_str(&mut m, self.operator.text());
        let t = self.target.text();
        append_chars(&mut m, &t);
        m
    }
}


// ---------------------------------------------------------------------------
// Combining and simplifying clauses
// ---------------------------------------------------------------------------

/// `a & b`: `Never` absorbs, `Always` is neutral, `AllOf` lists are extended.
pub open spec fn and_view(a: ClauseView, b: ClauseView) -> ClauseView {
    match (a, b) {
        (ClauseView::Never, _) => ClauseView::Never,
        (_, ClauseView::Never) => ClauseView::Never,
        (ClauseView::Always, c) => c,
        (c, ClauseView::Always) => c,
        (ClauseView::AllOf(x), ClauseView::AllOf(y)) => ClauseView::AllOf(x + y),
        (ClauseView::AllOf(x), c) => ClauseView::AllOf(x.push(c)),
        (c, ClauseView::AllOf(x)) => ClauseView::AllOf(x.push(c)),
        (c1, c2) => ClauseView::AllOf(seq![c1, c2]),
    }
}

/// `a | b`: `Always` absorbs, `Never` is neutral, `AnyOf` lists are extended.
pub open spec fn or_view(a: ClauseView, b: ClauseView) -> ClauseView {
    match (a, b) {
        (ClauseView::Always, _) => ClauseView::Always,
        (_, ClauseView::Always) => ClauseView::Always,
        (ClauseView::Never, c) => c,
        (c, ClauseView::Never) => c,
        (ClauseView::AnyOf(x), ClauseView::AnyOf(y)) => ClauseView::AnyOf(x + y),
        (ClauseView::AnyOf(x), c) => ClauseView::AnyOf(x.push(c)),
        (c, ClauseView::AnyOf(x)) => ClauseView::AnyOf(x.push(c)),
        (c1, c2) => ClauseView::AnyOf(seq![c1, c2]),
    }
}

/// What a simplified child contributes to the list of an `AllOf`.
pub open spec fn all_part(sc: ClauseView) -> Seq<ClauseView> {
    match sc {
        ClauseView::Always => Seq::empty(),
        ClauseView::AllOf(sub) => sub,
        _ => seq![sc],
    }
}

/// What a simplified child contributes to the list of an `AnyOf`.
pub open spec fn any_part(sc: ClauseView) -> Seq<ClauseView> {
    match sc {
        ClauseView::Never => Seq::empty(),
        ClauseView::AnyOf(sub) => sub,
        _ => seq![sc],
    }
}

/// The simplified children of an `AllOf`, flattened; `None` when one is `Never`.
pub open spec fn collect_all(cs: Seq<ClauseView>) -> Option<Seq<ClauseView>>
    decreases cs,
{
    if cs.len() == 0 {
        Some(Seq::empty())
    } else {
        let sc = simplify_view(cs[0]);
        if sc is Never {
            None
        } else {
            match collect_all(cs.drop_first()) {
                None => None,
                Some(rest) => Some(all_part(sc) + rest),
            }
        }
    }
}

/// The simplified children of an `AnyOf`, flattened; `None` when one is `Always`.
pub open spec fn collect_any(cs: Seq<ClauseView>) -> Option<Seq<ClauseView>>
    decreases cs,
{
    if cs.len() == 0 {
        Some(Seq::empty())
    } else {
        let sc = simplify_view(cs[0]);
        if sc is Always {
            None
        } else {
            match collect_any(cs.drop_first()) {
                None => None,
                Some(rest) => Some(any_part(sc) + rest),
            }
        }
    }
}

/// A clause with `Always`/`Never` children resolved, nested lists of the same
/// kind flattened, and single-element lists replaced by their element.
pub open spec fn simplify_view(c: ClauseView) -> ClauseView
    decreases c,
{
    match c {
        ClauseView::AllOf(cs) => match collect_all(cs) {
            None => ClauseView::Never,
            Some(l) => if l.len() == 0 {
                ClauseView::Always
            } else if l.len() == 1 {
                l[0]
            } else {
                ClauseView::AllOf(l)
            },
        },
        ClauseView::AnyOf(cs) => match collect_any(cs) {
            None => ClauseView::Always,
            Some(l) => if l.len() == 0 {
                ClauseView::Never
            } else if l.len() == 1 {
                l[0]
            } else {
                ClauseView::AnyOf(l)
            },
        },
        _ => c,
    }
}

pub open spec fn combine(acc: Seq<ClauseView>, r: Option<Seq<ClauseView>>) -> Option<Seq<ClauseView>> {
    match r {
        None => None,
        Some(rest) => Some(acc + rest),
    }
}

proof fn lemma_collect_all_append(a: Seq<ClauseView>, b: Seq<ClauseView>)
    ensures
        collect_all(a + b) == (match collect_all(a) {
            None => None,
            Some(x) => combine(x, collect_all(b)),
        }),
    decreases a.len(),
{
    if a.len() == 0 {
        assert(a + b =~= b);
        match collect_all(b) {
            None => {},
            Some(y) => {
                assert(Seq::<ClauseView>::empty() + y =~= y);
            },
        }
    } else {
        assert((a + b)[0] == a[0]);
        assert((a + b).drop_first() =~= a.drop_first() + b);
        lemma_collect_all_append(a.drop_first(), b);
        let sc = simplify_view(a[0]);
        if !(sc is Never) {
            match collect_all(a.drop_first()) {
                None => {},
                Some(x) => {
                    match collect_all(b) {
                        None => {},
                        Some(y) => {
                            assert(all_part(sc) + (x + y) =~= (all_part(sc) + x) + y);
                        },
                    }
                },
            }
        }
    }
}

proof fn lemma_collect_any_append(a: Seq<ClauseView>, b: Seq<ClauseView>)
    ensures
        collect_any(a + b) == (match collect_any(a) {
            None => None,
            Some(x) => combine(x, collect_any(b)),
        }),
    decreases a.len(),
{
    if a.len() == 0 {
        assert(a + b =~= b);
        match collect_any(b) {
            None => {},
            Some(y) => {
                assert(Seq::<ClauseView>::empty() + y =~= y);
            },
        }
    } else {
        assert((a + b)[0] == a[0]);
        assert((a + b).drop_first() =~= a.drop_first() + b);
        lemma_collect_any_append(a.drop_first(), b);
        let sc = simplify_view(a[0]);
        if !(sc is Always) {
            match collect_any(a.drop_first()) {
                None => {},
                Some(x) => {
                    match collect_any(b) {
                        None => {},
                        Some(y) => {
                            assert(any_part(sc) + (x + y) =~= (any_part(sc) + x) + y);
                        },
                    }
                },
            }
        }
    }
}

proof fn lemma_collect_single(c: ClauseView)
    ensures
        collect_all(seq![c]) == (if simplify_view(c) is Never {
            None
        } else {
            Some(all_part(simplify_view(c)))
        }),
        collect_any(seq![c]) == (if simplify_view(c) is Always {
            None
        } else {
            Some(any_part(simplify_view(c)))
        }),
{
    let e = seq![c].drop_first();
    assert(e =~= Seq::<ClauseView>::empty());
    assert(seq![c][0] == c);
    assert(collect_all(e) == Some(Seq::<ClauseView>::empty()));
    assert(collect_any(e) == Some(Seq::<ClauseView>::empty()));
    assert(all_part(simplify_view(c)) + Seq::<ClauseView>::empty() =~= all_part(simplify_view(c)));
    assert(any_part(simplify_view(c)) + Seq::<ClauseView>::empty() =~= any_part(simplify_view(c)));
}

// ---------------------------------------------------------------------------
// Text of a clause
// ---------------------------------------------------------------------------

/// The text of a clause: `*`, `NEVER`, a range as `op version`, the children
/// of `AllOf` joined by `,`, those of `AnyOf` each after `||`.
pub open spec fn clause_text(c: ClauseView) -> Seq<char>
    decreases c, 0nat,
{
    match c {
        ClauseView::Always => "*"@,
        ClauseView::Never => "NEVER"@,
        ClauseView::Range(r) => operator_text(r.operator) + version_text(r.target),
        ClauseView::AllOf(cs) => comma_text(cs),
        ClauseView::AnyOf(cs) => if cs.len() == 0 {
            "||"@
        } else {
            bars_text(cs)
        },
    }
}

/// The texts of `cs` joined by `,`.
pub open spec fn comma_text(cs: Seq<ClauseView>) -> Seq<char>
    decreases cs, 1nat,
{
    if cs.len() == 0 {
        Seq::empty()
    } else if cs.len() == 1 {
        clause_text(cs[0])
    } else {
        comma_text(cs.drop_last()) + ","@ + clause_text(cs.last())
    }
}

/// The texts of `cs`, each after `||`.
pub open spec fn bars_text(cs: Seq<ClauseView>) -> Seq<char>
    decreases cs, 1nat,
{
    if cs.len() == 0 {
        Seq::empty()
    } else {
        bars_text(cs.drop_last()) + "||"@ + clause_text(cs.last())
    }
}

impl Clone for Clause {
    fn clone(&self) -> Self {
        self.duplicate()
    }
}

impl Clause {
    /// A copy of this clause.
    pub fn duplicate(&self) -> (r: Self)
        ensures
            r@ == self@,
        decreases self,
    {
        match self {
            Clause::Always => Clause::Always,
            Clause::Never => Clause::Never,
            Clause::Range(r) => Clause::Range(r.duplicate()),
            Clause::AllOf(v) => Clause::AllOf(Self::duplicate_list(v)),
            Clause::AnyOf(v) => Clause::AnyOf(Self::duplicate_list(v)),
        }
    }

    fn duplicate_list(v: &Vec<Clause>) -> (r: Vec<Clause>)
        ensures
            clauses_view(r@) == clauses_view(v@),
        decreases v,
    {
        let mut out: Vec<Clause> = Vec::new();
        let mut i: usize = 0;
        proof {
            lemma_clauses_view(v@);
        }
        while i < v.len()
            invariant
                i <= v.len(),
                clauses_view(out@) == clauses_view(v@.take(i as int)),
                clauses_view(v@).len() == v@.len(),
                forall|j: int| 0 <= j < v@.len() ==> #[trigger] clauses_view(v@)[j] == v@[j]@,
            decreases v.len() - i,
        {
            proof {
                assert(decreases_to!(v => v@[i as int]));
            }
            let d = v[i].duplicate();
            proof {
                lemma_clauses_view_push(out@, d);
                lemma_clauses_view_push(v@.take(i as int), v@[i as int]);
                assert(v@.take(i + 1) =~= v@.take(i as int).push(v@[i as int]));
            }
            out.push(d);
            i = i + 1;
        }
        assert(v@.take(v.len() as int) =~= v@);
        out
    }

    /// Whether `version` satisfies this clause.
    pub fn matches(&self, version: &Version) -> (r: bool)
        ensures
            r == clause_matches(self@, version@),
        decreases self,
    {
        match self {
            Clause::Always => true,
            Clause::Never => false,
            Clause::Range(r) => r.matches(version),
            Clause::AllOf(cs) => Self::all_match(cs, version),
            Clause::AnyOf(cs) => Self::any_match(cs, version),
        }
    }

    fn all_match(cs: &Vec<Clause>, version: &Version) -> (r: bool)
        ensures
            r == all_clauses_match(clauses_view(cs@), version@),
        decreases cs,
    {
        proof {
            lemma_clauses_view(cs@);
            lemma_list_matches(clauses_view(cs@), version@);
        }
        let ghost cv = clauses_view(cs@);
        let mut i: usize = 0;
        while i < cs.len()
            invariant
                i <= cs.len(),
                cv == clauses_view(cs@),
                cv.len() == cs@.len(),
                forall|j: int| 0 <= j < cs@.len() ==> #[trigger] cv[j] == cs@[j]@,
                forall|j: int| 0 <= j < i ==> #[trigger] clause_matches(cv[j], version@),
            decreases cs.len() - i,
        {
            proof {
                assert(decreases_to!(cs => cs@[i as int]));
            }
            if !cs[i].matches(version) {
                proof {
                    lemma_list_matches(cv, version@);
                }
                assert(!clause_matches(cv[i as int], version@));
                return false;
            }
            i = i + 1;
        }
        true
    }

    fn any_match(cs: &Vec<Clause>, version: &Version) -> (r: bool)
        ensures
            r == any_clause_matches(clauses_view(cs@), version@),
        decreases cs,
    {
        proof {
            lemma_clauses_view(cs@);
            lemma_list_matches(clauses_view(cs@), version@);
        }
        let ghost cv = clauses_view(cs@);
        let mut i: usize = 0;
        while i < cs.len()
            invariant
                i <= cs.len(),
                cv == clauses_view(cs@),
                cv.len() == cs@.len(),
                forall|j: int| 0 <= j < cs@.len() ==> #[trigger] cv[j] == cs@[j]@,
                forall|j: int| 0 <= j < i ==> !#[trigger] clause_matches(cv[j], version@),
            decreases cs.len() - i,
        {
            proof {
                assert(decreases_to!(cs => cs@[i as int]));
            }
            if cs[i].matches(version) {
                proof {
                    lemma_list_matches(cv, version@);
                }
                assert(clause_matches(cv[i as int], version@));
                return true;
            }
            i = i + 1;
        }
        false
    }

    /// Whether the two clauses are equivalent (see `clause_equiv`).
    pub fn equivalent(&self, other: &Clause) -> (r: bool)
        ensures
            r == clause_equiv(self@, other@),
        decreases self,
    {
        match (self, other) {
            (Clause::Always, Clause::Always) => true,
            (Clause::Never, Clause::Never) => true,
            (Clause::Range(x), Clause::Range(y)) => {
                x.operator == y.operator && x.target.equals(&y.target) && x.prerelease_policy
                    == y.prerelease_policy && x.build_policy == y.build_policy
            },
            (Clause::AllOf(xs), Clause::AllOf(ys)) => Self::lists_equivalent(xs, ys),
            (Clause::AnyOf(xs), Clause::AnyOf(ys)) => Self::lists_equivalent(xs, ys),
            _ => false,
        }
    }

    fn lists_equivalent(xs: &Vec<Clause>, ys: &Vec<Clause>) -> (r: bool)
        ensures
            r == (every_has_match(clauses_view(xs@), clauses_view(ys@)) && every_matched(
                clauses_view(xs@),
                clauses_view(ys@),
            )),
        decreases xs,
    {
        proof {
            lemma_clauses_view(xs@);
            lemma_clauses_view(ys@);
            lemma_equiv_lists(clauses_view(xs@), clauses_view(ys@));
        }
        let ghost xv = clauses_view(xs@);
        let ghost yv = clauses_view(ys@);
        let mut i: usize = 0;
        while i < xs.len()
            invariant
                i <= xs.len(),
                xv == clauses_view(xs@),
                yv == clauses_view(ys@),
                xv.len() == xs@.len(),
                yv.len() == ys@.len(),
                forall|k: int| 0 <= k < xs@.len() ==> #[trigger] xv[k] == xs@[k]@,
                forall|k: int| 0 <= k < ys@.len() ==> #[trigger] yv[k] == ys@[k]@,
                forall|k: int| 0 <= k < i ==> #[trigger] has_match(xv[k], yv),
            decreases xs.len() - i,
        {
            proof {
                assert(decreases_to!(xs => xs@[i as int]));
                lemma_match_exists(xv[i as int], yv);
            }
            let mut found = false;
            let mut j: usize = 0;
            while j < ys.len()
                invariant
                    i < xs.len(),
                    j <= ys.len(),
                    xv == clauses_view(xs@),
                    yv == clauses_view(ys@),
                    xv.len() == xs@.len(),
                    yv.len() == ys@.len(),
                    forall|k: int| 0 <= k < xs@.len() ==> #[trigger] xv[k] == xs@[k]@,
                    forall|k: int| 0 <= k < ys@.len() ==> #[trigger] yv[k] == ys@[k]@,
                    found == (exists|k: int| 0 <= k < j && #[trigger] clause_equiv(xv[i as int], yv[k])),
                    decreases_to!(xs => xs@[i as int]),
                decreases ys.len() - j,
            {
                let e = xs[i].equivalent(&ys[j]);
                assert(e == clause_equiv(xv[i as int], yv[j as int]));
                if e {
                    found = true;
                }
                j = j + 1;
            }
            if !found {
                proof {
                    lemma_equiv_lists(xv, yv);
                }
                assert(!has_match(xv[i as int], yv));
                return false;
            }
            i = i + 1;
        }
        let mut j: usize = 0;
        while j < ys.len()
            invariant
                j <= ys.len(),
                xv == clauses_view(xs@),
                yv == clauses_view(ys@),
                xv.len() == xs@.len(),
                yv.len() == ys@.len(),
                forall|k: int| 0 <= k < xs@.len() ==> #[trigger] xv[k] == xs@[k]@,
                forall|k: int| 0 <= k < ys@.len() ==> #[trigger] yv[k] == ys@[k]@,
                forall|k: int| 0 <= k < xs@.len() ==> #[trigger] has_match(xv[k], yv),
                forall|k: int| 0 <= k < j ==> #[trigger] matched_by(xv, yv[k]),
            decreases ys.len() - j,
        {
            proof {
                lemma_match_exists(yv[j as int], xv);
            }
            let mut found = false;
            let mut i2: usize = 0;
            while i2 < xs.len()
                invariant
                    j < ys.len(),
                    i2 <= xs.len(),
                    xv == clauses_view(xs@),
                    yv == clauses_view(ys@),
                    xv.len() == xs@.len(),
                    yv.len() == ys@.len(),
                    forall|k: int| 0 <= k < xs@.len() ==> #[trigger] xv[k] == xs@[k]@,
                    forall|k: int| 0 <= k < ys@.len() ==> #[trigger] yv[k] == ys@[k]@,
                    found == (exists|k: int| 0 <= k < i2 && #[trigger] clause_equiv(xv[k], yv[j as int])),
                decreases xs.len() - i2,
            {
                proof {
                    assert(decreases_to!(xs => xs@[i2 as int]));
                }
                let e = xs[i2].equivalent(&ys[j]);
                assert(e == clause_equiv(xv[i2 as int], yv[j as int]));
                if e {
                    found = true;
                }
                i2 = i2 + 1;
            }
            if !found {
                proof {
                    lemma_equiv_lists(xv, yv);
                }
                assert(!matched_by(xv, yv[j as int]));
                return false;
            }
            j = j + 1;
        }
        proof {
            lemma_equiv_lists(xv, yv);
        }
        true
    }

    /// `v` without the clauses equivalent to an earlier one (see `dedup_clauses`).
    pub fn dedup_list(v: Vec<Clause>) -> (r: Vec<Clause>)
        ensures
            clauses_view(r@) == dedup_clauses(clauses_view(v@)),
    {
        proof {
            lemma_clauses_view(v@);
        }
        let ghost vv = clauses_view(v@);
        let mut out: Vec<Clause> = Vec::new();
        let mut i: usize = 0;
        assert(vv.take(0) =~= Seq::<ClauseView>::empty());
        while i < v.len()
            invariant
                i <= v.len(),
                vv == clauses_view(v@),
                vv.len() == v@.len(),
                forall|k: int| 0 <= k < v@.len() ==> #[trigger] vv[k] == v@[k]@,
                clauses_view(out@) == dedup_clauses(vv.take(i as int)),
            decreases v.len() - i,
        {
            let ghost ov = clauses_view(out@);
            proof {
                lemma_clauses_view(out@);
                lemma_match_exists(vv[i as int], ov);
            }
            let mut found = false;
            let mut k: usize = 0;
            while k < out.len()
                invariant
                    i < v.len(),
                    k <= out.len(),
                    vv == clauses_view(v@),
                    vv.len() == v@.len(),
                    forall|m: int| 0 <= m < v@.len() ==> #[trigger] vv[m] == v@[m]@,
                    ov == clauses_view(out@),
                    ov.len() == out@.len(),
                    forall|m: int| 0 <= m < out@.len() ==> #[trigger] ov[m] == out@[m]@,
                    found == (exists|m: int| 0 <= m < k && #[trigger] clause_equiv(ov[m], vv[i as int])),
                decreases out.len() - k,
            {
                let e = out[k].equivalent(&v[i]);
                assert(e == clause_equiv(ov[k as int], vv[i as int]));
                if e {
                    found = true;
                }
                k = k + 1;
            }
            proof {
                let t = vv.take(i + 1);
                assert(t.drop_last() =~= vv.take(i as int));
                assert(t.last() == vv[i as int]);
                lemma_match_exists(vv[i as int], ov);
            }
            if !found {
                let c = v[i].duplicate();
                proof {
                    lemma_clauses_view_push(out@, c);
                }
                out.push(c);
            }
            i = i + 1;
        }
        assert(vv.take(v.len() as int) =~= vv);
        out
    }

    /// The text of this clause (see `clause_text`).
    pub fn text(&self) -> (r: Vec<char>)
        ensures
            r@ == clause_text(self@),
        decreases self,
    {
        proof {
            reveal_strlit("*");
            reveal_strlit("NEVER");
            reveal_strlit("||");
            reveal_strlit(",");
        }
        match self {
            Clause::Always => chars_of("*"),
            Clause::Never => chars_of("NEVER"),
            Clause::Range(r) => r.text(),
            Clause::AllOf(cs) => Self::comma_text_of(cs),
            Clause::AnyOf(cs) => {
                if cs.len() == 0 {
                    chars_of("||")
                } else {
                    Self::bars_text_of(cs)
                }
            },
        }
    }

    fn comma_text_of(cs: &Vec<Clause>) -> (r: Vec<char>)
        ensures
            r@ == comma_text(clauses_view(cs@)),
        decreases cs,
    {
        proof {
            lemma_clauses_view(cs@);
            reveal_strlit(",");
        }
        let ghost cv = clauses_view(cs@);
        let mut out: Vec<char> = Vec::new();
        let mut i: usize = 0;
        assert(cv.take(0) =~= Seq::<ClauseView>::empty());
        while i < cs.len()
            invariant
                i <= cs.len(),
                cv == clauses_view(cs@),
                cv.len() == cs@.len(),
                forall|j: int| 0 <= j < cs@.len() ==> #[trigger] cv[j] == cs@[j]@,
                out@ == comma_text(cv.take(i as int)),
            decreases cs.len() - i,
        {
            proof {
                assert(decreases_to!(cs => cs@[i as int]));
                assert(cv.take(i + 1).drop_last() =~= cv.take(i as int));
                assert(cv.take(i + 1).last() == cv[i as int]);
            }
            let t = cs[i].text();
            if i > 0 {
                proof {
                    reveal_strlit(",");
                }
                out.push(',');
                assert(out@ =~= comma_text(cv.take(i as int)) + ","@);
            } else {
                assert(cv.take(1)[0] == cv[0]);
            }
            append_chars(&mut out, &t);
            i = i + 1;
        }
        assert(cv.take(cs.len() as int) =~= cv);
        out
    }

    fn bars_text_of(cs: &Vec<Clause>) -> (r: Vec<char>)
        ensures
            r@ == bars_text(clauses_view(cs@)),
        decreases cs,
    {
        proof {
            lemma_clauses_view(cs@);
            reveal_strlit("||");
        }
        let ghost cv = clauses_view(cs@);
        let mut out: Vec<char> = Vec::new();
        let mut i: usize = 0;
        assert(cv.take(0) =~= Seq::<ClauseView>::empty());
        while i < cs.len()
            invariant
                i <= cs.len(),
                cv == clauses_view(cs@),
                cv.len() == cs@.len(),
                forall|j: int| 0 <= j < cs@.len() ==> #[trigger] cv[j] == cs@[j]@,
                out@ == bars_text(cv.take(i as int)),
            decreases cs.len() - i,
        {
            proof {
                assert(decreases_to!(cs => cs@[i as int]));
                assert(cv.take(i + 1).drop_last() =~= cv.take(i as int));
                assert(cv.take(i + 1).last() == cv[i as int]);
            }
            let t = cs[i].text();
            proof {
                reveal_strlit("||");
            }
            out.push('|');
            out.push('|');
            assert(out@ =~= bars_text(cv.take(i as int)) + "||"@);
            append_chars(&mut out, &t);
            i = i + 1;
        }
        assert(cv.take(cs.len() as int) =~= cv);
        out
    }

    /// This clause simplified (see `simplify_view`).
    pub fn simplify(self) -> (r: Clause)
        ensures
            r@ == simplify_view(self@),
    {
        self.simplify_ref()
    }

    fn simplify_ref(&self) -> (r: Clause)
        ensures
            r@ == simplify_view(self@),
        decreases self,
    {
        match self {
            Clause::AllOf(cs) => Self::simplify_all(cs),
            Clause::AnyOf(cs) => Self::simplify_any(cs),
            Clause::Always => Clause::Always,
            Clause::Never => Clause::Never,
            Clause::Range(r) => Clause::Range(r.duplicate()),
        }
    }

    fn simplify_all(cs: &Vec<Clause>) -> (r: Clause)
        ensures
            r@ == simplify_view(ClauseView::AllOf(clauses_view(cs@))),
        decreases cs,
    {
        proof {
            lemma_clauses_view(cs@);
        }
        let ghost cv = clauses_view(cs@);
        let mut list: Vec<Clause> = Vec::new();
        let mut i: usize = 0;
        while i < cs.len()
            invariant
                i <= cs.len(),
                cv == clauses_view(cs@),
                cv.len() == cs@.len(),
                forall|j: int| 0 <= j < cs@.len() ==> #[trigger] cv[j] == cs@[j]@,
                collect_all(cv.take(i as int)) == Some(clauses_view(list@)),
            decreases cs.len() - i,
        {
            proof {
                assert(decreases_to!(cs => cs@[i as int]));
                assert(cv.take(i + 1) =~= cv.take(i as int) + seq![cv[i as int]]);
                lemma_collect_all_append(cv.take(i as int), seq![cv[i as int]]);
                lemma_collect_single(cv[i as int]);
            }
            let sc = cs[i].simplify_ref();
            match sc {
                Clause::Always => {
                    assert(clauses_view(list@) + Seq::<ClauseView>::empty() =~= clauses_view(list@));
                },
                Clause::Never => {
                    proof {
                        assert(cv =~= cv.take(i + 1) + cv.skip(i + 1));
                        lemma_collect_all_append(cv.take(i + 1), cv.skip(i + 1));
                    }
                    return Clause::Never;
                },
                Clause::AllOf(sub) => {
                    let mut sub = sub;
                    proof {
                        lemma_clauses_view_add(list@, sub@);
                    }
                    list.append(&mut sub);
                },
                other => {
                    proof {
                        lemma_clauses_view_push(list@, other);
                    }
                    list.push(other);
                },
            }
            i = i + 1;
        }
        assert(cv.take(cs.len() as int) =~= cv);
        proof {
            lemma_clauses_view(list@);
        }
        if list.len() == 0 {
            Clause::Always
        } else if list.len() == 1 {
            list.pop().unwrap()
        } else {
            Clause::AllOf(list)
        }
    }

    fn simplify_any(cs: &Vec<Clause>) -> (r: Clause)
        ensures
            r@ == simplify_view(ClauseView::AnyOf(clauses_view(cs@))),
        decreases cs,
    {
        proof {
            lemma_clauses_view(cs@);
        }
        let ghost cv = clauses_view(cs@);
        let mut list: Vec<Clause> = Vec::new();
        let mut i: usize = 0;
        while i < cs.len()
            invariant
                i <= cs.len(),
                cv == clauses_view(cs@),
                cv.len() == cs@.len(),
                forall|j: int| 0 <= j < cs@.len() ==> #[trigger] cv[j] == cs@[j]@,
                collect_any(cv.take(i as int)) == Some(clauses_view(list@)),
            decreases cs.len() - i,
        {
            proof {
                assert(decreases_to!(cs => cs@[i as int]));
                assert(cv.take(i + 1) =~= cv.take(i as int) + seq![cv[i as int]]);
                lemma_collect_any_append(cv.take(i as int), seq![cv[i as int]]);
                lemma_collect_single(cv[i as int]);
            }
            let sc = cs[i].simplify_ref();
            match sc {
                Clause::Never => {
                    assert(clauses_view(list@) + Seq::<ClauseView>::empty() =~= clauses_view(list@));
                },
                Clause::Always => {
                    proof {
                        assert(cv =~= cv.take(i + 1) + cv.skip(i + 1));
                        lemma_collect_any_append(cv.take(i + 1), cv.skip(i + 1));
                    }
                    return Clause::Always;
                },
                Clause::AnyOf(sub) => {
                    let mut sub = sub;
                    proof {
                        lemma_clauses_view_add(list@, sub@);
                    }
                    list.append(&mut sub);
                },
                other => {
                    proof {
                        lemma_clauses_view_push(list@, other);
                    }
                    list.push(other);
                },
            }
            i = i + 1;
        }
        assert(cv.take(cs.len() as int) =~= cv);
        proof {
            lemma_clauses_view(list@);
        }
        if list.len() == 0 {
            Clause::Never
        } else if list.len() == 1 {
            list.pop().unwrap()
        } else {
            Clause::AnyOf(list)
        }
    }

    /// `self & rhs` (see `and_view`).
    pub fn and(self, rhs: Clause) -> (r: Clause)
        ensures
            r@ == and_view(self@, rhs@),
    {
        match (self, rhs) {
            (Clause::Never, _) => Clause::Never,
            (_, Clause::Never) => Clause::Never,
            (Clause::Always, c) => c,
            (c, Clause::Always) => c,
            (Clause::AllOf(mut a), Clause::AllOf(b)) => {
                let ghost av = a@;
                let ghost bv = b@;
                let mut b = b;
                a.append(&mut b);
                proof {
                    lemma_clauses_view_add(av, bv);
                }
                Clause::AllOf(a)
            },
            (Clause::AllOf(mut a), c) => {
                proof {
                    lemma_clauses_view_push(a@, c);
                }
                a.push(c);
                Clause::AllOf(a)
            },
            (c, Clause::AllOf(mut a)) => {
                proof {
                    lemma_clauses_view_push(a@, c);
                }
                a.push(c);
                Clause::AllOf(a)
            },
            (c1, c2) => {
                let mut v: Vec<Clause> = Vec::new();
                proof {
                    lemma_clauses_view_push(v@, c1);
                }
                v.push(c1);
                proof {
                    lemma_clauses_view_push(v@, c2);
                    assert(clauses_view(v@.push(c2)) =~= seq![c1@, c2@]);
                }
                v.push(c2);
                Clause::AllOf(v)
            },
        }
    }

    /// `self | rhs` (see `or_view`).
    pub fn or(self, rhs: Clause) -> (r: Clause)
        ensures
            r@ == or_view(self@, rhs@),
    {
        match (self, rhs) {
            (Clause::Always, _) => Clause::Always,
            (_, Clause::Always) => Clause::Always,
            (Clause::Never, c) => c,
            (c, Clause::Never) => c,
            (Clause::AnyOf(mut a), Clause::AnyOf(b)) => {
                let ghost av = a@;
                let ghost bv = b@;
                let mut b = b;
                a.append(&mut b);
                proof {
                    lemma_clauses_view_add(av, bv);
                }
                Clause::AnyOf(a)
            },
            (Clause::AnyOf(mut a), c) => {
                proof {
                    lemma_clauses_view_push(a@, c);
                }
                a.push(c);
                Clause::AnyOf(a)
            },
            (c, Clause::AnyOf(mut a)) => {
                proof {
                    lemma_clauses_view_push(a@, c);
                }
                a.push(c);
                Clause::AnyOf(a)
            },
            (c1, c2) => {
                let mut v: Vec<Clause> = Vec::new();
                proof {
                    lemma_clauses_view_push(v@, c1);
                }
                v.push(c1);
                proof {
                    lemma_clauses_view_push(v@, c2);
                    assert(clauses_view(v@.push(c2)) =~= seq![c1@, c2@]);
                }
                v.push(c2);
                Clause::AnyOf(v)
            },
        }
    }
}

/// `&` on clauses is `Clause::and`; its contract stands on the impl's `bitand`.
/// This spec-level side is not used: `obeys_bitand_spec` is `false`, so
/// `bitand_spec` is a placeholder that no proof reads (a spec function cannot
/// build the `Clause` whose view is `and_view`).
impl vstd::std_specs::ops::BitAndSpecImpl for Clause {
    open spec fn obeys_bitand_spec() -> bool {
        false
    }

    open spec fn bitand_req(self, rhs: Clause) -> bool {
        true
    }

    open spec fn bitand_spec(self, rhs: Clause) -> Clause {
        self
    }
}

/// `|` on clauses is `Clause::or`; its contract stands on the impl's `bitor`.
/// This spec-level side is not used: `obeys_bitor_spec` is `false`, so
/// `bitor_spec` is a placeholder that no proof reads (a spec function cannot
/// build the `Clause` whose view is `or_view`).
impl vstd::std_specs::ops::BitOrSpecImpl for Clause {
    open spec fn obeys_bitor_spec() -> bool {
        false
    }

    open spec fn bitor_req(self, rhs: Clause) -> bool {
        true
    }

    open spec fn bitor_spec(self, rhs: Clause) -> Clause {
        self
    }
}

impl core::ops::BitAnd for Clause {
    type Output = Clause;

    fn bitand(self, rhs: Clause) -> (r: Clause)
        ensures
            r@ == and_view(self@, rhs@),
    {
        self.and(rhs)
    }
}

impl core::ops::BitOr for Clause {
    type Output = Clause;

    fn bitor(self, rhs: Clause) -> (r: Clause)
        ensures
            r@ == or_view(self@, rhs@),
    {
        self.or(rhs)
    }
}
} // verus!
