//! npm's range syntax.
//!
//! ```text
//! expression = group ('||' group)*             (any group may hold)
//! group      = version ' - ' version           (hyphen range)
//!            | block (white space block)*      (all blocks must hold)
//! block      = 'v'? op? part ('.' part ('.' part)?)? ('-' PRE)? ('+' BUILD)?
//! op         = '<' | '<=' | '>' | '>=' | '=' | '^' | '~'
//! part       = digits | 'x' | 'X' | '*'
//! ```
//!
//! A bare wildcard (`*`, `x`, `X` as the major part) takes only no operator,
//! `=` or `>=`; with `^` or `~` (or any other operator) it is refused.
//!
//! Every range uses the "same patch" prerelease policy: a prerelease only
//! matches a bound on its own release. A bound with a prerelease opens a
//! second branch: the bound itself fenced below the next patch release,
//! beside the bound on its release.
//!
//! A group gives `AllOf` its ranges (duplicates dropped); a group with a
//! prerelease bound gives two such `AllOf`, the prerelease branch first.
//! One `AllOf` in all is the clause; several are joined by `AnyOf`.

use vstd::prelude::*;

use crate::clause::{
    all_part, clauses_view, dedup_clauses, each_build_listed, lemma_all_build_listed,
    lemma_dedup_listed, lemma_each_listed_append, lemma_pair_listed, lemma_clauses_view,
    lemma_clauses_view_add, range_strict_build_listed, spec_range_new, build_listed, BuildPolicy,
    Clause, ClauseView, Operator, PrereleasePolicy, Range, RangeView,
};
use crate::error::{debug_rendering, quoted, ErrorView, SemverError};
use crate::identifiers::{
    build_views, parse_build_identifiers, parse_prerelease_identifiers, pre_error_message,
    pre_views, spec_build, spec_prerelease, BuildIdent, BuildIdentView, PreIdentView,
    PreReleaseIdent,
};
use crate::simple_spec::{
    and_fold, clause_result_view, lemma_and_fold_listed, range_clause, range_clause_exec,
    unwrap_or_zero_exec,
};
use crate::text::{
    all_digits, chars_of, digit_run, digit_run_at, digits_value, index_of_seq, lemma_digit_run, nonspace_run,
    parse_u64, split_on_seq, split_seq, split_words, string_of, sub_chars, texts_view,
    trim, trim_chars, words, find_seq,
};
use crate::version::{
    opt_chars, release, saturating_inc, saturating_inc_exec, spec_next_major, spec_next_minor,
    spec_next_patch, spec_truncate_to_patch, unwrap_or_zero, version_tail, version_tail_exec, Version,
    VersionView,
};

verus! {

/// The operator that opens an npm block.
#[derive(Debug, Clone, Copy, PartialEq, Eq, Structural)]
pub enum NpmOp {
    /// No operator (an exact match).
    Empty,
    /// `=`
    Eq,
    /// `<`
    Lt,
    /// `<=`
    Lte,
    /// `>`
    Gt,
    /// `>=`
    Gte,
    /// `^`
    Caret,
    /// `~`
    Tilde,
}

/// The pieces of an npm block, as written.
pub struct NpmPieces {
    pub op: NpmOp,
    pub major: Seq<char>,
    pub minor: Option<Seq<char>>,
    pub patch: Option<Seq<char>>,
    pub prerelease: Option<Seq<char>>,
    pub build: Option<Seq<char>>,
}

/// The operator at the start of `b` and its length.
pub open spec fn npm_op(b: Seq<char>) -> (NpmOp, int) {
    if b.len() >= 2 && b[0] == '<' && b[1] == '=' {
        (NpmOp::Lte, 2)
    } else if b.len() >= 2 && b[0] == '>' && b[1] == '=' {
        (NpmOp::Gte, 2)
    } else if b.len() >= 1 && b[0] == '<' {
        (NpmOp::Lt, 1)
    } else if b.len() >= 1 && b[0] == '>' {
        (NpmOp::Gt, 1)
    } else if b.len() >= 1 && b[0] == '=' {
        (NpmOp::Eq, 1)
    } else if b.len() >= 1 && b[0] == '^' {
        (NpmOp::Caret, 1)
    } else if b.len() >= 1 && b[0] == '~' {
        (NpmOp::Tilde, 1)
    } else {
        (NpmOp::Empty, 0)
    }
}

pub open spec fn is_wildcard_char(c: char) -> bool {
    c == 'x' || c == 'X' || c == '*'
}

/// A version part at the start of `r` (digits, or one of `x`, `X`, `*`) and what follows.
pub open spec fn npm_component(r: Seq<char>) -> Option<(Seq<char>, Seq<char>)> {
    if r.len() > 0 && is_wildcard_char(r[0]) {
        Some((r.take(1), r.skip(1)))
    } else if digit_run(r) > 0 {
        Some((r.take(digit_run(r) as int), r.skip(digit_run(r) as int)))
    } else {
        None
    }
}

/// An optional `.part` at the start of `r`: `None` when a `.` is not
/// followed by a part.
pub open spec fn npm_dotted(r: Seq<char>) -> Option<(Option<Seq<char>>, Seq<char>)> {
    if r.len() > 0 && r[0] == '.' {
        match npm_component(r.drop_first()) {
            Some((c, rest)) => Some((Some(c), rest)),
            None => None,
        }
    } else {
        Some((None, r))
    }
}

/// Splits an npm block into its pieces; `None` when it is not a block.
pub open spec fn npm_pieces(b: Seq<char>) -> Option<NpmPieces> {
    let b1 = if b.len() > 0 && b[0] == 'v' {
        b.drop_first()
    } else {
        b
    };
    let (op, n) = npm_op(b1);
    match npm_component(b1.skip(n)) {
        None => None,
        Some((major, r1)) => match npm_dotted(r1) {
            None => None,
            Some((minor, r2)) => {
                let step = if minor is Some {
                    npm_dotted(r2)
                } else {
                    Some((None, r2))
                };
                match step {
                    None => None,
                    Some((patch, r3)) => match version_tail(r3, true) {
                        None => None,
                        Some((prerelease, build)) => Some(
                            NpmPieces { op, major, minor, patch, prerelease, build },
                        ),
                    },
                }
            },
        },
    }
}

/// The number a part stands for; `None` for a wildcard, and for a number
/// too big for a `u64`.
pub open spec fn component_value(c: Seq<char>) -> Option<u64> {
    if c.len() == 1 && is_wildcard_char(c[0]) {
        None
    } else if digits_value(c) <= u64::MAX {
        Some(digits_value(c) as u64)
    } else {
        None
    }
}

pub open spec fn opt_component(o: Option<Seq<char>>) -> Option<u64> {
    match o {
        Some(c) => component_value(c),
        None => None,
    }
}

/// The full version `major.minor.patch-pre+build`.
pub open spec fn full_version(
    major: u64,
    minor: u64,
    patch: u64,
    pre: Seq<PreIdentView>,
    build: Seq<BuildIdentView>,
) -> VersionView {
    VersionView {
        major,
        minor: Some(minor),
        patch: Some(patch),
        prerelease: Some(pre),
        build: Some(build),
        partial: false,
    }
}

/// The prerelease identifiers of an optional prerelease text, or the message of its error.
pub open spec fn npm_prerelease(o: Option<Seq<char>>) -> Result<Seq<PreIdentView>, Seq<char>> {
    match o {
        None => Ok(Seq::empty()),
        Some(p) => match spec_prerelease(p) {
            Ok(ids) => Ok(ids),
            Err(e) => Err(pre_error_message(p, e)),
        },
    }
}

/// The build identifiers of an optional build text, or the message of its error.
pub open spec fn npm_build(o: Option<Seq<char>>) -> Result<Seq<BuildIdentView>, Seq<char>> {
    match o {
        None => Ok(Seq::empty()),
        Some(b) => match spec_build(b) {
            Some(ids) => Ok(ids),
            None => Err("Empty identifier in build "@ + debug_rendering(b)),
        },
    }
}

pub open spec fn has_pre(v: VersionView) -> bool {
    match v.prerelease {
        Some(p) => p.len() > 0,
        None => false,
    }
}

/// A range with the npm policies.
pub open spec fn npm_range(op: Operator, target: VersionView) -> Result<ClauseView, ErrorView> {
    range_clause(op, target, PrereleasePolicy::SamePatch, BuildPolicy::Implicit)
}

/// `AllOf([<upper, >=lower])` with the npm policies.
pub open spec fn npm_bounded(lower: VersionView, upper: VersionView) -> Result<ClauseView, ErrorView> {
    match spec_range_new(Operator::Lt, upper, PrereleasePolicy::SamePatch, BuildPolicy::Implicit) {
        Err(e) => Err(e),
        Ok(u) => match spec_range_new(
            Operator::Gte,
            lower,
            PrereleasePolicy::SamePatch,
            BuildPolicy::Implicit,
        ) {
            Err(e) => Err(e),
            Ok(l) => Ok(ClauseView::AllOf(seq![ClauseView::Range(u), ClauseView::Range(l)])),
        },
    }
}

/// The release after the patch of `target`: the fence of its prereleases.
pub open spec fn fence_version(target: VersionView) -> VersionView {
    release(
        target.major,
        unwrap_or_zero(target.minor),
        saturating_inc(unwrap_or_zero(target.patch)),
    )
}

/// A bound `op target` with a prerelease target: `AnyOf([AllOf([fence,
/// op target]), op release-of-target])`.
pub open spec fn prerelease_branches(op: Operator, target: VersionView) -> Result<ClauseView, ErrorView> {
    match spec_range_new(
        Operator::Lt,
        fence_version(target),
        PrereleasePolicy::Always,
        BuildPolicy::Implicit,
    ) {
        Err(e) => Err(e),
        Ok(fence) => match spec_range_new(
            op,
            target,
            PrereleasePolicy::SamePatch,
            BuildPolicy::Implicit,
        ) {
            Err(e) => Err(e),
            Ok(pre) => match spec_range_new(
                op,
                spec_truncate_to_patch(target),
                PrereleasePolicy::SamePatch,
                BuildPolicy::Implicit,
            ) {
                Err(e) => Err(e),
                Ok(non) => Ok(
                    ClauseView::AnyOf(
                        seq![
                            ClauseView::AllOf(seq![ClauseView::Range(fence), ClauseView::Range(pre)]),
                            ClauseView::Range(non),
                        ],
                    ),
                ),
            },
        },
    }
}

/// A pair of bounds whose lower one has a prerelease target:
/// `AnyOf([AllOf([fence, lower]), AllOf([upper, >=release-of-target])])`.
pub open spec fn pair_branches(lower: RangeView, upper: RangeView, target: VersionView) -> Result<ClauseView, ErrorView> {
    match spec_range_new(
        Operator::Lt,
        fence_version(target),
        PrereleasePolicy::Always,
        BuildPolicy::Implicit,
    ) {
        Err(e) => Err(e),
        Ok(fence) => match spec_range_new(
            Operator::Gte,
            spec_truncate_to_patch(target),
            PrereleasePolicy::SamePatch,
            BuildPolicy::Implicit,
        ) {
            Err(e) => Err(e),
            Ok(non_lower) => Ok(
                ClauseView::AnyOf(
                    seq![
                        ClauseView::AllOf(seq![ClauseView::Range(fence), ClauseView::Range(lower)]),
                        ClauseView::AllOf(
                            seq![ClauseView::Range(upper), ClauseView::Range(non_lower)],
                        ),
                    ],
                ),
            ),
        },
    }
}

/// `lower` and `upper` as a pair: fenced branches when `target` has a
/// prerelease, else `AllOf([upper, lower])`.
pub open spec fn lower_upper(target: VersionView, upper_target: VersionView) -> Result<ClauseView, ErrorView> {
    match spec_range_new(
        Operator::Gte,
        target,
        PrereleasePolicy::SamePatch,
        BuildPolicy::Implicit,
    ) {
        Err(e) => Err(e),
        Ok(lower) => match spec_range_new(
            Operator::Lt,
            upper_target,
            PrereleasePolicy::SamePatch,
            BuildPolicy::Implicit,
        ) {
            Err(e) => Err(e),
            Ok(upper) => if has_pre(target) {
                pair_branches(lower, upper, target)
            } else {
                Ok(ClauseView::AllOf(seq![ClauseView::Range(upper), ClauseView::Range(lower)]))
            },
        },
    }
}

/// The upper bound of `^`, from the release of the target: the next release
/// that changes the leftmost non-zero (or wildcard) part.
pub open spec fn npm_caret_upper(target: VersionView, minor_none: bool, patch_none: bool) -> VersionView {
    let t = spec_truncate_to_patch(target);
    if target.major > 0 {
        spec_next_major(t)
    } else if unwrap_or_zero(target.minor) > 0 {
        spec_next_minor(t)
    } else if minor_none {
        spec_next_major(t)
    } else if patch_none {
        spec_next_minor(t)
    } else {
        spec_next_patch(t)
    }
}

/// The upper bound of `~`: the next major release when the minor part is
/// missing, else the next minor release.
pub open spec fn npm_tilde_upper(target: VersionView, minor_none: bool) -> VersionView {
    if minor_none {
        spec_next_major(target)
    } else {
        spec_next_minor(target)
    }
}

/// The comparison operator of a plain operator.
pub open spec fn cmp_of(op: NpmOp) -> Operator {
    match op {
        NpmOp::Lt => Operator::Lt,
        NpmOp::Lte => Operator::Lte,
        NpmOp::Gt => Operator::Gt,
        NpmOp::Gte => Operator::Gte,
        _ => Operator::Eq,
    }
}

/// A bound on a version with a wildcard part: `low` is the version with the
/// wildcards as zeros, `next` the release after the wildcard range.
pub open spec fn wildcard_bound(op: Operator, low: VersionView, next: VersionView, target: VersionView) -> Result<ClauseView, ErrorView> {
    match op {
        Operator::Eq => npm_bounded(low, next),
        Operator::Gt => npm_range(Operator::Gte, next),
        Operator::Lte => npm_range(Operator::Lt, next),
        Operator::Gte => npm_range(Operator::Gte, target),
        _ => npm_range(Operator::Lt, target),
    }
}

pub open spec fn with_flag(r: Result<ClauseView, ErrorView>, flag: bool) -> Result<(ClauseView, bool), ErrorView> {
    match r {
        Ok(c) => Ok((c, flag)),
        Err(e) => Err(e),
    }
}

pub open spec fn msg_npm_block(b: Seq<char>) -> Seq<char> {
    "Invalid npm block "@ + quoted(b)
}

pub open spec fn msg_npm_spec(b: Seq<char>) -> Seq<char> {
    "Invalid NPM spec: "@ + quoted(b)
}

pub open spec fn msg_npm_expression(b: Seq<char>) -> Seq<char> {
    "Invalid expression "@ + quoted(b)
}

pub open spec fn msg_npm_version(b: Seq<char>) -> Seq<char> {
    "Invalid npm version "@ + quoted(b)
}

/// What one block stands for, and whether its target has a prerelease.
pub open spec fn spec_npm_block(block: Seq<char>) -> Result<(ClauseView, bool), ErrorView> {
    match npm_pieces(block) {
        None => Err(ErrorView::InvalidSpec(msg_npm_block(block))),
        Some(p) => {
            let major = component_value(p.major);
            let minor = opt_component(p.minor);
            let patch = opt_component(p.patch);
            if (major is None || minor is None || patch is None) && (p.prerelease is Some
                || p.build is Some) {
                Err(ErrorView::InvalidSpec(msg_npm_spec(block)))
            } else {
                let kept_build = if p.op == NpmOp::Eq {
                    p.build
                } else {
                    None
                };
                match npm_prerelease(p.prerelease) {
                    Err(m) => Err(ErrorView::InvalidSpec(m)),
                    Ok(pre) => match npm_build(kept_build) {
                        Err(m) => Err(ErrorView::InvalidSpec(m)),
                        Ok(bld) => {
                            let target = full_version(
                                unwrap_or_zero(major),
                                unwrap_or_zero(minor),
                                unwrap_or_zero(patch),
                                pre,
                                bld,
                            );
                            let flag = pre.len() > 0;
                            let op = cmp_of(p.op);
                            let mj = unwrap_or_zero(major);
                            let mn = unwrap_or_zero(minor);
                            if major is None && (p.op == NpmOp::Caret || p.op == NpmOp::Tilde) {
                                Err(ErrorView::InvalidSpec(msg_npm_expression(block)))
                            } else if p.op == NpmOp::Caret {
                                with_flag(
                                    lower_upper(
                                        target,
                                        npm_caret_upper(target, minor is None, patch is None),
                                    ),
                                    flag,
                                )
                            } else if p.op == NpmOp::Tilde {
                                with_flag(
                                    lower_upper(target, npm_tilde_upper(target, minor is None)),
                                    flag,
                                )
                            } else if major is None {
                                if op != Operator::Eq && op != Operator::Gte {
                                    Err(ErrorView::InvalidSpec(msg_npm_expression(block)))
                                } else {
                                    with_flag(npm_range(Operator::Gte, release(0, 0, 0)), flag)
                                }
                            } else if minor is None {
                                with_flag(
                                    wildcard_bound(
                                        op,
                                        release(mj, 0, 0),
                                        release(saturating_inc(mj), 0, 0),
                                        target,
                                    ),
                                    flag,
                                )
                            } else if patch is None {
                                with_flag(
                                    wildcard_bound(
                                        op,
                                        release(mj, mn, 0),
                                        release(mj, saturating_inc(mn), 0),
                                        target,
                                    ),
                                    flag,
                                )
                            } else if flag {
                                with_flag(prerelease_branches(op, target), flag)
                            } else {
                                with_flag(npm_range(op, target), flag)
                            }
                        },
                    },
                }
            }
        },
    }
}

/// The pieces a version of a hyphen range: major, minor, patch, prerelease.
pub open spec fn npm_basic(s: Seq<char>) -> Result<(u64, Option<u64>, Option<u64>, Option<Seq<PreIdentView>>), ErrorView> {
    match npm_pieces(s) {
        None => Err(ErrorView::InvalidSpec(msg_npm_version(s))),
        Some(p) => match component_value(p.major) {
            None => Err(ErrorView::InvalidSpec("Invalid major"@)),
            Some(major) => match p.prerelease {
                None => Ok((major, opt_component(p.minor), opt_component(p.patch), None)),
                Some(pr) => match spec_prerelease(pr) {
                    Err(e) => Err(ErrorView::InvalidSpec(pre_error_message(pr, e))),
                    Ok(ids) => Ok((major, opt_component(p.minor), opt_component(p.patch), Some(ids))),
                },
            },
        },
    }
}

pub open spec fn pre_or_none(o: Option<Seq<PreIdentView>>) -> Seq<PreIdentView> {
    match o {
        Some(p) => p,
        None => Seq::empty(),
    }
}

/// What the hyphen range `left - right` stands for.
pub open spec fn spec_npm_hyphen(left: Seq<char>, right: Seq<char>) -> Result<ClauseView, ErrorView> {
    match npm_basic(left) {
        Err(e) => Err(e),
        Ok((lm, lmi, lp, lpre)) => {
            let lv = full_version(lm, unwrap_or_zero(lmi), unwrap_or_zero(lp), pre_or_none(lpre), Seq::empty());
            match spec_range_new(Operator::Gte, lv, PrereleasePolicy::SamePatch, BuildPolicy::Implicit) {
                Err(e) => Err(e),
                Ok(lower) => match npm_basic(right) {
                    Err(e) => Err(e),
                    Ok((rm, rmi, rp, rpre)) => {
                        let (uop, ut) = if rmi is None {
                            (Operator::Lt, release(saturating_inc(rm), 0, 0))
                        } else if rp is None {
                            (Operator::Lt, release(rm, saturating_inc(unwrap_or_zero(rmi)), 0))
                        } else {
                            (
                                Operator::Lte,
                                full_version(rm, unwrap_or_zero(rmi), unwrap_or_zero(rp), pre_or_none(rpre), Seq::empty()),
                            )
                        };
                        match spec_range_new(uop, ut, PrereleasePolicy::SamePatch, BuildPolicy::Implicit) {
                            Err(e) => Err(e),
                            Ok(upper) => if lpre is Some {
                                pair_branches(lower, upper, lv)
                            } else {
                                Ok(ClauseView::AllOf(seq![ClauseView::Range(upper), ClauseView::Range(lower)]))
                            },
                        }
                    },
                },
            }
        },
    }
}

/// The results of the blocks, in order, or the error of the first block that fails.
pub open spec fn npm_blocks(blocks: Seq<Seq<char>>) -> Result<Seq<(ClauseView, bool)>, ErrorView>
    decreases blocks.len(),
{
    if blocks.len() == 0 {
        Ok(Seq::empty())
    } else {
        match npm_blocks(blocks.drop_last()) {
            Err(e) => Err(e),
            Ok(rs) => match spec_npm_block(blocks.last()) {
                Err(e) => Err(e),
                Ok(r) => Ok(rs.push(r)),
            },
        }
    }
}

/// What a block contributes to the prerelease branch of its group: the
/// children of its first branch when it has a prerelease target.
pub open spec fn pre_items(r: (ClauseView, bool)) -> Seq<ClauseView> {
    if r.1 {
        match r.0 {
            ClauseView::AnyOf(bs) => if bs.len() > 0 {
                match bs[0] {
                    ClauseView::AllOf(ps) => ps,
                    _ => Seq::empty(),
                }
            } else {
                Seq::empty()
            },
            _ => Seq::empty(),
        }
    } else {
        Seq::empty()
    }
}

/// What a block contributes to the other branch of its group: its second
/// branch when it has a prerelease target, else its clause.
pub open spec fn non_items(r: (ClauseView, bool)) -> Seq<ClauseView> {
    if r.1 {
        match r.0 {
            ClauseView::AnyOf(bs) => if bs.len() > 1 {
                seq![bs[1]]
            } else {
                Seq::empty()
            },
            _ => Seq::empty(),
        }
    } else {
        seq![r.0]
    }
}

pub open spec fn all_pre_items(rs: Seq<(ClauseView, bool)>) -> Seq<ClauseView>
    decreases rs.len(),
{
    if rs.len() == 0 {
        Seq::empty()
    } else {
        all_pre_items(rs.drop_last()) + pre_items(rs.last())
    }
}

pub open spec fn all_non_items(rs: Seq<(ClauseView, bool)>) -> Seq<ClauseView>
    decreases rs.len(),
{
    if rs.len() == 0 {
        Seq::empty()
    } else {
        all_non_items(rs.drop_last()) + non_items(rs.last())
    }
}

pub open spec fn any_flag(rs: Seq<(ClauseView, bool)>) -> bool {
    exists|i: int| 0 <= i < rs.len() && #[trigger] rs[i].1
}

/// The `AllOf` of the items `&`-ed together, duplicates dropped.
pub open spec fn branch_of(items: Seq<ClauseView>) -> ClauseView {
    ClauseView::AllOf(dedup_clauses(all_part(and_fold(items))))
}

/// What the blocks of a group give: one `AllOf`, or two when a block has a
/// prerelease target.
pub open spec fn group_of_blocks(rs: Seq<(ClauseView, bool)>) -> Seq<ClauseView> {
    if any_flag(rs) {
        seq![branch_of(all_pre_items(rs)), branch_of(all_non_items(rs))]
    } else {
        seq![branch_of(all_non_items(rs))]
    }
}

/// The branches of a hyphen range's clause.
pub open spec fn hyphen_parts(c: ClauseView) -> Seq<ClauseView> {
    match c {
        ClauseView::AnyOf(bs) => bs,
        _ => seq![c],
    }
}

/// The range an empty group stands for: any version.
pub open spec fn any_npm_range() -> RangeView {
    RangeView {
        operator: Operator::Gte,
        target: release(0, 0, 0),
        prerelease_policy: PrereleasePolicy::SamePatch,
        build_policy: BuildPolicy::Implicit,
    }
}

pub open spec fn any_npm_clause() -> ClauseView {
    ClauseView::AllOf(seq![ClauseView::Range(any_npm_range())])
}

/// What one (trimmed) group gives.
pub open spec fn spec_npm_group(g: Seq<char>) -> Result<Seq<ClauseView>, ErrorView> {
    let k = index_of_seq(g, " - "@);
    if g.len() == 0 {
        Ok(seq![any_npm_clause()])
    } else if k + 3 <= g.len() {
        match spec_npm_hyphen(trim(g.take(k as int)), trim(g.skip((k + 3) as int))) {
            Err(e) => Err(e),
            Ok(c) => Ok(hyphen_parts(c)),
        }
    } else {
        match npm_blocks(words(g)) {
            Err(e) => Err(e),
            Ok(rs) => Ok(group_of_blocks(rs)),
        }
    }
}

/// What the groups give, in order, or the error of the first group that fails.
pub open spec fn npm_groups(gs: Seq<Seq<char>>) -> Result<Seq<ClauseView>, ErrorView>
    decreases gs.len(),
{
    if gs.len() == 0 {
        Ok(Seq::empty())
    } else {
        match npm_groups(gs.drop_last()) {
            Err(e) => Err(e),
            Ok(cs) => match spec_npm_group(trim(gs.last())) {
                Err(e) => Err(e),
                Ok(c) => Ok(cs + c),
            },
        }
    }
}

/// What parsing `s` as an npm range gives.
pub open spec fn spec_npm_parse(s: Seq<char>) -> Result<ClauseView, ErrorView> {
    let t = trim(s);
    if t.len() == 0 || t == "*"@ {
        Ok(any_npm_clause())
    } else {
        match npm_groups(split_seq(t, "||"@)) {
            Err(e) => Err(e),
            Ok(l) => if l.len() == 1 {
                Ok(l[0])
            } else {
                Ok(ClauseView::AnyOf(dedup_clauses(l)))
            },
        }
    }
}

// ---------------------------------------------------------------------------
// Executable parser
// ---------------------------------------------------------------------------

/// The pieces of an npm block, as characters.
pub(crate) struct NpmParts {
    pub(crate) op: NpmOp,
    pub(crate) major: Vec<char>,
    pub(crate) minor: Option<Vec<char>>,
    pub(crate) patch: Option<Vec<char>>,
    pub(crate) prerelease: Option<Vec<char>>,
    pub(crate) build: Option<Vec<char>>,
}

pub(crate) open spec fn parts_view(p: NpmParts) -> NpmPieces {
    NpmPieces {
        op: p.op,
        major: p.major@,
        minor: opt_chars(p.minor),
        patch: opt_chars(p.patch),
        prerelease: opt_chars(p.prerelease),
        build: opt_chars(p.build),
    }
}

/// A version part: one wildcard character, or ASCII digits.
pub open spec fn part_ok(c: Seq<char>) -> bool {
    (c.len() == 1 && is_wildcard_char(c[0])) || (c.len() > 0 && all_digits(c))
}

pub open spec fn opt_part_ok(o: Option<Seq<char>>) -> bool {
    match o {
        Some(c) => part_ok(c),
        None => true,
    }
}

fn npm_op_exec(b: &Vec<char>) -> (r: (NpmOp, usize))
    ensures
        (r.0, r.1 as int) == npm_op(b@),
        r.1 <= b.len(),
{
    let n = b.len();
    if n >= 2 && b[0] == '<' && b[1] == '=' {
        (NpmOp::Lte, 2)
    } else if n >= 2 && b[0] == '>' && b[1] == '=' {
        (NpmOp::Gte, 2)
    } else if n >= 1 && b[0] == '<' {
        (NpmOp::Lt, 1)
    } else if n >= 1 && b[0] == '>' {
        (NpmOp::Gt, 1)
    } else if n >= 1 && b[0] == '=' {
        (NpmOp::Eq, 1)
    } else if n >= 1 && b[0] == '^' {
        (NpmOp::Caret, 1)
    } else if n >= 1 && b[0] == '~' {
        (NpmOp::Tilde, 1)
    } else {
        (NpmOp::Empty, 0)
    }
}

fn npm_component_exec(r: &Vec<char>) -> (res: Option<(Vec<char>, Vec<char>)>)
    ensures
        match npm_component(r@) {
            Some((c, rest)) => res matches Some((cv, rv)) && cv@ == c && rv@ == rest && part_ok(c),
            None => res is None,
        },
{
    if r.len() > 0 && (r[0] == 'x' || r[0] == 'X' || r[0] == '*') {
        let c = sub_chars(r, 0, 1);
        let rest = sub_chars(r, 1, r.len());
        assert(c@ =~= r@.take(1));
        assert(rest@ =~= r@.skip(1));
        Some((c, rest))
    } else {
        let n = digit_run_at(r, 0);
        assert(r@.skip(0) =~= r@);
        if n > 0 {
            proof {
                lemma_digit_run(r@);
            }
            let c = sub_chars(r, 0, n);
            let rest = sub_chars(r, n, r.len());
            assert(c@ =~= r@.take(n as int));
            assert(rest@ =~= r@.skip(n as int));
            Some((c, rest))
        } else {
            None
        }
    }
}

fn npm_dotted_exec(r: Vec<char>) -> (res: Option<(Option<Vec<char>>, Vec<char>)>)
    ensures
        match npm_dotted(r@) {
            Some((c, rest)) => res matches Some((cv, rv)) && opt_chars(cv) == c && rv@ == rest
                && opt_part_ok(c),
            None => res is None,
        },
{
    if r.len() > 0 && r[0] == '.' {
        let t = sub_chars(&r, 1, r.len());
        assert(t@ =~= r@.drop_first());
        match npm_component_exec(&t) {
            Some((c, rest)) => Some((Some(c), rest)),
            None => None,
        }
    } else {
        Some((None, r))
    }
}

fn npm_pieces_exec(b: &Vec<char>) -> (res: Option<NpmParts>)
    ensures
        match npm_pieces(b@) {
            Some(p) => res matches Some(q) && parts_view(q) == p && part_ok(p.major) && opt_part_ok(
                p.minor,
            ) && opt_part_ok(p.patch),
            None => res is None,
        },
{
    let b1 = if b.len() > 0 && b[0] == 'v' {
        sub_chars(b, 1, b.len())
    } else {
        sub_chars(b, 0, b.len())
    };
    assert(b1@ =~= (if b@.len() > 0 && b@[0] == 'v' {
        b@.drop_first()
    } else {
        b@
    }));
    let (op, n) = npm_op_exec(&b1);
    let r0 = sub_chars(&b1, n, b1.len());
    assert(r0@ =~= b1@.skip(n as int));
    let (major, r1) = match npm_component_exec(&r0) {
        Some(x) => x,
        None => {
            return None;
        },
    };
    let (minor, r2) = match npm_dotted_exec(r1) {
        Some(x) => x,
        None => {
            return None;
        },
    };
    let (patch, r3) = if minor.is_some() {
        match npm_dotted_exec(r2) {
            Some(x) => x,
            None => {
                return None;
            },
        }
    } else {
        (None, r2)
    };
    match version_tail_exec(&r3, true) {
        Some((pre, build)) => Some(NpmParts { op, major, minor, patch, prerelease: pre, build }),
        None => None,
    }
}

fn component_value_exec(c: &Vec<char>) -> (r: Option<u64>)
    requires
        part_ok(c@),
    ensures
        r == component_value(c@),
{
    if c.len() == 1 && (c[0] == 'x' || c[0] == 'X' || c[0] == '*') {
        None
    } else {
        parse_u64(c)
    }
}

fn opt_component_exec(o: &Option<Vec<char>>) -> (r: Option<u64>)
    requires
        opt_part_ok(opt_chars(*o)),
    ensures
        r == opt_component(opt_chars(*o)),
{
    match o {
        Some(c) => component_value_exec(c),
        None => None,
    }
}

fn npm_prerelease_exec(o: &Option<Vec<char>>) -> (r: Result<Vec<PreReleaseIdent>, String>)
    ensures
        match npm_prerelease(opt_chars(*o)) {
            Ok(ids) => r matches Ok(v) && pre_views(v@) == ids,
            Err(m) => r matches Err(e) && e@ == m,
        },
{
    match o {
        None => Ok(crate::version::no_pre()),
        Some(p) => {
            let text = string_of(p);
            parse_prerelease_identifiers(text.as_str())
        },
    }
}

fn npm_build_exec(o: &Option<Vec<char>>) -> (r: Result<Vec<BuildIdent>, String>)
    ensures
        match npm_build(opt_chars(*o)) {
            Ok(ids) => r matches Ok(v) && build_views(v@) == ids,
            Err(m) => r matches Err(e) && e@ == m,
        },
{
    match o {
        None => Ok(crate::version::no_build()),
        Some(b) => {
            let text = string_of(b);
            parse_build_identifiers(text.as_str())
        },
    }
}

fn pair_all(a: Clause, b: Clause) -> (r: Clause)
    ensures
        r@ == ClauseView::AllOf(seq![a@, b@]),
{
    let ghost av = a@;
    let ghost bv = b@;
    let mut v: Vec<Clause> = Vec::new();
    v.push(a);
    v.push(b);
    proof {
        lemma_clauses_view(v@);
        assert(clauses_view(v@) =~= seq![av, bv]);
    }
    Clause::AllOf(v)
}

fn pair_any(a: Clause, b: Clause) -> (r: Clause)
    ensures
        r@ == ClauseView::AnyOf(seq![a@, b@]),
{
    let ghost av = a@;
    let ghost bv = b@;
    let mut v: Vec<Clause> = Vec::new();
    v.push(a);
    v.push(b);
    proof {
        lemma_clauses_view(v@);
        assert(clauses_view(v@) =~= seq![av, bv]);
    }
    Clause::AnyOf(v)
}

fn npm_range_exec(op: Operator, target: Version) -> (r: Result<Clause, SemverError>)
    ensures
        clause_result_view(r) == npm_range(op, target@),
{
    range_clause_exec(op, target, PrereleasePolicy::SamePatch, BuildPolicy::Implicit)
}

fn npm_bounded_exec(lower: Version, upper: Version) -> (r: Result<Clause, SemverError>)
    ensures
        clause_result_view(r) == npm_bounded(lower@, upper@),
{
    let u = match Range::new(Operator::Lt, upper, PrereleasePolicy::SamePatch, BuildPolicy::Implicit) {
        Ok(x) => x,
        Err(e) => {
            return Err(e);
        },
    };
    let l = match Range::new(Operator::Gte, lower, PrereleasePolicy::SamePatch, BuildPolicy::Implicit) {
        Ok(x) => x,
        Err(e) => {
            return Err(e);
        },
    };
    Ok(pair_all(Clause::Range(u), Clause::Range(l)))
}

fn fence_exec(target: &Version) -> (r: Version)
    ensures
        r@ == fence_version(target@),
{
    Version::release_exec(
        target.major,
        unwrap_or_zero_exec(target.minor),
        saturating_inc_exec(unwrap_or_zero_exec(target.patch)),
    )
}

fn prerelease_branches_exec(op: Operator, target: &Version) -> (r: Result<Clause, SemverError>)
    ensures
        clause_result_view(r) == prerelease_branches(op, target@),
{
    let fence = match Range::new(
        Operator::Lt,
        fence_exec(target),
        PrereleasePolicy::Always,
        BuildPolicy::Implicit,
    ) {
        Ok(x) => x,
        Err(e) => {
            return Err(e);
        },
    };
    let pre = match Range::new(op, target.duplicate(), PrereleasePolicy::SamePatch, BuildPolicy::Implicit) {
        Ok(x) => x,
        Err(e) => {
            return Err(e);
        },
    };
    let non = match Range::new(
        op,
        target.truncate_to_patch(),
        PrereleasePolicy::SamePatch,
        BuildPolicy::Implicit,
    ) {
        Ok(x) => x,
        Err(e) => {
            return Err(e);
        },
    };
    Ok(pair_any(pair_all(Clause::Range(fence), Clause::Range(pre)), Clause::Range(non)))
}

fn pair_branches_exec(lower: Range, upper: Range, target: &Version) -> (r: Result<Clause, SemverError>)
    ensures
        clause_result_view(r) == pair_branches(lower@, upper@, target@),
{
    let fence = match Range::new(
        Operator::Lt,
        fence_exec(target),
        PrereleasePolicy::Always,
        BuildPolicy::Implicit,
    ) {
        Ok(x) => x,
        Err(e) => {
            return Err(e);
        },
    };
    let non_lower = match Range::new(
        Operator::Gte,
        target.truncate_to_patch(),
        PrereleasePolicy::SamePatch,
        BuildPolicy::Implicit,
    ) {
        Ok(x) => x,
        Err(e) => {
            return Err(e);
        },
    };
    Ok(
        pair_any(
            pair_all(Clause::Range(fence), Clause::Range(lower)),
            pair_all(Clause::Range(upper), Clause::Range(non_lower)),
        ),
    )
}

fn has_pre_exec(v: &Version) -> (r: bool)
    ensures
        r == has_pre(v@),
{
    match &v.prerelease {
        Some(p) => p.len() > 0,
        None => false,
    }
}

fn lower_upper_exec(target: &Version, upper_target: Version) -> (r: Result<Clause, SemverError>)
    ensures
        clause_result_view(r) == lower_upper(target@, upper_target@),
{
    let lower = match Range::new(
        Operator::Gte,
        target.duplicate(),
        PrereleasePolicy::SamePatch,
        BuildPolicy::Implicit,
    ) {
        Ok(x) => x,
        Err(e) => {
            return Err(e);
        },
    };
    let upper = match Range::new(
        Operator::Lt,
        upper_target,
        PrereleasePolicy::SamePatch,
        BuildPolicy::Implicit,
    ) {
        Ok(x) => x,
        Err(e) => {
            return Err(e);
        },
    };
    if has_pre_exec(target) {
        pair_branches_exec(lower, upper, target)
    } else {
        Ok(pair_all(Clause::Range(upper), Clause::Range(lower)))
    }
}

fn caret_upper_exec(target: &Version, minor_none: bool, patch_none: bool) -> (r: Version)
    ensures
        r@ == npm_caret_upper(target@, minor_none, patch_none),
{
    let t = target.truncate_to_patch();
    if target.major > 0 {
        t.next_major()
    } else if unwrap_or_zero_exec(target.minor) > 0 {
        t.next_minor()
    } else if minor_none {
        t.next_major()
    } else if patch_none {
        t.next_minor()
    } else {
        t.next_patch()
    }
}

fn cmp_of_exec(op: NpmOp) -> (r: Operator)
    ensures
        r == cmp_of(op),
{
    match op {
        NpmOp::Lt => Operator::Lt,
        NpmOp::Lte => Operator::Lte,
        NpmOp::Gt => Operator::Gt,
        NpmOp::Gte => Operator::Gte,
        _ => Operator::Eq,
    }
}

fn wildcard_bound_exec(op: Operator, low: Version, next: Version, target: Version) -> (r: Result<Clause, SemverError>)
    ensures
        clause_result_view(r) == wildcard_bound(op, low@, next@, target@),
{
    match op {
        Operator::Eq => npm_bounded_exec(low, next),
        Operator::Gt => npm_range_exec(Operator::Gte, next),
        Operator::Lte => npm_range_exec(Operator::Lt, next),
        Operator::Gte => npm_range_exec(Operator::Gte, target),
        _ => npm_range_exec(Operator::Lt, target),
    }
}

pub open spec fn block_result_view(r: Result<(Clause, bool), SemverError>) -> Result<(ClauseView, bool), ErrorView> {
    match r {
        Ok((c, f)) => Ok((c@, f)),
        Err(e) => Err(e@),
    }
}

fn spec_error(prefix: &str, s: &Vec<char>) -> (r: SemverError)
    ensures
        r@ == ErrorView::InvalidSpec(prefix@ + quoted(s@)),
{
    SemverError::InvalidSpec(crate::error::quoted_message(prefix, s))
}

fn with_flag_exec(r: Result<Clause, SemverError>, flag: bool) -> (res: Result<(Clause, bool), SemverError>)
    ensures
        block_result_view(res) == with_flag(clause_result_view(r), flag),
{
    match r {
        Ok(c) => Ok((c, flag)),
        Err(e) => Err(e),
    }
}

/// One block: its clause, and whether its target has a prerelease.
fn npm_block(block: &Vec<char>) -> (r: Result<(Clause, bool), SemverError>)
    ensures
        block_result_view(r) == spec_npm_block(block@),
{
    let p = match npm_pieces_exec(block) {
        Some(p) => p,
        None => {
            return Err(spec_error("Invalid npm block ", block));
        },
    };
    let major = component_value_exec(&p.major);
    let minor = opt_component_exec(&p.minor);
    let patch = opt_component_exec(&p.patch);
    if (major.is_none() || minor.is_none() || patch.is_none()) && (p.prerelease.is_some()
        || p.build.is_some()) {
        return Err(spec_error("Invalid NPM spec: ", block));
    }
    let kept_build: Option<Vec<char>> = if p.op == NpmOp::Eq {
        match &p.build {
            Some(b) => Some(sub_chars(b, 0, b.len())),
            None => None,
        }
    } else {
        None
    };
    proof {
        if p.op == NpmOp::Eq {
            if p.build is Some {
                assert(kept_build->0@ =~= p.build->0@);
            }
        }
    }
    let pre = match npm_prerelease_exec(&p.prerelease) {
        Ok(v) => v,
        Err(m) => {
            return Err(SemverError::InvalidSpec(m));
        },
    };
    let bld = match npm_build_exec(&kept_build) {
        Ok(v) => v,
        Err(m) => {
            return Err(SemverError::InvalidSpec(m));
        },
    };
    let flag = pre.len() > 0;
    let mj = unwrap_or_zero_exec(major);
    let mn = unwrap_or_zero_exec(minor);
    let target = Version {
        major: mj,
        minor: Some(mn),
        patch: Some(unwrap_or_zero_exec(patch)),
        prerelease: Some(pre),
        build: Some(bld),
        partial: false,
    };
    let op = cmp_of_exec(p.op);
    if major.is_none() && (p.op == NpmOp::Caret || p.op == NpmOp::Tilde) {
        Err(spec_error("Invalid expression ", block))
    } else if p.op == NpmOp::Caret {
        let upper = caret_upper_exec(&target, minor.is_none(), patch.is_none());
        with_flag_exec(lower_upper_exec(&target, upper), flag)
    } else if p.op == NpmOp::Tilde {
        let upper = if minor.is_none() {
            target.next_major()
        } else {
            target.next_minor()
        };
        with_flag_exec(lower_upper_exec(&target, upper), flag)
    } else if major.is_none() {
        if op != Operator::Eq && op != Operator::Gte {
            Err(spec_error("Invalid expression ", block))
        } else {
            with_flag_exec(npm_range_exec(Operator::Gte, Version::release_exec(0, 0, 0)), flag)
        }
    } else if minor.is_none() {
        with_flag_exec(
            wildcard_bound_exec(
                op,
                Version::release_exec(mj, 0, 0),
                Version::release_exec(saturating_inc_exec(mj), 0, 0),
                target,
            ),
            flag,
        )
    } else if patch.is_none() {
        with_flag_exec(
            wildcard_bound_exec(
                op,
                Version::release_exec(mj, mn, 0),
                Version::release_exec(mj, saturating_inc_exec(mn), 0),
                target,
            ),
            flag,
        )
    } else if flag {
        with_flag_exec(prerelease_branches_exec(op, &target), flag)
    } else {
        with_flag_exec(npm_range_exec(op, target), flag)
    }
}

pub open spec fn basic_view(r: Result<(u64, Option<u64>, Option<u64>, Option<Vec<PreReleaseIdent>>), SemverError>) -> Result<(u64, Option<u64>, Option<u64>, Option<Seq<PreIdentView>>), ErrorView> {
    match r {
        Ok((a, b, c, d)) => Ok(
            (
                a,
                b,
                c,
                match d {
                    Some(v) => Some(pre_views(v@)),
                    None => None,
                },
            ),
        ),
        Err(e) => Err(e@),
    }
}

/// A version of a hyphen range: major, minor, patch and prerelease.
fn npm_basic_exec(s: &Vec<char>) -> (r: Result<(u64, Option<u64>, Option<u64>, Option<Vec<PreReleaseIdent>>), SemverError>)
    ensures
        basic_view(r) == npm_basic(s@),
{
    let p = match npm_pieces_exec(s) {
        Some(p) => p,
        None => {
            return Err(spec_error("Invalid npm version ", s));
        },
    };
    let major = match component_value_exec(&p.major) {
        Some(m) => m,
        None => {
            return Err(SemverError::invalid_spec(chars_of("Invalid major")));
        },
    };
    let minor = opt_component_exec(&p.minor);
    let patch = opt_component_exec(&p.patch);
    match &p.prerelease {
        None => Ok((major, minor, patch, None)),
        Some(pr) => {
            let text = string_of(pr);
            match parse_prerelease_identifiers(text.as_str()) {
                Ok(ids) => Ok((major, minor, patch, Some(ids))),
                Err(m) => Err(SemverError::InvalidSpec(m)),
            }
        },
    }
}

fn full_version_exec(
    major: u64,
    minor: u64,
    patch: u64,
    pre: Option<Vec<PreReleaseIdent>>,
) -> (r: Version)
    ensures
        r@ == full_version(
            major,
            minor,
            patch,
            pre_or_none(
                match pre {
                    Some(v) => Some(pre_views(v@)),
                    None => None,
                },
            ),
            Seq::empty(),
        ),
{
    let p = match pre {
        Some(v) => v,
        None => crate::version::no_pre(),
    };
    Version {
        major,
        minor: Some(minor),
        patch: Some(patch),
        prerelease: Some(p),
        build: Some(crate::version::no_build()),
        partial: false,
    }
}

/// The hyphen range `left - right`.
fn npm_hyphen(left: &Vec<char>, right: &Vec<char>) -> (r: Result<Clause, SemverError>)
    ensures
        clause_result_view(r) == spec_npm_hyphen(left@, right@),
{
    let (lm, lmi, lp, lpre) = match npm_basic_exec(left) {
        Ok(x) => x,
        Err(e) => {
            return Err(e);
        },
    };
    let left_pre = lpre.is_some();
    let lv = full_version_exec(lm, unwrap_or_zero_exec(lmi), unwrap_or_zero_exec(lp), lpre);
    let lower = match Range::new(
        Operator::Gte,
        lv.duplicate(),
        PrereleasePolicy::SamePatch,
        BuildPolicy::Implicit,
    ) {
        Ok(x) => x,
        Err(e) => {
            return Err(e);
        },
    };
    let (rm, rmi, rp, rpre) = match npm_basic_exec(right) {
        Ok(x) => x,
        Err(e) => {
            return Err(e);
        },
    };
    let (uop, ut) = if rmi.is_none() {
        (Operator::Lt, Version::release_exec(saturating_inc_exec(rm), 0, 0))
    } else if rp.is_none() {
        (Operator::Lt, Version::release_exec(rm, saturating_inc_exec(unwrap_or_zero_exec(rmi)), 0))
    } else {
        (
            Operator::Lte,
            full_version_exec(rm, unwrap_or_zero_exec(rmi), unwrap_or_zero_exec(rp), rpre),
        )
    };
    let upper = match Range::new(uop, ut, PrereleasePolicy::SamePatch, BuildPolicy::Implicit) {
        Ok(x) => x,
        Err(e) => {
            return Err(e);
        },
    };
    if left_pre {
        pair_branches_exec(lower, upper, &lv)
    } else {
        Ok(pair_all(Clause::Range(upper), Clause::Range(lower)))
    }
}

fn all_part_exec(c: Clause) -> (r: Vec<Clause>)
    ensures
        clauses_view(r@) == all_part(c@),
{
    match c {
        Clause::Always => {
            let v: Vec<Clause> = Vec::new();
            assert(clauses_view(v@) =~= Seq::<ClauseView>::empty()) by {
                lemma_clauses_view(v@);
            }
            v
        },
        Clause::AllOf(sub) => sub,
        other => {
            let ghost ov = other@;
            let mut v: Vec<Clause> = Vec::new();
            v.push(other);
            proof {
                lemma_clauses_view(v@);
                assert(clauses_view(v@) =~= seq![ov]);
            }
            v
        },
    }
}

fn branch_exec(acc: Clause) -> (r: Clause)
    ensures
        r@ == ClauseView::AllOf(dedup_clauses(all_part(acc@))),
{
    Clause::AllOf(Clause::dedup_list(all_part_exec(acc)))
}

proof fn lemma_items_push(rs: Seq<(ClauseView, bool)>, r: (ClauseView, bool))
    ensures
        all_pre_items(rs.push(r)) == all_pre_items(rs) + pre_items(r),
        all_non_items(rs.push(r)) == all_non_items(rs) + non_items(r),
        any_flag(rs.push(r)) == (any_flag(rs) || r.1),
{
    assert(rs.push(r).drop_last() =~= rs);
    assert(rs.push(r).last() == r);
    if any_flag(rs) {
        let i = choose|i: int| 0 <= i < rs.len() && #[trigger] rs[i].1;
        assert(rs.push(r)[i] == rs[i]);
    }
    if r.1 {
        assert(rs.push(r)[rs.len() as int] == r);
    }
    if any_flag(rs.push(r)) && !r.1 {
        let i = choose|i: int| 0 <= i < rs.len() + 1 && #[trigger] rs.push(r)[i].1;
        assert(i < rs.len());
        assert(rs.push(r)[i] == rs[i]);
    }
}

proof fn lemma_fold_push(s: Seq<ClauseView>, x: ClauseView)
    ensures
        and_fold(s.push(x)) == crate::clause::and_view(and_fold(s), x),
{
    assert(s.push(x).drop_last() =~= s);
}

/// `acc & c` for each `c` of `items`, in order.
fn fold_items(acc: Clause, items: &Vec<Clause>, Ghost(before): Ghost<Seq<ClauseView>>) -> (r: Clause)
    requires
        acc@ == and_fold(before),
    ensures
        r@ == and_fold(before + clauses_view(items@)),
{
    proof {
        lemma_clauses_view(items@);
    }
    let ghost iv = clauses_view(items@);
    let mut acc = acc;
    let mut i: usize = 0;
    assert(before + iv.take(0) =~= before);
    while i < items.len()
        invariant
            i <= items.len(),
            iv == clauses_view(items@),
            iv.len() == items@.len(),
            forall|k: int| 0 <= k < items@.len() ==> #[trigger] iv[k] == items@[k]@,
            acc@ == and_fold(before + iv.take(i as int)),
        decreases items.len() - i,
    {
        let c = items[i].duplicate();
        proof {
            lemma_fold_push(before + iv.take(i as int), c@);
            assert((before + iv.take(i as int)).push(c@) =~= before + iv.take(i + 1));
        }
        acc = acc.and(c);
        i = i + 1;
    }
    assert(iv.take(items.len() as int) =~= iv);
    acc
}

pub open spec fn group_result_view(r: Result<Vec<Clause>, SemverError>) -> Result<Seq<ClauseView>, ErrorView> {
    match r {
        Ok(v) => Ok(clauses_view(v@)),
        Err(e) => Err(e@),
    }
}

fn any_npm_clause_exec() -> (r: Clause)
    ensures
        r@ == any_npm_clause(),
{
    let range = Range {
        operator: Operator::Gte,
        target: Version::release_exec(0, 0, 0),
        prerelease_policy: PrereleasePolicy::SamePatch,
        build_policy: BuildPolicy::Implicit,
    };
    let ghost rv = range@;
    let mut v: Vec<Clause> = Vec::new();
    v.push(Clause::Range(range));
    proof {
        lemma_clauses_view(v@);
        assert(clauses_view(v@) =~= seq![ClauseView::Range(rv)]);
    }
    Clause::AllOf(v)
}

/// The blocks of a group without a hyphen.
fn npm_block_group(g: &Vec<char>) -> (r: Result<Vec<Clause>, SemverError>)
    ensures
        group_result_view(r) == match npm_blocks(words(g@)) {
            Err(e) => Err::<Seq<ClauseView>, ErrorView>(e),
            Ok(rs) => Ok(group_of_blocks(rs)),
        },
{
    let ws = split_words(g);
    let ghost parts = texts_view(ws@);
    let ghost mut rs: Seq<(ClauseView, bool)> = Seq::empty();
    let mut pre_acc = Clause::Always;
    let mut non_acc = Clause::Always;
    let mut flag = false;
    let mut n: usize = 0;
    assert(parts.take(0) =~= Seq::<Seq<char>>::empty());
    while n < ws.len()
        invariant
            n <= ws.len(),
            parts == texts_view(ws@),
            parts == words(g@),
            npm_blocks(parts.take(n as int)) == Ok::<Seq<(ClauseView, bool)>, ErrorView>(rs),
            pre_acc@ == and_fold(all_pre_items(rs)),
            non_acc@ == and_fold(all_non_items(rs)),
            flag == any_flag(rs),
        decreases ws.len() - n,
    {
        proof {
            assert(parts.take(n + 1).drop_last() =~= parts.take(n as int));
            assert(parts.take(n + 1).last() == parts[n as int]);
        }
        let (c, f) = match npm_block(&ws[n]) {
            Ok(x) => x,
            Err(e) => {
                proof {
                    lemma_npm_blocks_fail(parts, n as int);
                }
                return Err(e);
            },
        };
        let ghost r = (c@, f);
        proof {
            lemma_items_push(rs, r);
        }
        if f {
            match &c {
                Clause::AnyOf(bs) => {
                    proof {
                        lemma_clauses_view(bs@);
                    }
                    if bs.len() > 0 {
                        match &bs[0] {
                            Clause::AllOf(ps) => {
                                pre_acc = fold_items(pre_acc, ps, Ghost(all_pre_items(rs)));
                            },
                            _ => {
                                assert(all_pre_items(rs) + Seq::<ClauseView>::empty() =~= all_pre_items(rs));
                            },
                        }
                    } else {
                        assert(all_pre_items(rs) + Seq::<ClauseView>::empty() =~= all_pre_items(rs));
                    }
                    if bs.len() > 1 {
                        let second = bs[1].duplicate();
                        proof {
                            lemma_fold_push(all_non_items(rs), second@);
                            assert(all_non_items(rs).push(second@) =~= all_non_items(rs) + seq![second@]);
                        }
                        non_acc = non_acc.and(second);
                    } else {
                        assert(all_non_items(rs) + Seq::<ClauseView>::empty() =~= all_non_items(rs));
                    }
                },
                _ => {
                    assert(all_pre_items(rs) + Seq::<ClauseView>::empty() =~= all_pre_items(rs));
                    assert(all_non_items(rs) + Seq::<ClauseView>::empty() =~= all_non_items(rs));
                },
            }
            flag = true;
        } else {
            proof {
                lemma_fold_push(all_non_items(rs), c@);
                assert(all_non_items(rs).push(c@) =~= all_non_items(rs) + seq![c@]);
                assert(all_pre_items(rs) + Seq::<ClauseView>::empty() =~= all_pre_items(rs));
            }
            non_acc = non_acc.and(c);
        }
        proof {
            rs = rs.push(r);
        }
        n = n + 1;
    }
    assert(parts.take(ws.len() as int) =~= parts);
    let mut out: Vec<Clause> = Vec::new();
    if flag {
        let a = branch_exec(pre_acc);
        let b = branch_exec(non_acc);
        let ghost av = a@;
        let ghost bv = b@;
        out.push(a);
        out.push(b);
        proof {
            lemma_clauses_view(out@);
            assert(clauses_view(out@) =~= seq![av, bv]);
        }
    } else {
        let b = branch_exec(non_acc);
        let ghost bv = b@;
        out.push(b);
        proof {
            lemma_clauses_view(out@);
            assert(clauses_view(out@) =~= seq![bv]);
        }
    }
    Ok(out)
}

proof fn lemma_npm_blocks_fail(parts: Seq<Seq<char>>, n: int)
    requires
        0 <= n < parts.len(),
        npm_blocks(parts.take(n)) is Ok,
        spec_npm_block(parts[n]) is Err,
    ensures
        npm_blocks(parts) == Err::<Seq<(ClauseView, bool)>, ErrorView>(
            spec_npm_block(parts[n])->Err_0,
        ),
    decreases parts.len() - n,
{
    if n + 1 == parts.len() {
        assert(parts.drop_last() =~= parts.take(n));
    } else {
        assert(parts.drop_last().take(n) =~= parts.take(n));
        lemma_npm_blocks_fail(parts.drop_last(), n);
    }
}

/// One trimmed group.
fn npm_group(g: &Vec<char>) -> (r: Result<Vec<Clause>, SemverError>)
    ensures
        group_result_view(r) == spec_npm_group(g@),
{
    if g.len() == 0 {
        let c = any_npm_clause_exec();
        let ghost cv = c@;
        let mut out: Vec<Clause> = Vec::new();
        out.push(c);
        proof {
            lemma_clauses_view(out@);
            assert(clauses_view(out@) =~= seq![cv]);
        }
        return Ok(out);
    }
    let pat = chars_of(" - ");
    proof {
        reveal_strlit(" - ");
    }
    let k = find_seq(g, 0, &pat);
    assert(g@.skip(0) =~= g@);
    if 3 <= g.len() - k {
        let l = sub_chars(g, 0, k);
        let r = sub_chars(g, k + 3, g.len());
        assert(l@ =~= g@.take(k as int));
        assert(r@ =~= g@.skip(k + 3));
        let left = trim_chars(&l);
        let right = trim_chars(&r);
        match npm_hyphen(&left, &right) {
            Err(e) => Err(e),
            Ok(c) => match c {
                Clause::AnyOf(bs) => Ok(bs),
                other => {
                    let ghost ov = other@;
                    let mut out: Vec<Clause> = Vec::new();
                    out.push(other);
                    proof {
                        lemma_clauses_view(out@);
                        assert(clauses_view(out@) =~= seq![ov]);
                    }
                    Ok(out)
                },
            },
        }
    } else {
        npm_block_group(g)
    }
}

/// A range specification in npm's syntax.
#[derive(Debug, Clone, PartialEq, Eq)]
pub struct NpmSpec {
    pub clause: Clause,
}

pub open spec fn npm_result_view(r: Result<NpmSpec, SemverError>) -> Result<ClauseView, ErrorView> {
    match r {
        Ok(s) => Ok(s.clause@),
        Err(e) => Err(e@),
    }
}

impl NpmSpec {
    /// Parse an npm range, e.g. `>=1.2.3 <2.0.0 || 3.x` or `1.2.3 - 2.3`.
    ///
    /// A blank string and `*` mean any version. Fails on a block that is not
    /// an npm block, on a wildcard part together with a prerelease or build
    /// part, on an ordering operator before a lone wildcard, and on
    /// identifiers that do not parse.
    pub fn parse(s: &str) -> (r: Result<Self, SemverError>)
        ensures
            npm_result_view(r) == spec_npm_parse(s@),
    {
        let v = chars_of(s);
        let t = trim_chars(&v);
        proof {
            reveal_strlit("*");
        }
        if t.len() == 0 || (t.len() == 1 && t[0] == '*') {
            proof {
                if t.len() == 1 {
                    assert(t@ =~= "*"@);
                }
            }
            return Ok(NpmSpec { clause: any_npm_clause_exec() });
        }
        assert(t@ != "*"@) by {
            if t@ == "*"@ {
                assert(t@.len() == 1 && t@[0] == '*');
            }
        }
        let bars = chars_of("||");
        proof {
            reveal_strlit("||");
        }
        let groups = split_on_seq(&t, &bars);
        let ghost gs = texts_view(groups@);
        let mut all: Vec<Clause> = Vec::new();
        let mut i: usize = 0;
        proof {
            lemma_clauses_view(all@);
        }
        assert(gs.take(0) =~= Seq::<Seq<char>>::empty());
        assert(clauses_view(all@) =~= Seq::<ClauseView>::empty());
        while i < groups.len()
            invariant
                i <= groups.len(),
                gs == texts_view(groups@),
                gs == split_seq(t@, "||"@),
                t@ == trim(s@),
                t@.len() != 0,
                t@ != "*"@,
                npm_groups(gs.take(i as int)) == Ok::<Seq<ClauseView>, ErrorView>(
                    clauses_view(all@),
                ),
            decreases groups.len() - i,
        {
            proof {
                assert(gs.take(i + 1).drop_last() =~= gs.take(i as int));
                assert(gs.take(i + 1).last() == gs[i as int]);
            }
            let g = trim_chars(&groups[i]);
            let mut parts = match npm_group(&g) {
                Ok(p) => p,
                Err(e) => {
                    proof {
                        lemma_npm_groups_fail(gs, i as int);
                    }
                    return Err(e);
                },
            };
            proof {
                lemma_clauses_view_add(all@, parts@);
            }
            all.append(&mut parts);
            i = i + 1;
        }
        assert(gs.take(groups.len() as int) =~= gs);
        proof {
            lemma_clauses_view(all@);
        }
        if all.len() == 1 {
            let c = all.pop().unwrap();
            Ok(NpmSpec { clause: c })
        } else {
            Ok(NpmSpec { clause: Clause::AnyOf(Clause::dedup_list(all)) })
        }
    }

    /// The text of this spec: the text of its clause (see `clause_text`).
    pub fn to_string(&self) -> (r: String)
        ensures
            r@ == crate::clause::clause_text(self.clause@),
    {
        let t = self.clause.text();
        crate::text::string_of(&t)
    }

    /// Whether `version` satisfies this spec.
    pub fn match_version(&self, version: &Version) -> (r: bool)
        ensures
            r == crate::clause::clause_matches(self.clause@, version@),
    {
        self.clause.matches(version)
    }
}

proof fn lemma_npm_groups_fail(gs: Seq<Seq<char>>, n: int)
    requires
        0 <= n < gs.len(),
        npm_groups(gs.take(n)) is Ok,
        spec_npm_group(trim(gs[n])) is Err,
    ensures
        npm_groups(gs) == Err::<Seq<ClauseView>, ErrorView>(spec_npm_group(trim(gs[n]))->Err_0),
    decreases gs.len() - n,
{
    if n + 1 == gs.len() {
        assert(gs.drop_last() =~= gs.take(n));
    } else {
        assert(gs.drop_last().take(n) =~= gs.take(n));
        lemma_npm_groups_fail(gs.drop_last(), n);
    }
}

// ---------------------------------------------------------------------------
// What the groups of an npm range accept
// ---------------------------------------------------------------------------


proof fn lemma_pair_branches_listed(lower: RangeView, upper: RangeView, target: VersionView)
    requires
        range_strict_build_listed(lower),
        range_strict_build_listed(upper),
        pair_branches(lower, upper, target) is Ok,
    ensures
        build_listed(pair_branches(lower, upper, target)->Ok_0),
{
    let fence = spec_range_new(
        Operator::Lt,
        fence_version(target),
        PrereleasePolicy::Always,
        BuildPolicy::Implicit,
    )->Ok_0;
    let non_lower = spec_range_new(
        Operator::Gte,
        spec_truncate_to_patch(target),
        PrereleasePolicy::SamePatch,
        BuildPolicy::Implicit,
    )->Ok_0;
    lemma_pair_listed(ClauseView::Range(fence), ClauseView::Range(lower));
    lemma_pair_listed(ClauseView::Range(upper), ClauseView::Range(non_lower));
    lemma_pair_listed(
        ClauseView::AllOf(seq![ClauseView::Range(fence), ClauseView::Range(lower)]),
        ClauseView::AllOf(seq![ClauseView::Range(upper), ClauseView::Range(non_lower)]),
    );
}

proof fn lemma_lower_upper_listed(target: VersionView, upper_target: VersionView)
    requires
        lower_upper(target, upper_target) is Ok,
    ensures
        build_listed(lower_upper(target, upper_target)->Ok_0),
{
    let lower = spec_range_new(Operator::Gte, target, PrereleasePolicy::SamePatch, BuildPolicy::Implicit)->Ok_0;
    let upper = spec_range_new(Operator::Lt, upper_target, PrereleasePolicy::SamePatch, BuildPolicy::Implicit)->Ok_0;
    if has_pre(target) {
        lemma_pair_branches_listed(lower, upper, target);
    } else {
        lemma_pair_listed(ClauseView::Range(upper), ClauseView::Range(lower));
    }
}

proof fn lemma_prerelease_branches_listed(op: Operator, target: VersionView)
    requires
        prerelease_branches(op, target) is Ok,
    ensures
        build_listed(prerelease_branches(op, target)->Ok_0),
{
    let fence = spec_range_new(
        Operator::Lt,
        fence_version(target),
        PrereleasePolicy::Always,
        BuildPolicy::Implicit,
    )->Ok_0;
    let pre = spec_range_new(op, target, PrereleasePolicy::SamePatch, BuildPolicy::Implicit)->Ok_0;
    let non = spec_range_new(
        op,
        spec_truncate_to_patch(target),
        PrereleasePolicy::SamePatch,
        BuildPolicy::Implicit,
    )->Ok_0;
    lemma_pair_listed(ClauseView::Range(fence), ClauseView::Range(pre));
    lemma_pair_listed(
        ClauseView::AllOf(seq![ClauseView::Range(fence), ClauseView::Range(pre)]),
        ClauseView::Range(non),
    );
}

proof fn lemma_wildcard_bound_listed(op: Operator, low: VersionView, next: VersionView, target: VersionView)
    requires
        wildcard_bound(op, low, next, target) is Ok,
    ensures
        build_listed(wildcard_bound(op, low, next, target)->Ok_0),
{
    if op == Operator::Eq {
        let u = spec_range_new(Operator::Lt, next, PrereleasePolicy::SamePatch, BuildPolicy::Implicit)->Ok_0;
        let l = spec_range_new(Operator::Gte, low, PrereleasePolicy::SamePatch, BuildPolicy::Implicit)->Ok_0;
        lemma_pair_listed(ClauseView::Range(u), ClauseView::Range(l));
    }
}

/// The clause of a block has its strict ranges list their build identifiers.
proof fn lemma_npm_block_listed(block: Seq<char>)
    requires
        spec_npm_block(block) is Ok,
    ensures
        build_listed((spec_npm_block(block)->Ok_0).0),
{
    let p = npm_pieces(block)->Some_0;
    let major = component_value(p.major);
    let minor = opt_component(p.minor);
    let patch = opt_component(p.patch);
    let kept_build = if p.op == NpmOp::Eq { p.build } else { None };
    let pre = npm_prerelease(p.prerelease)->Ok_0;
    let bld = npm_build(kept_build)->Ok_0;
    let target = full_version(
        unwrap_or_zero(major),
        unwrap_or_zero(minor),
        unwrap_or_zero(patch),
        pre,
        bld,
    );
    let flag = pre.len() > 0;
    let op = cmp_of(p.op);
    let mj = unwrap_or_zero(major);
    let mn = unwrap_or_zero(minor);
    if p.op == NpmOp::Caret {
        lemma_lower_upper_listed(target, npm_caret_upper(target, minor is None, patch is None));
    } else if p.op == NpmOp::Tilde {
        lemma_lower_upper_listed(target, npm_tilde_upper(target, minor is None));
    } else if major is None {
    } else if minor is None {
        lemma_wildcard_bound_listed(op, release(mj, 0, 0), release(saturating_inc(mj), 0, 0), target);
    } else if patch is None {
        lemma_wildcard_bound_listed(op, release(mj, mn, 0), release(mj, saturating_inc(mn), 0), target);
    } else if flag {
        lemma_prerelease_branches_listed(op, target);
    }
}


/// The clauses of the blocks have their strict ranges list their build identifiers.
proof fn lemma_npm_blocks_listed(blocks: Seq<Seq<char>>)
    requires
        npm_blocks(blocks) is Ok,
    ensures
        forall|k: int| 0 <= k < (npm_blocks(blocks)->Ok_0).len() ==> #[trigger] build_listed(
            (npm_blocks(blocks)->Ok_0)[k].0,
        ),
    decreases blocks.len(),
{
    if blocks.len() > 0 {
        lemma_npm_blocks_listed(blocks.drop_last());
        lemma_npm_block_listed(blocks.last());
        let rs = npm_blocks(blocks.drop_last())->Ok_0;
        let r = spec_npm_block(blocks.last())->Ok_0;
        assert forall|k: int| 0 <= k < rs.push(r).len() implies #[trigger] build_listed(
            rs.push(r)[k].0,
        ) by {
            if k < rs.len() {
                assert(rs.push(r)[k] == rs[k]);
            }
        }
    }
}

proof fn lemma_items_listed(r: (ClauseView, bool))
    requires
        build_listed(r.0),
    ensures
        each_build_listed(pre_items(r)),
        each_build_listed(non_items(r)),
{
    if r.1 {
        match r.0 {
            ClauseView::AnyOf(bs) => {
                lemma_all_build_listed(bs);
                if bs.len() > 0 {
                    assert(build_listed(bs[0]));
                    match bs[0] {
                        ClauseView::AllOf(ps) => {
                            lemma_all_build_listed(ps);
                        },
                        _ => {},
                    }
                }
            },
            _ => {},
        }
    }
}

proof fn lemma_all_items_listed(rs: Seq<(ClauseView, bool)>)
    requires
        forall|k: int| 0 <= k < rs.len() ==> #[trigger] build_listed(rs[k].0),
    ensures
        each_build_listed(all_pre_items(rs)),
        each_build_listed(all_non_items(rs)),
    decreases rs.len(),
{
    if rs.len() > 0 {
        assert forall|k: int| 0 <= k < rs.drop_last().len() implies #[trigger] build_listed(
            rs.drop_last()[k].0,
        ) by {
            assert(rs.drop_last()[k] == rs[k]);
        }
        lemma_all_items_listed(rs.drop_last());
        assert(build_listed(rs[rs.len() - 1].0));
        lemma_items_listed(rs.last());
        lemma_each_listed_append(all_pre_items(rs.drop_last()), pre_items(rs.last()));
        lemma_each_listed_append(all_non_items(rs.drop_last()), non_items(rs.last()));
    }
}




proof fn lemma_branch_listed(items: Seq<ClauseView>)
    requires
        each_build_listed(items),
    ensures
        build_listed(branch_of(items)),
{
    let f = and_fold(items);
    lemma_and_fold_listed(items);
    match f {
        ClauseView::AllOf(sub) => {
            lemma_all_build_listed(sub);
        },
        ClauseView::Always => {},
        _ => {
            lemma_all_build_listed(seq![f]);
        },
    }
    assert(each_build_listed(all_part(f)));
    lemma_dedup_listed(all_part(f));
    lemma_all_build_listed(dedup_clauses(all_part(f)));
}

/// The clauses one group gives have their strict ranges list their build identifiers.
proof fn lemma_npm_group_listed(g: Seq<char>)
    requires
        spec_npm_group(g) is Ok,
    ensures
        each_build_listed(spec_npm_group(g)->Ok_0),
{
    let k = index_of_seq(g, " - "@);
    if g.len() == 0 {
        lemma_all_build_listed(seq![ClauseView::Range(any_npm_range())]);
        lemma_all_build_listed(seq![any_npm_clause()]);
    } else if k + 3 <= g.len() {
        let left = trim(g.take(k as int));
        let right = trim(g.skip((k + 3) as int));
        let (lm, lmi, lp, lpre) = npm_basic(left)->Ok_0;
        let lv = full_version(lm, unwrap_or_zero(lmi), unwrap_or_zero(lp), pre_or_none(lpre), Seq::empty());
        let lower = spec_range_new(Operator::Gte, lv, PrereleasePolicy::SamePatch, BuildPolicy::Implicit)->Ok_0;
        let (rm, rmi, rp, rpre) = npm_basic(right)->Ok_0;
        let (uop, ut) = if rmi is None {
            (Operator::Lt, release(saturating_inc(rm), 0, 0))
        } else if rp is None {
            (Operator::Lt, release(rm, saturating_inc(unwrap_or_zero(rmi)), 0))
        } else {
            (
                Operator::Lte,
                full_version(rm, unwrap_or_zero(rmi), unwrap_or_zero(rp), pre_or_none(rpre), Seq::empty()),
            )
        };
        let upper = spec_range_new(uop, ut, PrereleasePolicy::SamePatch, BuildPolicy::Implicit)->Ok_0;
        let c = spec_npm_hyphen(left, right)->Ok_0;
        if lpre is Some {
            lemma_pair_branches_listed(lower, upper, lv);
        } else {
            lemma_pair_listed(ClauseView::Range(upper), ClauseView::Range(lower));
        }
        match c {
            ClauseView::AnyOf(bs) => {
                lemma_all_build_listed(bs);
            },
            _ => {
                lemma_all_build_listed(seq![c]);
            },
        }
    } else {
        let rs = npm_blocks(words(g))->Ok_0;
        lemma_npm_blocks_listed(words(g));
        lemma_all_items_listed(rs);
        lemma_branch_listed(all_pre_items(rs));
        lemma_branch_listed(all_non_items(rs));
        lemma_all_build_listed(seq![branch_of(all_pre_items(rs)), branch_of(all_non_items(rs))]);
        lemma_all_build_listed(seq![branch_of(all_non_items(rs))]);
    }
}

/// Whether `v` satisfies the (trimmed) group `g` of an npm range: some
/// clause that the group gives accepts it.
pub open spec fn npm_group_accepts(g: Seq<char>, v: VersionView) -> bool {
    match spec_npm_group(g) {
        Ok(cs) => crate::clause::any_clause_matches(cs, v),
        Err(_) => false,
    }
}

/// Some clause of what the groups give accepts `v` exactly when one of the
/// groups does.
pub(crate) proof fn lemma_npm_groups_accept(gs: Seq<Seq<char>>, v: VersionView)
    requires
        npm_groups(gs) is Ok,
    ensures
        each_build_listed(npm_groups(gs)->Ok_0),
        crate::clause::any_clause_matches(npm_groups(gs)->Ok_0, v) == (exists|i: int|
            0 <= i < gs.len() && #[trigger] npm_group_accepts(trim(gs[i]), v)),
    decreases gs.len(),
{
    if gs.len() > 0 {
        let p = gs.drop_last();
        lemma_npm_groups_accept(p, v);
        let cs = npm_groups(p)->Ok_0;
        let c = spec_npm_group(trim(gs.last()))->Ok_0;
        lemma_npm_group_listed(trim(gs.last()));
        lemma_each_listed_append(cs, c);
        crate::clause::lemma_any_append(cs, c, v);
        if crate::clause::any_clause_matches(cs, v) {
            let i = choose|i: int| 0 <= i < p.len() && #[trigger] npm_group_accepts(trim(p[i]), v);
            assert(gs[i] == p[i]);
        }
        if crate::clause::any_clause_matches(c, v) {
            assert(npm_group_accepts(trim(gs[gs.len() - 1]), v));
        }
        if exists|i: int| 0 <= i < gs.len() && #[trigger] npm_group_accepts(trim(gs[i]), v) {
            let i = choose|i: int| 0 <= i < gs.len() && #[trigger] npm_group_accepts(trim(gs[i]), v);
            if i < p.len() {
                assert(gs[i] == p[i]);
                assert(npm_group_accepts(trim(p[i]), v));
            }
        }
    }
}

/// The range `*` as a group gives the clause of the whole range `*`.
pub(crate) proof fn lemma_star_group()
    ensures
        split_seq("*"@, "||"@) == seq!["*"@],
        trim("*"@) == "*"@,
        spec_npm_group("*"@) == Ok::<Seq<ClauseView>, ErrorView>(seq![any_npm_clause()]),
{
    reveal_strlit("*");
    reveal_strlit("||");
    reveal_strlit(" - ");
    let star = "*"@;
    assert(index_of_seq(star, "||"@) == 1);
    assert(split_seq(star, "||"@) == seq![star]);
    assert(trim(star) == star);
    assert(index_of_seq(star, " - "@) == 1);
    assert(nonspace_run(star.drop_first()) == 0);
    assert(nonspace_run(star) == 1);
    assert(star.take(1) =~= star);
    assert(star.skip(1) =~= Seq::<char>::empty());
    assert(words(star.skip(1)) == Seq::<Seq<char>>::empty());
    assert(words(star) =~= seq![star]);
    let e = Seq::<char>::empty();
    assert(npm_component(star) == Some((star, e)));
    assert(npm_dotted(e) == Some((None::<Seq<char>>, e)));
    assert(version_tail(e, true) == Some((None::<Seq<char>>, None::<Seq<char>>)));
    assert(star.skip(0) =~= star);
    let p = npm_pieces(star)->Some_0;
    assert(npm_pieces(star) is Some);
    assert(p.op == NpmOp::Empty);
    assert(p.major == star);
    assert(p.minor is None && p.patch is None && p.prerelease is None && p.build is None);
    assert(component_value(star) is None);
    assert(spec_npm_block(star) == Ok::<(ClauseView, bool), ErrorView>(
        (ClauseView::Range(any_npm_range()), false),
    ));
    let r = (ClauseView::Range(any_npm_range()), false);
    let rs = seq![r];
    assert(seq![star].drop_last() =~= Seq::<Seq<char>>::empty());
    assert(seq![star].last() == star);
    assert(Seq::<(ClauseView, bool)>::empty().push(r) =~= rs);
    assert(npm_blocks(Seq::<Seq<char>>::empty()) == Ok::<Seq<(ClauseView, bool)>, ErrorView>(
        Seq::empty(),
    ));
    assert(npm_blocks(seq![star]) == Ok::<Seq<(ClauseView, bool)>, ErrorView>(rs));
    assert(rs.drop_last() =~= Seq::<(ClauseView, bool)>::empty());
    assert(!any_flag(rs));
    assert(all_non_items(Seq::<(ClauseView, bool)>::empty()) == Seq::<ClauseView>::empty());
    assert(non_items(r) == seq![r.0]);
    assert(Seq::<ClauseView>::empty() + seq![r.0] =~= seq![r.0]);
    assert(all_non_items(rs) =~= seq![r.0]);
    let items = seq![r.0];
    assert(items.drop_last() =~= Seq::<ClauseView>::empty());
    assert(and_fold(Seq::<ClauseView>::empty()) == ClauseView::Always);
    assert(items.last() == r.0);
    assert(and_fold(items) == r.0);
    assert(all_part(r.0) == items);
    assert(dedup_clauses(Seq::<ClauseView>::empty()) == Seq::<ClauseView>::empty());
    assert(!crate::clause::matched_by(Seq::<ClauseView>::empty(), r.0));
    assert(Seq::<ClauseView>::empty().push(r.0) =~= items);
    assert(dedup_clauses(items) == items);
    assert(branch_of(items) == any_npm_clause());
    assert(spec_npm_group(star) == Ok::<Seq<ClauseView>, ErrorView>(seq![any_npm_clause()]));
}

} // verus!
