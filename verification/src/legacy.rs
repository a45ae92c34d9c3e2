//! The full simple syntax, with `*` parts and partial versions, as used by
//! `Spec` (the "legacy" spec) and `SpecItem`.
//!
//! ```text
//! block = op? part ('.' part ('.' part)?)? ('-' PRE*)? ('+' BUILD*)?
//! op    = '==' | '=' | '!=' | '<' | '<=' | '>' | '>=' | '~=' | '^' | '~'
//! part  = '*' | '0' | [1-9][0-9]*
//! ```
//!
//! A partial version stands for a range of releases: `==1.2` is
//! `>=1.2.0,<1.3.0`, `!=1` is `<1.0.0 || >=2.0.0`, `>1.2` is `>=1.3.0`,
//! `<=1` is `<2.0.0`. Blocks are joined by `,`; a spec of several blocks is
//! one `AllOf` of their ranges, duplicates dropped.

use vstd::prelude::*;

use crate::clause::{
    and_view, build_listed, clause_matches, clauses_view, dedup_clauses, each_build_listed,
    lemma_and_view_listed, lemma_clauses_view, lemma_or_view_listed, or_view, operator_text,
    BuildPolicy, Clause, ClauseView, Operator, PrereleasePolicy,
};
use crate::error::{
    debug_rendering, debug_string, msg_empty_simple_spec, msg_invalid_block, quoted, quoted_message,
    ErrorView, SemverError,
};
use crate::identifiers::{
    build_ident_of, build_views, loose_pre_ident, loose_pre_ident_exec, pre_views, BuildIdent,
    PreIdentView, PreReleaseIdent,
};
use crate::simple_spec::{
    all_whitespace, and_fold, clause_result_view, range_clause, range_clause_exec, simple_op,
    unwrap_or_zero_exec, SimpleOp,
};
use crate::text::{
    all_digits, append_chars, chars_of, digit_run, digit_run_at, digits_value, is_whitespace,
    is_whitespace_char, lemma_digit_run, parse_u64, split_chars, split_on, string_of, sub_chars,
    texts_view,
};
use crate::version::{
    opt_chars, release, spec_next_major, spec_next_minor, spec_next_patch, unwrap_or_zero,
    version_tail, version_tail_exec, Version, VersionView,
};

verus! {

/// A part at the start of `r` (`*`, `0`, or digits not starting with `0`) and what follows.
pub open spec fn legacy_component(r: Seq<char>) -> Option<(Seq<char>, Seq<char>)> {
    if r.len() > 0 && (r[0] == '*' || r[0] == '0') {
        Some((r.take(1), r.skip(1)))
    } else if digit_run(r) > 0 {
        Some((r.take(digit_run(r) as int), r.skip(digit_run(r) as int)))
    } else {
        None
    }
}

/// An optional `.part` at the start of `r`: `None` when a `.` is not followed by a part.
pub open spec fn legacy_dotted(r: Seq<char>) -> Option<(Option<Seq<char>>, Seq<char>)> {
    if r.len() > 0 && r[0] == '.' {
        match legacy_component(r.drop_first()) {
            Some((c, rest)) => Some((Some(c), rest)),
            None => None,
        }
    } else {
        Some((None, r))
    }
}

/// The pieces of a block, as written.
pub struct LegacyPieces {
    pub op: SimpleOp,
    pub major: Seq<char>,
    pub minor: Option<Seq<char>>,
    pub patch: Option<Seq<char>>,
    pub prerelease: Option<Seq<char>>,
    pub build: Option<Seq<char>>,
}

/// Splits a block into its pieces; `None` when it is not a block.
pub open spec fn legacy_pieces(b: Seq<char>) -> Option<LegacyPieces> {
    let (op, n) = simple_op(b);
    match legacy_component(b.skip(n)) {
        None => None,
        Some((major, r1)) => match legacy_dotted(r1) {
            None => None,
            Some((minor, r2)) => {
                let step = if minor is Some {
                    legacy_dotted(r2)
                } else {
                    Some((None, r2))
                };
                match step {
                    None => None,
                    Some((patch, r3)) => match version_tail(r3, false) {
                        None => None,
                        Some((prerelease, build)) => Some(
                            LegacyPieces { op, major, minor, patch, prerelease, build },
                        ),
                    },
                }
            },
        },
    }
}

pub open spec fn is_star(c: Seq<char>) -> bool {
    c.len() == 1 && c[0] == '*'
}

/// The number a part stands for; `None` for `*`.
pub open spec fn part_value(c: Seq<char>) -> Option<u64> {
    if is_star(c) {
        None
    } else {
        Some(digits_value(c) as u64)
    }
}

pub open spec fn opt_part_value(o: Option<Seq<char>>) -> Option<u64> {
    match o {
        Some(c) => part_value(c),
        None => None,
    }
}

/// A number part too big for a `u64`.
pub open spec fn part_too_big(c: Seq<char>) -> bool {
    !is_star(c) && digits_value(c) > u64::MAX
}

pub open spec fn opt_part_too_big(o: Option<Seq<char>>) -> bool {
    match o {
        Some(c) => part_too_big(c),
        None => false,
    }
}

/// The identifiers of a non-empty prerelease text; an error when one is empty.
pub open spec fn loose_prerelease(p: Seq<char>) -> Result<Seq<PreIdentView>, ErrorView> {
    if exists|i: int| 0 <= i < split_on(p, '.').len() && #[trigger] split_on(p, '.')[i].len() == 0 {
        Err(ErrorView::InvalidSpec("Invalid empty identifier '' in "@ + debug_rendering(p)))
    } else {
        Ok(split_on(p, '.').map_values(|t: Seq<char>| loose_pre_ident(t)))
    }
}

/// A text that is present and not empty.
pub open spec fn nonempty(o: Option<Seq<char>>) -> bool {
    match o {
        Some(t) => t.len() > 0,
        None => false,
    }
}

/// The version a block's parts stand for: missing and `*` parts are zero;
/// prerelease and build parts count only in a full version.
pub open spec fn legacy_target(p: LegacyPieces) -> Result<VersionView, ErrorView> {
    let major = part_value(p.major);
    let minor = opt_part_value(p.minor);
    let patch = opt_part_value(p.patch);
    if major is None {
        Ok(release(0, 0, 0))
    } else if minor is None {
        Ok(release(major->0, 0, 0))
    } else if patch is None {
        Ok(release(major->0, minor->0, 0))
    } else {
        let pre = if nonempty(p.prerelease) {
            loose_prerelease(p.prerelease->0)
        } else {
            Ok(Seq::empty())
        };
        match pre {
            Err(e) => Err(e),
            Ok(ids) => {
                let bld = if nonempty(p.build) {
                    split_on(p.build->0, '.').map_values(|t: Seq<char>| build_ident_of(t))
                } else {
                    Seq::empty()
                };
                Ok(
                    VersionView {
                        major: major->0,
                        minor: Some(minor->0),
                        patch: Some(patch->0),
                        prerelease: Some(ids),
                        build: Some(bld),
                        partial: false,
                    },
                )
            },
        }
    }
}

/// A range with the default policies.
pub open spec fn plain_range(op: Operator, t: VersionView) -> Result<ClauseView, ErrorView> {
    range_clause(op, t, PrereleasePolicy::Natural, BuildPolicy::Implicit)
}

/// `a & b` of two results, the error of the first one that fails.
pub open spec fn both(a: Result<ClauseView, ErrorView>, b: Result<ClauseView, ErrorView>) -> Result<ClauseView, ErrorView> {
    match a {
        Err(e) => Err(e),
        Ok(x) => match b {
            Err(e) => Err(e),
            Ok(y) => Ok(and_view(x, y)),
        },
    }
}

/// `a | b` of two results, the error of the first one that fails.
pub open spec fn either(a: Result<ClauseView, ErrorView>, b: Result<ClauseView, ErrorView>) -> Result<ClauseView, ErrorView> {
    match a {
        Err(e) => Err(e),
        Ok(x) => match b {
            Err(e) => Err(e),
            Ok(y) => Ok(or_view(x, y)),
        },
    }
}

pub open spec fn msg_invalid_simple_spec(b: Seq<char>) -> Seq<char> {
    "Invalid simple spec "@ + quoted(b)
}

/// The clause of one block, given its pieces and target.
pub open spec fn legacy_clause(p: LegacyPieces, t: VersionView) -> Result<ClauseView, ErrorView> {
    let minor_none = opt_part_value(p.minor) is None;
    let patch_none = opt_part_value(p.patch) is None;
    let major_none = part_value(p.major) is None;
    let empty_pre = p.prerelease == Some(Seq::<char>::empty());
    let empty_build = p.build == Some(Seq::<char>::empty());
    match p.op {
        SimpleOp::Caret => {
            let high = if t.major > 0 {
                spec_next_major(t)
            } else if unwrap_or_zero(t.minor) > 0 {
                spec_next_minor(t)
            } else {
                spec_next_patch(t)
            };
            both(plain_range(Operator::Gte, t), plain_range(Operator::Lt, high))
        },
        SimpleOp::Tilde => {
            let high = if minor_none {
                spec_next_major(t)
            } else {
                spec_next_minor(t)
            };
            both(plain_range(Operator::Gte, t), plain_range(Operator::Lt, high))
        },
        SimpleOp::Compatible => {
            let high = if minor_none || patch_none {
                spec_next_major(t)
            } else {
                spec_next_minor(t)
            };
            both(plain_range(Operator::Gte, t), plain_range(Operator::Lt, high))
        },
        SimpleOp::Cmp(Operator::Eq) => if major_none {
            plain_range(Operator::Gte, t)
        } else if minor_none {
            both(plain_range(Operator::Gte, t), plain_range(Operator::Lt, spec_next_major(t)))
        } else if patch_none {
            both(plain_range(Operator::Gte, t), plain_range(Operator::Lt, spec_next_minor(t)))
        } else if empty_build {
            range_clause(Operator::Eq, t, PrereleasePolicy::Natural, BuildPolicy::Strict)
        } else {
            plain_range(Operator::Eq, t)
        },
        SimpleOp::Cmp(Operator::Neq) => if minor_none {
            either(plain_range(Operator::Lt, t), plain_range(Operator::Gte, spec_next_major(t)))
        } else if patch_none {
            either(plain_range(Operator::Lt, t), plain_range(Operator::Gte, spec_next_minor(t)))
        } else if empty_pre {
            range_clause(Operator::Neq, t, PrereleasePolicy::Always, BuildPolicy::Implicit)
        } else if empty_build {
            range_clause(Operator::Neq, t, PrereleasePolicy::Natural, BuildPolicy::Strict)
        } else {
            plain_range(Operator::Neq, t)
        },
        SimpleOp::Cmp(Operator::Gt) => if minor_none {
            plain_range(Operator::Gte, spec_next_major(t))
        } else if patch_none {
            plain_range(Operator::Gte, spec_next_minor(t))
        } else {
            plain_range(Operator::Gt, t)
        },
        SimpleOp::Cmp(Operator::Gte) => plain_range(Operator::Gte, t),
        SimpleOp::Cmp(Operator::Lt) => if empty_pre {
            range_clause(Operator::Lt, t, PrereleasePolicy::Always, BuildPolicy::Implicit)
        } else {
            plain_range(Operator::Lt, t)
        },
        SimpleOp::Cmp(Operator::Lte) => if minor_none {
            plain_range(Operator::Lt, spec_next_major(t))
        } else if patch_none {
            plain_range(Operator::Lt, spec_next_minor(t))
        } else {
            plain_range(Operator::Lte, t)
        },
    }
}

/// What one block stands for.
pub open spec fn spec_legacy_block(block: Seq<char>) -> Result<ClauseView, ErrorView> {
    match legacy_pieces(block) {
        None => Err(ErrorView::InvalidSpec(msg_invalid_block(block))),
        Some(p) => if part_too_big(p.major) || opt_part_too_big(p.minor) || opt_part_too_big(
            p.patch,
        ) {
            Err(ErrorView::InvalidSpec(msg_invalid_block(block)))
        } else {
            match legacy_target(p) {
                Err(e) => Err(e),
                Ok(t) => {
                    let partial = part_value(p.major) is None || opt_part_value(p.minor) is None
                        || opt_part_value(p.patch) is None;
                    if partial && (nonempty(p.prerelease) || nonempty(p.build)) {
                        Err(ErrorView::InvalidSpec(msg_invalid_simple_spec(block)))
                    } else if p.build is Some && p.op != SimpleOp::Cmp(Operator::Eq) && p.op
                        != SimpleOp::Cmp(Operator::Neq) {
                        Err(ErrorView::InvalidSpec(msg_invalid_simple_spec(block)))
                    } else {
                        legacy_clause(p, t)
                    }
                },
            }
        },
    }
}

/// The clauses of the blocks, in order, or the error of the first block that fails.
pub open spec fn legacy_blocks(blocks: Seq<Seq<char>>) -> Result<Seq<ClauseView>, ErrorView>
    decreases blocks.len(),
{
    if blocks.len() == 0 {
        Ok(Seq::empty())
    } else {
        match legacy_blocks(blocks.drop_last()) {
            Err(e) => Err(e),
            Ok(cs) => match spec_legacy_block(blocks.last()) {
                Err(e) => Err(e),
                Ok(c) => Ok(cs.push(c)),
            },
        }
    }
}

/// The children of an `AllOf`; any other clause alone.
pub open spec fn allof_children(c: ClauseView) -> Seq<ClauseView> {
    match c {
        ClauseView::AllOf(xs) => xs,
        _ => seq![c],
    }
}

/// What parsing `s` in the full simple syntax gives: the blocks `&`-ed
/// together; with a comma, their ranges in one `AllOf`, duplicates dropped.
pub open spec fn spec_legacy_expression(s: Seq<char>) -> Result<ClauseView, ErrorView> {
    if all_whitespace(s) {
        Err(ErrorView::InvalidSpec(msg_empty_simple_spec()))
    } else {
        match legacy_blocks(split_on(s, ',')) {
            Err(e) => Err(e),
            Ok(cs) => if s.contains(',') {
                Ok(ClauseView::AllOf(dedup_clauses(allof_children(and_fold(cs)))))
            } else {
                Ok(and_fold(cs))
            },
        }
    }
}

// ---------------------------------------------------------------------------
// Executable parser
// ---------------------------------------------------------------------------

pub(crate) struct LegacyParts {
    pub(crate) op: SimpleOp,
    pub(crate) major: Vec<char>,
    pub(crate) minor: Option<Vec<char>>,
    pub(crate) patch: Option<Vec<char>>,
    pub(crate) prerelease: Option<Vec<char>>,
    pub(crate) build: Option<Vec<char>>,
}

pub(crate) open spec fn legacy_parts_view(p: LegacyParts) -> LegacyPieces {
    LegacyPieces {
        op: p.op,
        major: p.major@,
        minor: opt_chars(p.minor),
        patch: opt_chars(p.patch),
        prerelease: opt_chars(p.prerelease),
        build: opt_chars(p.build),
    }
}

/// A part: `*`, or ASCII digits.
pub open spec fn legacy_part_ok(c: Seq<char>) -> bool {
    is_star(c) || (c.len() > 0 && all_digits(c))
}

pub open spec fn opt_legacy_part_ok(o: Option<Seq<char>>) -> bool {
    match o {
        Some(c) => legacy_part_ok(c),
        None => true,
    }
}

fn legacy_component_exec(r: &Vec<char>) -> (res: Option<(Vec<char>, Vec<char>)>)
    ensures
        match legacy_component(r@) {
            Some((c, rest)) => res matches Some((cv, rv)) && cv@ == c && rv@ == rest
                && legacy_part_ok(c),
            None => res is None,
        },
{
    if r.len() > 0 && (r[0] == '*' || r[0] == '0') {
        let c = sub_chars(r, 0, 1);
        let rest = sub_chars(r, 1, r.len());
        assert(c@ =~= r@.take(1));
        assert(rest@ =~= r@.skip(1));
        proof {
            if r@[0] == '0' {
                assert(all_digits(c@)) by {
                    assert(c@[0] == '0');
                }
            }
        }
        Some((c, rest))
    } else {
        let n = digit_run_at(r, 0);
        assert(r@.skip(0) =~= r@);
        if n > 0 {
            proof {
                lemma_digit_run(r@);
            }
            let c = sub_chars(r, 0, n);
            let rest = sub_chars(r, n, r.len());
            assert(c@ =~= r@.take(n as int));
            assert(rest@ =~= r@.skip(n as int));
            Some((c, rest))
        } else {
            None
        }
    }
}

fn legacy_dotted_exec(r: Vec<char>) -> (res: Option<(Option<Vec<char>>, Vec<char>)>)
    ensures
        match legacy_dotted(r@) {
            Some((c, rest)) => res matches Some((cv, rv)) && opt_chars(cv) == c && rv@ == rest
                && opt_legacy_part_ok(c),
            None => res is None,
        },
{
    if r.len() > 0 && r[0] == '.' {
        let t = sub_chars(&r, 1, r.len());
        assert(t@ =~= r@.drop_first());
        match legacy_component_exec(&t) {
            Some((c, rest)) => Some((Some(c), rest)),
            None => None,
        }
    } else {
        Some((None, r))
    }
}

fn legacy_pieces_exec(b: &Vec<char>) -> (res: Option<LegacyParts>)
    ensures
        match legacy_pieces(b@) {
            Some(p) => res matches Some(q) && legacy_parts_view(q) == p && legacy_part_ok(p.major)
                && opt_legacy_part_ok(p.minor) && opt_legacy_part_ok(p.patch),
            None => res is None,
        },
{
    let (op, n) = crate::simple_spec::simple_op_exec(b);
    let r0 = sub_chars(b, n, b.len());
    assert(r0@ =~= b@.skip(n as int));
    let (major, r1) = match legacy_component_exec(&r0) {
        Some(x) => x,
        None => {
            return None;
        },
    };
    let (minor, r2) = match legacy_dotted_exec(r1) {
        Some(x) => x,
        None => {
            return None;
        },
    };
    let (patch, r3) = if minor.is_some() {
        match legacy_dotted_exec(r2) {
            Some(x) => x,
            None => {
                return None;
            },
        }
    } else {
        (None, r2)
    };
    match version_tail_exec(&r3, false) {
        Some((pre, build)) => Some(LegacyParts { op, major, minor, patch, prerelease: pre, build }),
        None => None,
    }
}

/// The value of a part: `Ok(None)` for `*`, `Err` when too big.
fn part_value_exec(c: &Vec<char>) -> (r: Result<Option<u64>, ()>)
    requires
        legacy_part_ok(c@),
    ensures
        r is Err <==> part_too_big(c@),
        r matches Ok(v) ==> v == part_value(c@),
{
    if c.len() == 1 && c[0] == '*' {
        Ok(None)
    } else {
        match parse_u64(c) {
            Some(n) => Ok(Some(n)),
            None => Err(()),
        }
    }
}

fn opt_part_value_exec(o: &Option<Vec<char>>) -> (r: Result<Option<u64>, ()>)
    requires
        opt_legacy_part_ok(opt_chars(*o)),
    ensures
        r is Err <==> opt_part_too_big(opt_chars(*o)),
        r matches Ok(v) ==> v == opt_part_value(opt_chars(*o)),
{
    match o {
        Some(c) => part_value_exec(c),
        None => Ok(None),
    }
}

fn loose_prerelease_exec(p: &Vec<char>) -> (r: Result<Vec<PreReleaseIdent>, SemverError>)
    ensures
        match loose_prerelease(p@) {
            Ok(ids) => r matches Ok(v) && pre_views(v@) == ids,
            Err(e) => r matches Err(x) && x@ == e,
        },
{
    let parts = split_chars(p, '.');
    let ghost pv = texts_view(parts@);
    let mut i: usize = 0;
    while i < parts.len()
        invariant
            i <= parts.len(),
            pv == texts_view(parts@),
            pv == split_on(p@, '.'),
            forall|j: int| 0 <= j < i ==> #[trigger] pv[j].len() > 0,
        decreases parts.len() - i,
    {
        if parts[i].len() == 0 {
            assert(pv[i as int].len() == 0);
            let text = string_of(p);
            let d = debug_string(text.as_str());
            let mut m = chars_of("Invalid empty identifier '' in ");
            let dc = chars_of(d.as_str());
            append_chars(&mut m, &dc);
            return Err(SemverError::invalid_spec(m));
        }
        i = i + 1;
    }
    let mut out: Vec<PreReleaseIdent> = Vec::new();
    let mut k: usize = 0;
    while k < parts.len()
        invariant
            k <= parts.len(),
            pv == texts_view(parts@),
            pre_views(out@) == pv.take(k as int).map_values(|t: Seq<char>| loose_pre_ident(t)),
        decreases parts.len() - k,
    {
        let id = loose_pre_ident_exec(&parts[k]);
        let ghost before = pre_views(out@);
        out.push(id);
        proof {
            assert(pre_views(out@) =~= before.push(loose_pre_ident(pv[k as int])));
            assert(pv.take(k + 1).map_values(|t: Seq<char>| loose_pre_ident(t)) =~= pv.take(
                k as int,
            ).map_values(|t: Seq<char>| loose_pre_ident(t)).push(loose_pre_ident(pv[k as int])));
        }
        k = k + 1;
    }
    assert(pv.take(parts.len() as int) =~= pv);
    Ok(out)
}

fn build_list_exec(b: &Vec<char>) -> (r: Vec<BuildIdent>)
    ensures
        build_views(r@) == split_on(b@, '.').map_values(|t: Seq<char>| build_ident_of(t)),
{
    let parts = split_chars(b, '.');
    let ghost pv = texts_view(parts@);
    let mut out: Vec<BuildIdent> = Vec::new();
    let mut k: usize = 0;
    while k < parts.len()
        invariant
            k <= parts.len(),
            pv == texts_view(parts@),
            pv == split_on(b@, '.'),
            build_views(out@) == pv.take(k as int).map_values(|t: Seq<char>| build_ident_of(t)),
        decreases parts.len() - k,
    {
        let text = string_of(&parts[k]);
        let id = BuildIdent::parse(text.as_str());
        let ghost before = build_views(out@);
        out.push(id);
        proof {
            assert(build_views(out@) =~= before.push(build_ident_of(pv[k as int])));
            assert(pv.take(k + 1).map_values(|t: Seq<char>| build_ident_of(t)) =~= pv.take(
                k as int,
            ).map_values(|t: Seq<char>| build_ident_of(t)).push(build_ident_of(pv[k as int])));
        }
        k = k + 1;
    }
    assert(pv.take(parts.len() as int) =~= pv);
    out
}

pub open spec fn version_result(r: Result<Version, SemverError>) -> Result<VersionView, ErrorView> {
    match r {
        Ok(v) => Ok(v@),
        Err(e) => Err(e@),
    }
}

fn nonempty_exec(o: &Option<Vec<char>>) -> (r: bool)
    ensures
        r == nonempty(opt_chars(*o)),
{
    match o {
        Some(t) => t.len() > 0,
        None => false,
    }
}

fn legacy_target_exec(p: &LegacyParts, major: Option<u64>, minor: Option<u64>, patch: Option<u64>) -> (r: Result<Version, SemverError>)
    requires
        major == part_value(legacy_parts_view(*p).major),
        minor == opt_part_value(legacy_parts_view(*p).minor),
        patch == opt_part_value(legacy_parts_view(*p).patch),
    ensures
        version_result(r) == legacy_target(legacy_parts_view(*p)),
{
    match (major, minor, patch) {
        (None, _, _) => Ok(Version::release_exec(0, 0, 0)),
        (Some(mj), None, _) => Ok(Version::release_exec(mj, 0, 0)),
        (Some(mj), Some(mn), None) => Ok(Version::release_exec(mj, mn, 0)),
        (Some(mj), Some(mn), Some(pt)) => {
            let pre = if nonempty_exec(&p.prerelease) {
                match &p.prerelease {
                    Some(t) => match loose_prerelease_exec(t) {
                        Ok(v) => v,
                        Err(e) => {
                            return Err(e);
                        },
                    },
                    None => crate::version::no_pre(),
                }
            } else {
                crate::version::no_pre()
            };
            let bld = if nonempty_exec(&p.build) {
                match &p.build {
                    Some(t) => build_list_exec(t),
                    None => crate::version::no_build(),
                }
            } else {
                crate::version::no_build()
            };
            Ok(
                Version {
                    major: mj,
                    minor: Some(mn),
                    patch: Some(pt),
                    prerelease: Some(pre),
                    build: Some(bld),
                    partial: false,
                },
            )
        },
    }
}

fn plain_range_exec(op: Operator, t: Version) -> (r: Result<Clause, SemverError>)
    ensures
        clause_result_view(r) == plain_range(op, t@),
{
    range_clause_exec(op, t, PrereleasePolicy::Natural, BuildPolicy::Implicit)
}

fn both_exec(a: Result<Clause, SemverError>, b: Result<Clause, SemverError>) -> (r: Result<Clause, SemverError>)
    ensures
        clause_result_view(r) == both(clause_result_view(a), clause_result_view(b)),
{
    match a {
        Err(e) => Err(e),
        Ok(x) => match b {
            Err(e) => Err(e),
            Ok(y) => Ok(x.and(y)),
        },
    }
}

fn either_exec(a: Result<Clause, SemverError>, b: Result<Clause, SemverError>) -> (r: Result<Clause, SemverError>)
    ensures
        clause_result_view(r) == either(clause_result_view(a), clause_result_view(b)),
{
    match a {
        Err(e) => Err(e),
        Ok(x) => match b {
            Err(e) => Err(e),
            Ok(y) => Ok(x.or(y)),
        },
    }
}

fn legacy_clause_exec(
    p: &LegacyParts,
    t: Version,
    major_none: bool,
    minor_none: bool,
    patch_none: bool,
) -> (r: Result<Clause, SemverError>)
    requires
        major_none == (part_value(legacy_parts_view(*p).major) is None),
        minor_none == (opt_part_value(legacy_parts_view(*p).minor) is None),
        patch_none == (opt_part_value(legacy_parts_view(*p).patch) is None),
    ensures
        clause_result_view(r) == legacy_clause(legacy_parts_view(*p), t@),
{
    let empty_pre = match &p.prerelease {
        Some(x) => x.len() == 0,
        None => false,
    };
    let empty_build = match &p.build {
        Some(x) => x.len() == 0,
        None => false,
    };
    proof {
        let q = legacy_parts_view(*p);
        if empty_pre {
            assert(q.prerelease->0 =~= Seq::<char>::empty());
        }
        if empty_build {
            assert(q.build->0 =~= Seq::<char>::empty());
        }
    }
    match p.op {
        SimpleOp::Caret => {
            let high = if t.major > 0 {
                t.next_major()
            } else if unwrap_or_zero_exec(t.minor) > 0 {
                t.next_minor()
            } else {
                t.next_patch()
            };
            let lo = plain_range_exec(Operator::Gte, t);
            both_exec(lo, plain_range_exec(Operator::Lt, high))
        },
        SimpleOp::Tilde => {
            let high = if minor_none {
                t.next_major()
            } else {
                t.next_minor()
            };
            let lo = plain_range_exec(Operator::Gte, t);
            both_exec(lo, plain_range_exec(Operator::Lt, high))
        },
        SimpleOp::Compatible => {
            let high = if minor_none || patch_none {
                t.next_major()
            } else {
                t.next_minor()
            };
            let lo = plain_range_exec(Operator::Gte, t);
            both_exec(lo, plain_range_exec(Operator::Lt, high))
        },
        SimpleOp::Cmp(Operator::Eq) => {
            if major_none {
                plain_range_exec(Operator::Gte, t)
            } else if minor_none {
                let high = t.next_major();
                let lo = plain_range_exec(Operator::Gte, t);
                both_exec(lo, plain_range_exec(Operator::Lt, high))
            } else if patch_none {
                let high = t.next_minor();
                let lo = plain_range_exec(Operator::Gte, t);
                both_exec(lo, plain_range_exec(Operator::Lt, high))
            } else if empty_build {
                range_clause_exec(Operator::Eq, t, PrereleasePolicy::Natural, BuildPolicy::Strict)
            } else {
                plain_range_exec(Operator::Eq, t)
            }
        },
        SimpleOp::Cmp(Operator::Neq) => {
            if minor_none {
                let high = t.next_major();
                let lo = plain_range_exec(Operator::Lt, t);
                either_exec(lo, plain_range_exec(Operator::Gte, high))
            } else if patch_none {
                let high = t.next_minor();
                let lo = plain_range_exec(Operator::Lt, t);
                either_exec(lo, plain_range_exec(Operator::Gte, high))
            } else if empty_pre {
                range_clause_exec(Operator::Neq, t, PrereleasePolicy::Always, BuildPolicy::Implicit)
            } else if empty_build {
                range_clause_exec(Operator::Neq, t, PrereleasePolicy::Natural, BuildPolicy::Strict)
            } else {
                plain_range_exec(Operator::Neq, t)
            }
        },
        SimpleOp::Cmp(Operator::Gt) => {
            if minor_none {
                plain_range_exec(Operator::Gte, t.next_major())
            } else if patch_none {
                plain_range_exec(Operator::Gte, t.next_minor())
            } else {
                plain_range_exec(Operator::Gt, t)
            }
        },
        SimpleOp::Cmp(Operator::Gte) => plain_range_exec(Operator::Gte, t),
        SimpleOp::Cmp(Operator::Lt) => {
            if empty_pre {
                range_clause_exec(Operator::Lt, t, PrereleasePolicy::Always, BuildPolicy::Implicit)
            } else {
                plain_range_exec(Operator::Lt, t)
            }
        },
        SimpleOp::Cmp(Operator::Lte) => {
            if minor_none {
                plain_range_exec(Operator::Lt, t.next_major())
            } else if patch_none {
                plain_range_exec(Operator::Lt, t.next_minor())
            } else {
                plain_range_exec(Operator::Lte, t)
            }
        },
    }
}

/// One block of the full simple syntax.
pub fn parse_block(block: &Vec<char>) -> (r: Result<Clause, SemverError>)
    ensures
        clause_result_view(r) == spec_legacy_block(block@),
{
    let p = match legacy_pieces_exec(block) {
        Some(p) => p,
        None => {
            return Err(SemverError::invalid_block(block));
        },
    };
    let major = match part_value_exec(&p.major) {
        Ok(v) => v,
        Err(_) => {
            return Err(SemverError::invalid_block(block));
        },
    };
    let minor = match opt_part_value_exec(&p.minor) {
        Ok(v) => v,
        Err(_) => {
            return Err(SemverError::invalid_block(block));
        },
    };
    let patch = match opt_part_value_exec(&p.patch) {
        Ok(v) => v,
        Err(_) => {
            return Err(SemverError::invalid_block(block));
        },
    };
    let t = match legacy_target_exec(&p, major, minor, patch) {
        Ok(t) => t,
        Err(e) => {
            return Err(e);
        },
    };
    let partial = major.is_none() || minor.is_none() || patch.is_none();
    if partial && (nonempty_exec(&p.prerelease) || nonempty_exec(&p.build)) {
        return Err(SemverError::InvalidSpec(quoted_message("Invalid simple spec ", block)));
    }
    if p.build.is_some() && p.op != SimpleOp::Cmp(Operator::Eq) && p.op != SimpleOp::Cmp(
        Operator::Neq,
    ) {
        return Err(SemverError::InvalidSpec(quoted_message("Invalid simple spec ", block)));
    }
    legacy_clause_exec(&p, t, major.is_none(), minor.is_none(), patch.is_none())
}

proof fn lemma_legacy_blocks_fail(parts: Seq<Seq<char>>, n: int)
    requires
        0 <= n < parts.len(),
        legacy_blocks(parts.take(n)) is Ok,
        spec_legacy_block(parts[n]) is Err,
    ensures
        legacy_blocks(parts) == Err::<Seq<ClauseView>, ErrorView>(
            spec_legacy_block(parts[n])->Err_0,
        ),
    decreases parts.len() - n,
{
    if n + 1 == parts.len() {
        assert(parts.drop_last() =~= parts.take(n));
    } else {
        assert(parts.drop_last().take(n) =~= parts.take(n));
        lemma_legacy_blocks_fail(parts.drop_last(), n);
    }
}

fn allof_children_exec(c: Clause) -> (r: Vec<Clause>)
    ensures
        clauses_view(r@) == allof_children(c@),
{
    match c {
        Clause::AllOf(xs) => xs,
        other => {
            let ghost ov = other@;
            let mut v: Vec<Clause> = Vec::new();
            v.push(other);
            proof {
                lemma_clauses_view(v@);
                assert(clauses_view(v@) =~= seq![ov]);
            }
            v
        },
    }
}

/// Parse a spec in the full simple syntax: blocks joined by `,`.
pub fn parse_expression(s: &str) -> (r: Result<Clause, SemverError>)
    ensures
        clause_result_view(r) == spec_legacy_expression(s@),
{
    let v = chars_of(s);
    let mut blank = true;
    let mut i: usize = 0;
    while i < v.len()
        invariant
            i <= v.len(),
            blank == (forall|j: int| 0 <= j < i ==> is_whitespace(#[trigger] v@[j])),
        decreases v.len() - i,
    {
        if !is_whitespace_char(v[i]) {
            blank = false;
        }
        i = i + 1;
    }
    if blank {
        return Err(SemverError::empty_simple_spec());
    }
    let mut comma = false;
    let mut j: usize = 0;
    while j < v.len()
        invariant
            j <= v.len(),
            comma == (exists|k: int| 0 <= k < j && v@[k] == ','),
        decreases v.len() - j,
    {
        if v[j] == ',' {
            comma = true;
        }
        j = j + 1;
    }
    assert(comma == v@.contains(','));
    let blocks = split_chars(&v, ',');
    let ghost parts = texts_view(blocks@);
    let mut acc = Clause::Always;
    let mut n: usize = 0;
    let ghost mut views: Seq<ClauseView> = Seq::empty();
    assert(parts.take(0) =~= Seq::<Seq<char>>::empty());
    while n < blocks.len()
        invariant
            n <= blocks.len(),
            v@ == s@,
            !all_whitespace(v@),
            comma == v@.contains(','),
            parts == texts_view(blocks@),
            parts == split_on(v@, ','),
            legacy_blocks(parts.take(n as int)) == Ok::<Seq<ClauseView>, ErrorView>(views),
            acc@ == and_fold(views),
        decreases blocks.len() - n,
    {
        let c = match parse_block(&blocks[n]) {
            Ok(c) => c,
            Err(e) => {
                proof {
                    assert(parts.take(n + 1).drop_last() =~= parts.take(n as int));
                    assert(parts.take(n + 1).last() == parts[n as int]);
                    lemma_legacy_blocks_fail(parts, n as int);
                }
                return Err(e);
            },
        };
        proof {
            assert(parts.take(n + 1).drop_last() =~= parts.take(n as int));
            assert(parts.take(n + 1).last() == parts[n as int]);
            assert(views.push(c@).drop_last() =~= views);
        }
        let ghost cv = c@;
        acc = acc.and(c);
        proof {
            views = views.push(cv);
        }
        n = n + 1;
    }
    assert(parts.take(blocks.len() as int) =~= parts);
    if comma {
        Ok(Clause::AllOf(Clause::dedup_list(allof_children_exec(acc))))
    } else {
        Ok(acc)
    }
}

// ---------------------------------------------------------------------------
// Single requirements
// ---------------------------------------------------------------------------

/// One requirement such as `>=1.2.3`, `^1.2` or `*`: its kind (the operator,
/// with `=` and no operator written `==`), its partial version, and the
/// clause it stands for.
#[derive(Debug, Clone)]
pub struct SpecItem {
    pub kind: String,
    pub spec: Option<Version>,
    pub clause: Clause,
}

pub struct SpecItemView {
    pub kind: Seq<char>,
    pub spec: Option<VersionView>,
    pub clause: ClauseView,
}

impl View for SpecItem {
    type V = SpecItemView;

    open spec fn view(&self) -> SpecItemView {
        SpecItemView {
            kind: self.kind@,
            spec: match self.spec {
                Some(v) => Some(v@),
                None => None,
            },
            clause: self.clause@,
        }
    }
}

/// `s` has an ASCII digit at index `n`.
pub open spec fn digit_at(s: Seq<char>, n: int) -> bool {
    0 <= n < s.len() && '0' <= s[n] && s[n] <= '9'
}

/// `s` starts with the two characters `a`, `b`, followed by a digit.
pub open spec fn starts2(s: Seq<char>, a: char, b: char) -> bool {
    s.len() >= 2 && s[0] == a && s[1] == b && digit_at(s, 2)
}

/// `s` starts with the character `a`, followed by a digit.
pub open spec fn starts1(s: Seq<char>, a: char) -> bool {
    s.len() >= 1 && s[0] == a && digit_at(s, 1)
}

/// The kind of a requirement and the length of its operator.
pub open spec fn requirement_kind(s: Seq<char>) -> Option<(Seq<char>, int)> {
    if starts2(s, '<', '=') {
        Some(("<="@, 2))
    } else if starts2(s, '=', '=') {
        Some(("=="@, 2))
    } else if starts2(s, '>', '=') {
        Some((">="@, 2))
    } else if starts2(s, '!', '=') {
        Some(("!="@, 2))
    } else if starts2(s, '~', '=') {
        Some(("~="@, 2))
    } else if starts1(s, '<') {
        Some(("<"@, 1))
    } else if starts1(s, '>') {
        Some((">"@, 1))
    } else if starts1(s, '=') {
        Some(("=="@, 1))
    } else if starts1(s, '^') {
        Some(("^"@, 1))
    } else if starts1(s, '~') {
        Some(("~"@, 1))
    } else if digit_at(s, 0) {
        Some(("=="@, 0))
    } else {
        None
    }
}

/// What parsing the requirement `s` gives.
pub open spec fn spec_parse_requirement(s: Seq<char>) -> Result<SpecItemView, ErrorView> {
    if s.len() == 0 {
        Err(ErrorView::InvalidSpec("Invalid empty requirement specification: "@ + debug_rendering(s)))
    } else if s == "*"@ {
        match spec_legacy_expression(s) {
            Err(e) => Err(e),
            Ok(c) => Ok(SpecItemView { kind: "*"@, spec: None, clause: c }),
        }
    } else {
        match requirement_kind(s) {
            None => Err(ErrorView::InvalidSpec("Invalid requirement specification: "@ + debug_rendering(s))),
            Some((kind, n)) => match crate::version::spec_parse_version(s.skip(n), true) {
                Err(e) => Err(e),
                Ok(v) => if v.build is Some && kind != "=="@ && kind != "!="@ {
                    Err(
                        ErrorView::InvalidSpec(
                            "Invalid requirement specification "@ + debug_rendering(s)
                                + ": build numbers have no ordering."@,
                        ),
                    )
                } else {
                    match spec_legacy_expression(s) {
                        Err(e) => Err(e),
                        Ok(c) => Ok(SpecItemView { kind, spec: Some(v), clause: c }),
                    }
                },
            },
        }
    }
}

pub open spec fn item_result_view(r: Result<SpecItem, SemverError>) -> Result<SpecItemView, ErrorView> {
    match r {
        Ok(x) => Ok(x@),
        Err(e) => Err(e@),
    }
}

fn is_digit_at(v: &Vec<char>, n: usize) -> (r: bool)
    ensures
        r == digit_at(v@, n as int),
{
    n < v.len() && '0' <= v[n] && v[n] <= '9'
}

fn requirement_kind_exec(v: &Vec<char>) -> (r: Option<(&'static str, usize)>)
    ensures
        match requirement_kind(v@) {
            Some((k, n)) => r matches Some((kv, nv)) && kv@ == k && nv == n,
            None => r is None,
        },
{
    let n = v.len();
    if n >= 2 && v[0] == '<' && v[1] == '=' && is_digit_at(v, 2) {
        Some(("<=", 2))
    } else if n >= 2 && v[0] == '=' && v[1] == '=' && is_digit_at(v, 2) {
        Some(("==", 2))
    } else if n >= 2 && v[0] == '>' && v[1] == '=' && is_digit_at(v, 2) {
        Some((">=", 2))
    } else if n >= 2 && v[0] == '!' && v[1] == '=' && is_digit_at(v, 2) {
        Some(("!=", 2))
    } else if n >= 2 && v[0] == '~' && v[1] == '=' && is_digit_at(v, 2) {
        Some(("~=", 2))
    } else if n >= 1 && v[0] == '<' && is_digit_at(v, 1) {
        Some(("<", 1))
    } else if n >= 1 && v[0] == '>' && is_digit_at(v, 1) {
        Some((">", 1))
    } else if n >= 1 && v[0] == '=' && is_digit_at(v, 1) {
        Some(("==", 1))
    } else if n >= 1 && v[0] == '^' && is_digit_at(v, 1) {
        Some(("^", 1))
    } else if n >= 1 && v[0] == '~' && is_digit_at(v, 1) {
        Some(("~", 1))
    } else if is_digit_at(v, 0) {
        Some(("==", 0))
    } else {
        None
    }
}

fn debug_message(prefix: &str, s: &str, suffix: &str) -> (r: SemverError)
    ensures
        r@ == ErrorView::InvalidSpec(prefix@ + debug_rendering(s@) + suffix@),
{
    let mut m = chars_of(prefix);
    let d = debug_string(s);
    let dc = chars_of(d.as_str());
    append_chars(&mut m, &dc);
    let tail = chars_of(suffix);
    append_chars(&mut m, &tail);
    SemverError::invalid_spec(m)
}

impl SpecItem {
    /// Parse one requirement, e.g. `>=1.2.3`, `~1.2`, `==0.1.*` or `*`.
    pub fn parse_requirement(s: &str) -> (r: Result<Self, SemverError>)
        ensures
            item_result_view(r) == spec_parse_requirement(s@),
    {
        let v = chars_of(s);
        proof {
            reveal_strlit("*");
            reveal_strlit("");
        }
        if v.len() == 0 {
            return Err(debug_message("Invalid empty requirement specification: ", s, ""));
        }
        if v.len() == 1 && v[0] == '*' {
            assert(s@ =~= "*"@);
            let clause = match parse_expression(s) {
                Ok(c) => c,
                Err(e) => {
                    return Err(e);
                },
            };
            return Ok(SpecItem { kind: string_of(&chars_of("*")), spec: None, clause });
        }
        assert(s@ != "*"@) by {
            if s@ == "*"@ {
                assert(v@.len() == 1 && v@[0] == '*');
            }
        }
        let (kind, n) = match requirement_kind_exec(&v) {
            Some(x) => x,
            None => {
                return Err(debug_message("Invalid requirement specification: ", s, ""));
            },
        };
        let rest = sub_chars(&v, n, v.len());
        assert(rest@ =~= s@.skip(n as int));
        let spec = match Version::parse_chars(&rest, true) {
            Ok(x) => x,
            Err(e) => {
                return Err(e);
            },
        };
        let kind_chars = chars_of(kind);
        let eq = chars_of("==");
        let neq = chars_of("!=");
        let is_eq = crate::text::chars_eq(&kind_chars, &eq);
        let is_neq = crate::text::chars_eq(&kind_chars, &neq);
        if spec.build.is_some() && !is_eq && !is_neq {
            return Err(
                debug_message(
                    "Invalid requirement specification ",
                    s,
                    ": build numbers have no ordering.",
                ),
            );
        }
        let clause = match parse_expression(s) {
            Ok(c) => c,
            Err(e) => {
                return Err(e);
            },
        };
        Ok(SpecItem { kind: string_of(&kind_chars), spec: Some(spec), clause })
    }

    /// Whether `version` satisfies this requirement.
    pub fn matches(&self, version: &Version) -> (r: bool)
        ensures
            r == clause_matches(self.clause@, version@),
    {
        self.clause.matches(version)
    }
}

// ---------------------------------------------------------------------------
// Specs of several requirements
// ---------------------------------------------------------------------------

pub open spec fn strings_view(v: Seq<String>) -> Seq<Seq<char>> {
    v.map_values(|x: String| x@)
}

pub open spec fn versions_view(v: Seq<Version>) -> Seq<VersionView> {
    v.map_values(|x: Version| x@)
}

pub open spec fn items_view(v: Seq<SpecItem>) -> Seq<SpecItemView> {
    v.map_values(|x: SpecItem| x@)
}

/// The versions of `vs` that satisfy `c`, in order.
pub open spec fn filter_matching(c: ClauseView, vs: Seq<VersionView>) -> Seq<VersionView>
    decreases vs.len(),
{
    if vs.len() == 0 {
        Seq::empty()
    } else {
        let f = filter_matching(c, vs.drop_last());
        if clause_matches(c, vs.last()) {
            f.push(vs.last())
        } else {
            f
        }
    }
}

/// The first of the versions of `vs` that satisfy `c` with the highest precedence.
pub open spec fn select_best(c: ClauseView, vs: Seq<VersionView>) -> Option<VersionView>
    decreases vs.len(),
{
    if vs.len() == 0 {
        None
    } else {
        let b = select_best(c, vs.drop_last());
        let v = vs.last();
        if !clause_matches(c, v) {
            b
        } else {
            match b {
                None => Some(v),
                Some(x) => if crate::version::precedence_order(v, x) > 0 {
                    Some(v)
                } else {
                    b
                },
            }
        }
    }
}

pub open spec fn single(r: Result<SpecItemView, ErrorView>) -> Result<Seq<SpecItemView>, ErrorView> {
    match r {
        Ok(x) => Ok(seq![x]),
        Err(e) => Err(e),
    }
}

/// The requirements a clause is made of: `*` for `Always`, `<0.0.0-` for
/// `Never`, one per range, the children's in order for `AllOf` and `AnyOf`.
pub open spec fn spec_items(c: ClauseView) -> Result<Seq<SpecItemView>, ErrorView>
    decreases c,
{
    match c {
        ClauseView::Always => single(spec_parse_requirement("*"@)),
        ClauseView::Never => single(spec_parse_requirement("<0.0.0-"@)),
        ClauseView::Range(r) => single(
            spec_parse_requirement(
                operator_text(r.operator) + crate::version::version_text(r.target),
            ),
        ),
        ClauseView::AllOf(cs) => spec_items_list(cs),
        ClauseView::AnyOf(cs) => spec_items_list(cs),
    }
}

pub open spec fn spec_items_list(cs: Seq<ClauseView>) -> Result<Seq<SpecItemView>, ErrorView>
    decreases cs,
{
    if cs.len() == 0 {
        Ok(Seq::empty())
    } else {
        match spec_items_list(cs.drop_last()) {
            Err(e) => Err(e),
            Ok(a) => match spec_items(cs.last()) {
                Err(e) => Err(e),
                Ok(b) => Ok(a + b),
            },
        }
    }
}

pub open spec fn items_result_view(r: Result<Vec<SpecItem>, SemverError>) -> Result<Seq<SpecItemView>, ErrorView> {
    match r {
        Ok(v) => Ok(items_view(v@)),
        Err(e) => Err(e@),
    }
}

/// A spec given as several requirements joined by `,`.
#[derive(Debug, Clone)]
pub struct Spec {
    pub clause: Clause,
    pub expression: String,
}

pub open spec fn legacy_result_view(r: Result<Spec, SemverError>) -> Result<(ClauseView, Seq<char>), ErrorView> {
    match r {
        Ok(x) => Ok((x.clause@, x.expression@)),
        Err(e) => Err(e@),
    }
}

fn single_exec(r: Result<SpecItem, SemverError>) -> (res: Result<Vec<SpecItem>, SemverError>)
    ensures
        items_result_view(res) == single(item_result_view(r)),
{
    match r {
        Ok(x) => {
            let ghost xv = x@;
            let mut v: Vec<SpecItem> = Vec::new();
            v.push(x);
            assert(items_view(v@) =~= seq![xv]);
            Ok(v)
        },
        Err(e) => Err(e),
    }
}

impl Spec {
    /// The spec of the requirements `expressions`, joined by `,`.
    pub fn new(expressions: Vec<String>) -> (r: Result<Self, SemverError>)
        ensures
            legacy_result_view(r) == match spec_legacy_expression(
                crate::text::join_with(strings_view(expressions@), ','),
            ) {
                Ok(c) => Ok::<(ClauseView, Seq<char>), ErrorView>(
                    (c, crate::text::join_with(strings_view(expressions@), ',')),
                ),
                Err(e) => Err(e),
            },
    {
        let mut texts: Vec<Vec<char>> = Vec::new();
        let mut i: usize = 0;
        while i < expressions.len()
            invariant
                i <= expressions.len(),
                texts_view(texts@) == strings_view(expressions@).take(i as int),
            decreases expressions.len() - i,
        {
            let t = chars_of(expressions[i].as_str());
            let ghost before = texts_view(texts@);
            texts.push(t);
            proof {
                assert(texts_view(texts@) =~= before.push(expressions@[i as int]@));
                assert(strings_view(expressions@).take(i + 1) =~= strings_view(expressions@).take(
                    i as int,
                ).push(expressions@[i as int]@));
            }
            i = i + 1;
        }
        assert(strings_view(expressions@).take(expressions.len() as int) =~= strings_view(
            expressions@,
        ));
        let mut joined: Vec<char> = Vec::new();
        crate::text::push_joined(&mut joined, &texts, ',');
        assert(joined@ =~= crate::text::join_with(strings_view(expressions@), ','));
        let expression = string_of(&joined);
        match parse_expression(expression.as_str()) {
            Ok(clause) => Ok(Spec { clause, expression }),
            Err(e) => Err(e),
        }
    }

    /// Whether `version` satisfies this spec.
    pub fn match_version(&self, version: &Version) -> (r: bool)
        ensures
            r == clause_matches(self.clause@, version@),
    {
        self.clause.matches(version)
    }

    /// The versions of `versions` that satisfy this spec, in order.
    pub fn filter(&self, versions: &Vec<Version>) -> (r: Vec<Version>)
        ensures
            versions_view(r@) == filter_matching(self.clause@, versions_view(versions@)),
    {
        let ghost vv = versions_view(versions@);
        let mut out: Vec<Version> = Vec::new();
        let mut i: usize = 0;
        assert(vv.take(0) =~= Seq::<VersionView>::empty());
        assert(versions_view(out@) =~= Seq::<VersionView>::empty());
        while i < versions.len()
            invariant
                i <= versions.len(),
                vv == versions_view(versions@),
                versions_view(out@) == filter_matching(self.clause@, vv.take(i as int)),
            decreases versions.len() - i,
        {
            proof {
                assert(vv.take(i + 1).drop_last() =~= vv.take(i as int));
                assert(vv.take(i + 1).last() == versions@[i as int]@);
            }
            if self.clause.matches(&versions[i]) {
                let ghost before = versions_view(out@);
                out.push(versions[i].duplicate());
                assert(versions_view(out@) =~= before.push(versions@[i as int]@));
            }
            i = i + 1;
        }
        assert(vv.take(versions.len() as int) =~= vv);
        out
    }

    /// The first version of `versions` with the highest precedence among
    /// those that satisfy this spec; `None` when none does.
    pub fn select(&self, versions: &Vec<Version>) -> (r: Option<Version>)
        ensures
            match r {
                Some(v) => Some(v@),
                None => None,
            } == select_best(self.clause@, versions_view(versions@)),
    {
        let ghost vv = versions_view(versions@);
        let mut best: Option<Version> = None;
        let mut i: usize = 0;
        assert(vv.take(0) =~= Seq::<VersionView>::empty());
        while i < versions.len()
            invariant
                i <= versions.len(),
                vv == versions_view(versions@),
                match best {
                    Some(v) => Some(v@),
                    None => None,
                } == select_best(self.clause@, vv.take(i as int)),
            decreases versions.len() - i,
        {
            proof {
                assert(vv.take(i + 1).drop_last() =~= vv.take(i as int));
                assert(vv.take(i + 1).last() == versions@[i as int]@);
            }
            let v = &versions[i];
            if self.clause.matches(v) {
                let replace = match &best {
                    None => true,
                    Some(cur) => v.precedence_gt(cur),
                };
                if replace {
                    best = Some(v.duplicate());
                }
            }
            i = i + 1;
        }
        assert(vv.take(versions.len() as int) =~= vv);
        best
    }

    /// The requirements this spec is made of (see `spec_items`).
    pub fn items(&self) -> (r: Result<Vec<SpecItem>, SemverError>)
        ensures
            items_result_view(r) == spec_items(self.clause@),
    {
        Self::items_of(&self.clause)
    }

    fn items_of(c: &Clause) -> (r: Result<Vec<SpecItem>, SemverError>)
        ensures
            items_result_view(r) == spec_items(c@),
        decreases c,
    {
        match c {
            Clause::Always => single_exec(SpecItem::parse_requirement("*")),
            Clause::Never => single_exec(SpecItem::parse_requirement("<0.0.0-")),
            Clause::Range(r) => {
                let t = r.text();
                let text = string_of(&t);
                single_exec(SpecItem::parse_requirement(text.as_str()))
            },
            Clause::AllOf(cs) => Self::items_of_list(cs),
            Clause::AnyOf(cs) => Self::items_of_list(cs),
        }
    }

    fn items_of_list(cs: &Vec<Clause>) -> (r: Result<Vec<SpecItem>, SemverError>)
        ensures
            items_result_view(r) == spec_items_list(clauses_view(cs@)),
        decreases cs,
    {
        proof {
            lemma_clauses_view(cs@);
        }
        let ghost cv = clauses_view(cs@);
        let mut out: Vec<SpecItem> = Vec::new();
        let mut i: usize = 0;
        assert(cv.take(0) =~= Seq::<ClauseView>::empty());
        assert(items_view(out@) =~= Seq::<SpecItemView>::empty());
        while i < cs.len()
            invariant
                i <= cs.len(),
                cv == clauses_view(cs@),
                cv.len() == cs@.len(),
                forall|j: int| 0 <= j < cs@.len() ==> #[trigger] cv[j] == cs@[j]@,
                spec_items_list(cv.take(i as int)) == Ok::<Seq<SpecItemView>, ErrorView>(
                    items_view(out@),
                ),
            decreases cs.len() - i,
        {
            proof {
                assert(decreases_to!(cs => cs@[i as int]));
                assert(cv.take(i + 1).drop_last() =~= cv.take(i as int));
                assert(cv.take(i + 1).last() == cv[i as int]);
            }
            let mut part = match Self::items_of(&cs[i]) {
                Ok(p) => p,
                Err(e) => {
                    proof {
                        lemma_items_list_fail(cv, i as int);
                    }
                    return Err(e);
                },
            };
            let ghost before = items_view(out@);
            let ghost pv = items_view(part@);
            out.append(&mut part);
            assert(items_view(out@) =~= before + pv);
            i = i + 1;
        }
        assert(cv.take(cs.len() as int) =~= cv);
        Ok(out)
    }
}

proof fn lemma_items_list_fail(cs: Seq<ClauseView>, n: int)
    requires
        0 <= n < cs.len(),
        spec_items_list(cs.take(n)) is Ok,
        spec_items(cs[n]) is Err,
    ensures
        spec_items_list(cs) == Err::<Seq<SpecItemView>, ErrorView>(spec_items(cs[n])->Err_0),
    decreases cs.len() - n,
{
    if n + 1 == cs.len() {
        assert(cs.drop_last() =~= cs.take(n));
    } else {
        assert(cs.drop_last().take(n) =~= cs.take(n));
        assert(cs.drop_last()[n] == cs[n]);
        lemma_items_list_fail(cs.drop_last(), n);
    }
}

/// Whether the version `version` satisfies the spec `spec` (full simple syntax).
pub fn match_version(spec: &str, version: &str) -> (r: Result<bool, SemverError>)
    ensures
        match r {
            Ok(b) => Ok::<bool, ErrorView>(b),
            Err(e) => Err(e@),
        } == match spec_legacy_expression(spec@) {
            Err(e) => Err(e),
            Ok(c) => match crate::version::spec_parse_version(version@, false) {
                Err(e) => Err(e),
                Ok(v) => Ok(clause_matches(c, v)),
            },
        },
{
    let clause = match parse_expression(spec) {
        Ok(c) => c,
        Err(e) => {
            return Err(e);
        },
    };
    let v = match Version::parse(version) {
        Ok(v) => v,
        Err(e) => {
            return Err(e);
        },
    };
    Ok(clause.matches(&v))
}

// ---------------------------------------------------------------------------
// The strict ranges of a legacy spec list their build identifiers
// ---------------------------------------------------------------------------

proof fn lemma_legacy_clause_listed(p: LegacyPieces, t: VersionView)
    requires
        legacy_clause(p, t) is Ok,
        t.build is Some,
    ensures
        build_listed(legacy_clause(p, t)->Ok_0),
{
    assert forall|x: ClauseView, y: ClauseView|
        build_listed(x) && build_listed(y) implies #[trigger] build_listed(and_view(x, y)) by {
        lemma_and_view_listed(x, y);
    }
    assert forall|x: ClauseView, y: ClauseView|
        build_listed(x) && build_listed(y) implies #[trigger] build_listed(or_view(x, y)) by {
        lemma_or_view_listed(x, y);
    }
}

/// The clause of a block has its strict ranges list their build identifiers.
proof fn lemma_legacy_block_listed(block: Seq<char>)
    requires
        spec_legacy_block(block) is Ok,
    ensures
        build_listed(spec_legacy_block(block)->Ok_0),
{
    let p = legacy_pieces(block)->Some_0;
    let t = legacy_target(p)->Ok_0;
    lemma_legacy_clause_listed(p, t);
}

/// The clauses of the blocks have their strict ranges list their build identifiers.
pub(crate) proof fn lemma_legacy_blocks_listed(blocks: Seq<Seq<char>>)
    requires
        legacy_blocks(blocks) is Ok,
    ensures
        each_build_listed(legacy_blocks(blocks)->Ok_0),
    decreases blocks.len(),
{
    if blocks.len() > 0 {
        lemma_legacy_blocks_listed(blocks.drop_last());
        lemma_legacy_block_listed(blocks.last());
        let cs = legacy_blocks(blocks.drop_last())->Ok_0;
        let c = spec_legacy_block(blocks.last())->Ok_0;
        assert forall|k: int| 0 <= k < cs.push(c).len() implies #[trigger] build_listed(
            cs.push(c)[k],
        ) by {
            if k < cs.len() {
                assert(cs.push(c)[k] == cs[k]);
            }
        }
    }
}

} // verus!
