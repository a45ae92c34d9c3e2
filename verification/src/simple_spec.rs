//! The "simple" range syntax: comma-separated blocks, each an operator and a
//! version.
//!
//! ```text
//! spec   = block (',' block)*                  (all blocks must hold)
//! block  = op? MAJOR ('.' MINOR ('.' PATCH)?)? ('-' PRE*)? ('+' BUILD*)?
//! op     = '==' | '=' | '!=' | '<' | '<=' | '>' | '>=' | '~=' | '^' | '~'
//! ```
//!
//! `*` alone means "any version". A trailing empty `-` on `<` and `!=` makes
//! prereleases of the bound match too; a trailing empty `+` on `==` asks for
//! strict build metadata. `~=`, `^` and `~` expand to an upper bound and a
//! lower bound, in that order.

use vstd::prelude::*;

use crate::clause::{
    and_view, build_listed, clause_matches, each_build_listed, lemma_and_view_listed,
    simplify_view, spec_range_new, BuildPolicy, Clause, ClauseView, Operator, PrereleasePolicy,
    Range, RangeView,
};
use crate::error::{msg_empty_simple_spec, msg_invalid_block, ErrorView, SemverError};
use crate::text::{
    append_chars, chars_of, is_whitespace, is_whitespace_char, split_chars, split_on, texts_view,
};
use crate::version::{
    build_or_empty, opt_chars, pieces_view, release, saturating_inc, saturating_inc_exec,
    spec_parse_version, unwrap_or_zero, version_pieces, version_pieces_exec, Pieces, Version,
    VersionPieces, VersionView,
};

verus! {

/// The operator that opens a simple block.
#[derive(Debug, Clone, Copy, PartialEq, Eq, Structural)]
pub enum SimpleOp {
    /// A plain comparison (`==`, `=` or nothing, `!=`, `<`, `<=`, `>`, `>=`).
    Cmp(Operator),
    /// `~=`
    Compatible,
    /// `^`
    Caret,
    /// `~`
    Tilde,
}

/// The operator at the start of a block and its length in characters.
pub open spec fn simple_op(b: Seq<char>) -> (SimpleOp, int) {
    if b.len() >= 2 && b[0] == '=' && b[1] == '=' {
        (SimpleOp::Cmp(Operator::Eq), 2)
    } else if b.len() >= 2 && b[0] == '!' && b[1] == '=' {
        (SimpleOp::Cmp(Operator::Neq), 2)
    } else if b.len() >= 2 && b[0] == '<' && b[1] == '=' {
        (SimpleOp::Cmp(Operator::Lte), 2)
    } else if b.len() >= 2 && b[0] == '>' && b[1] == '=' {
        (SimpleOp::Cmp(Operator::Gte), 2)
    } else if b.len() >= 2 && b[0] == '~' && b[1] == '=' {
        (SimpleOp::Compatible, 2)
    } else if b.len() >= 1 && b[0] == '=' {
        (SimpleOp::Cmp(Operator::Eq), 1)
    } else if b.len() >= 1 && b[0] == '<' {
        (SimpleOp::Cmp(Operator::Lt), 1)
    } else if b.len() >= 1 && b[0] == '>' {
        (SimpleOp::Cmp(Operator::Gt), 1)
    } else if b.len() >= 1 && b[0] == '^' {
        (SimpleOp::Caret, 1)
    } else if b.len() >= 1 && b[0] == '~' {
        (SimpleOp::Tilde, 1)
    } else {
        (SimpleOp::Cmp(Operator::Eq), 0)
    }
}

/// A version component as written, `0` when it is missing.
pub open spec fn or_zero(o: Option<Seq<char>>) -> Seq<char> {
    match o {
        Some(t) => t,
        None => "0"@,
    }
}

/// `sep` then `o`, when `o` is present and not empty.
pub open spec fn nonempty_part(sep: char, o: Option<Seq<char>>) -> Seq<char> {
    match o {
        Some(t) => if t.len() > 0 {
            seq![sep] + t
        } else {
            Seq::empty()
        },
        None => Seq::empty(),
    }
}

/// The full version text a block's version stands for: missing numbers are
/// `0`, empty prerelease and build parts are dropped.
pub open spec fn target_text(p: VersionPieces) -> Seq<char> {
    p.major + seq!['.'] + or_zero(p.minor) + seq!['.'] + or_zero(p.patch) + nonempty_part(
        '-',
        p.prerelease,
    ) + nonempty_part('+', p.build)
}

/// A range clause, or the error `Range::new` gives.
pub open spec fn range_clause(
    op: Operator,
    target: VersionView,
    pp: PrereleasePolicy,
    bp: BuildPolicy,
) -> Result<ClauseView, ErrorView> {
    match spec_range_new(op, target, pp, bp) {
        Ok(r) => Ok(ClauseView::Range(r)),
        Err(e) => Err(e),
    }
}

/// `AllOf([<upper, >=target])`, or the error building the lower bound gives.
pub open spec fn upper_lower(target: VersionView, upper: VersionView) -> Result<ClauseView, ErrorView> {
    match spec_range_new(Operator::Gte, target, PrereleasePolicy::Natural, BuildPolicy::Implicit) {
        Err(e) => Err(e),
        Ok(lower) => match spec_range_new(
            Operator::Lt,
            upper,
            PrereleasePolicy::Natural,
            BuildPolicy::Implicit,
        ) {
            Err(e) => Err(e),
            Ok(up) => Ok(ClauseView::AllOf(seq![ClauseView::Range(up), ClauseView::Range(lower)])),
        },
    }
}

/// The upper bound of `~=`: the next major release for `~=M.m`, the next
/// minor release for `~=M.m.p`.
pub open spec fn compatible_upper(target: VersionView, partial: bool) -> VersionView {
    if partial {
        release(saturating_inc(target.major), 0, 0)
    } else {
        release(target.major, saturating_inc(unwrap_or_zero(target.minor)), 0)
    }
}

/// The upper bound of `^`: the next release that changes the leftmost
/// non-zero number.
pub open spec fn caret_upper(target: VersionView) -> VersionView {
    if target.major > 0 {
        release(saturating_inc(target.major), 0, 0)
    } else if unwrap_or_zero(target.minor) > 0 {
        release(0, saturating_inc(unwrap_or_zero(target.minor)), 0)
    } else {
        release(0, 0, saturating_inc(unwrap_or_zero(target.patch)))
    }
}

/// The upper bound of `~`: the next minor release.
pub open spec fn tilde_upper(target: VersionView) -> VersionView {
    release(target.major, saturating_inc(unwrap_or_zero(target.minor)), 0)
}

/// What one block (no comma) stands for.
pub open spec fn spec_parse_simple_block(block: Seq<char>) -> Result<ClauseView, ErrorView> {
    let (op, n) = simple_op(block);
    match version_pieces(block.skip(n), true) {
        None => Err(ErrorView::InvalidSpec(msg_invalid_block(block))),
        Some(p) => match spec_parse_version(target_text(p), false) {
            Err(e) => Err(e),
            Ok(target) => match op {
                SimpleOp::Compatible => upper_lower(
                    target,
                    compatible_upper(target, p.patch is None),
                ),
                SimpleOp::Caret => upper_lower(target, caret_upper(target)),
                SimpleOp::Tilde => upper_lower(target, tilde_upper(target)),
                SimpleOp::Cmp(o) => {
                    let pp = if p.prerelease == Some(Seq::<char>::empty()) && (o == Operator::Lt
                        || o == Operator::Neq) {
                        PrereleasePolicy::Always
                    } else {
                        PrereleasePolicy::Natural
                    };
                    let bp = if (p.build == Some(Seq::<char>::empty()) && o == Operator::Eq)
                        || build_or_empty(target).len() > 0 {
                        BuildPolicy::Strict
                    } else {
                        BuildPolicy::Implicit
                    };
                    range_clause(o, target, pp, bp)
                },
            },
        },
    }
}

/// The clauses of the blocks, in order, or the error of the first block that fails.
pub open spec fn parse_simple_blocks(blocks: Seq<Seq<char>>) -> Result<Seq<ClauseView>, ErrorView>
    decreases blocks.len(),
{
    if blocks.len() == 0 {
        Ok(Seq::empty())
    } else {
        match parse_simple_blocks(blocks.drop_last()) {
            Err(e) => Err(e),
            Ok(cs) => match spec_parse_simple_block(blocks.last()) {
                Err(e) => Err(e),
                Ok(c) => Ok(cs.push(c)),
            },
        }
    }
}

/// `c0 & c1 & ... & cn`, from the left (`Always` for no clause).
pub open spec fn and_fold(cs: Seq<ClauseView>) -> ClauseView
    decreases cs.len(),
{
    if cs.len() == 0 {
        ClauseView::Always
    } else {
        and_view(and_fold(cs.drop_last()), cs.last())
    }
}

/// The range that `*` stands for: any version from `0.0.0` on.
pub open spec fn any_version_range() -> RangeView {
    RangeView {
        operator: Operator::Gte,
        target: release(0, 0, 0),
        prerelease_policy: PrereleasePolicy::Natural,
        build_policy: BuildPolicy::Implicit,
    }
}

/// Every character of `s` is white space.
pub open spec fn all_whitespace(s: Seq<char>) -> bool {
    forall|i: int| 0 <= i < s.len() ==> is_whitespace(#[trigger] s[i])
}

/// What parsing `s` as a simple spec gives.
pub open spec fn spec_simple_parse(s: Seq<char>) -> Result<ClauseView, ErrorView> {
    if all_whitespace(s) {
        Err(ErrorView::InvalidSpec(msg_empty_simple_spec()))
    } else if s == "*"@ {
        Ok(ClauseView::Range(any_version_range()))
    } else if s.contains(' ') {
        Err(ErrorView::InvalidSpec(msg_invalid_block(s)))
    } else {
        match parse_simple_blocks(split_on(s, ',')) {
            Err(e) => Err(e),
            Ok(cs) => Ok(simplify_view(and_fold(cs))),
        }
    }
}

pub open spec fn clause_result_view(r: Result<Clause, SemverError>) -> Result<ClauseView, ErrorView> {
    match r {
        Ok(c) => Ok(c@),
        Err(e) => Err(e@),
    }
}

/// A range specification in the simple syntax.
#[derive(Debug, Clone, PartialEq, Eq)]
pub struct SimpleSpec {
    pub clause: Clause,
}

pub open spec fn simple_result_view(r: Result<SimpleSpec, SemverError>) -> Result<ClauseView, ErrorView> {
    match r {
        Ok(s) => Ok(s.clause@),
        Err(e) => Err(e@),
    }
}

pub(crate) fn simple_op_exec(b: &Vec<char>) -> (r: (SimpleOp, usize))
    ensures
        (r.0, r.1 as int) == simple_op(b@),
{
    let n = b.len();
    if n >= 2 && b[0] == '=' && b[1] == '=' {
        (SimpleOp::Cmp(Operator::Eq), 2)
    } else if n >= 2 && b[0] == '!' && b[1] == '=' {
        (SimpleOp::Cmp(Operator::Neq), 2)
    } else if n >= 2 && b[0] == '<' && b[1] == '=' {
        (SimpleOp::Cmp(Operator::Lte), 2)
    } else if n >= 2 && b[0] == '>' && b[1] == '=' {
        (SimpleOp::Cmp(Operator::Gte), 2)
    } else if n >= 2 && b[0] == '~' && b[1] == '=' {
        (SimpleOp::Compatible, 2)
    } else if n >= 1 && b[0] == '=' {
        (SimpleOp::Cmp(Operator::Eq), 1)
    } else if n >= 1 && b[0] == '<' {
        (SimpleOp::Cmp(Operator::Lt), 1)
    } else if n >= 1 && b[0] == '>' {
        (SimpleOp::Cmp(Operator::Gt), 1)
    } else if n >= 1 && b[0] == '^' {
        (SimpleOp::Caret, 1)
    } else if n >= 1 && b[0] == '~' {
        (SimpleOp::Tilde, 1)
    } else {
        (SimpleOp::Cmp(Operator::Eq), 0)
    }
}

fn push_nonempty_part(out: &mut Vec<char>, sep: char, o: &Option<Vec<char>>)
    ensures
        final(out)@ == old(out)@ + nonempty_part(sep, opt_chars(*o)),
{
    match o {
        Some(t) => {
            if t.len() > 0 {
                out.push(sep);
                append_chars(out, t);
                assert(final(out)@ =~= old(out)@ + (seq![sep] + t@));
            } else {
                assert(final(out)@ =~= old(out)@ + Seq::<char>::empty());
            }
        },
        None => {
            assert(final(out)@ =~= old(out)@ + Seq::<char>::empty());
        },
    }
}

fn push_or_zero(out: &mut Vec<char>, o: &Option<Vec<char>>)
    ensures
        final(out)@ == old(out)@ + or_zero(opt_chars(*o)),
{
    match o {
        Some(t) => append_chars(out, t),
        None => {
            out.push('0');
            proof {
                reveal_strlit("0");
            }
            assert(final(out)@ =~= old(out)@ + "0"@);
        },
    }
}

fn target_text_exec(p: &Pieces) -> (r: Vec<char>)
    ensures
        r@ == target_text(pieces_view(*p)),
{
    let mut out: Vec<char> = Vec::new();
    append_chars(&mut out, &p.major);
    out.push('.');
    push_or_zero(&mut out, &p.minor);
    out.push('.');
    push_or_zero(&mut out, &p.patch);
    push_nonempty_part(&mut out, '-', &p.prerelease);
    push_nonempty_part(&mut out, '+', &p.build);
    let ghost q = pieces_view(*p);
    assert(out@ =~= target_text(q));
    out
}

pub(crate) fn range_clause_exec(
    op: Operator,
    target: Version,
    pp: PrereleasePolicy,
    bp: BuildPolicy,
) -> (r: Result<Clause, SemverError>)
    ensures
        clause_result_view(r) == range_clause(op, target@, pp, bp),
{
    match Range::new(op, target, pp, bp) {
        Ok(range) => Ok(Clause::Range(range)),
        Err(e) => Err(e),
    }
}

fn upper_lower_exec(target: &Version, upper: Version) -> (r: Result<Clause, SemverError>)
    ensures
        clause_result_view(r) == upper_lower(target@, upper@),
{
    let lower = match Range::new(
        Operator::Gte,
        target.duplicate(),
        PrereleasePolicy::Natural,
        BuildPolicy::Implicit,
    ) {
        Ok(x) => x,
        Err(e) => {
            return Err(e);
        },
    };
    let up = match Range::new(Operator::Lt, upper, PrereleasePolicy::Natural, BuildPolicy::Implicit) {
        Ok(x) => x,
        Err(e) => {
            return Err(e);
        },
    };
    let ghost uv = up@;
    let ghost lv = lower@;
    let mut v: Vec<Clause> = Vec::new();
    v.push(Clause::Range(up));
    v.push(Clause::Range(lower));
    proof {
        crate::clause::lemma_clauses_view(v@);
        assert(crate::clause::clauses_view(v@) =~= seq![
            ClauseView::Range(uv),
            ClauseView::Range(lv),
        ]);
    }
    Ok(Clause::AllOf(v))
}

pub(crate) fn unwrap_or_zero_exec(o: Option<u64>) -> (r: u64)
    ensures
        r == unwrap_or_zero(o),
{
    match o {
        Some(n) => n,
        None => 0,
    }
}

impl SimpleSpec {
    /// Parse a simple spec, e.g. `>=1.0.0,<2.0.0` or `^1.2.3`.
    ///
    /// Fails on a blank string, on a string with a space in it (blocks are
    /// separated by `,`), on a block that is not `op? version`, on a version
    /// that does not parse, and on build metadata with an ordering operator.
    pub fn parse(s: &str) -> (r: Result<Self, SemverError>)
        ensures
            simple_result_view(r) == spec_simple_parse(s@),
    {
        let v = chars_of(s);
        let mut blank = true;
        let mut i: usize = 0;
        while i < v.len()
            invariant
                i <= v.len(),
                blank == (forall|j: int| 0 <= j < i ==> is_whitespace(#[trigger] v@[j])),
            decreases v.len() - i,
        {
            if !is_whitespace_char(v[i]) {
                blank = false;
            }
            i = i + 1;
        }
        if blank {
            return Err(SemverError::empty_simple_spec());
        }
        assert(!all_whitespace(v@));
        if v.len() == 1 && v[0] == '*' {
            proof {
                reveal_strlit("*");
                assert(v@ =~= "*"@);
            }
            let range = Range {
                operator: Operator::Gte,
                target: Version::release_exec(0, 0, 0),
                prerelease_policy: PrereleasePolicy::Natural,
                build_policy: BuildPolicy::Implicit,
            };
            return Ok(SimpleSpec { clause: Clause::Range(range) });
        }
        proof {
            reveal_strlit("*");
            if v@ == "*"@ {
                assert(v@.len() == 1 && v@[0] == '*');
            }
        }
        let mut j: usize = 0;
        while j < v.len()
            invariant
                j <= v.len(),
                v@ == s@,
                !all_whitespace(v@),
                v@ != "*"@,
                forall|k: int| 0 <= k < j ==> v@[k] != ' ',
            decreases v.len() - j,
        {
            if v[j] == ' ' {
                assert(v@.contains(' ')) by {
                    assert(v@[j as int] == ' ');
                }
                return Err(SemverError::invalid_block(&v));
            }
            j = j + 1;
        }
        assert(!v@.contains(' '));
        let blocks = split_chars(&v, ',');
        let ghost parts = texts_view(blocks@);
        let mut acc = Clause::Always;
        let mut n: usize = 0;
        let ghost mut views: Seq<ClauseView> = Seq::empty();
        assert(parts.take(0) =~= Seq::<Seq<char>>::empty());
        while n < blocks.len()
            invariant
                n <= blocks.len(),
                v@ == s@,
                !all_whitespace(v@),
                v@ != "*"@,
                !v@.contains(' '),
                parts == texts_view(blocks@),
                parts == split_on(v@, ','),
                parse_simple_blocks(parts.take(n as int)) == Ok::<Seq<ClauseView>, ErrorView>(
                    views,
                ),
                acc@ == and_fold(views),
            decreases blocks.len() - n,
        {
            let c = match Self::parse_block(&blocks[n]) {
                Ok(c) => c,
                Err(e) => {
                    proof {
                        assert(parts.take(n + 1).drop_last() =~= parts.take(n as int));
                        assert(parts.take(n + 1).last() == parts[n as int]);
                        lemma_blocks_fail(parts, n as int);
                    }
                    return Err(e);
                },
            };
            proof {
                assert(parts.take(n + 1).drop_last() =~= parts.take(n as int));
                assert(parts.take(n + 1).last() == parts[n as int]);
                assert(views.push(c@).drop_last() =~= views);
            }
            let ghost cv = c@;
            acc = acc.and(c);
            proof {
                views = views.push(cv);
            }
            n = n + 1;
        }
        assert(parts.take(blocks.len() as int) =~= parts);
        Ok(SimpleSpec { clause: acc.simplify() })
    }

    /// One block: an optional operator and a version.
    fn parse_block(block: &Vec<char>) -> (r: Result<Clause, SemverError>)
        ensures
            clause_result_view(r) == spec_parse_simple_block(block@),
    {
        let (op, n) = simple_op_exec(block);
        let rest = crate::text::sub_chars(block, n, block.len());
        assert(rest@ =~= block@.skip(n as int));
        let pieces = match version_pieces_exec(&rest, true) {
            Some(p) => p,
            None => {
                return Err(SemverError::invalid_block(block));
            },
        };
        let text = target_text_exec(&pieces);
        let target = match Version::parse_chars(&text, false) {
            Ok(t) => t,
            Err(e) => {
                return Err(e);
            },
        };
        match op {
            SimpleOp::Compatible => Self::expand_compatible(&target, pieces.patch.is_none()),
            SimpleOp::Caret => Self::expand_caret(&target),
            SimpleOp::Tilde => Self::expand_tilde(&target),
            SimpleOp::Cmp(o) => {
                let empty_pre = match &pieces.prerelease {
                    Some(t) => t.len() == 0,
                    None => false,
                };
                let empty_build = match &pieces.build {
                    Some(t) => t.len() == 0,
                    None => false,
                };
                proof {
                    let q = pieces_view(pieces);
                    if empty_pre {
                        assert(q.prerelease->0 =~= Seq::<char>::empty());
                    }
                    if empty_build {
                        assert(q.build->0 =~= Seq::<char>::empty());
                    }
                }
                let pp = if empty_pre && (o == Operator::Lt || o == Operator::Neq) {
                    PrereleasePolicy::Always
                } else {
                    PrereleasePolicy::Natural
                };
                let target_build = match &target.build {
                    Some(b) => b.len() > 0,
                    None => false,
                };
                let bp = if (empty_build && o == Operator::Eq) || target_build {
                    BuildPolicy::Strict
                } else {
                    BuildPolicy::Implicit
                };
                range_clause_exec(o, target, pp, bp)
            },
        }
    }

    /// `~=M.m` is `<(M+1).0.0, >=M.m.0`; `~=M.m.p` is `<M.(m+1).0, >=M.m.p`.
    fn expand_compatible(target: &Version, partial: bool) -> (r: Result<Clause, SemverError>)
        ensures
            clause_result_view(r) == upper_lower(target@, compatible_upper(target@, partial)),
    {
        let upper = if partial {
            Version::release_exec(saturating_inc_exec(target.major), 0, 0)
        } else {
            Version::release_exec(
                target.major,
                saturating_inc_exec(unwrap_or_zero_exec(target.minor)),
                0,
            )
        };
        upper_lower_exec(target, upper)
    }

    /// `^M.m.p` is `<` the next release that changes the leftmost non-zero
    /// number, and `>=M.m.p`.
    fn expand_caret(target: &Version) -> (r: Result<Clause, SemverError>)
        ensures
            clause_result_view(r) == upper_lower(target@, caret_upper(target@)),
    {
        let minor = unwrap_or_zero_exec(target.minor);
        let upper = if target.major > 0 {
            Version::release_exec(saturating_inc_exec(target.major), 0, 0)
        } else if minor > 0 {
            Version::release_exec(0, saturating_inc_exec(minor), 0)
        } else {
            Version::release_exec(0, 0, saturating_inc_exec(unwrap_or_zero_exec(target.patch)))
        };
        upper_lower_exec(target, upper)
    }

    /// `~M.m.p` and `~M.m` are `<M.(m+1).0` and `>=` the target.
    fn expand_tilde(target: &Version) -> (r: Result<Clause, SemverError>)
        ensures
            clause_result_view(r) == upper_lower(target@, tilde_upper(target@)),
    {
        let upper = Version::release_exec(
            target.major,
            saturating_inc_exec(unwrap_or_zero_exec(target.minor)),
            0,
        );
        upper_lower_exec(target, upper)
    }

    /// The text of this spec: the text of its clause (see `clause_text`).
    pub fn to_string(&self) -> (r: String)
        ensures
            r@ == crate::clause::clause_text(self.clause@),
    {
        let t = self.clause.text();
        crate::text::string_of(&t)
    }

    /// Whether `version` satisfies this spec.
    pub fn match_version(&self, version: &Version) -> (r: bool)
        ensures
            r == clause_matches(self.clause@, version@),
    {
        self.clause.matches(version)
    }
}

proof fn lemma_blocks_fail(parts: Seq<Seq<char>>, n: int)
    requires
        0 <= n < parts.len(),
        parse_simple_blocks(parts.take(n)) is Ok,
        spec_parse_simple_block(parts[n]) is Err,
    ensures
        parse_simple_blocks(parts) == Err::<Seq<ClauseView>, ErrorView>(
            spec_parse_simple_block(parts[n])->Err_0,
        ),
    decreases parts.len() - n,
{
    if n + 1 == parts.len() {
        assert(parts.drop_last() =~= parts.take(n));
    } else {
        assert(parts.drop_last().take(n) =~= parts.take(n));
        lemma_blocks_fail(parts.drop_last(), n);
    }
}

/// `and_fold` keeps the strict ranges of its clauses listing their builds.
pub proof fn lemma_and_fold_listed(cs: Seq<ClauseView>)
    requires
        each_build_listed(cs),
    ensures
        build_listed(and_fold(cs)),
    decreases cs.len(),
{
    if cs.len() > 0 {
        assert forall|i: int| 0 <= i < cs.drop_last().len() implies #[trigger] build_listed(
            cs.drop_last()[i],
        ) by {
            assert(cs.drop_last()[i] == cs[i]);
        }
        lemma_and_fold_listed(cs.drop_last());
        assert(build_listed(cs[cs.len() - 1]));
        lemma_and_view_listed(and_fold(cs.drop_last()), cs.last());
    }
}

} // verus!
