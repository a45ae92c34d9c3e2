//! What the operators of the spec syntaxes mean, stated over the versions a
//! parsed block or spec accepts.

use vstd::prelude::*;

use crate::identifiers::{pre_list_order, PreIdentView};
use crate::clause::{
    clause_matches, BuildPolicy, ClauseView, Operator, PrereleasePolicy, RangeView,
};
use crate::laws::{
    law_equal_versions_same_precedence, law_parse_accepts_semver_shape, lemma_digit_run_of,
    lemma_parsed_of_shape, lemma_pieces_of_shape, opt_part, semver_shape,
};
use crate::clause::simplify_view;
use crate::error::ErrorView;
use crate::npm_spec::{
    all_non_items, any_flag, component_value, non_items, npm_blocks, npm_component, npm_dotted,
    npm_groups, npm_pieces, spec_npm_block, spec_npm_group, spec_npm_parse, NpmOp,
};
use crate::clause::{all_part, dedup_clauses, matched_by};
use crate::legacy::{
    legacy_blocks, legacy_component, legacy_dotted, legacy_pieces, legacy_target,
    spec_legacy_block, spec_legacy_expression,
};
use crate::simple_spec::{
    all_whitespace, simple_op, SimpleOp, and_fold, parse_simple_blocks, spec_parse_simple_block, spec_simple_parse,
    target_text,
};
use crate::text::{
    all_digits, all_ident_chars, digits_value, index_of_seq, is_digit, is_ident_char,
    is_whitespace, lemma_index_of_char, nonspace_run, split_on, split_seq, trim, words,
};
use crate::version::{
    build_or_empty, pre_or_empty, precedence_key, precedence_order, release, spec_next_major,
    spec_next_minor, spec_next_patch, spec_parse_version, spec_truncate_to_prerelease, unwrap_or_zero, version_eq, version_tail, VersionView,
};

verus! {

/// Truncating build metadata changes no precedence.
proof fn lemma_truncate_keeps_precedence(v: VersionView, t: VersionView)
    ensures
        precedence_order(spec_truncate_to_prerelease(v), t) == precedence_order(v, t),
        precedence_order(t, spec_truncate_to_prerelease(v)) == precedence_order(t, v),
        pre_or_empty(spec_truncate_to_prerelease(v)) == pre_or_empty(v),
{
    assert(precedence_key(spec_truncate_to_prerelease(v)) == precedence_key(v));
}

/// A simple block `!=T` (for a version text `T`) accepts no version equal to
/// `T`, `T` itself first of all, and accepts every version without
/// prerelease whose precedence differs from `T`'s.
pub proof fn law_simple_not_equal(
    t: Seq<char>,
    major: Seq<char>,
    minor: Seq<char>,
    patch: Seq<char>,
    pre: Option<Seq<char>>,
    build: Option<Seq<char>>,
    v: VersionView,
)
    requires
        semver_shape(t, major, minor, patch, pre, build),
    ensures
        spec_parse_version(t, false) is Ok,
        spec_parse_simple_block(seq!['!', '='] + t) is Ok,
        !clause_matches(
            spec_parse_simple_block(seq!['!', '='] + t)->Ok_0,
            spec_parse_version(t, false)->Ok_0,
        ),
        pre_or_empty(v).len() == 0 && precedence_order(v, spec_parse_version(t, false)->Ok_0) != 0
            ==> clause_matches(spec_parse_simple_block(seq!['!', '='] + t)->Ok_0, v),
        spec_simple_parse(seq!['!', '='] + t) == Ok::<ClauseView, ErrorView>(
            spec_parse_simple_block(seq!['!', '='] + t)->Ok_0,
        ),
{
    let b = seq!['!', '='] + t;
    lemma_pieces_of_shape(t, major, minor, patch, pre, build);
    lemma_parsed_of_shape(t, major, minor, patch, pre, build);
    law_parse_accepts_semver_shape(t);
    let target = spec_parse_version(t, false)->Ok_0;
    assert(b[0] == '!' && b[1] == '=');
    assert(b.skip(2) =~= t);
    let p = version_pieces_of(t);
    assert(target_text(p) =~= t);
    let c = spec_parse_simple_block(b)->Ok_0;
    let c0 = spec_truncate_to_prerelease(target);
    lemma_truncate_keeps_precedence(v, target);
    lemma_shape_chars(t, major, minor, patch, pre, build);
    assert forall|i: int| 0 <= i < b.len() implies #[trigger] b[i] != ',' && b[i] != ' ' by {
        if i >= 2 {
            assert(b[i] == t[i - 2]);
        }
    }
    assert(b != "*"@) by {
        reveal_strlit("*");
        assert(b.len() != 1);
    }
    lemma_simple_single_block(b);
    if let ClauseView::Range(r) = c {
        assert(r.operator == Operator::Neq);
        assert(r.target == target);
        if r.build_policy == BuildPolicy::Implicit {
            assert(build_or_empty(target).len() == 0);
            assert(version_eq(c0, target));
        }
        if pre_or_empty(v).len() == 0 && precedence_order(v, target) != 0 {
            let cv = spec_truncate_to_prerelease(v);
            if version_eq(cv, target) {
                law_equal_versions_same_precedence(cv, target);
            }
            if version_eq(spec_truncate_to_prerelease(target), cv) {
                law_equal_versions_same_precedence(spec_truncate_to_prerelease(target), cv);
                lemma_truncate_keeps_precedence(target, cv);
                crate::laws::law_precedence_antisymmetric(v, target);
                crate::laws::law_precedence_antisymmetric(cv, target);
            }
        }
    }
}

/// How the simple syntax writes each comparison operator.
pub open spec fn comparison_text(op: Operator) -> Seq<char> {
    match op {
        Operator::Eq => seq!['=', '='],
        Operator::Neq => seq!['!', '='],
        Operator::Lt => seq!['<'],
        Operator::Lte => seq!['<', '='],
        Operator::Gt => seq!['>'],
        Operator::Gte => seq!['>', '='],
    }
}

/// A simple block made of a comparison operator and a version text `T`
/// without build metadata is the range with that very operator and target
/// `T`, under the default policies, and a spec of that block alone is that
/// range. For a version without prerelease, `<`, `<=`, `>` and `>=` accept
/// exactly the versions on that side of `T` in precedence; `==T` accepts `T`
/// and no version of another precedence; `!=T` refuses `T` and accepts every
/// such version of another precedence.
pub proof fn law_simple_comparison(
    op: Operator,
    t: Seq<char>,
    major: Seq<char>,
    minor: Seq<char>,
    patch: Seq<char>,
    pre: Option<Seq<char>>,
    v: VersionView,
)
    requires
        semver_shape(t, major, minor, patch, pre, None),
    ensures
        spec_parse_version(t, false) is Ok,
        spec_parse_simple_block(comparison_text(op) + t) == Ok::<ClauseView, ErrorView>(
            ClauseView::Range(
                RangeView {
                    operator: op,
                    target: spec_parse_version(t, false)->Ok_0,
                    prerelease_policy: PrereleasePolicy::Natural,
                    build_policy: BuildPolicy::Implicit,
                },
            ),
        ),
        spec_simple_parse(comparison_text(op) + t) == spec_parse_simple_block(
            comparison_text(op) + t,
        ),
        op == Operator::Eq ==> clause_matches(
            spec_parse_simple_block(comparison_text(op) + t)->Ok_0,
            spec_parse_version(t, false)->Ok_0,
        ),
        op == Operator::Eq && clause_matches(
            spec_parse_simple_block(comparison_text(op) + t)->Ok_0,
            v,
        ) ==> precedence_order(v, spec_parse_version(t, false)->Ok_0) == 0,
        op == Operator::Neq ==> !clause_matches(
            spec_parse_simple_block(comparison_text(op) + t)->Ok_0,
            spec_parse_version(t, false)->Ok_0,
        ),
        pre_or_empty(v).len() == 0 ==> {
            let m = clause_matches(spec_parse_simple_block(comparison_text(op) + t)->Ok_0, v);
            let d = precedence_order(v, spec_parse_version(t, false)->Ok_0);
            &&& op == Operator::Lt ==> (m <==> d < 0)
            &&& op == Operator::Lte ==> (m <==> d <= 0)
            &&& op == Operator::Gt ==> (m <==> d > 0)
            &&& op == Operator::Gte ==> (m <==> d >= 0)
            &&& op == Operator::Neq && d != 0 ==> m
        },
{
    let ot = comparison_text(op);
    let n = ot.len() as int;
    let b = ot + t;
    lemma_pieces_of_shape(t, major, minor, patch, pre, None);
    lemma_parsed_of_shape(t, major, minor, patch, pre, None);
    law_parse_accepts_semver_shape(t);
    let target = spec_parse_version(t, false)->Ok_0;
    lemma_shape_chars(t, major, minor, patch, pre, None);
    assert(is_digit(t[0]));
    assert(b[n] == t[0]);
    assert(simple_op(b) == (SimpleOp::Cmp(op), n));
    assert(b.skip(n) =~= t);
    let p = version_pieces_of(t);
    assert(target_text(p) =~= t);
    assert(p.prerelease == pre && p.build is None);
    assert(pre matches Some(x) ==> x.len() > 0);
    assert(build_or_empty(target).len() == 0);
    let r = RangeView {
        operator: op,
        target,
        prerelease_policy: PrereleasePolicy::Natural,
        build_policy: BuildPolicy::Implicit,
    };
    assert(spec_parse_simple_block(b) == Ok::<ClauseView, ErrorView>(ClauseView::Range(r)));
    assert forall|i: int| 0 <= i < b.len() implies #[trigger] b[i] != ',' && b[i] != ' ' by {
        if i >= n {
            assert(b[i] == t[i - n]);
        }
    }
    assert(b != "*"@) by {
        reveal_strlit("*");
        assert(b.len() != 1);
    }
    lemma_simple_single_block(b);
    assert(simplify_view(ClauseView::Range(r)) == ClauseView::Range(r));
    crate::laws::law_ordering_ranges_follow_precedence(r, v);
    lemma_truncate_keeps_precedence(v, target);
    let c0 = spec_truncate_to_prerelease(target);
    assert(version_eq(c0, target));
    if clause_matches(ClauseView::Range(r), v) && op == Operator::Eq {
        law_equal_versions_same_precedence(spec_truncate_to_prerelease(v), target);
    }
    if pre_or_empty(v).len() == 0 && precedence_order(v, target) != 0 && op == Operator::Neq {
        let cv = spec_truncate_to_prerelease(v);
        if version_eq(cv, target) {
            law_equal_versions_same_precedence(cv, target);
        }
    }
}

/// `c` keeps `v` between `lo` (included) and `hi` (excluded) in precedence,
/// and a version without prerelease between them is accepted.
pub open spec fn accepts_between(c: ClauseView, v: VersionView, lo: VersionView, hi: VersionView) -> bool {
    &&& clause_matches(c, v) ==> precedence_order(v, lo) >= 0 && precedence_order(v, hi) < 0
    &&& pre_or_empty(v).len() == 0 ==> (clause_matches(c, v) <==> precedence_order(v, lo) >= 0
        && precedence_order(v, hi) < 0)
}

/// The clause of a bounded block of the simple syntax, `>=T` and `<U`
/// together, accepts what lies between the two.
proof fn lemma_upper_lower_between(target: VersionView, upper: VersionView, v: VersionView)
    requires
        build_or_empty(target).len() == 0,
        build_or_empty(upper).len() == 0,
    ensures
        crate::simple_spec::upper_lower(target, upper) is Ok,
        accepts_between(crate::simple_spec::upper_lower(target, upper)->Ok_0, v, target, upper),
{
    let lo = RangeView {
        operator: Operator::Gte,
        target,
        prerelease_policy: PrereleasePolicy::Natural,
        build_policy: BuildPolicy::Implicit,
    };
    let hi = RangeView {
        operator: Operator::Lt,
        target: upper,
        prerelease_policy: PrereleasePolicy::Natural,
        build_policy: BuildPolicy::Implicit,
    };
    let cs = seq![ClauseView::Range(hi), ClauseView::Range(lo)];
    assert(crate::simple_spec::upper_lower(target, upper) == Ok::<ClauseView, ErrorView>(
        ClauseView::AllOf(cs),
    ));
    crate::clause::lemma_list_matches(cs, v);
    crate::laws::law_ordering_ranges_follow_precedence(lo, v);
    crate::laws::law_ordering_ranges_follow_precedence(hi, v);
    if clause_matches(ClauseView::AllOf(cs), v) {
        assert(clause_matches(cs[0], v));
        assert(clause_matches(cs[1], v));
    }
}

/// The bounded operators of the simple syntax on a version text `T =
/// M.m.p[-P]`: `^T` accepts from `T` up to, not including, `(M+1).0.0` when
/// `M > 0`, `0.(m+1).0` when `M` is 0 and `m > 0`, `0.0.(p+1)` when both are
/// 0; `~T` and `~=T` accept from `T` up to, not including, `M.(m+1).0`.
pub proof fn law_simple_bounded_operators(
    t: Seq<char>,
    major: Seq<char>,
    minor: Seq<char>,
    patch: Seq<char>,
    pre: Option<Seq<char>>,
    v: VersionView,
)
    requires
        semver_shape(t, major, minor, patch, pre, None),
    ensures
        spec_parse_version(t, false) is Ok,
        spec_parse_simple_block(seq!['^'] + t) is Ok,
        spec_parse_simple_block(seq!['~'] + t) is Ok,
        spec_parse_simple_block(seq!['~', '='] + t) is Ok,
        0 < digits_value(major) < u64::MAX ==> accepts_between(
            spec_parse_simple_block(seq!['^'] + t)->Ok_0,
            v,
            spec_parse_version(t, false)->Ok_0,
            release((digits_value(major) + 1) as u64, 0, 0),
        ),
        digits_value(major) == 0 && 0 < digits_value(minor) < u64::MAX ==> accepts_between(
            spec_parse_simple_block(seq!['^'] + t)->Ok_0,
            v,
            spec_parse_version(t, false)->Ok_0,
            release(0, (digits_value(minor) + 1) as u64, 0),
        ),
        digits_value(major) == 0 && digits_value(minor) == 0 && digits_value(patch) < u64::MAX
            ==> accepts_between(
            spec_parse_simple_block(seq!['^'] + t)->Ok_0,
            v,
            spec_parse_version(t, false)->Ok_0,
            release(0, 0, (digits_value(patch) + 1) as u64),
        ),
        digits_value(minor) < u64::MAX ==> accepts_between(
            spec_parse_simple_block(seq!['~'] + t)->Ok_0,
            v,
            spec_parse_version(t, false)->Ok_0,
            release(digits_value(major) as u64, (digits_value(minor) + 1) as u64, 0),
        ),
        digits_value(minor) < u64::MAX ==> accepts_between(
            spec_parse_simple_block(seq!['~', '='] + t)->Ok_0,
            v,
            spec_parse_version(t, false)->Ok_0,
            release(digits_value(major) as u64, (digits_value(minor) + 1) as u64, 0),
        ),
{
    lemma_pieces_of_shape(t, major, minor, patch, pre, None);
    lemma_parsed_of_shape(t, major, minor, patch, pre, None);
    law_parse_accepts_semver_shape(t);
    let target = spec_parse_version(t, false)->Ok_0;
    lemma_shape_chars(t, major, minor, patch, pre, None);
    assert(is_digit(t[0]));
    let p = version_pieces_of(t);
    assert(target_text(p) =~= t);
    assert(p.patch is Some);
    assert(build_or_empty(target).len() == 0);
    let bc = seq!['^'] + t;
    let bt = seq!['~'] + t;
    let bk = seq!['~', '='] + t;
    assert(bc[1] == t[0] && bt[1] == t[0] && bk[2] == t[0]);
    assert(simple_op(bc) == (SimpleOp::Caret, 1int));
    assert(simple_op(bt) == (SimpleOp::Tilde, 1int));
    assert(simple_op(bk) == (SimpleOp::Compatible, 2int));
    assert(bc.skip(1) =~= t);
    assert(bt.skip(1) =~= t);
    assert(bk.skip(2) =~= t);
    let cu = crate::simple_spec::caret_upper(target);
    let tu = crate::simple_spec::tilde_upper(target);
    let ku = crate::simple_spec::compatible_upper(target, false);
    lemma_upper_lower_between(target, cu, v);
    lemma_upper_lower_between(target, tu, v);
    lemma_upper_lower_between(target, ku, v);
    assert(spec_parse_simple_block(bc) == crate::simple_spec::upper_lower(target, cu));
    assert(spec_parse_simple_block(bt) == crate::simple_spec::upper_lower(target, tu));
    assert(spec_parse_simple_block(bk) == crate::simple_spec::upper_lower(target, ku));
}

/// Every character of `s` is one of `[0-9A-Za-z.+-]`.
pub open spec fn version_chars(s: Seq<char>) -> bool {
    forall|i: int| 0 <= i < s.len() ==> is_ident_char(#[trigger] s[i]) || s[i] == '+'
}

proof fn lemma_version_chars_concat(a: Seq<char>, b: Seq<char>)
    requires
        version_chars(a),
        version_chars(b),
    ensures
        version_chars(a + b),
{
    assert forall|i: int| 0 <= i < (a + b).len() implies is_ident_char(#[trigger] (a + b)[i]) || (a
        + b)[i] == '+' by {
        if i < a.len() {
            assert((a + b)[i] == a[i]);
        } else {
            assert((a + b)[i] == b[i - a.len()]);
        }
    }
}

proof fn lemma_digits_version_chars(d: Seq<char>)
    requires
        all_digits(d),
    ensures
        version_chars(d),
{
    assert forall|i: int| 0 <= i < d.len() implies is_ident_char(#[trigger] d[i]) || d[i] == '+' by {
        assert(is_digit(d[i]));
    }
}

proof fn lemma_opt_part_chars(sep: char, o: Option<Seq<char>>)
    requires
        sep == '-' || sep == '+',
        o matches Some(x) ==> all_ident_chars(x),
    ensures
        version_chars(opt_part(sep, o)),
{
    if let Some(x) = o {
        assert forall|i: int| 0 <= i < (seq![sep] + x).len() implies is_ident_char(
            #[trigger] (seq![sep] + x)[i],
        ) || (seq![sep] + x)[i] == '+' by {
            if i > 0 {
                assert((seq![sep] + x)[i] == x[i - 1]);
            }
        }
    }
}

/// A version text holds only characters of `[0-9A-Za-z.+-]`.
pub proof fn lemma_shape_chars(
    t: Seq<char>,
    major: Seq<char>,
    minor: Seq<char>,
    patch: Seq<char>,
    pre: Option<Seq<char>>,
    build: Option<Seq<char>>,
)
    requires
        semver_shape(t, major, minor, patch, pre, build),
    ensures
        version_chars(t),
        t.len() > 0,
        t[0] != '*',
{
    let dot = seq!['.'];
    assert(version_chars(dot));
    lemma_digits_version_chars(major);
    lemma_digits_version_chars(minor);
    lemma_digits_version_chars(patch);
    lemma_opt_part_chars('-', pre);
    lemma_opt_part_chars('+', build);
    lemma_version_chars_concat(major, dot);
    lemma_version_chars_concat(major + dot, minor);
    lemma_version_chars_concat(major + dot + minor, dot);
    lemma_version_chars_concat(major + dot + minor + dot, patch);
    lemma_version_chars_concat(major + dot + minor + dot + patch, opt_part('-', pre));
    lemma_version_chars_concat(
        major + dot + minor + dot + patch + opt_part('-', pre),
        opt_part('+', build),
    );
    assert(t[0] == major[0]);
    assert(is_digit(major[0]));
}

/// A text without `,` splits into itself alone.
pub proof fn lemma_no_comma_split(s: Seq<char>)
    requires
        forall|i: int| 0 <= i < s.len() ==> #[trigger] s[i] != ',',
    ensures
        split_on(s, ',') == seq![s],
{
    lemma_index_of_char(s, ',');
}

/// A simple spec of one block without spaces or commas (and not `*`) is what
/// that block gives, once simplified.
proof fn lemma_simple_single_block(b: Seq<char>)
    requires
        b.len() > 0,
        !is_whitespace(b[0]),
        b != "*"@,
        forall|i: int| 0 <= i < b.len() ==> #[trigger] b[i] != ',' && b[i] != ' ',
        spec_parse_simple_block(b) is Ok,
    ensures
        spec_simple_parse(b) == Ok::<ClauseView, ErrorView>(
            simplify_view(spec_parse_simple_block(b)->Ok_0),
        ),
{
    lemma_no_comma_split(b);
    let c = spec_parse_simple_block(b)->Ok_0;
    assert(!all_whitespace(b));
    assert(!b.contains(' '));
    assert(seq![b].drop_last() =~= Seq::<Seq<char>>::empty());
    assert(seq![b].last() == b);
    assert(parse_simple_blocks(Seq::<Seq<char>>::empty()) == Ok::<Seq<ClauseView>, ErrorView>(
        Seq::empty(),
    ));
    assert(Seq::<ClauseView>::empty().push(c) =~= seq![c]);
    assert(seq![c].drop_last() =~= Seq::<ClauseView>::empty());
    assert(seq![c].last() == c);
    assert(and_fold(Seq::<ClauseView>::empty()) == ClauseView::Always);
    assert(and_fold(seq![c]) == c);
}

/// No white space at either end: `trim` keeps the text.
proof fn lemma_trim_keeps(s: Seq<char>)
    requires
        s.len() > 0,
        !is_whitespace(s[0]),
        !is_whitespace(s.last()),
    ensures
        trim(s) == s,
{
}

/// `pat` cannot start anywhere in `s` when its first character is not in `s`.
proof fn lemma_index_of_seq_absent(s: Seq<char>, pat: Seq<char>)
    requires
        pat.len() > 0,
        forall|i: int| 0 <= i < s.len() ==> #[trigger] s[i] != pat[0],
    ensures
        index_of_seq(s, pat) == s.len(),
    decreases s.len(),
{
    if s.len() >= pat.len() {
        assert(s.take(pat.len() as int)[0] == s[0]);
        assert(s.take(pat.len() as int) != pat);
        assert forall|i: int| 0 <= i < s.drop_first().len() implies #[trigger] s.drop_first()[i]
            != pat[0] by {
            assert(s.drop_first()[i] == s[i + 1]);
        }
        lemma_index_of_seq_absent(s.drop_first(), pat);
    }
}

/// A text without white space is one word.
proof fn lemma_one_word(s: Seq<char>)
    requires
        s.len() > 0,
        forall|i: int| 0 <= i < s.len() ==> !is_whitespace(#[trigger] s[i]),
    ensures
        words(s) == seq![s],
{
    lemma_nonspace_all(s);
    assert(s.take(s.len() as int) =~= s);
    assert(s.skip(s.len() as int) =~= Seq::<char>::empty());
    assert(words(Seq::<char>::empty()) == Seq::<Seq<char>>::empty());
    assert(seq![s] + Seq::<Seq<char>>::empty() =~= seq![s]);
}

proof fn lemma_nonspace_all(s: Seq<char>)
    requires
        forall|i: int| 0 <= i < s.len() ==> !is_whitespace(#[trigger] s[i]),
    ensures
        nonspace_run(s) == s.len(),
    decreases s.len(),
{
    if s.len() > 0 {
        assert(!is_whitespace(s[0]));
        assert forall|i: int| 0 <= i < s.drop_first().len() implies !is_whitespace(
            #[trigger] s.drop_first()[i],
        ) by {
            assert(s.drop_first()[i] == s[i + 1]);
        }
        lemma_nonspace_all(s.drop_first());
    }
}

/// An npm range of one block (no white space, no `|`, not `*`) whose clause is
/// a single range accepts what that block accepts.
proof fn lemma_npm_single_block(b: Seq<char>)
    requires
        b.len() > 1,
        forall|i: int| 0 <= i < b.len() ==> !is_whitespace(#[trigger] b[i]) && b[i] != '|',
        spec_npm_block(b) is Ok,
        (spec_npm_block(b)->Ok_0).0 is Range,
        !(spec_npm_block(b)->Ok_0).1,
    ensures
        spec_npm_parse(b) == Ok::<ClauseView, ErrorView>(
            ClauseView::AllOf(seq![(spec_npm_block(b)->Ok_0).0]),
        ),
{
    let c = (spec_npm_block(b)->Ok_0).0;
    let r = (c, false);
    assert(!is_whitespace(b[0]));
    assert(!is_whitespace(b[b.len() - 1]));
    lemma_trim_keeps(b);
    assert(b != "*"@) by {
        reveal_strlit("*");
    }
    reveal_strlit("||");
    reveal_strlit(" - ");
    lemma_index_of_seq_absent(b, "||"@);
    assert(split_seq(b, "||"@) == seq![b]);
    assert(trim(seq![b][0]) == b);
    lemma_index_of_seq_absent(b, " - "@);
    lemma_one_word(b);
    assert(seq![b].drop_last() =~= Seq::<Seq<char>>::empty());
    assert(seq![b].last() == b);
    assert(npm_blocks(Seq::<Seq<char>>::empty()) == Ok::<Seq<(ClauseView, bool)>, ErrorView>(
        Seq::empty(),
    ));
    let rs = seq![r];
    assert(Seq::<(ClauseView, bool)>::empty().push(r) =~= rs);
    assert(npm_blocks(seq![b]) == Ok::<Seq<(ClauseView, bool)>, ErrorView>(rs));
    assert(rs.drop_last() =~= Seq::<(ClauseView, bool)>::empty());
    assert(rs.last() == r);
    assert(!any_flag(rs));
    assert(all_non_items(Seq::<(ClauseView, bool)>::empty()) == Seq::<ClauseView>::empty());
    assert(non_items(r) == seq![c]);
    assert(Seq::<ClauseView>::empty() + seq![c] =~= seq![c]);
    assert(all_non_items(rs) =~= seq![c]);
    let items = seq![c];
    assert(items.drop_last() =~= Seq::<ClauseView>::empty());
    assert(and_fold(Seq::<ClauseView>::empty()) == ClauseView::Always);
    assert(items.last() == c);
    assert(and_fold(items) == c);
    assert(all_part(c) == items);
    assert(dedup_clauses(Seq::<ClauseView>::empty()) == Seq::<ClauseView>::empty());
    assert(!matched_by(Seq::<ClauseView>::empty(), c));
    assert(Seq::<ClauseView>::empty().push(c) =~= items);
    assert(dedup_clauses(items) == items);
    assert(spec_npm_group(b) == Ok::<Seq<ClauseView>, ErrorView>(seq![ClauseView::AllOf(items)]));
    let gs = seq![b];
    assert(gs.drop_last() =~= Seq::<Seq<char>>::empty());
    assert(npm_groups(Seq::<Seq<char>>::empty()) == Ok::<Seq<ClauseView>, ErrorView>(Seq::empty()));
    assert(Seq::<ClauseView>::empty() + seq![ClauseView::AllOf(items)] =~= seq![ClauseView::AllOf(items)]);
    assert(npm_groups(gs) == Ok::<Seq<ClauseView>, ErrorView>(seq![ClauseView::AllOf(items)]));
}

/// An npm range of one block (no white space, no `|`, not `*`) whose clause is
/// a pair of distinct bounds accepts what that block accepts.
proof fn lemma_npm_single_pair(b: Seq<char>, u: RangeView, l: RangeView)
    requires
        b.len() > 1,
        forall|i: int| 0 <= i < b.len() ==> !is_whitespace(#[trigger] b[i]) && b[i] != '|',
        spec_npm_block(b) == Ok::<(ClauseView, bool), ErrorView>(
            (ClauseView::AllOf(seq![ClauseView::Range(u), ClauseView::Range(l)]), false),
        ),
        u.operator != l.operator,
    ensures
        spec_npm_parse(b) == Ok::<ClauseView, ErrorView>(
            ClauseView::AllOf(seq![ClauseView::Range(u), ClauseView::Range(l)]),
        ),
{
    let pair = seq![ClauseView::Range(u), ClauseView::Range(l)];
    let c = ClauseView::AllOf(pair);
    let r = (c, false);
    assert(!is_whitespace(b[0]));
    assert(!is_whitespace(b[b.len() - 1]));
    lemma_trim_keeps(b);
    assert(b != "*"@) by {
        reveal_strlit("*");
    }
    reveal_strlit("||");
    reveal_strlit(" - ");
    lemma_index_of_seq_absent(b, "||"@);
    assert(split_seq(b, "||"@) == seq![b]);
    assert(trim(seq![b][0]) == b);
    lemma_index_of_seq_absent(b, " - "@);
    lemma_one_word(b);
    assert(seq![b].drop_last() =~= Seq::<Seq<char>>::empty());
    assert(seq![b].last() == b);
    assert(npm_blocks(Seq::<Seq<char>>::empty()) == Ok::<Seq<(ClauseView, bool)>, ErrorView>(
        Seq::empty(),
    ));
    let rs = seq![r];
    assert(Seq::<(ClauseView, bool)>::empty().push(r) =~= rs);
    assert(npm_blocks(seq![b]) == Ok::<Seq<(ClauseView, bool)>, ErrorView>(rs));
    assert(rs.drop_last() =~= Seq::<(ClauseView, bool)>::empty());
    assert(rs.last() == r);
    assert(!any_flag(rs));
    assert(all_non_items(Seq::<(ClauseView, bool)>::empty()) == Seq::<ClauseView>::empty());
    assert(non_items(r) == seq![c]);
    assert(Seq::<ClauseView>::empty() + seq![c] =~= seq![c]);
    assert(all_non_items(rs) =~= seq![c]);
    let items = seq![c];
    assert(items.drop_last() =~= Seq::<ClauseView>::empty());
    assert(and_fold(Seq::<ClauseView>::empty()) == ClauseView::Always);
    assert(items.last() == c);
    assert(and_fold(items) == c);
    assert(all_part(c) == pair);
    let one = seq![ClauseView::Range(u)];
    assert(pair.drop_last() =~= one);
    assert(one.drop_last() =~= Seq::<ClauseView>::empty());
    assert(dedup_clauses(Seq::<ClauseView>::empty()) == Seq::<ClauseView>::empty());
    assert(!matched_by(Seq::<ClauseView>::empty(), ClauseView::Range(u)));
    assert(Seq::<ClauseView>::empty().push(ClauseView::Range(u)) =~= one);
    assert(dedup_clauses(one) == one);
    assert(one.drop_first() =~= Seq::<ClauseView>::empty());
    assert(!matched_by(Seq::<ClauseView>::empty(), ClauseView::Range(l)));
    assert(!crate::clause::clause_equiv(ClauseView::Range(u), ClauseView::Range(l)));
    assert(!matched_by(one, ClauseView::Range(l)));
    assert(one.push(ClauseView::Range(l)) =~= pair);
    assert(dedup_clauses(pair) == pair);
    assert(spec_npm_group(b) == Ok::<Seq<ClauseView>, ErrorView>(seq![c]));
    let gs = seq![b];
    assert(gs.drop_last() =~= Seq::<Seq<char>>::empty());
    assert(npm_groups(Seq::<Seq<char>>::empty()) == Ok::<Seq<ClauseView>, ErrorView>(Seq::empty()));
    assert(Seq::<ClauseView>::empty() + seq![c] =~= seq![c]);
    assert(npm_groups(gs) == Ok::<Seq<ClauseView>, ErrorView>(seq![c]));
}

/// How an npm range writes each comparison it has (`=` for equality).
pub open spec fn npm_comparison_text(op: Operator) -> Seq<char> {
    match op {
        Operator::Lt => seq!['<'],
        Operator::Lte => seq!['<', '='],
        Operator::Gt => seq!['>'],
        Operator::Gte => seq!['>', '='],
        _ => seq!['='],
    }
}

/// The npm block of a comparison and a version with its patch, or its minor
/// and patch, left out (`M.m` or `M`).
pub open spec fn npm_partial_block(op: Operator, maj: Seq<char>, min: Option<Seq<char>>) -> Seq<char> {
    npm_comparison_text(op) + maj + opt_part('.', min)
}

/// The release a partial version `M.m` (or `M`) starts at: `M.m.0` (`M.0.0`).
pub open spec fn partial_low(maj: Seq<char>, min: Option<Seq<char>>) -> VersionView {
    match min {
        Some(x) => release(digits_value(maj) as u64, digits_value(x) as u64, 0),
        None => release(digits_value(maj) as u64, 0, 0),
    }
}

/// The first release past a partial version `M.m` (or `M`): `M.(m+1).0`
/// (`(M+1).0.0`).
pub open spec fn partial_next(maj: Seq<char>, min: Option<Seq<char>>) -> VersionView {
    match min {
        Some(x) => release(digits_value(maj) as u64, (digits_value(x) + 1) as u64, 0),
        None => release((digits_value(maj) + 1) as u64, 0, 0),
    }
}

/// The npm operator of a comparison (`=` for equality).
pub open spec fn npm_op_of(op: Operator) -> NpmOp {
    match op {
        Operator::Lt => NpmOp::Lt,
        Operator::Lte => NpmOp::Lte,
        Operator::Gt => NpmOp::Gt,
        Operator::Gte => NpmOp::Gte,
        _ => NpmOp::Eq,
    }
}

/// How the version part `M[.m]` of an npm partial block is read.
proof fn lemma_npm_partial_version(maj: Seq<char>, min: Option<Seq<char>>)
    requires
        maj.len() > 0,
        all_digits(maj),
        min matches Some(x) ==> x.len() > 0 && all_digits(x),
    ensures
        npm_component(maj + opt_part('.', min)) == Some((maj, opt_part('.', min))),
        npm_dotted(opt_part('.', min)) == Some((min, Seq::<char>::empty())),
        min is None ==> opt_part('.', min) == Seq::<char>::empty(),
        npm_dotted(Seq::<char>::empty()) == Some((None::<Seq<char>>, Seq::<char>::empty())),
        version_tail(Seq::<char>::empty(), true) == Some((None::<Seq<char>>, None::<Seq<char>>)),
        forall|i: int|
            0 <= i < (maj + opt_part('.', min)).len() ==> !is_whitespace(
                #[trigger] (maj + opt_part('.', min))[i],
            ) && (maj + opt_part('.', min))[i] != '|',
        is_digit(maj[0]),
{
    let tail = opt_part('.', min);
    let e = Seq::<char>::empty();
    assert(tail.len() == 0 || tail[0] == '.');
    lemma_digit_run_of(maj, tail);
    assert(is_digit(maj[0]));
    assert((maj + tail)[0] == maj[0]);
    assert((maj + tail).take(maj.len() as int) =~= maj);
    assert((maj + tail).skip(maj.len() as int) =~= tail);
    match min {
        None => {
            assert(tail =~= e);
        },
        Some(x) => {
            assert(tail.drop_first() =~= x);
            lemma_digit_run_of(x, e);
            assert(x + e =~= x);
            assert(is_digit(x[0]));
            assert(x.take(x.len() as int) =~= x);
            assert(x.skip(x.len() as int) =~= e);
            assert(npm_component(x) == Some((x, e)));
        },
    }
    assert forall|i: int| 0 <= i < (maj + tail).len() implies !is_whitespace(
        #[trigger] (maj + tail)[i],
    ) && (maj + tail)[i] != '|' by {
        if i < maj.len() {
            assert(is_digit(maj[i]));
        } else {
            if let Some(x) = min {
                if i > maj.len() {
                    assert(tail[i - maj.len()] == x[i - 1 - maj.len()]);
                    assert(is_digit(x[i - 1 - maj.len()]));
                }
            }
        }
    }
}

/// How an npm partial block splits into its pieces.
#[verifier::rlimit(80)]
proof fn lemma_npm_partial_pieces(op: Operator, maj: Seq<char>, min: Option<Seq<char>>)
    requires
        maj.len() > 0,
        all_digits(maj),
        min matches Some(x) ==> x.len() > 0 && all_digits(x),
    ensures
        npm_pieces(npm_partial_block(op, maj, min)) == Some(
            crate::npm_spec::NpmPieces {
                op: npm_op_of(op),
                major: maj,
                minor: min,
                patch: None,
                prerelease: None,
                build: None,
            },
        ),
        npm_partial_block(op, maj, min).len() > 1,
        forall|i: int|
            0 <= i < npm_partial_block(op, maj, min).len() ==> !is_whitespace(
                #[trigger] npm_partial_block(op, maj, min)[i],
            ) && npm_partial_block(op, maj, min)[i] != '|',
{
    let ot = npm_comparison_text(op);
    let n = ot.len() as int;
    let vt = maj + opt_part('.', min);
    let b = npm_partial_block(op, maj, min);
    lemma_npm_partial_version(maj, min);
    assert(b =~= ot + vt);
    assert(b.skip(n) =~= vt);
    assert(b[n] == vt[0]);
    assert(vt[0] == maj[0]);
    assert(b[0] != 'v');
    assert(crate::npm_spec::npm_op(b) == (npm_op_of(op), n));
    assert forall|i: int| 0 <= i < b.len() implies !is_whitespace(#[trigger] b[i]) && b[i] != '|' by {
        if i >= n {
            assert(b[i] == vt[i - n]);
        }
    }
}

/// The facts a partial npm block starts from: its pieces and their values.
proof fn lemma_npm_partial_block_facts(op: Operator, maj: Seq<char>, min: Option<Seq<char>>)
    requires
        maj.len() > 0,
        all_digits(maj),
        digits_value(maj) <= u64::MAX,
        min matches Some(x) ==> x.len() > 0 && all_digits(x) && digits_value(x) <= u64::MAX,
    ensures
        npm_pieces(npm_partial_block(op, maj, min)) == Some(
            crate::npm_spec::NpmPieces {
                op: npm_op_of(op),
                major: maj,
                minor: min,
                patch: None,
                prerelease: None,
                build: None,
            },
        ),
        npm_partial_block(op, maj, min).len() > 1,
        forall|i: int|
            0 <= i < npm_partial_block(op, maj, min).len() ==> !is_whitespace(
                #[trigger] npm_partial_block(op, maj, min)[i],
            ) && npm_partial_block(op, maj, min)[i] != '|',
        component_value(maj) == Some(digits_value(maj) as u64),
        min matches Some(x) ==> component_value(x) == Some(digits_value(x) as u64),
{
    lemma_npm_partial_pieces(op, maj, min);
    assert(is_digit(maj[0]));
    if let Some(x) = min {
        assert(is_digit(x[0]));
    }
}

/// `=M.m` (or `=M`) in an npm range: the releases `M.m` covers.
#[verifier::rlimit(80)]
proof fn lemma_npm_partial_equal(maj: Seq<char>, min: Option<Seq<char>>, v: VersionView)
    requires
        maj.len() > 0,
        all_digits(maj),
        digits_value(maj) <= u64::MAX,
        min matches Some(x) ==> x.len() > 0 && all_digits(x) && digits_value(x) <= u64::MAX,
    ensures
        spec_npm_parse(npm_partial_block(Operator::Eq, maj, min)) is Ok,
        pre_or_empty(v).len() == 0 && (match min {
            Some(x) => digits_value(x) < u64::MAX,
            None => digits_value(maj) < u64::MAX,
        }) ==> (clause_matches(spec_npm_parse(npm_partial_block(Operator::Eq, maj, min))->Ok_0, v)
            <==> precedence_order(v, partial_low(maj, min)) >= 0 && precedence_order(
            v,
            partial_next(maj, min),
        ) < 0),
{
    let b = npm_partial_block(Operator::Eq, maj, min);
    lemma_npm_partial_block_facts(Operator::Eq, maj, min);
    let low = partial_low(maj, min);
    let u = RangeView {
        operator: Operator::Lt,
        target: (match min {
            Some(x) => release(digits_value(maj) as u64, crate::version::saturating_inc(
                digits_value(x) as u64,
            ), 0),
            None => release(crate::version::saturating_inc(digits_value(maj) as u64), 0, 0),
        }),
        prerelease_policy: PrereleasePolicy::SamePatch,
        build_policy: BuildPolicy::Implicit,
    };
    let l = RangeView {
        operator: Operator::Gte,
        target: low,
        prerelease_policy: PrereleasePolicy::SamePatch,
        build_policy: BuildPolicy::Implicit,
    };
    let cs = seq![ClauseView::Range(u), ClauseView::Range(l)];
    assert(spec_npm_block(b) == Ok::<(ClauseView, bool), ErrorView>((ClauseView::AllOf(cs), false)));
    lemma_npm_single_pair(b, u, l);
    crate::clause::lemma_list_matches(cs, v);
    crate::laws::law_ordering_ranges_follow_precedence(u, v);
    crate::laws::law_ordering_ranges_follow_precedence(l, v);
    if clause_matches(ClauseView::AllOf(cs), v) {
        assert(clause_matches(cs[0], v));
        assert(clause_matches(cs[1], v));
    }
}

/// `<`, `<=`, `>`, `>=` before `M.m` (or `M`) in an npm range.
#[verifier::rlimit(80)]
proof fn lemma_npm_partial_ordering(op: Operator, maj: Seq<char>, min: Option<Seq<char>>, v: VersionView)
    requires
        op == Operator::Lt || op == Operator::Lte || op == Operator::Gt || op == Operator::Gte,
        maj.len() > 0,
        all_digits(maj),
        digits_value(maj) <= u64::MAX,
        min matches Some(x) ==> x.len() > 0 && all_digits(x) && digits_value(x) <= u64::MAX,
    ensures
        spec_npm_parse(npm_partial_block(op, maj, min)) is Ok,
        pre_or_empty(v).len() == 0 ==> {
            let m = clause_matches(spec_npm_parse(npm_partial_block(op, maj, min))->Ok_0, v);
            let fits = match min {
                Some(x) => digits_value(x) < u64::MAX,
                None => digits_value(maj) < u64::MAX,
            };
            &&& op == Operator::Gte ==> (m <==> precedence_order(v, partial_low(maj, min)) >= 0)
            &&& op == Operator::Lt ==> (m <==> precedence_order(v, partial_low(maj, min)) < 0)
            &&& fits && op == Operator::Gt ==> (m <==> precedence_order(v, partial_next(maj, min))
                >= 0)
            &&& fits && op == Operator::Lte ==> (m <==> precedence_order(v, partial_next(maj, min))
                < 0)
        },
{
    let b = npm_partial_block(op, maj, min);
    lemma_npm_partial_block_facts(op, maj, min);
    let low = partial_low(maj, min);
    let c = (spec_npm_block(b)->Ok_0).0;
    assert(spec_npm_block(b) is Ok);
    assert(!(spec_npm_block(b)->Ok_0).1);
    assert(c is Range);
    lemma_npm_single_block(b);
    crate::clause::lemma_list_matches(seq![c], v);
    if let ClauseView::Range(r) = c {
        crate::laws::law_ordering_ranges_follow_precedence(r, v);
        if op == Operator::Gte || op == Operator::Lt {
            assert(precedence_key(r.target) == precedence_key(low));
        }
    }
}

/// In an npm range, a version with its patch (or its minor and patch) left
/// out stands for all the releases it covers, from `partial_low` up to, not
/// including, `partial_next`. For a version without prerelease: `=M.m`
/// accepts exactly those, `>=M.m` those and everything above, `<M.m`
/// everything below, `>M.m` everything above them and `<=M.m` everything
/// up to and including them.
pub proof fn law_npm_partial_comparison(op: Operator, maj: Seq<char>, min: Option<Seq<char>>, v: VersionView)
    requires
        op != Operator::Neq,
        maj.len() > 0,
        all_digits(maj),
        digits_value(maj) <= u64::MAX,
        min matches Some(x) ==> x.len() > 0 && all_digits(x) && digits_value(x) <= u64::MAX,
    ensures
        spec_npm_parse(npm_partial_block(op, maj, min)) is Ok,
        pre_or_empty(v).len() == 0 ==> {
            let m = clause_matches(spec_npm_parse(npm_partial_block(op, maj, min))->Ok_0, v);
            let fits = match min {
                Some(x) => digits_value(x) < u64::MAX,
                None => digits_value(maj) < u64::MAX,
            };
            &&& op == Operator::Gte ==> (m <==> precedence_order(v, partial_low(maj, min)) >= 0)
            &&& op == Operator::Lt ==> (m <==> precedence_order(v, partial_low(maj, min)) < 0)
            &&& fits && op == Operator::Gt ==> (m <==> precedence_order(v, partial_next(maj, min))
                >= 0)
            &&& fits && op == Operator::Lte ==> (m <==> precedence_order(v, partial_next(maj, min))
                < 0)
            &&& fits && op == Operator::Eq ==> (m <==> precedence_order(v, partial_low(maj, min))
                >= 0 && precedence_order(v, partial_next(maj, min)) < 0)
        },
{
    if op == Operator::Eq {
        lemma_npm_partial_equal(maj, min, v);
    } else {
        lemma_npm_partial_ordering(op, maj, min, v);
    }
}

/// The npm block of an operator character before a release `M.m.p`.
pub open spec fn npm_release_block(opc: char, maj: Seq<char>, min: Seq<char>, pat: Seq<char>) -> Seq<char> {
    seq![opc] + maj + seq!['.'] + min + seq!['.'] + pat
}

/// How an npm block `^M.m.p` or `~M.m.p` splits into its pieces.
#[verifier::rlimit(80)]
proof fn lemma_npm_release_pieces(opc: char, maj: Seq<char>, min: Seq<char>, pat: Seq<char>)
    requires
        opc == '^' || opc == '~',
        maj.len() > 0 && all_digits(maj),
        min.len() > 0 && all_digits(min),
        pat.len() > 0 && all_digits(pat),
    ensures
        npm_pieces(npm_release_block(opc, maj, min, pat)) == Some(
            crate::npm_spec::NpmPieces {
                op: if opc == '^' {
                    NpmOp::Caret
                } else {
                    NpmOp::Tilde
                },
                major: maj,
                minor: Some(min),
                patch: Some(pat),
                prerelease: None,
                build: None,
            },
        ),
        npm_release_block(opc, maj, min, pat).len() > 1,
        forall|i: int|
            0 <= i < npm_release_block(opc, maj, min, pat).len() ==> !is_whitespace(
                #[trigger] npm_release_block(opc, maj, min, pat)[i],
            ) && npm_release_block(opc, maj, min, pat)[i] != '|',
{
    let b = npm_release_block(opc, maj, min, pat);
    let e = Seq::<char>::empty();
    let dot = seq!['.'];
    let r2 = dot + pat;
    let r1 = dot + min + r2;
    assert(b =~= seq![opc] + (maj + r1));
    assert(b.skip(1) =~= maj + r1);
    lemma_digit_run_of(maj, r1);
    assert(is_digit(maj[0]));
    assert((maj + r1)[0] == maj[0]);
    assert((maj + r1).take(maj.len() as int) =~= maj);
    assert((maj + r1).skip(maj.len() as int) =~= r1);
    assert(npm_component(maj + r1) == Some((maj, r1)));
    assert(version_tail(e, true) == Some((None::<Seq<char>>, None::<Seq<char>>)));
    assert(b[1] == maj[0]);
    assert(crate::npm_spec::npm_op(b) == (
        if opc == '^' {
            NpmOp::Caret
        } else {
            NpmOp::Tilde
        },
        1int,
    ));
    assert(r1.drop_first() =~= min + r2);
    lemma_digit_run_of(min, r2);
    assert(is_digit(min[0]));
    assert((min + r2).take(min.len() as int) =~= min);
    assert((min + r2).skip(min.len() as int) =~= r2);
    assert(npm_component(min + r2) == Some((min, r2)));
    assert(npm_dotted(r1) == Some((Some(min), r2)));
    assert(r2.drop_first() =~= pat);
    lemma_digit_run_of(pat, e);
    assert(pat + e =~= pat);
    assert(is_digit(pat[0]));
    assert(pat.take(pat.len() as int) =~= pat);
    assert(pat.skip(pat.len() as int) =~= e);
    assert(npm_component(pat) == Some((pat, e)));
    assert(npm_dotted(r2) == Some((Some(pat), e)));
    assert forall|i: int| 0 <= i < b.len() implies !is_whitespace(#[trigger] b[i]) && b[i] != '|' by {
        if i >= 1 {
            assert(b[i] == (maj + r1)[i - 1]);
            if i >= 1 + maj.len() + 1 && i < 1 + maj.len() + 1 + min.len() {
                assert(b[i] == min[i - 2 - maj.len()]);
                assert(is_digit(min[i - 2 - maj.len()]));
            } else if i >= 1 + maj.len() + 2 + min.len() {
                assert(b[i] == pat[i - 3 - maj.len() - min.len()]);
                assert(is_digit(pat[i - 3 - maj.len() - min.len()]));
            } else if i < 1 + maj.len() {
                assert(is_digit(maj[i - 1]));
            }
        }
    }
}

/// The npm caret and tilde on a release `M.m.p`: `^M.m.p` accepts from
/// `M.m.p` up to, not including, `(M+1).0.0` when `M > 0`, `0.(m+1).0` when
/// `M` is 0 and `m > 0`, `0.0.(p+1)` when both are 0; `~M.m.p` accepts from
/// `M.m.p` up to, not including, `M.(m+1).0`.
#[verifier::rlimit(80)]
pub proof fn law_npm_caret_tilde(maj: Seq<char>, min: Seq<char>, pat: Seq<char>, v: VersionView)
    requires
        maj.len() > 0 && all_digits(maj) && digits_value(maj) <= u64::MAX,
        min.len() > 0 && all_digits(min) && digits_value(min) <= u64::MAX,
        pat.len() > 0 && all_digits(pat) && digits_value(pat) <= u64::MAX,
    ensures
        spec_npm_parse(npm_release_block('^', maj, min, pat)) is Ok,
        spec_npm_parse(npm_release_block('~', maj, min, pat)) is Ok,
        0 < digits_value(maj) < u64::MAX ==> accepts_between(
            spec_npm_parse(npm_release_block('^', maj, min, pat))->Ok_0,
            v,
            release(digits_value(maj) as u64, digits_value(min) as u64, digits_value(pat) as u64),
            release((digits_value(maj) + 1) as u64, 0, 0),
        ),
        digits_value(maj) == 0 && 0 < digits_value(min) < u64::MAX ==> accepts_between(
            spec_npm_parse(npm_release_block('^', maj, min, pat))->Ok_0,
            v,
            release(0, digits_value(min) as u64, digits_value(pat) as u64),
            release(0, (digits_value(min) + 1) as u64, 0),
        ),
        digits_value(maj) == 0 && digits_value(min) == 0 && digits_value(pat) < u64::MAX
            ==> accepts_between(
            spec_npm_parse(npm_release_block('^', maj, min, pat))->Ok_0,
            v,
            release(0, 0, digits_value(pat) as u64),
            release(0, 0, (digits_value(pat) + 1) as u64),
        ),
        digits_value(min) < u64::MAX ==> accepts_between(
            spec_npm_parse(npm_release_block('~', maj, min, pat))->Ok_0,
            v,
            release(digits_value(maj) as u64, digits_value(min) as u64, digits_value(pat) as u64),
            release(digits_value(maj) as u64, (digits_value(min) + 1) as u64, 0),
        ),
{
    let target = release(
        digits_value(maj) as u64,
        digits_value(min) as u64,
        digits_value(pat) as u64,
    );
    assert(is_digit(maj[0]) && is_digit(min[0]) && is_digit(pat[0]));
    assert(component_value(maj) == Some(digits_value(maj) as u64));
    assert(component_value(min) == Some(digits_value(min) as u64));
    assert(component_value(pat) == Some(digits_value(pat) as u64));
    let lo = RangeView {
        operator: Operator::Gte,
        target,
        prerelease_policy: PrereleasePolicy::SamePatch,
        build_policy: BuildPolicy::Implicit,
    };
    crate::laws::law_ordering_ranges_follow_precedence(lo, v);
    let bc = npm_release_block('^', maj, min, pat);
    lemma_npm_release_pieces('^', maj, min, pat);
    let cu = crate::npm_spec::npm_caret_upper(target, false, false);
    let hc = RangeView {
        operator: Operator::Lt,
        target: cu,
        prerelease_policy: PrereleasePolicy::SamePatch,
        build_policy: BuildPolicy::Implicit,
    };
    assert(spec_npm_block(bc) == Ok::<(ClauseView, bool), ErrorView>(
        (ClauseView::AllOf(seq![ClauseView::Range(hc), ClauseView::Range(lo)]), false),
    ));
    lemma_npm_single_pair(bc, hc, lo);
    let ccs = seq![ClauseView::Range(hc), ClauseView::Range(lo)];
    crate::clause::lemma_list_matches(ccs, v);
    crate::laws::law_ordering_ranges_follow_precedence(hc, v);
    if clause_matches(ClauseView::AllOf(ccs), v) {
        assert(clause_matches(ccs[0], v));
        assert(clause_matches(ccs[1], v));
    }
    let bt = npm_release_block('~', maj, min, pat);
    lemma_npm_release_pieces('~', maj, min, pat);
    let tu = crate::npm_spec::npm_tilde_upper(target, false);
    let ht = RangeView {
        operator: Operator::Lt,
        target: tu,
        prerelease_policy: PrereleasePolicy::SamePatch,
        build_policy: BuildPolicy::Implicit,
    };
    assert(spec_npm_block(bt) == Ok::<(ClauseView, bool), ErrorView>(
        (ClauseView::AllOf(seq![ClauseView::Range(ht), ClauseView::Range(lo)]), false),
    ));
    lemma_npm_single_pair(bt, ht, lo);
    let tcs = seq![ClauseView::Range(ht), ClauseView::Range(lo)];
    crate::clause::lemma_list_matches(tcs, v);
    crate::laws::law_ordering_ranges_follow_precedence(ht, v);
    if clause_matches(ClauseView::AllOf(tcs), v) {
        assert(clause_matches(tcs[0], v));
        assert(clause_matches(tcs[1], v));
    }
}

/// An npm version text `M`, `M.m` or `M.m.p`.
pub open spec fn npm_version_text(maj: Seq<char>, min: Option<Seq<char>>, pat: Option<Seq<char>>) -> Seq<char> {
    maj + opt_part('.', min) + opt_part('.', pat)
}

/// The parts of a version text are digits, at most 64 bits each, and a
/// patch comes only with a minor.
pub open spec fn npm_parts_ok(maj: Seq<char>, min: Option<Seq<char>>, pat: Option<Seq<char>>) -> bool {
    &&& maj.len() > 0 && all_digits(maj) && digits_value(maj) <= u64::MAX
    &&& min matches Some(x) ==> x.len() > 0 && all_digits(x) && digits_value(x) <= u64::MAX
    &&& pat matches Some(x) ==> x.len() > 0 && all_digits(x) && digits_value(x) <= u64::MAX
    &&& pat is Some ==> min is Some
}

/// The value of an optional part, 0 when it is missing.
pub open spec fn part_or_zero(o: Option<Seq<char>>) -> u64 {
    match o {
        Some(x) => digits_value(x) as u64,
        None => 0,
    }
}

/// How the parts of an npm version text are read.
#[verifier::rlimit(60)]
proof fn lemma_npm_text_parts(maj: Seq<char>, min: Option<Seq<char>>, pat: Option<Seq<char>>)
    requires
        npm_parts_ok(maj, min, pat),
    ensures
        npm_version_text(maj, min, pat) == maj + (opt_part('.', min) + opt_part('.', pat)),
        npm_component(npm_version_text(maj, min, pat)) == Some(
            (maj, opt_part('.', min) + opt_part('.', pat)),
        ),
        npm_dotted(opt_part('.', min) + opt_part('.', pat)) == Some((min, opt_part('.', pat))),
        min is None ==> opt_part('.', pat) == Seq::<char>::empty(),
        npm_dotted(opt_part('.', pat)) == Some((pat, Seq::<char>::empty())),
        version_tail(Seq::<char>::empty(), true) == Some((None::<Seq<char>>, None::<Seq<char>>)),
        component_value(maj) == Some(digits_value(maj) as u64),
        min matches Some(x) ==> component_value(x) == Some(digits_value(x) as u64),
        pat matches Some(x) ==> component_value(x) == Some(digits_value(x) as u64),
        is_digit(npm_version_text(maj, min, pat)[0]),
{
    let e = Seq::<char>::empty();
    let tp = opt_part('.', pat);
    let tm = opt_part('.', min) + tp;
    let t = npm_version_text(maj, min, pat);
    assert(t =~= maj + tm);
    assert(is_digit(maj[0]));
    assert(tp.len() == 0 || tp[0] == '.');
    match min {
        None => {
            assert(tm =~= e);
        },
        Some(x) => {
            assert(tm[0] == '.');
        },
    }
    lemma_digit_run_of(maj, tm);
    assert((maj + tm)[0] == maj[0]);
    assert((maj + tm).take(maj.len() as int) =~= maj);
    assert((maj + tm).skip(maj.len() as int) =~= tm);
    assert(npm_dotted(e) == Some((None::<Seq<char>>, e)));
    if let Some(x) = pat {
        assert(tp.drop_first() =~= x);
        lemma_digit_run_of(x, e);
        assert(x + e =~= x);
        assert(is_digit(x[0]));
        assert(x.take(x.len() as int) =~= x);
        assert(x.skip(x.len() as int) =~= e);
        assert(npm_component(x) == Some((x, e)));
    } else {
        assert(tp =~= e);
    }
    if let Some(x) = min {
        assert(tm.drop_first() =~= x + tp);
        lemma_digit_run_of(x, tp);
        assert(is_digit(x[0]));
        assert((x + tp)[0] == x[0]);
        assert((x + tp).take(x.len() as int) =~= x);
        assert((x + tp).skip(x.len() as int) =~= tp);
        assert(npm_component(x + tp) == Some((x, tp)));
    }
}

/// No character of an npm version text is white space or `|`.
proof fn lemma_npm_text_chars(maj: Seq<char>, min: Option<Seq<char>>, pat: Option<Seq<char>>)
    requires
        npm_parts_ok(maj, min, pat),
    ensures
        forall|i: int|
            0 <= i < npm_version_text(maj, min, pat).len() ==> !is_whitespace(
                #[trigger] npm_version_text(maj, min, pat)[i],
            ) && npm_version_text(maj, min, pat)[i] != '|',
{
    let t = npm_version_text(maj, min, pat);
    let tp = opt_part('.', pat);
    let tm = opt_part('.', min);
    assert(t =~= maj + tm + tp);
    assert forall|i: int| 0 <= i < t.len() implies !is_whitespace(#[trigger] t[i]) && t[i] != '|' by {
        if i < maj.len() {
            assert(t[i] == maj[i]);
            assert(is_digit(maj[i]));
        } else if i < maj.len() + tm.len() {
            assert(t[i] == tm[i - maj.len()]);
            if let Some(x) = min {
                if i > maj.len() {
                    assert(tm[i - maj.len()] == x[i - maj.len() - 1]);
                    assert(is_digit(x[i - maj.len() - 1]));
                }
            }
        } else {
            assert(t[i] == tp[i - maj.len() - tm.len()]);
            if let Some(y) = pat {
                if i > maj.len() + tm.len() {
                    assert(tp[i - maj.len() - tm.len()] == y[i - maj.len() - tm.len() - 1]);
                    assert(is_digit(y[i - maj.len() - tm.len() - 1]));
                }
            }
        }
    }
}

/// How an npm block of an operator text `ot` and a version text splits
/// into its pieces.
proof fn lemma_npm_version_pieces(ot: Seq<char>, maj: Seq<char>, min: Option<Seq<char>>, pat: Option<Seq<char>>)
    requires
        npm_parts_ok(maj, min, pat),
        ot.len() == 0 || ot[0] != 'v',
        crate::npm_spec::npm_op(ot + npm_version_text(maj, min, pat)).1 == ot.len(),
        forall|i: int| 0 <= i < ot.len() ==> !is_whitespace(#[trigger] ot[i]) && ot[i] != '|',
    ensures
        npm_pieces(ot + npm_version_text(maj, min, pat)) == Some(
            crate::npm_spec::NpmPieces {
                op: crate::npm_spec::npm_op(ot + npm_version_text(maj, min, pat)).0,
                major: maj,
                minor: min,
                patch: pat,
                prerelease: None,
                build: None,
            },
        ),
        component_value(maj) == Some(digits_value(maj) as u64),
        min matches Some(x) ==> component_value(x) == Some(digits_value(x) as u64),
        pat matches Some(x) ==> component_value(x) == Some(digits_value(x) as u64),
        forall|i: int|
            0 <= i < (ot + npm_version_text(maj, min, pat)).len() ==> !is_whitespace(
                #[trigger] (ot + npm_version_text(maj, min, pat))[i],
            ) && (ot + npm_version_text(maj, min, pat))[i] != '|',
        (ot + npm_version_text(maj, min, pat)).len() >= ot.len() + 1,
{
    let t = npm_version_text(maj, min, pat);
    let b = ot + t;
    let n = ot.len() as int;
    lemma_npm_text_parts(maj, min, pat);
    lemma_npm_text_chars(maj, min, pat);
    assert(b[n] == t[0]);
    assert(b[0] != 'v');
    assert(b.skip(n) =~= t);
    assert forall|i: int| 0 <= i < b.len() implies !is_whitespace(#[trigger] b[i]) && b[i] != '|' by {
        if i >= n {
            assert(b[i] == t[i - n]);
        }
    }
}

/// Where an npm hyphen range `A - B` ends: at the last release `B` covers,
/// included for a full version, before `(M+1).0.0` for `M`, before
/// `M.(m+1).0` for `M.m`.
pub open spec fn below_hyphen_end(v: VersionView, maj: Seq<char>, min: Option<Seq<char>>, pat: Option<Seq<char>>) -> bool {
    match (min, pat) {
        (None, _) => precedence_order(v, release((digits_value(maj) + 1) as u64, 0, 0)) < 0,
        (Some(m), None) => precedence_order(
            v,
            release(digits_value(maj) as u64, (digits_value(m) + 1) as u64, 0),
        ) < 0,
        (Some(m), Some(p)) => precedence_order(
            v,
            release(digits_value(maj) as u64, digits_value(m) as u64, digits_value(p) as u64),
        ) <= 0,
    }
}

/// An npm hyphen range `A - B` (versions without prerelease) accepts from
/// `A`, its missing parts as zeros, through the end of what `B` covers; for a
/// version without prerelease being in that span is also enough.
pub proof fn law_npm_hyphen(
    lmaj: Seq<char>,
    lmin: Option<Seq<char>>,
    lpat: Option<Seq<char>>,
    rmaj: Seq<char>,
    rmin: Option<Seq<char>>,
    rpat: Option<Seq<char>>,
    v: VersionView,
)
    requires
        npm_parts_ok(lmaj, lmin, lpat),
        npm_parts_ok(rmaj, rmin, rpat),
        rmin is None ==> digits_value(rmaj) < u64::MAX,
        rpat is None ==> (rmin matches Some(m) ==> digits_value(m) < u64::MAX),
    ensures
        crate::npm_spec::spec_npm_hyphen(
            npm_version_text(lmaj, lmin, lpat),
            npm_version_text(rmaj, rmin, rpat),
        ) is Ok,
        ({
            let c = crate::npm_spec::spec_npm_hyphen(
                npm_version_text(lmaj, lmin, lpat),
                npm_version_text(rmaj, rmin, rpat),
            )->Ok_0;
            let low = release(digits_value(lmaj) as u64, part_or_zero(lmin), part_or_zero(lpat));
            &&& clause_matches(c, v) ==> precedence_order(v, low) >= 0 && below_hyphen_end(
                v,
                rmaj,
                rmin,
                rpat,
            )
            &&& pre_or_empty(v).len() == 0 ==> (clause_matches(c, v) <==> precedence_order(v, low)
                >= 0 && below_hyphen_end(v, rmaj, rmin, rpat))
        }),
{
    let lt = npm_version_text(lmaj, lmin, lpat);
    let rt = npm_version_text(rmaj, rmin, rpat);
    assert(Seq::<char>::empty() + lt =~= lt);
    assert(Seq::<char>::empty() + rt =~= rt);
    assert(is_digit(lmaj[0]) && lt[0] == lmaj[0]);
    assert(is_digit(rmaj[0]) && rt[0] == rmaj[0]);
    lemma_npm_version_pieces(Seq::<char>::empty(), lmaj, lmin, lpat);
    lemma_npm_version_pieces(Seq::<char>::empty(), rmaj, rmin, rpat);
    let low = release(digits_value(lmaj) as u64, part_or_zero(lmin), part_or_zero(lpat));
    let lo = RangeView {
        operator: Operator::Gte,
        target: low,
        prerelease_policy: PrereleasePolicy::SamePatch,
        build_policy: BuildPolicy::Implicit,
    };
    let (uop, ut) = match (rmin, rpat) {
        (None, _) => (Operator::Lt, release((digits_value(rmaj) + 1) as u64, 0, 0)),
        (Some(m), None) => (
            Operator::Lt,
            release(digits_value(rmaj) as u64, (digits_value(m) + 1) as u64, 0),
        ),
        (Some(m), Some(p)) => (
            Operator::Lte,
            release(digits_value(rmaj) as u64, digits_value(m) as u64, digits_value(p) as u64),
        ),
    };
    let hi = RangeView {
        operator: uop,
        target: ut,
        prerelease_policy: PrereleasePolicy::SamePatch,
        build_policy: BuildPolicy::Implicit,
    };
    let cs = seq![ClauseView::Range(hi), ClauseView::Range(lo)];
    assert(crate::npm_spec::spec_npm_hyphen(lt, rt) == Ok::<ClauseView, ErrorView>(
        ClauseView::AllOf(cs),
    ));
    crate::clause::lemma_list_matches(cs, v);
    crate::laws::law_ordering_ranges_follow_precedence(lo, v);
    crate::laws::law_ordering_ranges_follow_precedence(hi, v);
    if clause_matches(ClauseView::AllOf(cs), v) {
        assert(clause_matches(cs[0], v));
        assert(clause_matches(cs[1], v));
    }
}

/// The npm caret and tilde on a version with its patch, or its minor and
/// patch, left out: `~M` and `~M.m` accept the releases that version covers
/// (up to, not including, `partial_next`); `^M.m` with `M > 0` and `^M`
/// accept from `M.m.0` (`M.0.0`) up to, not including, `(M+1).0.0`, and
/// `^0.m` up to, not including, `0.(m+1).0`.
#[verifier::rlimit(80)]
pub proof fn law_npm_caret_tilde_partial(maj: Seq<char>, min: Option<Seq<char>>, v: VersionView)
    requires
        npm_parts_ok(maj, min, None),
        digits_value(maj) < u64::MAX,
        min matches Some(x) ==> digits_value(x) < u64::MAX,
    ensures
        spec_npm_parse(seq!['^'] + npm_version_text(maj, min, None)) is Ok,
        spec_npm_parse(seq!['~'] + npm_version_text(maj, min, None)) is Ok,
        accepts_between(
            spec_npm_parse(seq!['~'] + npm_version_text(maj, min, None))->Ok_0,
            v,
            partial_low(maj, min),
            partial_next(maj, min),
        ),
        digits_value(maj) > 0 || min is None ==> accepts_between(
            spec_npm_parse(seq!['^'] + npm_version_text(maj, min, None))->Ok_0,
            v,
            partial_low(maj, min),
            release((digits_value(maj) + 1) as u64, 0, 0),
        ),
        digits_value(maj) == 0 && min is Some ==> accepts_between(
            spec_npm_parse(seq!['^'] + npm_version_text(maj, min, None))->Ok_0,
            v,
            partial_low(maj, min),
            partial_next(maj, min),
        ),
{
    let t = npm_version_text(maj, min, None);
    assert(is_digit(maj[0]));
    assert(t[0] == maj[0]);
    let bc = seq!['^'] + t;
    let bt = seq!['~'] + t;
    assert(bc[1] == t[0] && bt[1] == t[0]);
    lemma_npm_version_pieces(seq!['^'], maj, min, None);
    lemma_npm_version_pieces(seq!['~'], maj, min, None);
    let low = partial_low(maj, min);
    let lo = RangeView {
        operator: Operator::Gte,
        target: low,
        prerelease_policy: PrereleasePolicy::SamePatch,
        build_policy: BuildPolicy::Implicit,
    };
    crate::laws::law_ordering_ranges_follow_precedence(lo, v);
    let cu = crate::npm_spec::npm_caret_upper(low, min is None, true);
    let hc = RangeView {
        operator: Operator::Lt,
        target: cu,
        prerelease_policy: PrereleasePolicy::SamePatch,
        build_policy: BuildPolicy::Implicit,
    };
    assert(spec_npm_block(bc) == Ok::<(ClauseView, bool), ErrorView>(
        (ClauseView::AllOf(seq![ClauseView::Range(hc), ClauseView::Range(lo)]), false),
    ));
    lemma_npm_single_pair(bc, hc, lo);
    let ccs = seq![ClauseView::Range(hc), ClauseView::Range(lo)];
    crate::clause::lemma_list_matches(ccs, v);
    crate::laws::law_ordering_ranges_follow_precedence(hc, v);
    if clause_matches(ClauseView::AllOf(ccs), v) {
        assert(clause_matches(ccs[0], v));
        assert(clause_matches(ccs[1], v));
    }
    let tu = crate::npm_spec::npm_tilde_upper(low, min is None);
    let ht = RangeView {
        operator: Operator::Lt,
        target: tu,
        prerelease_policy: PrereleasePolicy::SamePatch,
        build_policy: BuildPolicy::Implicit,
    };
    assert(spec_npm_block(bt) == Ok::<(ClauseView, bool), ErrorView>(
        (ClauseView::AllOf(seq![ClauseView::Range(ht), ClauseView::Range(lo)]), false),
    ));
    lemma_npm_single_pair(bt, ht, lo);
    let tcs = seq![ClauseView::Range(ht), ClauseView::Range(lo)];
    crate::clause::lemma_list_matches(tcs, v);
    crate::laws::law_ordering_ranges_follow_precedence(ht, v);
    if clause_matches(ClauseView::AllOf(tcs), v) {
        assert(clause_matches(tcs[0], v));
        assert(clause_matches(tcs[1], v));
    }
}

/// How an npm range writes each operator of a block.
pub open spec fn npm_op_text(k: NpmOp) -> Seq<char> {
    match k {
        NpmOp::Empty => Seq::empty(),
        NpmOp::Eq => seq!['='],
        NpmOp::Lt => seq!['<'],
        NpmOp::Lte => seq!['<', '='],
        NpmOp::Gt => seq!['>'],
        NpmOp::Gte => seq!['>', '='],
        NpmOp::Caret => seq!['^'],
        NpmOp::Tilde => seq!['~'],
    }
}

/// What an npm range of a single block gives, from what that block gives.
pub open spec fn npm_single_range(r: Result<(ClauseView, bool), ErrorView>) -> Result<ClauseView, ErrorView> {
    match r {
        Err(e) => Err(e),
        Ok(x) => {
            let l = crate::npm_spec::group_of_blocks(seq![x]);
            if l.len() == 1 {
                Ok(l[0])
            } else {
                Ok(ClauseView::AnyOf(dedup_clauses(l)))
            }
        },
    }
}

/// An npm range of one word (no white space, no `|`, not `*`) is what its
/// single block makes of it.
proof fn lemma_npm_one_word(b: Seq<char>)
    requires
        b.len() > 0,
        b[0] != '*',
        forall|i: int| 0 <= i < b.len() ==> !is_whitespace(#[trigger] b[i]) && b[i] != '|',
    ensures
        spec_npm_parse(b) == npm_single_range(spec_npm_block(b)),
{
    assert(!is_whitespace(b[0]));
    assert(!is_whitespace(b[b.len() - 1]));
    lemma_trim_keeps(b);
    assert(b != "*"@) by {
        reveal_strlit("*");
        assert("*"@[0] == '*');
    }
    reveal_strlit("||");
    reveal_strlit(" - ");
    lemma_index_of_seq_absent(b, "||"@);
    assert(split_seq(b, "||"@) == seq![b]);
    assert(trim(seq![b][0]) == b);
    lemma_index_of_seq_absent(b, " - "@);
    lemma_one_word(b);
    assert(seq![b].drop_last() =~= Seq::<Seq<char>>::empty());
    assert(seq![b].last() == b);
    assert(npm_blocks(Seq::<Seq<char>>::empty()) == Ok::<Seq<(ClauseView, bool)>, ErrorView>(
        Seq::empty(),
    ));
    if let Ok(x) = spec_npm_block(b) {
        assert(Seq::<(ClauseView, bool)>::empty().push(x) =~= seq![x]);
        assert(npm_blocks(seq![b]) == Ok::<Seq<(ClauseView, bool)>, ErrorView>(seq![x]));
        let l = crate::npm_spec::group_of_blocks(seq![x]);
        assert(spec_npm_group(b) == Ok::<Seq<ClauseView>, ErrorView>(l));
        let gs = seq![b];
        assert(gs.drop_last() =~= Seq::<Seq<char>>::empty());
        assert(npm_groups(Seq::<Seq<char>>::empty()) == Ok::<Seq<ClauseView>, ErrorView>(
            Seq::empty(),
        ));
        assert(Seq::<ClauseView>::empty() + l =~= l);
        assert(npm_groups(gs) == Ok::<Seq<ClauseView>, ErrorView>(l));
    }
}

/// A last part made of a wildcard: `.x`, `.X` or `.*`.
pub open spec fn wild_suffix(w: char) -> Seq<char> {
    seq!['.', w]
}

/// How the version part `M[.m].w` (a wildcard `w` last) is read.
#[verifier::rlimit(60)]
proof fn lemma_npm_wild_parts(maj: Seq<char>, min: Option<Seq<char>>, w: char)
    requires
        npm_parts_ok(maj, min, None),
        crate::npm_spec::is_wildcard_char(w),
    ensures
        npm_component(maj + (opt_part('.', min) + wild_suffix(w))) == Some(
            (maj, opt_part('.', min) + wild_suffix(w)),
        ),
        min is None ==> npm_dotted(opt_part('.', min) + wild_suffix(w)) == Some(
            (Some(seq![w]), Seq::<char>::empty()),
        ),
        min matches Some(x) ==> npm_dotted(opt_part('.', min) + wild_suffix(w)) == Some(
            (Some(x), wild_suffix(w)),
        ),
        npm_dotted(wild_suffix(w)) == Some((Some(seq![w]), Seq::<char>::empty())),
        npm_dotted(Seq::<char>::empty()) == Some((None::<Seq<char>>, Seq::<char>::empty())),
        version_tail(Seq::<char>::empty(), true) == Some((None::<Seq<char>>, None::<Seq<char>>)),
        is_digit(maj[0]),
{
    let e = Seq::<char>::empty();
    let ws = wild_suffix(w);
    let tm = opt_part('.', min) + ws;
    assert(is_digit(maj[0]));
    assert(tm[0] == '.');
    lemma_digit_run_of(maj, tm);
    assert((maj + tm)[0] == maj[0]);
    assert((maj + tm).take(maj.len() as int) =~= maj);
    assert((maj + tm).skip(maj.len() as int) =~= tm);
    assert(ws.drop_first() =~= seq![w]);
    assert(seq![w].take(1) =~= seq![w]);
    assert(seq![w].skip(1) =~= e);
    assert(npm_component(seq![w]) == Some((seq![w], e)));
    if let Some(x) = min {
        assert(tm.drop_first() =~= x + ws);
        lemma_digit_run_of(x, ws);
        assert(is_digit(x[0]));
        assert((x + ws)[0] == x[0]);
        assert((x + ws).take(x.len() as int) =~= x);
        assert((x + ws).skip(x.len() as int) =~= ws);
        assert(npm_component(x + ws) == Some((x, ws)));
    } else {
        assert(tm =~= ws);
    }
}

/// How an npm block whose last part is a wildcard (`x`, `X` or `*`) splits
/// into its pieces.
#[verifier::rlimit(60)]
proof fn lemma_npm_wild_pieces(k: NpmOp, maj: Seq<char>, min: Option<Seq<char>>, w: char)
    requires
        npm_parts_ok(maj, min, None),
        crate::npm_spec::is_wildcard_char(w),
    ensures
        npm_pieces(npm_op_text(k) + npm_version_text(maj, min, None) + wild_suffix(w)) == Some(
            crate::npm_spec::NpmPieces {
                op: k,
                major: maj,
                minor: if min is Some {
                    min
                } else {
                    Some(seq![w])
                },
                patch: if min is Some {
                    Some(seq![w])
                } else {
                    None
                },
                prerelease: None,
                build: None,
            },
        ),
        (npm_op_text(k) + npm_version_text(maj, min, None) + wild_suffix(w)).len() > 1,
        forall|i: int|
            0 <= i < (npm_op_text(k) + npm_version_text(maj, min, None) + wild_suffix(w)).len()
                ==> !is_whitespace(
                #[trigger] (npm_op_text(k) + npm_version_text(maj, min, None) + wild_suffix(w))[i],
            ) && (npm_op_text(k) + npm_version_text(maj, min, None) + wild_suffix(w))[i] != '|',
{
    let ot = npm_op_text(k);
    let n = ot.len() as int;
    let t = npm_version_text(maj, min, None);
    let ws = wild_suffix(w);
    let b = ot + t + ws;
    let tm = opt_part('.', min) + ws;
    lemma_npm_wild_parts(maj, min, w);
    lemma_npm_text_chars(maj, min, None);
    assert(t =~= maj + opt_part('.', min));
    assert(b =~= ot + (maj + tm));
    assert(b.skip(n) =~= maj + tm);
    assert(b[n] == maj[0]);
    assert(crate::npm_spec::npm_op(b) == (k, n));
    assert forall|i: int| 0 <= i < b.len() implies !is_whitespace(#[trigger] b[i]) && b[i] != '|' by {
        if i >= n && i < n + t.len() {
            assert(b[i] == t[i - n]);
        }
    }
}

/// In an npm range a wildcard part (`x`, `X` or `*`) means the same as
/// leaving that part out: whatever the operator, `M.m.x` is read as `M.m`
/// and `M.x` as `M`, block by block and as a whole range.
pub proof fn law_npm_wildcard_part(k: NpmOp, maj: Seq<char>, min: Option<Seq<char>>, w: char)
    requires
        npm_parts_ok(maj, min, None),
        crate::npm_spec::is_wildcard_char(w),
    ensures
        spec_npm_block(npm_op_text(k) + npm_version_text(maj, min, None) + wild_suffix(w))
            == spec_npm_block(npm_op_text(k) + npm_version_text(maj, min, None)),
        spec_npm_parse(npm_op_text(k) + npm_version_text(maj, min, None) + wild_suffix(w))
            == spec_npm_parse(npm_op_text(k) + npm_version_text(maj, min, None)),
{
    let ot = npm_op_text(k);
    let t = npm_version_text(maj, min, None);
    let b1 = ot + t;
    let b2 = ot + t + wild_suffix(w);
    lemma_npm_wild_pieces(k, maj, min, w);
    lemma_npm_text_parts(maj, min, None);
    assert(b1[ot.len() as int] == t[0]);
    assert(crate::npm_spec::npm_op(b1) == (k, ot.len() as int));
    lemma_npm_version_pieces(ot, maj, min, None);
    assert(component_value(seq![w]) is None);
    assert(spec_npm_block(b2) == spec_npm_block(b1));
    assert(is_digit(t[0]));
    assert(b1[0] != '*' && b2[0] == b1[0]);
    lemma_npm_one_word(b2);
    lemma_npm_one_word(b1);
}

/// Whether a comparison result `d` (`-1`, `0` or `1`) satisfies `op`.
pub open spec fn op_holds(op: Operator, d: int) -> bool {
    match op {
        Operator::Eq => d == 0,
        Operator::Neq => d != 0,
        Operator::Lt => d < 0,
        Operator::Lte => d <= 0,
        Operator::Gt => d > 0,
        Operator::Gte => d >= 0,
    }
}

/// A release compares with a prerelease `T` of `M.m.p` as it compares with
/// `M.m.p`, except `M.m.p` itself, which is above `T` and equal to `M.m.p`.
proof fn lemma_release_against_prerelease(v: VersionView, t: VersionView)
    requires
        pre_or_empty(v).len() == 0,
        pre_or_empty(t).len() > 0,
        pre_or_empty(t)[0] != PreIdentView::Max,
    ensures
        ({
            let same = v.major == t.major && unwrap_or_zero(v.minor) == unwrap_or_zero(t.minor)
                && unwrap_or_zero(v.patch) == unwrap_or_zero(t.patch);
            let r = crate::version::spec_truncate_to_patch(t);
            &&& same ==> precedence_order(v, t) == 1 && precedence_order(v, r) == 0
            &&& !same ==> precedence_order(v, t) == precedence_order(v, r)
        }),
{
    let r = crate::version::spec_truncate_to_patch(t);
    let max = seq![PreIdentView::Max];
    assert(precedence_key(v).prerelease == max);
    assert(pre_or_empty(r).len() == 0 || r.partial);
    assert(pre_list_order(max, max) == 0) by {
        assert(max.drop_first() =~= Seq::<PreIdentView>::empty());
        assert(max[0] == PreIdentView::Max);
        assert(crate::identifiers::pre_order(max[0], max[0]) == 0);
        assert(pre_list_order(Seq::<PreIdentView>::empty(), Seq::<PreIdentView>::empty()) == 0);
    }
    assert(pre_list_order(max, pre_or_empty(t)) == 1) by {
        assert(crate::identifiers::pre_order(max[0], pre_or_empty(t)[0]) == 1);
    }
}

/// An npm bound on a version `T` with a prerelease is split into two
/// branches: `T`'s own patch, prereleases included, and the releases,
/// compared with `T`'s release `M.m.p`. A version without prerelease is
/// accepted when it is on the bound's side of `T` or of `M.m.p`; a
/// prerelease is accepted only when it is a prerelease of `M.m.p` itself.
pub proof fn law_npm_prerelease_branches(op: Operator, target: VersionView, v: VersionView)
    requires
        op == Operator::Lt || op == Operator::Lte || op == Operator::Gt || op == Operator::Gte,
        !target.partial,
        pre_or_empty(target).len() > 0,
        pre_or_empty(target)[0] != PreIdentView::Max,
        build_or_empty(target).len() == 0,
        unwrap_or_zero(target.patch) < u64::MAX,
    ensures
        crate::npm_spec::prerelease_branches(op, target) is Ok,
        pre_or_empty(v).len() == 0 ==> (clause_matches(
            crate::npm_spec::prerelease_branches(op, target)->Ok_0,
            v,
        ) <==> op_holds(op, precedence_order(v, target)) || op_holds(
            op,
            precedence_order(v, crate::version::spec_truncate_to_patch(target)),
        )),
        pre_or_empty(v).len() > 0 && !v.partial && clause_matches(
            crate::npm_spec::prerelease_branches(op, target)->Ok_0,
            v,
        ) ==> v.major == target.major && v.minor == target.minor && v.patch == target.patch,
{
    let r = crate::version::spec_truncate_to_patch(target);
    let fence_r = RangeView {
        operator: Operator::Lt,
        target: crate::npm_spec::fence_version(target),
        prerelease_policy: PrereleasePolicy::Always,
        build_policy: BuildPolicy::Implicit,
    };
    let pre_r = RangeView {
        operator: op,
        target,
        prerelease_policy: PrereleasePolicy::SamePatch,
        build_policy: BuildPolicy::Implicit,
    };
    let non_r = RangeView {
        operator: op,
        target: r,
        prerelease_policy: PrereleasePolicy::SamePatch,
        build_policy: BuildPolicy::Implicit,
    };
    let inner = seq![ClauseView::Range(fence_r), ClauseView::Range(pre_r)];
    let outer = seq![ClauseView::AllOf(inner), ClauseView::Range(non_r)];
    let c = ClauseView::AnyOf(outer);
    assert(crate::npm_spec::prerelease_branches(op, target) == Ok::<ClauseView, ErrorView>(c));
    crate::clause::lemma_list_matches(inner, v);
    crate::clause::lemma_list_matches(outer, v);
    crate::laws::law_ordering_ranges_follow_precedence(pre_r, v);
    crate::laws::law_ordering_ranges_follow_precedence(non_r, v);
    crate::laws::law_always_lt_is_precedence(fence_r, v);
    let m1 = clause_matches(outer[0], v);
    let m2 = clause_matches(outer[1], v);
    assert(clause_matches(c, v) == (m1 || m2));
    assert(m1 == (clause_matches(inner[0], v) && clause_matches(inner[1], v)));
    if pre_or_empty(v).len() == 0 {
        lemma_release_against_prerelease(v, target);
        let same = v.major == target.major && unwrap_or_zero(v.minor) == unwrap_or_zero(
            target.minor,
        ) && unwrap_or_zero(v.patch) == unwrap_or_zero(target.patch);
        if same {
            let f = crate::npm_spec::fence_version(target);
            assert(precedence_key(f).patch == unwrap_or_zero(target.patch) + 1);
            assert(precedence_order(v, f) < 0);
        }
    }
    if pre_or_empty(v).len() > 0 && !v.partial && clause_matches(c, v) {
        if v.major != target.major || v.minor != target.minor || v.patch != target.patch {
            crate::laws::law_same_patch_excludes_other_releases(pre_r, v);
            crate::laws::law_same_patch_excludes_other_releases(non_r, v);
        }
    }
}

/// An npm block `>=M.m` or `>=M` (a version with its patch, or its minor and
/// patch, left out) accepts exactly the versions without prerelease whose
/// precedence is at least that of `M.m.0` (`M.0.0`): the missing parts count
/// as zeros.
pub proof fn law_npm_gte_partial(maj: Seq<char>, min: Option<Seq<char>>, v: VersionView)
    requires
        maj.len() > 0,
        all_digits(maj),
        digits_value(maj) <= u64::MAX,
        min matches Some(x) ==> x.len() > 0 && all_digits(x) && digits_value(x) <= u64::MAX,
    ensures
        spec_npm_block(seq!['>', '='] + maj + opt_part('.', min)) is Ok,
        pre_or_empty(v).len() == 0 ==> (clause_matches(
            (spec_npm_block(seq!['>', '='] + maj + opt_part('.', min))->Ok_0).0,
            v,
        ) <==> precedence_order(
            v,
            release(
                digits_value(maj) as u64,
                match min {
                    Some(x) => digits_value(x) as u64,
                    None => 0,
                },
                0,
            ),
        ) >= 0),
        spec_npm_parse(seq!['>', '='] + maj + opt_part('.', min)) is Ok,
        pre_or_empty(v).len() == 0 ==> (clause_matches(
            spec_npm_parse(seq!['>', '='] + maj + opt_part('.', min))->Ok_0,
            v,
        ) <==> precedence_order(
            v,
            release(
                digits_value(maj) as u64,
                match min {
                    Some(x) => digits_value(x) as u64,
                    None => 0,
                },
                0,
            ),
        ) >= 0),
{
    let tail = opt_part('.', min);
    let b = seq!['>', '='] + maj + tail;
    let e = Seq::<char>::empty();
    assert(b[0] == '>' && b[1] == '=');
    assert(b.skip(2) =~= maj + tail);
    assert(tail.len() == 0 || tail[0] == '.');
    lemma_digit_run_of(maj, tail);
    assert(is_digit(maj[0]));
    assert((maj + tail)[0] == maj[0]);
    assert((maj + tail).take(maj.len() as int) =~= maj);
    assert((maj + tail).skip(maj.len() as int) =~= tail);
    assert(npm_component(maj + tail) == Some((maj, tail)));
    match min {
        None => {
            assert(tail =~= e);
            assert(npm_dotted(e) == Some((None::<Seq<char>>, e)));
        },
        Some(x) => {
            assert(tail.drop_first() =~= x);
            lemma_digit_run_of(x, e);
            assert(x + e =~= x);
            assert(is_digit(x[0]));
            assert(x.take(x.len() as int) =~= x);
            assert(x.skip(x.len() as int) =~= e);
            assert(npm_component(x) == Some((x, e)));
            assert(npm_dotted(tail) == Some((Some(x), e)));
            assert(npm_dotted(e) == Some((None::<Seq<char>>, e)));
            assert(component_value(x) == Some(digits_value(x) as u64));
        },
    }
    assert(version_tail(e, true) == Some((None::<Seq<char>>, None::<Seq<char>>)));
    let p = npm_pieces(b)->Some_0;
    assert(npm_pieces(b) is Some);
    assert(p.op == NpmOp::Gte && p.major == maj && p.minor == min && p.patch is None);
    assert(p.prerelease is None && p.build is None);
    assert(component_value(maj) == Some(digits_value(maj) as u64));
    let c = (spec_npm_block(b)->Ok_0).0;
    let target = release(
        digits_value(maj) as u64,
        match min {
            Some(x) => digits_value(x) as u64,
            None => 0,
        },
        0,
    );
    if let ClauseView::Range(r) = c {
        assert(r.operator == Operator::Gte);
        assert(precedence_key(r.target) == precedence_key(target));
        lemma_truncate_keeps_precedence(v, r.target);
    }
    assert forall|i: int| 0 <= i < b.len() implies !is_whitespace(#[trigger] b[i]) && b[i] != '|' by {
        if i >= 2 && i < 2 + maj.len() {
            assert(b[i] == maj[i - 2]);
            assert(is_digit(maj[i - 2]));
        } else if i >= 2 + maj.len() {
            assert(b[i] == tail[i - 2 - maj.len()]);
            if let Some(x) = min {
                if i > 2 + maj.len() {
                    assert(tail[i - 2 - maj.len()] == x[i - 3 - maj.len()]);
                    assert(is_digit(x[i - 3 - maj.len()]));
                }
            }
        }
    }
    assert(c is Range);
    assert(!(spec_npm_block(b)->Ok_0).1);
    lemma_npm_single_block(b);
    crate::clause::lemma_list_matches(seq![c], v);
}

/// A version number as the legacy syntax writes it: digits, no leading zero
/// (`0` alone excepted), fitting a `u64`.
pub open spec fn plain_number(x: Seq<char>) -> bool {
    &&& x.len() > 0
    &&& all_digits(x)
    &&& (x[0] == '0' ==> x.len() == 1)
    &&& digits_value(x) <= u64::MAX
}

/// The legacy block `^M.m.p`.
pub open spec fn caret_block(maj: Seq<char>, min: Seq<char>, pat: Seq<char>) -> Seq<char> {
    seq!['^'] + maj + seq!['.'] + min + seq!['.'] + pat
}

/// A number part, then `.` or the end: the legacy reader takes the number.
proof fn lemma_legacy_component_of(x: Seq<char>, rest: Seq<char>)
    requires
        plain_number(x),
        rest.len() == 0 || rest[0] == '.',
    ensures
        legacy_component(x + rest) == Some((x, rest)),
{
    assert((x + rest)[0] == x[0]);
    assert(is_digit(x[0]));
    if x[0] == '0' {
        assert((x + rest).take(1) =~= x);
        assert((x + rest).skip(1) =~= rest);
    } else {
        lemma_digit_run_of(x, rest);
        assert((x + rest).take(x.len() as int) =~= x);
        assert((x + rest).skip(x.len() as int) =~= rest);
    }
}

/// The legacy caret `^M.m.p` lets only the parts right of the left-most
/// non-zero one change. It accepts no version below `M.m.p`, and none at or
/// above `(M+1).0.0` when `M > 0`, `0.(m+1).0` when `M` is 0 and `m > 0`,
/// `0.0.(p+1)` when both are 0; a version without prerelease between the two
/// is accepted.
pub proof fn law_legacy_caret_bounds(maj: Seq<char>, min: Seq<char>, pat: Seq<char>, v: VersionView)
    requires
        plain_number(maj),
        plain_number(min),
        plain_number(pat),
        digits_value(maj) > 0 ==> digits_value(maj) < u64::MAX,
        digits_value(maj) == 0 && digits_value(min) > 0 ==> digits_value(min) < u64::MAX,
        digits_value(maj) == 0 && digits_value(min) == 0 ==> digits_value(pat) < u64::MAX,
    ensures
        spec_legacy_expression(caret_block(maj, min, pat)) is Ok,
        spec_legacy_expression(caret_block(maj, min, pat)) == spec_legacy_block(
            caret_block(maj, min, pat),
        ),
        clause_matches(spec_legacy_expression(caret_block(maj, min, pat))->Ok_0, v)
            ==> precedence_order(
            v,
            release(digits_value(maj) as u64, digits_value(min) as u64, digits_value(pat) as u64),
        ) >= 0,
        digits_value(maj) > 0 ==> {
            &&& clause_matches(spec_legacy_expression(caret_block(maj, min, pat))->Ok_0, v)
                ==> precedence_order(v, release((digits_value(maj) + 1) as u64, 0, 0)) < 0
            &&& pre_or_empty(v).len() == 0 ==> (clause_matches(
                spec_legacy_expression(caret_block(maj, min, pat))->Ok_0,
                v,
            ) <==> precedence_order(
                v,
                release(digits_value(maj) as u64, digits_value(min) as u64, digits_value(pat) as u64),
            ) >= 0 && precedence_order(v, release((digits_value(maj) + 1) as u64, 0, 0)) < 0)
        },
        digits_value(maj) == 0 && digits_value(min) > 0 ==> {
            &&& clause_matches(spec_legacy_expression(caret_block(maj, min, pat))->Ok_0, v)
                ==> precedence_order(v, release(0, (digits_value(min) + 1) as u64, 0)) < 0
            &&& pre_or_empty(v).len() == 0 ==> (clause_matches(
                spec_legacy_expression(caret_block(maj, min, pat))->Ok_0,
                v,
            ) <==> precedence_order(
                v,
                release(0, digits_value(min) as u64, digits_value(pat) as u64),
            ) >= 0 && precedence_order(v, release(0, (digits_value(min) + 1) as u64, 0)) < 0)
        },
        digits_value(maj) == 0 && digits_value(min) == 0 ==> {
            &&& clause_matches(spec_legacy_expression(caret_block(maj, min, pat))->Ok_0, v)
                ==> precedence_order(v, release(0, 0, (digits_value(pat) + 1) as u64)) < 0
            &&& pre_or_empty(v).len() == 0 ==> (clause_matches(
                spec_legacy_expression(caret_block(maj, min, pat))->Ok_0,
                v,
            ) <==> precedence_order(v, release(0, 0, digits_value(pat) as u64)) >= 0
                && precedence_order(v, release(0, 0, (digits_value(pat) + 1) as u64)) < 0)
        },
{
    let b = caret_block(maj, min, pat);
    let e = Seq::<char>::empty();
    let dot = seq!['.'];
    let r2 = dot + pat;
    let r1 = dot + min + r2;
    assert(b =~= seq!['^'] + (maj + r1));
    assert(b[0] == '^');
    assert(simple_op(b) == (SimpleOp::Caret, 1int));
    assert(b.skip(1) =~= maj + r1);
    lemma_legacy_component_of(maj, r1);
    assert(r1.drop_first() =~= min + r2);
    lemma_legacy_component_of(min, r2);
    assert(legacy_dotted(r1) == Some((Some(min), r2)));
    assert(r2.drop_first() =~= pat + e);
    lemma_legacy_component_of(pat, e);
    assert(legacy_dotted(r2) == Some((Some(pat), e)));
    assert(version_tail(e, false) == Some((None::<Seq<char>>, None::<Seq<char>>)));
    let p = legacy_pieces(b)->Some_0;
    assert(legacy_pieces(b) is Some);
    assert(p.op == SimpleOp::Caret && p.major == maj && p.minor == Some(min) && p.patch == Some(
        pat,
    ));
    assert(p.prerelease is None && p.build is None);
    assert(is_digit(maj[0]) && is_digit(min[0]) && is_digit(pat[0]));
    let mj = digits_value(maj) as u64;
    let mn = digits_value(min) as u64;
    let pt = digits_value(pat) as u64;
    let t = release(mj, mn, pt);
    assert(legacy_target(p) == Ok::<VersionView, ErrorView>(t));
    let high = if mj > 0 {
        spec_next_major(t)
    } else if mn > 0 {
        spec_next_minor(t)
    } else {
        spec_next_patch(t)
    };
    let lo = RangeView {
        operator: Operator::Gte,
        target: t,
        prerelease_policy: PrereleasePolicy::Natural,
        build_policy: BuildPolicy::Implicit,
    };
    let hi = RangeView {
        operator: Operator::Lt,
        target: high,
        prerelease_policy: PrereleasePolicy::Natural,
        build_policy: BuildPolicy::Implicit,
    };
    let c = ClauseView::AllOf(seq![ClauseView::Range(lo), ClauseView::Range(hi)]);
    assert(spec_legacy_block(b) == Ok::<ClauseView, ErrorView>(c));
    assert forall|i: int| 0 <= i < b.len() implies #[trigger] b[i] != ',' by {
        if i >= 1 && i < 1 + maj.len() {
            assert(b[i] == maj[i - 1]);
            assert(is_digit(maj[i - 1]));
        } else if i >= 2 + maj.len() && i < 2 + maj.len() + min.len() {
            assert(b[i] == min[i - 2 - maj.len()]);
            assert(is_digit(min[i - 2 - maj.len()]));
        } else if i >= 3 + maj.len() + min.len() {
            assert(b[i] == pat[i - 3 - maj.len() - min.len()]);
            assert(is_digit(pat[i - 3 - maj.len() - min.len()]));
        }
    }
    lemma_no_comma_split(b);
    assert(!is_whitespace(b[0]));
    assert(!all_whitespace(b));
    assert(!b.contains(','));
    assert(seq![b].drop_last() =~= Seq::<Seq<char>>::empty());
    assert(seq![b].last() == b);
    assert(legacy_blocks(Seq::<Seq<char>>::empty()) == Ok::<Seq<ClauseView>, ErrorView>(
        Seq::empty(),
    ));
    assert(Seq::<ClauseView>::empty().push(c) =~= seq![c]);
    assert(legacy_blocks(seq![b]) == Ok::<Seq<ClauseView>, ErrorView>(seq![c]));
    assert(seq![c].drop_last() =~= Seq::<ClauseView>::empty());
    assert(seq![c].last() == c);
    assert(and_fold(Seq::<ClauseView>::empty()) == ClauseView::Always);
    assert(and_fold(seq![c]) == c);
    assert(spec_legacy_expression(b) == Ok::<ClauseView, ErrorView>(c));
    crate::clause::lemma_list_matches(seq![ClauseView::Range(lo), ClauseView::Range(hi)], v);
    crate::laws::law_ordering_ranges_follow_precedence(lo, v);
    crate::laws::law_ordering_ranges_follow_precedence(hi, v);
    if clause_matches(c, v) {
        assert(clause_matches(seq![ClauseView::Range(lo), ClauseView::Range(hi)][0], v));
        assert(clause_matches(seq![ClauseView::Range(lo), ClauseView::Range(hi)][1], v));
    }
}

/// The text `M.m.p` of a release.
pub open spec fn release_text(maj: Seq<char>, min: Seq<char>, pat: Seq<char>) -> Seq<char> {
    maj + seq!['.'] + min + seq!['.'] + pat
}

/// How a legacy block of an operator text and a release `M.m.p` splits into
/// its pieces, and the version they stand for.
#[verifier::rlimit(80)]
proof fn lemma_legacy_release_pieces(ot: Seq<char>, maj: Seq<char>, min: Seq<char>, pat: Seq<char>)
    requires
        plain_number(maj),
        plain_number(min),
        plain_number(pat),
        simple_op(ot + release_text(maj, min, pat)).1 == ot.len(),
        forall|i: int| 0 <= i < ot.len() ==> #[trigger] ot[i] != ',' && !is_whitespace(ot[i]),
    ensures
        legacy_pieces(ot + release_text(maj, min, pat)) == Some(
            crate::legacy::LegacyPieces {
                op: simple_op(ot + release_text(maj, min, pat)).0,
                major: maj,
                minor: Some(min),
                patch: Some(pat),
                prerelease: None,
                build: None,
            },
        ),
        legacy_target(legacy_pieces(ot + release_text(maj, min, pat))->Some_0) == Ok::<
            VersionView,
            ErrorView,
        >(release(digits_value(maj) as u64, digits_value(min) as u64, digits_value(pat) as u64)),
        forall|i: int|
            0 <= i < (ot + release_text(maj, min, pat)).len() ==> #[trigger] (ot + release_text(
                maj,
                min,
                pat,
            ))[i] != ',' && !is_whitespace((ot + release_text(maj, min, pat))[i]),
        (ot + release_text(maj, min, pat)).len() > 0,
{
    let t = release_text(maj, min, pat);
    let b = ot + t;
    let n = ot.len() as int;
    let e = Seq::<char>::empty();
    let dot = seq!['.'];
    let r2 = dot + pat;
    let r1 = dot + min + r2;
    assert(t =~= maj + r1);
    assert(b.skip(n) =~= maj + r1);
    lemma_legacy_component_of(maj, r1);
    assert(r1.drop_first() =~= min + r2);
    lemma_legacy_component_of(min, r2);
    assert(legacy_dotted(r1) == Some((Some(min), r2)));
    assert(r2.drop_first() =~= pat + e);
    lemma_legacy_component_of(pat, e);
    assert(legacy_dotted(r2) == Some((Some(pat), e)));
    assert(version_tail(e, false) == Some((None::<Seq<char>>, None::<Seq<char>>)));
    assert(is_digit(maj[0]) && is_digit(min[0]) && is_digit(pat[0]));
    assert forall|i: int| 0 <= i < b.len() implies #[trigger] b[i] != ',' && !is_whitespace(b[i]) by {
        if i >= n {
            assert(b[i] == t[i - n]);
            if i < n + maj.len() {
                assert(t[i - n] == maj[i - n]);
                assert(is_digit(maj[i - n]));
            } else if i >= n + maj.len() + 1 && i < n + maj.len() + 1 + min.len() {
                assert(t[i - n] == min[i - n - maj.len() - 1]);
                assert(is_digit(min[i - n - maj.len() - 1]));
            } else if i >= n + maj.len() + 2 + min.len() {
                assert(t[i - n] == pat[i - n - maj.len() - 2 - min.len()]);
                assert(is_digit(pat[i - n - maj.len() - 2 - min.len()]));
            }
        }
    }
    assert(b.len() > 0);
}

/// A legacy expression of one block without `,` (nor leading white space)
/// is what that block gives.
proof fn lemma_legacy_single_block(b: Seq<char>)
    requires
        b.len() > 0,
        forall|i: int| 0 <= i < b.len() ==> #[trigger] b[i] != ',' && !is_whitespace(b[i]),
    ensures
        spec_legacy_expression(b) == spec_legacy_block(b),
{
    let c = spec_legacy_block(b)->Ok_0;
    lemma_no_comma_split(b);
    assert(!is_whitespace(b[0]));
    assert(!all_whitespace(b));
    assert(!b.contains(','));
    assert(seq![b].drop_last() =~= Seq::<Seq<char>>::empty());
    assert(seq![b].last() == b);
    assert(legacy_blocks(Seq::<Seq<char>>::empty()) == Ok::<Seq<ClauseView>, ErrorView>(
        Seq::empty(),
    ));
    assert(Seq::<ClauseView>::empty().push(c) =~= seq![c]);
    if spec_legacy_block(b) is Ok {
        assert(legacy_blocks(seq![b]) == Ok::<Seq<ClauseView>, ErrorView>(seq![c]));
    }
    assert(seq![c].drop_last() =~= Seq::<ClauseView>::empty());
    assert(seq![c].last() == c);
    assert(and_fold(Seq::<ClauseView>::empty()) == ClauseView::Always);
    assert(and_fold(seq![c]) == c);
}

/// In the legacy syntax, a comparison operator before a release `M.m.p` is
/// the range with that very operator and target `M.m.p`, under the default
/// policies. For a version without prerelease, `<`, `<=`, `>` and `>=` accept
/// exactly the versions on that side of `M.m.p` in precedence; `==` accepts
/// `M.m.p` and no version of another precedence; `!=` refuses `M.m.p` and
/// accepts every such version of another precedence.
pub proof fn law_legacy_comparison(op: Operator, maj: Seq<char>, min: Seq<char>, pat: Seq<char>, v: VersionView)
    requires
        plain_number(maj),
        plain_number(min),
        plain_number(pat),
    ensures
        spec_legacy_expression(comparison_text(op) + release_text(maj, min, pat)) == Ok::<
            ClauseView,
            ErrorView,
        >(
            ClauseView::Range(
                RangeView {
                    operator: op,
                    target: release(
                        digits_value(maj) as u64,
                        digits_value(min) as u64,
                        digits_value(pat) as u64,
                    ),
                    prerelease_policy: PrereleasePolicy::Natural,
                    build_policy: BuildPolicy::Implicit,
                },
            ),
        ),
        ({
            let t = release(digits_value(maj) as u64, digits_value(min) as u64, digits_value(pat) as u64);
            let c = spec_legacy_expression(comparison_text(op) + release_text(maj, min, pat))->Ok_0;
            &&& op == Operator::Eq ==> clause_matches(c, t)
            &&& op == Operator::Eq && clause_matches(c, v) ==> precedence_order(v, t) == 0
            &&& op == Operator::Neq ==> !clause_matches(c, t)
            &&& pre_or_empty(v).len() == 0 ==> {
                let m = clause_matches(c, v);
                let d = precedence_order(v, t);
                &&& op == Operator::Lt ==> (m <==> d < 0)
                &&& op == Operator::Lte ==> (m <==> d <= 0)
                &&& op == Operator::Gt ==> (m <==> d > 0)
                &&& op == Operator::Gte ==> (m <==> d >= 0)
                &&& op == Operator::Neq && d != 0 ==> m
            }
        }),
{
    let ot = comparison_text(op);
    let rt = release_text(maj, min, pat);
    let b = ot + rt;
    assert(is_digit(maj[0]) && is_digit(min[0]) && is_digit(pat[0]));
    assert(!crate::legacy::is_star(maj) && !crate::legacy::is_star(min) && !crate::legacy::is_star(
        pat,
    ));
    assert(rt[0] == maj[0]);
    assert(b[ot.len() as int] == rt[0]);
    assert(simple_op(b) == (SimpleOp::Cmp(op), ot.len() as int));
    lemma_legacy_release_pieces(ot, maj, min, pat);
    let t = release(digits_value(maj) as u64, digits_value(min) as u64, digits_value(pat) as u64);
    let r = RangeView {
        operator: op,
        target: t,
        prerelease_policy: PrereleasePolicy::Natural,
        build_policy: BuildPolicy::Implicit,
    };
    assert(spec_legacy_block(b) == Ok::<ClauseView, ErrorView>(ClauseView::Range(r)));
    lemma_legacy_single_block(b);
    crate::laws::law_ordering_ranges_follow_precedence(r, v);
    lemma_truncate_keeps_precedence(v, t);
    assert(version_eq(spec_truncate_to_prerelease(t), t));
    if clause_matches(ClauseView::Range(r), v) && op == Operator::Eq {
        law_equal_versions_same_precedence(spec_truncate_to_prerelease(v), t);
    }
    if pre_or_empty(v).len() == 0 && precedence_order(v, t) != 0 && op == Operator::Neq {
        let cv = spec_truncate_to_prerelease(v);
        if version_eq(cv, t) {
            law_equal_versions_same_precedence(cv, t);
        }
    }
}

/// The legacy tilde and compatible-release operators on a release `M.m.p`:
/// `~M.m.p` and `~=M.m.p` accept from `M.m.p` up to, not including,
/// `M.(m+1).0`.
pub proof fn law_legacy_tilde_compatible(maj: Seq<char>, min: Seq<char>, pat: Seq<char>, v: VersionView)
    requires
        plain_number(maj),
        plain_number(min),
        plain_number(pat),
        digits_value(min) < u64::MAX,
    ensures
        spec_legacy_expression(seq!['~'] + release_text(maj, min, pat)) is Ok,
        spec_legacy_expression(seq!['~', '='] + release_text(maj, min, pat)) is Ok,
        accepts_between(
            spec_legacy_expression(seq!['~'] + release_text(maj, min, pat))->Ok_0,
            v,
            release(digits_value(maj) as u64, digits_value(min) as u64, digits_value(pat) as u64),
            release(digits_value(maj) as u64, (digits_value(min) + 1) as u64, 0),
        ),
        accepts_between(
            spec_legacy_expression(seq!['~', '='] + release_text(maj, min, pat))->Ok_0,
            v,
            release(digits_value(maj) as u64, digits_value(min) as u64, digits_value(pat) as u64),
            release(digits_value(maj) as u64, (digits_value(min) + 1) as u64, 0),
        ),
{
    let rt = release_text(maj, min, pat);
    let t = release(digits_value(maj) as u64, digits_value(min) as u64, digits_value(pat) as u64);
    let hi_t = release(digits_value(maj) as u64, (digits_value(min) + 1) as u64, 0);
    assert(is_digit(maj[0]) && is_digit(min[0]) && is_digit(pat[0]));
    assert(!crate::legacy::is_star(maj) && !crate::legacy::is_star(min) && !crate::legacy::is_star(
        pat,
    ));
    assert(rt[0] == maj[0]);
    let lo = RangeView {
        operator: Operator::Gte,
        target: t,
        prerelease_policy: PrereleasePolicy::Natural,
        build_policy: BuildPolicy::Implicit,
    };
    let hi = RangeView {
        operator: Operator::Lt,
        target: hi_t,
        prerelease_policy: PrereleasePolicy::Natural,
        build_policy: BuildPolicy::Implicit,
    };
    let c = ClauseView::AllOf(seq![ClauseView::Range(lo), ClauseView::Range(hi)]);
    let bt = seq!['~'] + rt;
    assert(bt[1] == rt[0]);
    assert(simple_op(bt) == (SimpleOp::Tilde, 1int));
    lemma_legacy_release_pieces(seq!['~'], maj, min, pat);
    assert(spec_legacy_block(bt) == Ok::<ClauseView, ErrorView>(c));
    lemma_legacy_single_block(bt);
    let bk = seq!['~', '='] + rt;
    assert(bk[2] == rt[0]);
    assert(simple_op(bk) == (SimpleOp::Compatible, 2int));
    lemma_legacy_release_pieces(seq!['~', '='], maj, min, pat);
    assert(spec_legacy_block(bk) == Ok::<ClauseView, ErrorView>(c));
    lemma_legacy_single_block(bk);
    let cs = seq![ClauseView::Range(lo), ClauseView::Range(hi)];
    crate::clause::lemma_list_matches(cs, v);
    crate::laws::law_ordering_ranges_follow_precedence(lo, v);
    crate::laws::law_ordering_ranges_follow_precedence(hi, v);
    if clause_matches(c, v) {
        assert(clause_matches(cs[0], v));
        assert(clause_matches(cs[1], v));
    }
}

/// How a legacy block of an operator text and a version `M.m` or `M` splits
/// into its pieces, and the version they stand for.
#[verifier::rlimit(80)]
proof fn lemma_legacy_partial_pieces(ot: Seq<char>, maj: Seq<char>, min: Option<Seq<char>>)
    requires
        plain_number(maj),
        min matches Some(x) ==> plain_number(x),
        simple_op(ot + maj + opt_part('.', min)).1 == ot.len(),
        forall|i: int| 0 <= i < ot.len() ==> #[trigger] ot[i] != ',' && !is_whitespace(ot[i]),
    ensures
        legacy_pieces(ot + maj + opt_part('.', min)) == Some(
            crate::legacy::LegacyPieces {
                op: simple_op(ot + maj + opt_part('.', min)).0,
                major: maj,
                minor: min,
                patch: None,
                prerelease: None,
                build: None,
            },
        ),
        legacy_target(legacy_pieces(ot + maj + opt_part('.', min))->Some_0) == Ok::<
            VersionView,
            ErrorView,
        >(partial_low(maj, min)),
        forall|i: int|
            0 <= i < (ot + maj + opt_part('.', min)).len() ==> #[trigger] (ot + maj + opt_part(
                '.',
                min,
            ))[i] != ',' && !is_whitespace((ot + maj + opt_part('.', min))[i]),
        (ot + maj + opt_part('.', min)).len() > 0,
        !crate::legacy::is_star(maj),
        min matches Some(x) ==> !crate::legacy::is_star(x),
{
    let tail = opt_part('.', min);
    let b = ot + maj + tail;
    let n = ot.len() as int;
    let e = Seq::<char>::empty();
    assert(b.skip(n) =~= maj + tail);
    assert(tail.len() == 0 || tail[0] == '.');
    lemma_legacy_component_of(maj, tail);
    assert(is_digit(maj[0]));
    if let Some(x) = min {
        assert(tail.drop_first() =~= x + e);
        lemma_legacy_component_of(x, e);
        assert(legacy_dotted(tail) == Some((Some(x), e)));
        assert(is_digit(x[0]));
    } else {
        assert(tail =~= e);
    }
    assert(legacy_dotted(e) == Some((None::<Seq<char>>, e)));
    assert(version_tail(e, false) == Some((None::<Seq<char>>, None::<Seq<char>>)));
    assert forall|i: int| 0 <= i < b.len() implies #[trigger] b[i] != ',' && !is_whitespace(b[i]) by {
        if i >= n && i < n + maj.len() {
            assert(b[i] == maj[i - n]);
            assert(is_digit(maj[i - n]));
        } else if i >= n + maj.len() {
            assert(b[i] == tail[i - n - maj.len()]);
            if let Some(x) = min {
                if i > n + maj.len() {
                    assert(tail[i - n - maj.len()] == x[i - n - maj.len() - 1]);
                    assert(is_digit(x[i - n - maj.len() - 1]));
                }
            }
        }
    }
}

/// In the legacy syntax, a comparison with a version whose patch (or minor
/// and patch) is left out is a comparison with all the releases that version
/// covers, from `partial_low` up to, not including, `partial_next`. For a
/// version without prerelease: `==` accepts exactly those, `!=` exactly the
/// others, `>=` those and everything above, `<` everything below, `>`
/// everything above them and `<=` everything up to and including them.
#[verifier::rlimit(80)]
pub proof fn law_legacy_partial_comparison(op: Operator, maj: Seq<char>, min: Option<Seq<char>>, v: VersionView)
    requires
        plain_number(maj),
        min matches Some(x) ==> plain_number(x),
        match min {
            Some(x) => digits_value(x) < u64::MAX,
            None => digits_value(maj) < u64::MAX,
        },
    ensures
        spec_legacy_expression(comparison_text(op) + maj + opt_part('.', min)) is Ok,
        pre_or_empty(v).len() == 0 ==> {
            let m = clause_matches(
                spec_legacy_expression(comparison_text(op) + maj + opt_part('.', min))->Ok_0,
                v,
            );
            let lo = precedence_order(v, partial_low(maj, min));
            let hi = precedence_order(v, partial_next(maj, min));
            &&& op == Operator::Eq ==> (m <==> lo >= 0 && hi < 0)
            &&& op == Operator::Neq ==> (m <==> lo < 0 || hi >= 0)
            &&& op == Operator::Gte ==> (m <==> lo >= 0)
            &&& op == Operator::Lt ==> (m <==> lo < 0)
            &&& op == Operator::Gt ==> (m <==> hi >= 0)
            &&& op == Operator::Lte ==> (m <==> hi < 0)
        },
{
    let ot = comparison_text(op);
    let tail = opt_part('.', min);
    let b = ot + maj + tail;
    assert(is_digit(maj[0]));
    assert(b[ot.len() as int] == maj[0]);
    assert(simple_op(b) == (SimpleOp::Cmp(op), ot.len() as int));
    lemma_legacy_partial_pieces(ot, maj, min);
    let low = partial_low(maj, min);
    let next = partial_next(maj, min);
    let rl = |o: Operator, t: VersionView|
        RangeView {
            operator: o,
            target: t,
            prerelease_policy: PrereleasePolicy::Natural,
            build_policy: BuildPolicy::Implicit,
        };
    let c = match op {
        Operator::Eq => ClauseView::AllOf(
            seq![ClauseView::Range(rl(Operator::Gte, low)), ClauseView::Range(rl(Operator::Lt, next))],
        ),
        Operator::Neq => ClauseView::AnyOf(
            seq![ClauseView::Range(rl(Operator::Lt, low)), ClauseView::Range(rl(Operator::Gte, next))],
        ),
        Operator::Gt => ClauseView::Range(rl(Operator::Gte, next)),
        Operator::Gte => ClauseView::Range(rl(Operator::Gte, low)),
        Operator::Lt => ClauseView::Range(rl(Operator::Lt, low)),
        Operator::Lte => ClauseView::Range(rl(Operator::Lt, next)),
    };
    assert(spec_legacy_block(b) == Ok::<ClauseView, ErrorView>(c));
    lemma_legacy_single_block(b);
    crate::laws::law_ordering_ranges_follow_precedence(rl(Operator::Gte, low), v);
    crate::laws::law_ordering_ranges_follow_precedence(rl(Operator::Lt, low), v);
    crate::laws::law_ordering_ranges_follow_precedence(rl(Operator::Gte, next), v);
    crate::laws::law_ordering_ranges_follow_precedence(rl(Operator::Lt, next), v);
    if op == Operator::Eq {
        let cs = seq![ClauseView::Range(rl(Operator::Gte, low)), ClauseView::Range(rl(Operator::Lt, next))];
        crate::clause::lemma_list_matches(cs, v);
        if clause_matches(c, v) {
            assert(clause_matches(cs[0], v));
            assert(clause_matches(cs[1], v));
        }
    }
    if op == Operator::Neq {
        let cs = seq![ClauseView::Range(rl(Operator::Lt, low)), ClauseView::Range(rl(Operator::Gte, next))];
        crate::clause::lemma_list_matches(cs, v);
        if clause_matches(cs[0], v) || clause_matches(cs[1], v) {
            assert(clause_matches(c, v));
        }
    }
}

/// How the legacy syntax writes each operator of a block.
pub open spec fn legacy_op_text(k: SimpleOp) -> Seq<char> {
    match k {
        SimpleOp::Cmp(op) => comparison_text(op),
        SimpleOp::Caret => seq!['^'],
        SimpleOp::Tilde => seq!['~'],
        SimpleOp::Compatible => seq!['~', '='],
    }
}

/// The last part `.*` of a legacy version.
pub open spec fn star_suffix() -> Seq<char> {
    seq!['.', '*']
}

/// How a legacy block whose last part is `*` splits into its pieces.
#[verifier::rlimit(80)]
proof fn lemma_legacy_wild_pieces(k: SimpleOp, maj: Seq<char>, min: Option<Seq<char>>)
    requires
        plain_number(maj),
        min matches Some(x) ==> plain_number(x),
    ensures
        legacy_pieces(legacy_op_text(k) + maj + opt_part('.', min) + star_suffix()) == Some(
            crate::legacy::LegacyPieces {
                op: k,
                major: maj,
                minor: if min is Some {
                    min
                } else {
                    Some(seq!['*'])
                },
                patch: if min is Some {
                    Some(seq!['*'])
                } else {
                    None
                },
                prerelease: None,
                build: None,
            },
        ),
        simple_op(legacy_op_text(k) + maj + opt_part('.', min)) == (k, legacy_op_text(k).len() as int),
        forall|i: int|
            0 <= i < (legacy_op_text(k) + maj + opt_part('.', min) + star_suffix()).len()
                ==> #[trigger] (legacy_op_text(k) + maj + opt_part('.', min) + star_suffix())[i]
                != ',' && !is_whitespace(
                (legacy_op_text(k) + maj + opt_part('.', min) + star_suffix())[i],
            ),
        (legacy_op_text(k) + maj + opt_part('.', min) + star_suffix()).len() > 0,
{
    let ot = legacy_op_text(k);
    let n = ot.len() as int;
    let e = Seq::<char>::empty();
    let ss = star_suffix();
    let b1 = ot + maj + opt_part('.', min);
    let b = b1 + ss;
    let tm = opt_part('.', min) + ss;
    assert(is_digit(maj[0]));
    assert(b =~= ot + (maj + tm));
    assert(b.skip(n) =~= maj + tm);
    assert(b[n] == maj[0] && b1[n] == maj[0]);
    assert(simple_op(b) == (k, n));
    assert(simple_op(b1) == (k, n));
    assert(tm[0] == '.');
    lemma_legacy_component_of(maj, tm);
    assert(ss.drop_first() =~= seq!['*']);
    assert(seq!['*'].take(1) =~= seq!['*']);
    assert(seq!['*'].skip(1) =~= e);
    assert(crate::legacy::legacy_component(seq!['*']) == Some((seq!['*'], e)));
    assert(legacy_dotted(ss) == Some((Some(seq!['*']), e)));
    assert(legacy_dotted(e) == Some((None::<Seq<char>>, e)));
    assert(version_tail(e, false) == Some((None::<Seq<char>>, None::<Seq<char>>)));
    if let Some(x) = min {
        assert(tm.drop_first() =~= x + ss);
        lemma_legacy_component_of(x, ss);
        assert(legacy_dotted(tm) == Some((Some(x), ss)));
    } else {
        assert(tm =~= ss);
    }
    assert forall|i: int| 0 <= i < b.len() implies #[trigger] b[i] != ',' && !is_whitespace(b[i]) by {
        if i >= n && i < n + maj.len() {
            assert(b[i] == maj[i - n]);
            assert(is_digit(maj[i - n]));
        } else if i >= n + maj.len() && i < n + maj.len() + opt_part('.', min).len() {
            assert(b[i] == opt_part('.', min)[i - n - maj.len()]);
            if let Some(x) = min {
                if i > n + maj.len() {
                    assert(opt_part('.', min)[i - n - maj.len()] == x[i - n - maj.len() - 1]);
                    assert(is_digit(x[i - n - maj.len() - 1]));
                }
            }
        }
    }
}

/// In the legacy syntax a last part `*` means the same as leaving that part
/// out: whatever the operator, `M.m.*` is read as `M.m` and `M.*` as `M`,
/// block by block and as a whole expression.
pub proof fn law_legacy_wildcard_part(k: SimpleOp, maj: Seq<char>, min: Option<Seq<char>>)
    requires
        plain_number(maj),
        min matches Some(x) ==> plain_number(x),
    ensures
        spec_legacy_block(legacy_op_text(k) + maj + opt_part('.', min) + star_suffix())
            == spec_legacy_block(legacy_op_text(k) + maj + opt_part('.', min)),
        spec_legacy_expression(legacy_op_text(k) + maj + opt_part('.', min) + star_suffix())
            == spec_legacy_expression(legacy_op_text(k) + maj + opt_part('.', min)),
{
    let ot = legacy_op_text(k);
    let b1 = ot + maj + opt_part('.', min);
    let b2 = b1 + star_suffix();
    lemma_legacy_wild_pieces(k, maj, min);
    assert forall|i: int| 0 <= i < ot.len() implies #[trigger] ot[i] != ',' && !is_whitespace(
        ot[i],
    ) by {}
    lemma_legacy_partial_pieces(ot, maj, min);
    assert(crate::legacy::is_star(seq!['*']));
    assert(spec_legacy_block(b2) == spec_legacy_block(b1));
    lemma_legacy_single_block(b1);
    lemma_legacy_single_block(b2);
}

/// The pieces of a full version text, read as a partial one.
spec fn version_pieces_of(t: Seq<char>) -> crate::version::VersionPieces {
    crate::version::version_pieces(t, true)->Some_0
}

} // verus!
