//! Properties that hold across the operations of the library.

use vstd::prelude::*;

use crate::clause::{
    all_clauses_match, all_part, and_view, any_clause_matches, any_part, clause_equiv,
    clause_matches, collect_all, collect_any, has_match, has_prerelease, lemma_equiv_lists,
    lemma_match_exists, matched_by, or_view, range_matches, simplify_view, BuildPolicy, ClauseView,
    Operator, PrereleasePolicy, RangeView,
};
use crate::legacy::{
    allof_children, filter_matching, legacy_blocks, lemma_legacy_blocks_listed, select_best,
    spec_legacy_expression,
};
use crate::npm_spec::{
    any_npm_clause, lemma_npm_groups_accept, lemma_star_group, npm_group_accepts, npm_groups,
    spec_npm_group, spec_npm_parse,
};
use crate::error::ErrorView;
use crate::simple_spec::{and_fold, parse_simple_blocks, spec_simple_parse};
use crate::identifiers::{
    build_text, lemma_pre_list_order, lemma_pre_list_order_trans, pre_ident_of, pre_idents_of,
    build_order, chars_order, num_order, pre_list_order, pre_order,
    pre_part_error, pre_text, spec_build, spec_prerelease, BuildIdentView, PreIdentView,
};
use crate::text::{
    all_digits, all_ident_chars, decimal, is_digit, is_ident_char, digit_run, digits_value, has_leading_zero, index_of_char,
    is_canonical_decimal, join_with, lemma_canonical_decimal, lemma_digit_run,
    lemma_index_of_char, lemma_join_split, split_on, split_seq, trim, zero_run,
    lemma_decimal_run_of,
};
use crate::version::{
    build_or_empty, build_suffix, component_text, dotted_number, key_order, pre_or_empty,
    precedence_key, precedence_order, prerelease_suffix, release, spec_next_major, spec_next_minor,
    spec_next_patch, spec_parse_version, spec_truncate_to_patch, spec_truncate_to_prerelease,
    unwrap_or_zero, version_eq, version_pieces, version_tail, version_text, compare_outcome,
    PrecedenceKeyView, VersionPieces, VersionView, coerce_numbers, coerce_numbers_len, pad_numbers,
    coerce_rest_split, coerce_text, dotted_decimal, opt_has_leading_zero, plus_to_dot, sanitize, spec_coerce, strip_zeros,
};

verus! {

// ---------------------------------------------------------------------------
// Rendering a parsed version gives the text back
// ---------------------------------------------------------------------------

/// The text the pieces of a version string spell.
pub open spec fn pieces_text(p: VersionPieces) -> Seq<char> {
    p.major + match p.minor {
        Some(m) => seq!['.'] + m,
        None => Seq::empty(),
    } + match p.patch {
        Some(m) => seq!['.'] + m,
        None => Seq::empty(),
    } + match p.prerelease {
        Some(x) => seq!['-'] + x,
        None => Seq::empty(),
    } + match p.build {
        Some(x) => seq!['+'] + x,
        None => Seq::empty(),
    }
}

pub(crate) proof fn lemma_dotted_number_text(r: Seq<char>)
    ensures
        dotted_number(r) matches Some((d, rest)) ==> r == seq!['.'] + d + rest,
{
    if r.len() > 0 && r[0] == '.' {
        lemma_digit_run(r.drop_first());
        let n = digit_run(r.drop_first()) as int;
        assert(r =~= seq!['.'] + r.drop_first().take(n) + r.drop_first().skip(n));
    }
}

pub(crate) proof fn lemma_tail_text(t: Seq<char>, nonempty: bool)
    ensures
        version_tail(t, nonempty) matches Some((pre, build)) ==> t == match pre {
            Some(x) => seq!['-'] + x,
            None => Seq::<char>::empty(),
        } + match build {
            Some(x) => seq!['+'] + x,
            None => Seq::<char>::empty(),
        },
{
    if t.len() > 0 && t[0] == '-' {
        let u = t.drop_first();
        lemma_index_of_char(u, '+');
        let k = index_of_char(u, '+') as int;
        if k >= u.len() {
            assert(u.take(k) =~= u);
            assert(t =~= seq!['-'] + u);
        } else {
            assert(t =~= seq!['-'] + u.take(k) + seq!['+'] + u.skip(k + 1));
        }
    } else if t.len() > 0 && t[0] == '+' {
        assert(t =~= seq!['+'] + t.drop_first());
    } else if t.len() == 0 {
        assert(t =~= Seq::<char>::empty() + Seq::<char>::empty());
    }
}

/// A version string is exactly the concatenation of its pieces.
pub proof fn lemma_pieces_text(s: Seq<char>, partial: bool)
    ensures
        version_pieces(s, partial) matches Some(p) ==> pieces_text(p) == s,
{
    if let Some(p) = version_pieces(s, partial) {
        lemma_digit_run(s);
        let a = digit_run(s) as int;
        let r1 = s.skip(a);
        lemma_dotted_number_text(r1);
        let (minor, r2): (Option<Seq<char>>, Seq<char>) = match dotted_number(r1) {
            Some((d, rest)) => (Some(d), rest),
            None => (None, r1),
        };
        lemma_dotted_number_text(r2);
        let (patch, r3): (Option<Seq<char>>, Seq<char>) = if minor is Some {
            match dotted_number(r2) {
                Some((d, rest)) => (Some(d), rest),
                None => (None, r2),
            }
        } else {
            (None, r2)
        };
        lemma_tail_text(r3, !partial);
        let mt = match minor {
            Some(m) => seq!['.'] + m,
            None => Seq::<char>::empty(),
        };
        let pt = match patch {
            Some(m) => seq!['.'] + m,
            None => Seq::<char>::empty(),
        };
        assert(r1 =~= mt + r2);
        assert(r2 =~= pt + r3);
        assert(s =~= s.take(a) + r1);
        assert(pieces_text(p) =~= s);
    }
}

/// The texts of identifiers parsed out of pieces are those pieces.
proof fn lemma_pre_idents_text(parts: Seq<Seq<char>>)
    ensures
        pre_idents_of(parts) matches Ok(ids) ==> ids.len() == parts.len() && ids.map_values(
            |p: PreIdentView| pre_text(p),
        ) == parts,
    decreases parts.len(),
{
    if parts.len() > 0 {
        lemma_pre_idents_text(parts.drop_first());
        if let Ok(ids) = pre_idents_of(parts) {
            let p0 = parts[0];
            assert(pre_part_error(p0) is None);
            if all_digits(p0) && digits_value(p0) <= u64::MAX {
                assert(is_canonical_decimal(p0));
                lemma_canonical_decimal(p0);
            }
            if all_digits(p0) && digits_value(p0) > u64::MAX {
                if p0[0] == '0' {
                    assert(p0.len() == 1);
                    assert(p0.drop_last() =~= Seq::<char>::empty());
                    assert(digits_value(p0.drop_last()) == 0);
                    assert(p0.last() == '0');
                    assert(crate::text::digit_value('0') == 0);
                    assert(digits_value(p0) == 0);
                }
                assert(zero_run(p0) == 0);
                assert(p0.skip(0) =~= p0);
            }
            assert(pre_text(pre_ident_of(p0)) == p0);
            let rest = pre_idents_of(parts.drop_first())->Ok_0;
            assert(ids == seq![pre_ident_of(p0)] + rest);
            let m = ids.map_values(|p: PreIdentView| pre_text(p));
            let mr = rest.map_values(|p: PreIdentView| pre_text(p));
            assert(mr == parts.drop_first());
            assert forall|i: int| 0 <= i < parts.len() implies m[i] == parts[i] by {
                if i > 0 {
                    assert(ids[i] == rest[i - 1]);
                    assert(m[i] == mr[i - 1]);
                    assert(parts.drop_first()[i - 1] == parts[i]);
                }
            }
            assert(m =~= parts);
        }
    }
}

proof fn lemma_prerelease_text(x: Seq<char>)
    requires
        x.len() > 0,
        spec_prerelease(x) is Ok,
    ensures
        spec_prerelease(x)->Ok_0.len() > 0,
        join_with(spec_prerelease(x)->Ok_0.map_values(|p: PreIdentView| pre_text(p)), '.') == x,
{
    lemma_join_split(x, '.');
    lemma_pre_idents_text(split_on(x, '.'));
}

proof fn lemma_build_text(y: Seq<char>)
    requires
        y.len() > 0,
        spec_build(y) is Some,
    ensures
        spec_build(y)->0.len() > 0,
        join_with(spec_build(y)->0.map_values(|b: BuildIdentView| build_text(b)), '.') == y,
{
    lemma_join_split(y, '.');
    let parts = split_on(y, '.');
    let ids = spec_build(y)->0;
    assert(ids.map_values(|b: BuildIdentView| build_text(b)) =~= parts);
}

proof fn lemma_number_text(t: Seq<char>)
    requires
        t.len() > 0,
        all_digits(t),
        !has_leading_zero(t),
        digits_value(t) <= u64::MAX,
    ensures
        decimal((digits_value(t) as u64) as nat) == t,
{
    lemma_canonical_decimal(t);
}

/// Parsing prerelease text, then joining the texts of its identifiers with
/// dots, gives back the text; no identifier of the result is `Max`.
pub proof fn law_prerelease_render_parsed(x: Seq<char>)
    requires
        spec_prerelease(x) is Ok,
    ensures
        join_with(spec_prerelease(x)->Ok_0.map_values(|p: PreIdentView| pre_text(p)), '.') == x,
        forall|i: int|
            0 <= i < spec_prerelease(x)->Ok_0.len() ==> #[trigger] spec_prerelease(x)->Ok_0[i]
                != PreIdentView::Max,
{
    if x.len() == 0 {
        let e = Seq::<PreIdentView>::empty().map_values(|p: PreIdentView| pre_text(p));
        assert(e =~= Seq::<Seq<char>>::empty());
    } else {
        lemma_prerelease_text(x);
        lemma_no_max(split_on(x, '.'));
    }
}

/// Identifiers parsed out of pieces are never `Max`.
proof fn lemma_no_max(parts: Seq<Seq<char>>)
    ensures
        pre_idents_of(parts) matches Ok(ids) ==> forall|i: int|
            0 <= i < ids.len() ==> #[trigger] ids[i] != PreIdentView::Max,
    decreases parts.len(),
{
    if parts.len() > 0 {
        lemma_no_max(parts.drop_first());
        if let Ok(ids) = pre_idents_of(parts) {
            let rest = pre_idents_of(parts.drop_first())->Ok_0;
            assert(ids == seq![pre_ident_of(parts[0])] + rest);
            assert forall|i: int| 0 <= i < ids.len() implies #[trigger] ids[i] != PreIdentView::Max by {
                if i > 0 {
                    assert(ids[i] == rest[i - 1]);
                }
            }
        }
    }
}

/// Rendering a parsed full version gives back exactly the text it was parsed from.
pub proof fn law_render_parsed(s: Seq<char>)
    requires
        spec_parse_version(s, false) is Ok,
    ensures
        version_text(spec_parse_version(s, false)->Ok_0) == s,
{
    let v = spec_parse_version(s, false)->Ok_0;
    let p = version_pieces(s, false)->0;
    lemma_pieces_text(s, false);
    crate::version::lemma_pieces_digits(s, false);
    lemma_number_text(p.major);
    let mi = p.minor->0;
    let pa = p.patch->0;
    lemma_number_text(mi);
    lemma_number_text(pa);
    assert(component_text(v.minor) == seq!['.'] + mi);
    assert(component_text(v.patch) == seq!['.'] + pa);
    match p.prerelease {
        Some(x) => {
            lemma_prerelease_text(x);
            assert(prerelease_suffix(v) == seq!['-'] + x);
        },
        None => {
            assert(pre_or_empty(v) =~= Seq::<PreIdentView>::empty());
            assert(prerelease_suffix(v) =~= Seq::<char>::empty());
        },
    }
    match p.build {
        Some(y) => {
            lemma_build_text(y);
            assert(build_suffix(v) == seq!['+'] + y);
        },
        None => {
            assert(build_or_empty(v) =~= Seq::<BuildIdentView>::empty());
            assert(build_suffix(v) =~= Seq::<char>::empty());
        },
    }
    assert(version_text(v) =~= pieces_text(p));
}

// ---------------------------------------------------------------------------
// Precedence is a total preorder that ignores build metadata
// ---------------------------------------------------------------------------

proof fn lemma_key_order(a: PrecedenceKeyView, b: PrecedenceKeyView)
    ensures
        key_order(a, b) == -key_order(b, a),
        key_order(a, b) == 0 <==> a == b,
        -1 <= key_order(a, b) <= 1,
{
    lemma_pre_list_order(a.prerelease, b.prerelease);
}

/// Swapping the operands of a precedence comparison flips its sign.
pub proof fn law_precedence_antisymmetric(a: VersionView, b: VersionView)
    ensures
        precedence_order(a, b) == -precedence_order(b, a),
        -1 <= precedence_order(a, b) <= 1,
{
    lemma_key_order(precedence_key(a), precedence_key(b));
}

/// Every version has the same precedence as itself.
pub proof fn law_precedence_reflexive(a: VersionView)
    ensures
        precedence_order(a, a) == 0,
{
    lemma_key_order(precedence_key(a), precedence_key(a));
}

/// Precedence is transitive, strictly so when one step is strict.
pub proof fn law_precedence_transitive(a: VersionView, b: VersionView, c: VersionView)
    requires
        precedence_order(a, b) <= 0,
        precedence_order(b, c) <= 0,
    ensures
        precedence_order(a, c) <= 0,
        (precedence_order(a, b) < 0 || precedence_order(b, c) < 0) ==> precedence_order(a, c) < 0,
{
    let (ka, kb, kc) = (precedence_key(a), precedence_key(b), precedence_key(c));
    lemma_key_order(ka, kb);
    lemma_key_order(kb, kc);
    lemma_key_order(ka, kc);
    if ka.major == kb.major && kb.major == kc.major && ka.minor == kb.minor && kb.minor == kc.minor
        && ka.patch == kb.patch && kb.patch == kc.patch {
        lemma_pre_list_order_trans(ka.prerelease, kb.prerelease, kc.prerelease);
    }
}

/// Equal versions have the same precedence.
pub proof fn law_equal_versions_same_precedence(a: VersionView, b: VersionView)
    requires
        version_eq(a, b),
    ensures
        precedence_order(a, b) == 0,
{
    assert(precedence_key(a) == precedence_key(b));
    lemma_key_order(precedence_key(a), precedence_key(b));
}

/// Build metadata plays no part in precedence: versions that agree on
/// everything else have the same precedence, whatever their build metadata.
pub proof fn law_build_ignored_by_precedence(a: VersionView, b: VersionView)
    requires
        a.major == b.major,
        unwrap_or_zero(a.minor) == unwrap_or_zero(b.minor),
        unwrap_or_zero(a.patch) == unwrap_or_zero(b.patch),
        pre_or_empty(a) == pre_or_empty(b),
    ensures
        precedence_order(a, b) == 0,
{
    assert(precedence_key(a) == precedence_key(b));
    lemma_key_order(precedence_key(a), precedence_key(b));
}

/// A prerelease comes before its release (as long as its first identifier is
/// a real one, not the `Max` sentinel).
pub proof fn law_prerelease_before_release(v: VersionView)
    requires
        pre_or_empty(v).len() > 0,
        pre_or_empty(v)[0] != PreIdentView::Max,
    ensures
        precedence_order(v, spec_truncate_to_patch(v)) < 0,
{
    let r = spec_truncate_to_patch(v);
    assert(pre_or_empty(r).len() == 0);
    let pa = precedence_key(v).prerelease;
    let pb = precedence_key(r).prerelease;
    assert(pb == seq![PreIdentView::Max]);
    assert(pa[0] != PreIdentView::Max);
}

/// Bumping the major number gives a version of higher precedence (unless the
/// major number is already `u64::MAX`).
pub proof fn law_next_major_increases(v: VersionView)
    requires
        v.major < u64::MAX,
        pre_or_empty(v).len() > 0 ==> pre_or_empty(v)[0] != PreIdentView::Max,
    ensures
        precedence_order(v, spec_next_major(v)) < 0,
{
    let n = spec_next_major(v);
    assert(pre_or_empty(n).len() == 0);
    assert(precedence_key(n).prerelease == seq![PreIdentView::Max]);
}

/// Bumping the minor number gives a version of higher precedence (unless the
/// minor number is already `u64::MAX`).
pub proof fn law_next_minor_increases(v: VersionView)
    requires
        unwrap_or_zero(v.minor) < u64::MAX,
        pre_or_empty(v).len() > 0 ==> pre_or_empty(v)[0] != PreIdentView::Max,
    ensures
        precedence_order(v, spec_next_minor(v)) < 0,
{
    let n = spec_next_minor(v);
    assert(pre_or_empty(n).len() == 0);
    assert(precedence_key(n).prerelease == seq![PreIdentView::Max]);
}

/// Bumping the patch number gives a version of higher precedence (unless the
/// patch number is already `u64::MAX`).
pub proof fn law_next_patch_increases(v: VersionView)
    requires
        unwrap_or_zero(v.patch) < u64::MAX,
        pre_or_empty(v).len() > 0 ==> pre_or_empty(v)[0] != PreIdentView::Max,
    ensures
        precedence_order(v, spec_next_patch(v)) < 0,
{
    let n = spec_next_patch(v);
    assert(pre_or_empty(n).len() == 0);
    assert(precedence_key(n).prerelease == seq![PreIdentView::Max]);
}

/// `next_patch` is the least release above its input: it is a full release
/// (no prerelease, no build metadata), it has a higher precedence than the
/// input, and every release of higher precedence than the input has at least
/// its precedence (unless the patch number is already `u64::MAX`).
pub proof fn law_next_patch_is_least_release(v: VersionView, u: VersionView)
    requires
        pre_or_empty(v).len() > 0 || unwrap_or_zero(v.patch) < u64::MAX,
        pre_or_empty(v).len() > 0 ==> pre_or_empty(v)[0] != PreIdentView::Max,
    ensures
        spec_next_patch(v).prerelease == Some(Seq::<PreIdentView>::empty()),
        spec_next_patch(v).build == Some(Seq::<BuildIdentView>::empty()),
        !spec_next_patch(v).partial,
        precedence_order(v, spec_next_patch(v)) < 0,
        pre_or_empty(u).len() == 0 && precedence_order(v, u) < 0 ==> precedence_order(
            spec_next_patch(v),
            u,
        ) <= 0,
{
    let w = spec_next_patch(v);
    let max = seq![PreIdentView::Max];
    assert(precedence_key(w).prerelease == max);
    assert(pre_list_order(max, max) == 0) by {
        assert(max.drop_first() =~= Seq::<PreIdentView>::empty());
        assert(max[0] == PreIdentView::Max);
        assert(pre_order(max[0], max[0]) == 0);
        assert(pre_list_order(Seq::<PreIdentView>::empty(), Seq::<PreIdentView>::empty()) == 0);
    }
    if pre_or_empty(v).len() > 0 {
        assert(pre_list_order(precedence_key(v).prerelease, max) < 0);
    }
    if pre_or_empty(u).len() == 0 && precedence_order(v, u) < 0 {
        assert(precedence_key(u).prerelease == max);
        if pre_or_empty(v).len() == 0 {
            assert(precedence_key(v).prerelease == max);
        }
    }
}

/// `next_minor` is the least release of a new minor line above its input:
/// it is a full release with patch 0, of higher precedence than the input,
/// and every release with patch 0 of higher precedence than the input has at
/// least its precedence (unless the minor number is already `u64::MAX`).
pub proof fn law_next_minor_is_least_release(v: VersionView, u: VersionView)
    requires
        (pre_or_empty(v).len() > 0 && unwrap_or_zero(v.patch) == 0) || unwrap_or_zero(v.minor)
            < u64::MAX,
        pre_or_empty(v).len() > 0 ==> pre_or_empty(v)[0] != PreIdentView::Max,
    ensures
        spec_next_minor(v).prerelease == Some(Seq::<PreIdentView>::empty()),
        spec_next_minor(v).build == Some(Seq::<BuildIdentView>::empty()),
        spec_next_minor(v).patch == Some(0u64),
        spec_next_minor(v).major == v.major,
        !spec_next_minor(v).partial,
        precedence_order(v, spec_next_minor(v)) < 0,
        pre_or_empty(u).len() == 0 && unwrap_or_zero(u.patch) == 0 && precedence_order(v, u) < 0
            ==> precedence_order(spec_next_minor(v), u) <= 0,
{
    let w = spec_next_minor(v);
    let max = seq![PreIdentView::Max];
    assert(precedence_key(w).prerelease == max);
    assert(pre_list_order(max, max) == 0) by {
        assert(max.drop_first() =~= Seq::<PreIdentView>::empty());
        assert(max[0] == PreIdentView::Max);
        assert(pre_order(max[0], max[0]) == 0);
        assert(pre_list_order(Seq::<PreIdentView>::empty(), Seq::<PreIdentView>::empty()) == 0);
    }
    if pre_or_empty(v).len() > 0 {
        assert(pre_list_order(precedence_key(v).prerelease, max) < 0);
    }
    if pre_or_empty(u).len() == 0 && unwrap_or_zero(u.patch) == 0 && precedence_order(v, u) < 0 {
        assert(precedence_key(u).prerelease == max);
        if pre_or_empty(v).len() == 0 {
            assert(precedence_key(v).prerelease == max);
        }
    }
}

/// `next_major` is the least release of a new major line above its input:
/// it is a full release with minor and patch 0, of higher precedence than the
/// input, and every release with minor and patch 0 of higher precedence than
/// the input has at least its precedence (unless the major number is already
/// `u64::MAX`).
pub proof fn law_next_major_is_least_release(v: VersionView, u: VersionView)
    requires
        (pre_or_empty(v).len() > 0 && unwrap_or_zero(v.minor) == 0 && unwrap_or_zero(v.patch)
            == 0) || v.major < u64::MAX,
        pre_or_empty(v).len() > 0 ==> pre_or_empty(v)[0] != PreIdentView::Max,
    ensures
        spec_next_major(v).prerelease == Some(Seq::<PreIdentView>::empty()),
        spec_next_major(v).build == Some(Seq::<BuildIdentView>::empty()),
        spec_next_major(v).minor == Some(0u64),
        spec_next_major(v).patch == Some(0u64),
        !spec_next_major(v).partial,
        precedence_order(v, spec_next_major(v)) < 0,
        pre_or_empty(u).len() == 0 && unwrap_or_zero(u.minor) == 0 && unwrap_or_zero(u.patch) == 0
            && precedence_order(v, u) < 0 ==> precedence_order(spec_next_major(v), u) <= 0,
{
    let w = spec_next_major(v);
    let max = seq![PreIdentView::Max];
    assert(precedence_key(w).prerelease == max);
    assert(pre_list_order(max, max) == 0) by {
        assert(max.drop_first() =~= Seq::<PreIdentView>::empty());
        assert(max[0] == PreIdentView::Max);
        assert(pre_order(max[0], max[0]) == 0);
        assert(pre_list_order(Seq::<PreIdentView>::empty(), Seq::<PreIdentView>::empty()) == 0);
    }
    if pre_or_empty(v).len() > 0 {
        assert(pre_list_order(precedence_key(v).prerelease, max) < 0);
    }
    if pre_or_empty(u).len() == 0 && unwrap_or_zero(u.minor) == 0 && unwrap_or_zero(u.patch) == 0
        && precedence_order(v, u) < 0 {
        assert(precedence_key(u).prerelease == max);
        if pre_or_empty(v).len() == 0 {
            assert(precedence_key(v).prerelease == max);
        }
    }
}

/// The bytes of an ASCII text (each character is one byte, its code).
pub open spec fn ascii_bytes(s: Seq<char>) -> Seq<u8> {
    s.map_values(|c: char| c as u8)
}

/// Lexicographic order of byte strings (`<[u8] as Ord>::cmp`): -1, 0 or 1.
pub open spec fn bytes_order(a: Seq<u8>, b: Seq<u8>) -> int
    decreases a.len(),
{
    if a.len() == 0 {
        if b.len() == 0 {
            0
        } else {
            -1
        }
    } else if b.len() == 0 {
        1
    } else if a[0] != b[0] {
        num_order(a[0] as int, b[0] as int)
    } else {
        bytes_order(a.drop_first(), b.drop_first())
    }
}

/// Alphanumeric prerelease identifiers (whose characters the grammar keeps
/// within `[0-9A-Za-z-]`, all ASCII) are ordered by their bytes.
pub proof fn law_alpha_order_is_byte_order(x: Seq<char>, y: Seq<char>)
    requires
        all_ident_chars(x),
        all_ident_chars(y),
    ensures
        pre_order(PreIdentView::Alpha(x), PreIdentView::Alpha(y)) == bytes_order(
            ascii_bytes(x),
            ascii_bytes(y),
        ),
    decreases x.len(),
{
    if x.len() > 0 && y.len() > 0 {
        assert(is_ident_char(x[0]) && is_ident_char(y[0]));
        assert(ascii_bytes(x)[0] as int == x[0] as int);
        assert(ascii_bytes(y)[0] as int == y[0] as int);
        assert(ascii_bytes(x).drop_first() =~= ascii_bytes(x.drop_first()));
        assert(ascii_bytes(y).drop_first() =~= ascii_bytes(y.drop_first()));
        assert(all_ident_chars(x.drop_first())) by {
            assert forall|i: int| 0 <= i < x.drop_first().len() implies #[trigger] is_ident_char(
                x.drop_first()[i],
            ) by {
                assert(x.drop_first()[i] == x[i + 1]);
            }
        }
        assert(all_ident_chars(y.drop_first())) by {
            assert forall|i: int| 0 <= i < y.drop_first().len() implies #[trigger] is_ident_char(
                y.drop_first()[i],
            ) by {
                assert(y.drop_first()[i] == y[i + 1]);
            }
        }
        law_alpha_order_is_byte_order(x.drop_first(), y.drop_first());
    }
}

/// Numeric build identifiers are ordered by the numbers they denote, however
/// many digits they have; they come before alphanumeric ones.
pub proof fn law_build_numbers_by_value(x: Seq<char>, y: Seq<char>, z: Seq<char>)
    requires
        all_digits(x),
        all_digits(y),
    ensures
        build_order(BuildIdentView::Numeric(x), BuildIdentView::Numeric(y)) == num_order(
            digits_value(x) as int,
            digits_value(y) as int,
        ),
        build_order(BuildIdentView::Numeric(x), BuildIdentView::Alpha(z)) == -1,
{
    crate::identifiers::lemma_numeric_text_order(x, y);
}

/// A canonical decimal keeps its text when leading zeros are stripped.
proof fn lemma_canonical_unstripped(c: Seq<char>)
    requires
        c.len() > 0,
        all_digits(c),
        !has_leading_zero(c),
    ensures
        strip_zeros(c) == c,
{
    if c[0] == '0' {
        assert(c.len() == 1);
        assert(zero_run(c.drop_first()) == 0);
        assert(c =~= seq!['0']);
    } else {
        assert(c.skip(0) =~= c);
    }
}

/// Identifier characters (and `+`) pass `sanitize` unchanged; identifier
/// characters pass `plus_to_dot` unchanged.
pub(crate) proof fn lemma_ident_unchanged(x: Seq<char>)
    requires
        all_ident_chars(x),
    ensures
        x.map_values(|c: char| sanitize(c)) == x,
        x.map_values(|c: char| plus_to_dot(c)) == x,
        index_of_char(x, '+') == x.len(),
{
    assert(x.map_values(|c: char| sanitize(c)) =~= x) by {
        assert forall|i: int| 0 <= i < x.len() implies #[trigger] sanitize(x[i]) == x[i] by {
            assert(is_ident_char(x[i]));
        }
    }
    assert(x.map_values(|c: char| plus_to_dot(c)) =~= x) by {
        assert forall|i: int| 0 <= i < x.len() implies #[trigger] plus_to_dot(x[i]) == x[i] by {
            assert(is_ident_char(x[i]));
        }
    }
    lemma_index_of_char(x, '+');
    if index_of_char(x, '+') < x.len() {
        assert(is_ident_char(x[index_of_char(x, '+') as int]));
    }
}

/// `index_of_char` finds the first `+` of `x + '+' + y` right after `x`
/// when `x` has none.
pub(crate) proof fn lemma_first_plus(x: Seq<char>, y: Seq<char>)
    requires
        index_of_char(x, '+') == x.len(),
    ensures
        index_of_char(x + seq!['+'] + y, '+') == x.len(),
    decreases x.len(),
{
    if x.len() == 0 {
        assert((x + seq!['+'] + y)[0] == '+');
    } else {
        assert((x + seq!['+'] + y).drop_first() =~= x.drop_first() + seq!['+'] + y);
        assert((x + seq!['+'] + y)[0] == x[0]);
        lemma_first_plus(x.drop_first(), y);
    }
}

/// The text that `coerce` puts after the numbers, for the rest `r3`.
pub open spec fn coerce_tail_text(base: Seq<char>, r3: Seq<char>) -> Seq<char> {
    let rest = r3.map_values(|c: char| sanitize(c));
    let (pre, build0) = coerce_rest_split(rest);
    let build = build0.map_values(|c: char| plus_to_dot(c));
    let with_pre = if pre.len() > 0 {
        base + seq!['-'] + pre
    } else {
        base
    };
    if build.len() > 0 {
        with_pre + seq!['+'] + build
    } else {
        with_pre
    }
}

/// On the tail of a valid version, `coerce` keeps the text as it is.
proof fn lemma_coerce_tail(base: Seq<char>, r3: Seq<char>)
    requires
        r3.len() > 0,
        version_tail(r3, true) is Some,
    ensures
        coerce_tail_text(base, r3) == base + r3,
{
    lemma_tail_text(r3, true);
    let (pre, build) = version_tail(r3, true)->Some_0;
    match (pre, build) {
        (None, None) => {},
        (None, Some(b)) => {
            assert(r3 =~= seq!['+'] + b);
            lemma_ident_unchanged(b);
            assert(r3.map_values(|c: char| sanitize(c)) =~= r3);
            assert(r3.drop_first() =~= b);
            assert(base + seq!['+'] + b =~= base + r3);
        },
        (Some(x), None) => {
            assert(r3 =~= seq!['-'] + x);
            lemma_ident_unchanged(x);
            assert(r3.map_values(|c: char| sanitize(c)) =~= r3);
            assert(r3.drop_first() =~= x);
            assert(base + seq!['-'] + x =~= base + r3);
        },
        (Some(x), Some(b)) => {
            assert(r3 =~= seq!['-'] + x + seq!['+'] + b);
            lemma_ident_unchanged(x);
            lemma_ident_unchanged(b);
            assert(r3.map_values(|c: char| sanitize(c)) =~= r3) by {
                assert forall|i: int| 0 <= i < r3.len() implies #[trigger] sanitize(r3[i]) == r3[i] by {
                    if 1 <= i < 1 + x.len() {
                        assert(r3[i] == x[i - 1]);
                        assert(is_ident_char(x[i - 1]));
                    } else if i > 1 + x.len() {
                        assert(r3[i] == b[i - 2 - x.len()]);
                        assert(is_ident_char(b[i - 2 - x.len()]));
                    }
                }
            }
            let inner = r3.drop_first();
            assert(inner =~= x + seq!['+'] + b);
            lemma_first_plus(x, b);
            assert(inner.take(x.len() as int) =~= x);
            assert(inner.skip(x.len() as int + 1) =~= b);
            assert(base + seq!['-'] + x + seq!['+'] + b =~= base + r3);
        },
    }
}

/// The numbers `coerce` finds in `M.m.p` followed by a tail that starts with
/// `-` or `+` (or is empty), and the text they take.
proof fn lemma_coerce_numbers_of_parts(s: Seq<char>, major: Seq<char>, m: Seq<char>, pt: Seq<char>, r3: Seq<char>)
    requires
        s == major + (seq!['.'] + m + (seq!['.'] + pt + r3)),
        is_canonical_decimal(major),
        is_canonical_decimal(m),
        is_canonical_decimal(pt),
        r3.len() == 0 || !crate::text::is_decimal_digit(r3[0]),
    ensures
        coerce_numbers(s) == seq![major, m, pt],
        coerce_numbers_len(seq![major, m, pt]) == s.len() - r3.len(),
        s.skip(s.len() - r3.len()) == r3,
{
    let r2 = seq!['.'] + pt + r3;
    let r1 = seq!['.'] + m + r2;
    assert(s =~= major + r1);
    lemma_decimal_run_of(major, r1);
    assert(s.take(major.len() as int) =~= major);
    assert(s.skip(major.len() as int) =~= r1);
    assert(r1.drop_first() =~= m + r2);
    lemma_decimal_run_of(m, r2);
    assert(r1.drop_first().take(m.len() as int) =~= m);
    assert(r1.drop_first().skip(m.len() as int) =~= r2);
    assert(dotted_decimal(r1) == Some((m, r2)));
    assert(r2.drop_first() =~= pt + r3);
    lemma_decimal_run_of(pt, r3);
    assert(r2.drop_first().take(pt.len() as int) =~= pt);
    assert(r2.drop_first().skip(pt.len() as int) =~= r3);
    assert(dotted_decimal(r2) == Some((pt, r3)));
    assert(s.skip(s.len() - r3.len()) =~= r3);
}

/// The three numbers, without leading zeros stripped away, joined by dots.
proof fn lemma_coerce_base_of_parts(major: Seq<char>, m: Seq<char>, pt: Seq<char>)
    requires
        is_canonical_decimal(major),
        is_canonical_decimal(m),
        is_canonical_decimal(pt),
    ensures
        pad_numbers(seq![major, m, pt]) == seq![major, m, pt],
        join_with(seq![major, m, pt].map_values(|q: Seq<char>| strip_zeros(q)), '.') == major + (
        seq!['.'] + m + (seq!['.'] + pt)),
{
    let nums = seq![major, m, pt];
    lemma_canonical_unstripped(major);
    lemma_canonical_unstripped(m);
    lemma_canonical_unstripped(pt);
    assert(nums.map_values(|q: Seq<char>| strip_zeros(q)) =~= nums);
    assert(nums.drop_first() =~= seq![m, pt]);
    assert(seq![m, pt].drop_first() =~= seq![pt]);
    assert(join_with(seq![pt], '.') == pt);
    assert(join_with(seq![m, pt], '.') == m + seq!['.'] + pt);
    assert(join_with(nums, '.') =~= major + (seq!['.'] + m + (seq!['.'] + pt)));
}

/// `coerce` builds a version text of the shape `M.m.p[-P][+B]` back unchanged.
proof fn lemma_coerce_text_of_shape(
    s: Seq<char>,
    major: Seq<char>,
    m: Seq<char>,
    pt: Seq<char>,
    pre: Option<Seq<char>>,
    build: Option<Seq<char>>,
)
    requires
        semver_shape(s, major, m, pt, pre, build),
    ensures
        coerce_numbers(s).len() > 0,
        coerce_text(s, false) == s,
{
    lemma_tail_of_shape(pre, build);
    let r3 = opt_part('-', pre) + opt_part('+', build);
    assert(r3.len() == 0 || r3[0] == '-' || r3[0] == '+');
    assert(s =~= major + (seq!['.'] + m + (seq!['.'] + pt + r3)));
    lemma_coerce_numbers_of_parts(s, major, m, pt, r3);
    lemma_coerce_base_of_parts(major, m, pt);
    let nums = seq![major, m, pt];
    let base = join_with(nums.map_values(|q: Seq<char>| strip_zeros(q)), '.');
    if r3.len() == 0 {
        assert(base =~= s);
    } else {
        lemma_coerce_tail(base, r3);
        assert(base + r3 =~= s);
        assert(coerce_text(s, false) == coerce_tail_text(base, r3));
    }
}

/// Coercing `M.m.p` followed by `.` and more parts keeps the three numbers
/// and puts the extra parts in the build metadata: it gives what parsing
/// `M.m.p+parts` gives (`0.1.2.3` coerces as `0.1.2+3` parses).
pub proof fn law_coerce_extra_parts_are_build(
    s: Seq<char>,
    major: Seq<char>,
    m: Seq<char>,
    pt: Seq<char>,
    x: Seq<char>,
)
    requires
        semver_shape(s, major, m, pt, None, None),
        x.len() > 0,
        all_ident_chars(x),
    ensures
        spec_coerce(s + seq!['.'] + x, false) == spec_parse_version(s + seq!['+'] + x, false),
{
    let t = s + seq!['.'] + x;
    let r3 = seq!['.'] + x;
    assert(s =~= major + (seq!['.'] + m + (seq!['.'] + pt)));
    assert(t =~= major + (seq!['.'] + m + (seq!['.'] + pt + r3)));
    assert(r3[0] == '.');
    lemma_coerce_numbers_of_parts(t, major, m, pt, r3);
    lemma_coerce_base_of_parts(major, m, pt);
    let base = join_with(seq![major, m, pt].map_values(|q: Seq<char>| strip_zeros(q)), '.');
    assert(base =~= s);
    lemma_ident_unchanged(x);
    assert(r3.map_values(|c: char| sanitize(c)) =~= r3) by {
        assert forall|i: int| 0 <= i < r3.len() implies #[trigger] sanitize(r3[i]) == r3[i] by {
            if i > 0 {
                assert(r3[i] == x[i - 1]);
                assert(is_ident_char(x[i - 1]));
            }
        }
    }
    assert(r3.drop_first() =~= x);
    assert(coerce_text(t, false) == coerce_tail_text(base, r3));
    assert(coerce_tail_text(base, r3) =~= s + seq!['+'] + x);
}

/// The text `0`.
pub open spec fn zero_text() -> Seq<char> {
    seq!['0']
}

proof fn lemma_zero_text()
    ensures
        strip_zeros(zero_text()) == zero_text(),
        semver_number(zero_text()),
        zero_text()[0] == '0',
{
    let z = zero_text();
    assert(is_digit(z[0]));
    assert(digits_value(z) == 0) by {
        reveal_with_fuel(digits_value, 2);
        assert(z.drop_last() =~= Seq::<char>::empty());
    }
}

/// What `coerce` builds from a lone number `M`: `M.0.0`.
#[verifier::rlimit(60)]
proof fn lemma_coerce_text_major(major: Seq<char>)
    requires
        semver_number(major),
    ensures
        coerce_numbers(major).len() > 0,
        coerce_text(major, false) == major + seq!['.'] + zero_text() + seq!['.'] + zero_text(),
{
    let e = Seq::<char>::empty();
    let zero = zero_text();
    lemma_zero_text();
    crate::text::lemma_decimal_run_of(major, e);
    assert(major + e =~= major);
    assert(major.take(major.len() as int) =~= major);
    assert(major.skip(major.len() as int) =~= e);
    assert(dotted_decimal(e) is None);
    lemma_canonical_unstripped(major);
    assert(coerce_numbers(major) == seq![major]);
    let p = pad_numbers(seq![major]);
    assert(p =~= seq![major, zero, zero]);
    let q = p.map_values(|c: Seq<char>| strip_zeros(c));
    assert(q =~= seq![major, zero, zero]);
    assert(q.drop_first() =~= seq![zero, zero]);
    assert(seq![zero, zero].drop_first() =~= seq![zero]);
    assert(join_with(seq![zero], '.') == zero);
    assert(join_with(seq![zero, zero], '.') =~= zero + seq!['.'] + zero);
    assert(join_with(q, '.') =~= major + seq!['.'] + zero + seq!['.'] + zero);
}

/// What `coerce` builds from two numbers `M.m`: `M.m.0`.
#[verifier::rlimit(60)]
proof fn lemma_coerce_text_minor(major: Seq<char>, x: Seq<char>)
    requires
        semver_number(major),
        semver_number(x),
    ensures
        coerce_numbers(major + seq!['.'] + x).len() > 0,
        coerce_text(major + seq!['.'] + x, false) == major + seq!['.'] + x + seq!['.'] + zero_text(),
{
    let e = Seq::<char>::empty();
    let zero = zero_text();
    let tail = seq!['.'] + x;
    let s = major + tail;
    lemma_zero_text();
    assert(!crate::text::is_decimal_digit('.'));
    crate::text::lemma_decimal_run_of(major, tail);
    assert(s.take(major.len() as int) =~= major);
    assert(s.skip(major.len() as int) =~= tail);
    crate::text::lemma_decimal_run_of(x, e);
    assert(x + e =~= x);
    assert(tail.drop_first() =~= x);
    assert(x.take(x.len() as int) =~= x);
    assert(x.skip(x.len() as int) =~= e);
    assert(dotted_decimal(tail) == Some((x, e)));
    assert(dotted_decimal(e) is None);
    assert(major + seq!['.'] + x =~= s);
    assert(coerce_numbers(s) == seq![major, x]);
    lemma_canonical_unstripped(major);
    lemma_canonical_unstripped(x);
    let p = pad_numbers(seq![major, x]);
    assert(p =~= seq![major, x, zero]);
    let q = p.map_values(|c: Seq<char>| strip_zeros(c));
    assert(q =~= seq![major, x, zero]);
    assert(q.drop_first() =~= seq![x, zero]);
    assert(seq![x, zero].drop_first() =~= seq![zero]);
    assert(join_with(seq![zero], '.') == zero);
    assert(join_with(seq![x, zero], '.') =~= x + seq!['.'] + zero);
    assert(join_with(q, '.') =~= major + seq!['.'] + x + seq!['.'] + zero);
}

/// Coercing a version with its minor and patch, or its patch, left out fills
/// them in with zeros: `M` coerces as `M.0.0` parses, `M.m` as `M.m.0`, and
/// both succeed.
pub proof fn law_coerce_pads_missing_parts(major: Seq<char>, min: Option<Seq<char>>)
    requires
        semver_number(major),
        min matches Some(x) ==> semver_number(x),
    ensures
        spec_coerce(major + opt_part('.', min), false) == spec_parse_version(
            major + seq!['.'] + (match min {
                Some(x) => x,
                None => zero_text(),
            }) + seq!['.'] + zero_text(),
            false,
        ),
        spec_coerce(major + opt_part('.', min), false) is Ok,
{
    let zero = zero_text();
    lemma_zero_text();
    let m = match min {
        Some(x) => x,
        None => zero,
    };
    let padded = major + seq!['.'] + m + seq!['.'] + zero;
    match min {
        None => {
            assert(major + opt_part('.', min) =~= major);
            lemma_coerce_text_major(major);
        },
        Some(x) => {
            assert(major + opt_part('.', min) =~= major + seq!['.'] + x);
            lemma_coerce_text_minor(major, x);
        },
    }
    assert(padded =~= major + seq!['.'] + m + seq!['.'] + zero + opt_part('-', None) + opt_part(
        '+',
        None,
    ));
    assert(semver_shape(padded, major, m, zero, None, None));
    lemma_parsed_of_shape(padded, major, m, zero, None, None);
}

/// Coercing `M.m.p` followed by a character outside `[0-9A-Za-z+.-]` (and
/// not a decimal digit of another script) and more text reads that
/// character as `-`: the text after it becomes the
/// prerelease (`1.2.3 rc1` coerces as `1.2.3-rc1` parses).
pub proof fn law_coerce_other_chars_start_prerelease(
    s: Seq<char>,
    major: Seq<char>,
    m: Seq<char>,
    pt: Seq<char>,
    c: char,
    x: Seq<char>,
)
    requires
        semver_shape(s, major, m, pt, None, None),
        !crate::text::is_alnum(c) && c != '+' && c != '.' && c != '-',
        !crate::text::is_decimal_digit(c),
        x.len() > 0,
        all_ident_chars(x),
    ensures
        spec_coerce(s + seq![c] + x, false) == spec_parse_version(s + seq!['-'] + x, false),
{
    let t = s + seq![c] + x;
    let r3 = seq![c] + x;
    assert(s =~= major + (seq!['.'] + m + (seq!['.'] + pt)));
    assert(t =~= major + (seq!['.'] + m + (seq!['.'] + pt + r3)));
    lemma_coerce_numbers_of_parts(t, major, m, pt, r3);
    lemma_coerce_base_of_parts(major, m, pt);
    let base = join_with(seq![major, m, pt].map_values(|q: Seq<char>| strip_zeros(q)), '.');
    assert(base =~= s);
    lemma_ident_unchanged(x);
    let rest = r3.map_values(|d: char| sanitize(d));
    assert(rest =~= seq!['-'] + x) by {
        assert forall|i: int| 0 <= i < r3.len() implies #[trigger] rest[i] == (seq!['-'] + x)[i] by {
            if i > 0 {
                assert(r3[i] == x[i - 1]);
                assert(x.map_values(|d: char| sanitize(d))[i - 1] == x[i - 1]);
            }
        }
    }
    assert(rest.drop_first() =~= x);
    assert(coerce_rest_split(rest) == (x, Seq::<char>::empty()));
    assert(coerce_text(t, false) == coerce_tail_text(base, r3));
    assert(coerce_tail_text(base, r3) =~= s + seq!['-'] + x);
}

/// Coercing `M.m.p+a+b` reads every further `+` of the build part as `.`:
/// it gives what parsing `M.m.p+a.b` gives.
pub proof fn law_coerce_build_plus_is_dot(
    s: Seq<char>,
    major: Seq<char>,
    m: Seq<char>,
    pt: Seq<char>,
    a: Seq<char>,
    b: Seq<char>,
)
    requires
        semver_shape(s, major, m, pt, None, None),
        all_ident_chars(a),
        all_ident_chars(b),
    ensures
        spec_coerce(s + seq!['+'] + a + seq!['+'] + b, false) == spec_parse_version(
            s + seq!['+'] + a + seq!['.'] + b,
            false,
        ),
{
    let t = s + seq!['+'] + a + seq!['+'] + b;
    let r3 = seq!['+'] + a + seq!['+'] + b;
    assert(s =~= major + (seq!['.'] + m + (seq!['.'] + pt)));
    assert(t =~= major + (seq!['.'] + m + (seq!['.'] + pt + r3)));
    assert(!crate::text::is_decimal_digit('+'));
    lemma_coerce_numbers_of_parts(t, major, m, pt, r3);
    lemma_coerce_base_of_parts(major, m, pt);
    let base = join_with(seq![major, m, pt].map_values(|q: Seq<char>| strip_zeros(q)), '.');
    assert(base =~= s);
    lemma_ident_unchanged(a);
    lemma_ident_unchanged(b);
    let rest = r3.map_values(|d: char| sanitize(d));
    assert(rest =~= r3) by {
        assert forall|i: int| 0 <= i < r3.len() implies #[trigger] rest[i] == r3[i] by {
            if 0 < i < 1 + a.len() {
                assert(r3[i] == a[i - 1]);
                assert(is_ident_char(a[i - 1]));
            } else if i > 1 + a.len() {
                assert(r3[i] == b[i - 2 - a.len()]);
                assert(is_ident_char(b[i - 2 - a.len()]));
            }
        }
    }
    let b0 = a + seq!['+'] + b;
    assert(rest.drop_first() =~= b0);
    assert(coerce_rest_split(rest) == (Seq::<char>::empty(), b0));
    let bd = b0.map_values(|d: char| plus_to_dot(d));
    assert(bd =~= a + seq!['.'] + b) by {
        assert forall|i: int| 0 <= i < b0.len() implies #[trigger] bd[i] == (a + seq!['.'] + b)[i] by {
            if i < a.len() {
                assert(b0[i] == a[i]);
                assert(is_ident_char(a[i]));
            } else if i > a.len() {
                assert(b0[i] == b[i - 1 - a.len()]);
                assert(is_ident_char(b[i - 1 - a.len()]));
            }
        }
    }
    assert(coerce_text(t, false) == coerce_tail_text(base, r3));
    assert(coerce_tail_text(base, r3) =~= s + seq!['+'] + a + seq!['.'] + b);
}

/// Coercing an already valid version text gives what parsing it gives.
pub proof fn law_coerce_valid_is_parse(s: Seq<char>)
    requires
        spec_parse_version(s, false) is Ok,
    ensures
        spec_coerce(s, false) == spec_parse_version(s, false),
{
    lemma_shape_of_parsed(s);
    let p = version_pieces(s, false)->Some_0;
    lemma_coerce_text_of_shape(s, p.major, p.minor->0, p.patch->0, p.prerelease, p.build);
}

// ---------------------------------------------------------------------------
// The shape of a version text
// ---------------------------------------------------------------------------

/// A version number as written: ASCII digits, no superfluous leading `0`,
/// a value that fits in a `u64`.
pub open spec fn semver_number(t: Seq<char>) -> bool {
    is_canonical_decimal(t) && digits_value(t) <= u64::MAX
}

/// Dot-separated identifiers: a non-empty text of `[0-9A-Za-z.-]` whose
/// `.`-separated parts are non-empty; with `no_leading_zero`, no all-digit
/// part has a superfluous leading `0`.
pub open spec fn dotted_identifiers(t: Seq<char>, no_leading_zero: bool) -> bool {
    &&& t.len() > 0
    &&& all_ident_chars(t)
    &&& forall|i: int|
        0 <= i < split_on(t, '.').len() ==> (#[trigger] split_on(t, '.')[i]).len() > 0 && (
        no_leading_zero ==> !has_leading_zero(split_on(t, '.')[i]))
}

/// `sep` followed by the text, or nothing.
pub open spec fn opt_part(sep: char, o: Option<Seq<char>>) -> Seq<char> {
    match o {
        Some(x) => seq![sep] + x,
        None => Seq::empty(),
    }
}

/// `s` is `M.m.p[-P][+B]` with these parts: three version numbers, a
/// prerelease of dot-separated identifiers (no leading zero on an all-digit
/// one), and build metadata of dot-separated identifiers.
pub open spec fn semver_shape(
    s: Seq<char>,
    major: Seq<char>,
    minor: Seq<char>,
    patch: Seq<char>,
    pre: Option<Seq<char>>,
    build: Option<Seq<char>>,
) -> bool {
    &&& s == major + seq!['.'] + minor + seq!['.'] + patch + opt_part('-', pre) + opt_part('+', build)
    &&& semver_number(major)
    &&& semver_number(minor)
    &&& semver_number(patch)
    &&& pre matches Some(x) ==> dotted_identifiers(x, true)
    &&& build matches Some(y) ==> dotted_identifiers(y, false)
}

/// `s` is a SemVer 2.0 version text: `M.m.p[-P][+B]`.
pub open spec fn is_semver_text(s: Seq<char>) -> bool {
    exists|major: Seq<char>, minor: Seq<char>, patch: Seq<char>, pre: Option<Seq<char>>, build: Option<Seq<char>>|
        #[trigger] semver_shape(s, major, minor, patch, pre, build)
}

/// The identifiers of parts parse exactly when every part is non-empty and
/// none has a superfluous leading zero.
proof fn lemma_pre_idents_ok(parts: Seq<Seq<char>>)
    ensures
        pre_idents_of(parts) is Ok <==> (forall|i: int|
            0 <= i < parts.len() ==> (#[trigger] parts[i]).len() > 0 && !has_leading_zero(parts[i])),
    decreases parts.len(),
{
    if parts.len() > 0 {
        lemma_pre_idents_ok(parts.drop_first());
        assert forall|i: int| 0 < i < parts.len() implies #[trigger] parts[i] == parts.drop_first()[i
            - 1] by {}
        if pre_idents_of(parts) is Ok {
            assert forall|i: int| 0 <= i < parts.len() implies (#[trigger] parts[i]).len() > 0
                && !has_leading_zero(parts[i]) by {
                if i > 0 {
                    assert(parts.drop_first()[i - 1] == parts[i]);
                }
            }
        }
        if forall|i: int|
            0 <= i < parts.len() ==> (#[trigger] parts[i]).len() > 0 && !has_leading_zero(parts[i]) {
            assert(parts[0].len() > 0 && !has_leading_zero(parts[0]));
            assert forall|i: int| 0 <= i < parts.drop_first().len() implies (
            #[trigger] parts.drop_first()[i]).len() > 0 && !has_leading_zero(parts.drop_first()[i]) by {
                assert(parts.drop_first()[i] == parts[i + 1]);
            }
        }
    }
}

/// The digits at the start of `d + r`, when `r` does not start with a digit.
pub(crate) proof fn lemma_digit_run_of(d: Seq<char>, r: Seq<char>)
    requires
        all_digits(d),
        r.len() == 0 || !is_digit(r[0]),
    ensures
        digit_run(d + r) == d.len(),
    decreases d.len(),
{
    if d.len() == 0 {
        assert(d + r =~= r);
    } else {
        assert((d + r).drop_first() =~= d.drop_first() + r);
        assert((d + r)[0] == d[0]);
        assert(all_digits(d.drop_first())) by {
            assert forall|i: int| 0 <= i < d.drop_first().len() implies #[trigger] is_digit(
                d.drop_first()[i],
            ) by {
                assert(d.drop_first()[i] == d[i + 1]);
            }
        }
        lemma_digit_run_of(d.drop_first(), r);
    }
}

/// The tail of a version text is read back as its prerelease and build parts.
pub(crate) proof fn lemma_tail_of_shape(pre: Option<Seq<char>>, build: Option<Seq<char>>)
    requires
        pre matches Some(x) ==> dotted_identifiers(x, true),
        build matches Some(y) ==> dotted_identifiers(y, false),
    ensures
        version_tail(opt_part('-', pre) + opt_part('+', build), true) == Some((pre, build)),
        version_tail(opt_part('-', pre) + opt_part('+', build), false) == Some((pre, build)),
{
    let t = opt_part('-', pre) + opt_part('+', build);
    match (pre, build) {
        (None, None) => {
            assert(t =~= Seq::<char>::empty());
        },
        (None, Some(y)) => {
            assert(t =~= seq!['+'] + y);
            assert(t.drop_first() =~= y);
        },
        (Some(x), None) => {
            assert(t =~= seq!['-'] + x);
            assert(t.drop_first() =~= x);
            lemma_ident_unchanged(x);
            assert(x.take(x.len() as int) =~= x);
        },
        (Some(x), Some(y)) => {
            assert(t =~= seq!['-'] + x + seq!['+'] + y);
            let u = t.drop_first();
            assert(u =~= x + seq!['+'] + y);
            lemma_ident_unchanged(x);
            lemma_first_plus(x, y);
            assert(u.take(x.len() as int) =~= x);
            assert(u.skip(x.len() as int + 1) =~= y);
        },
    }
}

/// A version text parses (as a full version) exactly when it has the shape
/// `M.m.p[-P][+B]`; what it gives then has every part present and is not partial.
pub proof fn law_parse_accepts_semver_shape(s: Seq<char>)
    ensures
        spec_parse_version(s, false) is Ok <==> is_semver_text(s),
        spec_parse_version(s, false) matches Ok(v) ==> v.minor is Some && v.patch is Some
            && v.prerelease is Some && v.build is Some && !v.partial,
{
    if spec_parse_version(s, false) is Ok {
        lemma_shape_of_parsed(s);
    }
    if is_semver_text(s) {
        let (major, minor, patch, pre, build) = choose|
            major: Seq<char>,
            minor: Seq<char>,
            patch: Seq<char>,
            pre: Option<Seq<char>>,
            build: Option<Seq<char>>,
        | #[trigger] semver_shape(s, major, minor, patch, pre, build);
        lemma_parsed_of_shape(s, major, minor, patch, pre, build);
    }
}

proof fn lemma_number_piece(r: Seq<char>)
    requires
        dotted_number(r) is Some,
    ensures
        r == seq!['.'] + dotted_number(r)->Some_0.0 + dotted_number(r)->Some_0.1,
        all_digits(dotted_number(r)->Some_0.0),
        dotted_number(r)->Some_0.0.len() > 0,
{
    lemma_dotted_number_text(r);
    lemma_digit_run(r.drop_first());
}

#[verifier::rlimit(60)]
pub(crate) proof fn lemma_shape_of_parsed(s: Seq<char>)
    requires
        spec_parse_version(s, false) is Ok,
    ensures
        version_pieces(s, false) is Some,
        version_pieces(s, false)->Some_0.minor is Some,
        version_pieces(s, false)->Some_0.patch is Some,
        semver_shape(
            s,
            version_pieces(s, false)->Some_0.major,
            version_pieces(s, false)->Some_0.minor->0,
            version_pieces(s, false)->Some_0.patch->0,
            version_pieces(s, false)->Some_0.prerelease,
            version_pieces(s, false)->Some_0.build,
        ),
        is_semver_text(s),
{
    let p = version_pieces(s, false)->Some_0;
    lemma_pieces_text(s, false);
    lemma_digit_run(s);
    let a = digit_run(s) as int;
    let r1 = s.skip(a);
    lemma_number_piece(r1);
    let (m, r2) = dotted_number(r1)->Some_0;
    lemma_number_piece(r2);
    let (pt, r3) = dotted_number(r2)->Some_0;
    assert(p.major == s.take(a) && p.minor == Some(m) && p.patch == Some(pt));
    assert(version_tail(r3, true) == Some((p.prerelease, p.build)));
    let t = opt_part('-', p.prerelease) + opt_part('+', p.build);
    assert(s =~= p.major + seq!['.'] + m + seq!['.'] + pt + opt_part('-', p.prerelease) + opt_part(
        '+',
        p.build,
    ));
    assert(semver_number(p.major));
    assert(semver_number(m));
    assert(semver_number(pt));
    if let Some(x) = p.prerelease {
        assert(x.len() > 0);
        assert(spec_prerelease(x) is Ok);
        lemma_pre_idents_ok(split_on(x, '.'));
        assert(dotted_identifiers(x, true));
    }
    if let Some(y) = p.build {
        assert(y.len() > 0);
        assert(spec_build(y) is Some);
        assert(dotted_identifiers(y, false));
    }
    assert(semver_shape(s, p.major, m, pt, p.prerelease, p.build));
}

#[verifier::rlimit(60)]
pub(crate) proof fn lemma_pieces_of_shape(
    s: Seq<char>,
    major: Seq<char>,
    minor: Seq<char>,
    patch: Seq<char>,
    pre: Option<Seq<char>>,
    build: Option<Seq<char>>,
)
    requires
        s == major + seq!['.'] + minor + seq!['.'] + patch + opt_part('-', pre) + opt_part('+', build),
        all_digits(major),
        all_digits(minor),
        all_digits(patch),
        major.len() > 0,
        minor.len() > 0,
        patch.len() > 0,
        pre matches Some(x) ==> dotted_identifiers(x, true),
        build matches Some(y) ==> dotted_identifiers(y, false),
    ensures
        version_pieces(s, false) == Some(
            VersionPieces { major, minor: Some(minor), patch: Some(patch), prerelease: pre, build },
        ),
        version_pieces(s, true) == Some(
            VersionPieces { major, minor: Some(minor), patch: Some(patch), prerelease: pre, build },
        ),
{
    let t = opt_part('-', pre) + opt_part('+', build);
    assert(t.len() == 0 || t[0] == '-' || t[0] == '+');
    let r2 = seq!['.'] + patch + t;
    let r1 = seq!['.'] + minor + r2;
    assert(s =~= major + r1);
    lemma_digit_run_of(major, r1);
    assert(s.take(major.len() as int) =~= major);
    assert(s.skip(major.len() as int) =~= r1);
    assert(r1.drop_first() =~= minor + r2);
    lemma_digit_run_of(minor, r2);
    assert(r1.drop_first().take(minor.len() as int) =~= minor);
    assert(r1.drop_first().skip(minor.len() as int) =~= r2);
    assert(dotted_number(r1) == Some((minor, r2)));
    assert(r2.drop_first() =~= patch + t);
    lemma_digit_run_of(patch, t);
    assert(r2.drop_first().take(patch.len() as int) =~= patch);
    assert(r2.drop_first().skip(patch.len() as int) =~= t);
    assert(dotted_number(r2) == Some((patch, t)));
    lemma_tail_of_shape(pre, build);
}

pub(crate) proof fn lemma_parsed_of_shape(
    s: Seq<char>,
    major: Seq<char>,
    minor: Seq<char>,
    patch: Seq<char>,
    pre: Option<Seq<char>>,
    build: Option<Seq<char>>,
)
    requires
        semver_shape(s, major, minor, patch, pre, build),
    ensures
        spec_parse_version(s, false) is Ok,
{
    lemma_pieces_of_shape(s, major, minor, patch, pre, build);
    if let Some(x) = pre {
        lemma_pre_idents_ok(split_on(x, '.'));
        assert(spec_prerelease(x) is Ok);
    }
    if let Some(y) = build {
        assert(spec_build(y) is Some);
    }
}

/// The order of prerelease identifiers is a total order: swapping flips it,
/// it is `0` exactly on equal identifiers, and it is transitive. Numeric
/// identifiers (of any size) come before alphanumeric ones, which come before
/// `Max`; alphanumeric ones (ASCII by the grammar) are ordered by their bytes.
pub proof fn law_prerelease_identifier_order(a: PreIdentView, b: PreIdentView, c: PreIdentView)
    ensures
        pre_order(a, b) == -pre_order(b, a),
        (pre_order(a, b) == 0) == (a == b),
        pre_order(a, b) <= 0 && pre_order(b, c) <= 0 ==> pre_order(a, c) <= 0,
        forall|n: u64, x: Seq<char>|
            #[trigger] pre_order(PreIdentView::Numeric(n), PreIdentView::Alpha(x)) < 0,
        forall|d: Seq<char>, x: Seq<char>|
            #[trigger] pre_order(PreIdentView::BigNumeric(d), PreIdentView::Alpha(x)) < 0,
        forall|n: u64, d: Seq<char>|
            #[trigger] pre_order(PreIdentView::Numeric(n), PreIdentView::BigNumeric(d)) < 0,
        forall|x: Seq<char>| #[trigger] pre_order(PreIdentView::Alpha(x), PreIdentView::Max) < 0,
        forall|n: u64| #[trigger] pre_order(PreIdentView::Numeric(n), PreIdentView::Max) < 0,
        forall|d: Seq<char>| #[trigger] pre_order(PreIdentView::BigNumeric(d), PreIdentView::Max) < 0,
        forall|n: u64, m: u64|
            #[trigger] pre_order(PreIdentView::Numeric(n), PreIdentView::Numeric(m)) == num_order(
                n as int,
                m as int,
            ),
        a matches PreIdentView::Alpha(x) ==> (b matches PreIdentView::Alpha(y) ==> (all_ident_chars(x)
            && all_ident_chars(y) ==> pre_order(a, b) == bytes_order(ascii_bytes(x), ascii_bytes(y)))),
{
    crate::identifiers::lemma_pre_order(a, b);
    if pre_order(a, b) <= 0 && pre_order(b, c) <= 0 {
        crate::identifiers::lemma_pre_order_trans(a, b, c);
    }
    if let PreIdentView::Alpha(x) = a {
        if let PreIdentView::Alpha(y) = b {
            if all_ident_chars(x) && all_ident_chars(y) {
                law_alpha_order_is_byte_order(x, y);
            }
        }
    }
}

/// All-digit prerelease identifiers are ordered by the numbers they denote,
/// however many digits they have, and every one of them comes before every
/// alphanumeric identifier.
pub proof fn law_numeric_identifiers_by_value(p: Seq<char>, q: Seq<char>, x: Seq<char>)
    requires
        p.len() > 0,
        q.len() > 0,
        all_digits(p),
        all_digits(q),
    ensures
        pre_order(pre_ident_of(p), pre_ident_of(q)) == num_order(
            digits_value(p) as int,
            digits_value(q) as int,
        ),
        pre_order(pre_ident_of(p), PreIdentView::Alpha(x)) < 0,
{
    if digits_value(p) > u64::MAX && digits_value(q) > u64::MAX {
        crate::identifiers::lemma_numeric_text_order(p, q);
    }
}

// ---------------------------------------------------------------------------
// The order of texts is the order of their UTF-8 bytes
// ---------------------------------------------------------------------------

proof fn lemma_bytes_order_same_prefix(a: Seq<u8>, r: Seq<u8>, s: Seq<u8>)
    ensures
        bytes_order(a + r, a + s) == bytes_order(r, s),
    decreases a.len(),
{
    if a.len() == 0 {
        assert(a + r =~= r);
        assert(a + s =~= s);
    } else {
        assert((a + r)[0] == a[0]);
        assert((a + s)[0] == a[0]);
        assert((a + r).drop_first() =~= a.drop_first() + r);
        assert((a + s).drop_first() =~= a.drop_first() + s);
        lemma_bytes_order_same_prefix(a.drop_first(), r, s);
    }
}

proof fn lemma_bytes_order_differ(a: Seq<u8>, b: Seq<u8>, r: Seq<u8>, s: Seq<u8>)
    requires
        a.len() == b.len(),
        a != b,
    ensures
        bytes_order(a + r, b + s) == bytes_order(a, b),
    decreases a.len(),
{
    if a.len() == 0 {
        assert(a =~= b);
    } else {
        assert((a + r)[0] == a[0]);
        assert((b + s)[0] == b[0]);
        if a[0] == b[0] {
            assert((a + r).drop_first() =~= a.drop_first() + r);
            assert((b + s).drop_first() =~= b.drop_first() + s);
            if a.drop_first() == b.drop_first() {
                assert(a =~= b) by {
                    assert forall|i: int| 0 <= i < a.len() implies a[i] == b[i] by {
                        if i > 0 {
                            assert(a[i] == a.drop_first()[i - 1]);
                            assert(b[i] == b.drop_first()[i - 1]);
                        }
                    }
                }
            }
            lemma_bytes_order_differ(a.drop_first(), b.drop_first(), r, s);
        }
    }
}

/// The bytes of the UTF-8 encoding of a scalar, as numbers.
proof fn lemma_scalar_bytes(u: u32)
    requires
        vstd::utf8::is_scalar(u),
    ensures
        vstd::utf8::has_width_1_encoding(u) ==> vstd::utf8::encode_scalar(u) == seq![u as u8],
        vstd::utf8::has_width_2_encoding(u) ==> vstd::utf8::encode_scalar(u) == seq![
            (0xC0 + u / 64) as u8,
            (0x80 + u % 64) as u8,
        ],
        vstd::utf8::has_width_3_encoding(u) ==> vstd::utf8::encode_scalar(u) == seq![
            (0xE0 + u / 4096) as u8,
            (0x80 + (u / 64) % 64) as u8,
            (0x80 + u % 64) as u8,
        ],
        vstd::utf8::has_width_4_encoding(u) ==> vstd::utf8::encode_scalar(u) == seq![
            (0xF0 + u / 262144) as u8,
            (0x80 + (u / 4096) % 64) as u8,
            (0x80 + (u / 64) % 64) as u8,
            (0x80 + u % 64) as u8,
        ],
{
    if vstd::utf8::has_width_1_encoding(u) {
        assert((u & 0x7F) as u8 == u as u8) by (bit_vector)
            requires
                u <= 0x7F,
        ;
    } else if vstd::utf8::has_width_2_encoding(u) {
        assert(0xC0 | ((u >> 6) & 0x1F) as u8 == (0xC0 + u / 64) as u8) by (bit_vector)
            requires
                0x80 <= u <= 0x7FF,
        ;
        assert(0x80 | (u & 0x3F) as u8 == (0x80 + u % 64) as u8) by (bit_vector);
    } else if vstd::utf8::has_width_3_encoding(u) {
        assert(0xE0 | ((u >> 12) & 0x0F) as u8 == (0xE0 + u / 4096) as u8) by (bit_vector)
            requires
                0x800 <= u <= 0xFFFF,
        ;
        assert(0x80 | ((u >> 6) & 0x3F) as u8 == (0x80 + (u / 64) % 64) as u8) by (bit_vector);
        assert(0x80 | (u & 0x3F) as u8 == (0x80 + u % 64) as u8) by (bit_vector);
    } else {
        assert(0xF0 | ((u >> 18) & 0x7) as u8 == (0xF0 + u / 262144) as u8) by (bit_vector)
            requires
                0x10000 <= u <= 0x10FFFF,
        ;
        assert(0x80 | ((u >> 12) & 0x3F) as u8 == (0x80 + (u / 4096) % 64) as u8) by (bit_vector);
        assert(0x80 | ((u >> 6) & 0x3F) as u8 == (0x80 + (u / 64) % 64) as u8) by (bit_vector);
        assert(0x80 | (u & 0x3F) as u8 == (0x80 + u % 64) as u8) by (bit_vector);
    }
}

proof fn lemma_width_1_order(u: u32, v: u32)
    requires
        vstd::utf8::has_width_1_encoding(u),
        vstd::utf8::has_width_1_encoding(v),
        u != v,
    ensures
        bytes_order(seq![u as u8], seq![v as u8]) == num_order(u as int, v as int),
{
    assert(u as u8 as int == u as int);
    assert(v as u8 as int == v as int);
}

proof fn lemma_width_2_order(u: u32, v: u32)
    requires
        vstd::utf8::has_width_2_encoding(u),
        vstd::utf8::has_width_2_encoding(v),
        u != v,
    ensures
        bytes_order(
            seq![(0xC0 + u / 64) as u8, (0x80 + u % 64) as u8],
            seq![(0xC0 + v / 64) as u8, (0x80 + v % 64) as u8],
        ) == num_order(u as int, v as int),
{
    let a = seq![(0xC0 + u / 64) as u8, (0x80 + u % 64) as u8];
    let b = seq![(0xC0 + v / 64) as u8, (0x80 + v % 64) as u8];
    assert(a[0] as int == 0xC0 + u / 64);
    assert(b[0] as int == 0xC0 + v / 64);
    assert(a[1] as int == 0x80 + u % 64);
    assert(b[1] as int == 0x80 + v % 64);
    assert(a.drop_first() =~= seq![a[1]]);
    assert(b.drop_first() =~= seq![b[1]]);
    assert(seq![a[1]].drop_first() =~= Seq::<u8>::empty());
    assert(seq![b[1]].drop_first() =~= Seq::<u8>::empty());
    if u / 64 == v / 64 {
        assert(u % 64 != v % 64);
        assert(bytes_order(seq![a[1]], seq![b[1]]) == num_order(a[1] as int, b[1] as int));
    }
}

proof fn lemma_width_3_order(u: u32, v: u32)
    requires
        vstd::utf8::has_width_3_encoding(u),
        vstd::utf8::has_width_3_encoding(v),
        u != v,
    ensures
        bytes_order(
            seq![(0xE0 + u / 4096) as u8, (0x80 + (u / 64) % 64) as u8, (0x80 + u % 64) as u8],
            seq![(0xE0 + v / 4096) as u8, (0x80 + (v / 64) % 64) as u8, (0x80 + v % 64) as u8],
        ) == num_order(u as int, v as int),
{
    let a = seq![(0xE0 + u / 4096) as u8, (0x80 + (u / 64) % 64) as u8, (0x80 + u % 64) as u8];
    let b = seq![(0xE0 + v / 4096) as u8, (0x80 + (v / 64) % 64) as u8, (0x80 + v % 64) as u8];
    assert(a[0] as int == 0xE0 + u / 4096);
    assert(b[0] as int == 0xE0 + v / 4096);
    if u / 4096 == v / 4096 {
        assert(a.drop_first() =~= seq![a[1], a[2]]);
        assert(b.drop_first() =~= seq![b[1], b[2]]);
        assert(a[1] as int == 0x80 + (u / 64) % 64);
        assert(b[1] as int == 0x80 + (v / 64) % 64);
        assert(u / 4096 == (u / 64) / 64);
        assert(v / 4096 == (v / 64) / 64);
        assert(bytes_order(a, b) == bytes_order(seq![a[1], a[2]], seq![b[1], b[2]]));
        if (u / 64) % 64 != (v / 64) % 64 {
            assert(bytes_order(seq![a[1], a[2]], seq![b[1], b[2]]) == num_order(
                a[1] as int,
                b[1] as int,
            ));
            assert(((u / 64) % 64 < (v / 64) % 64) == (u / 64 < v / 64));
        }
        if (u / 64) % 64 == (v / 64) % 64 {
            assert(u / 64 == v / 64);
            assert(a[2] as int == 0x80 + u % 64);
            assert(b[2] as int == 0x80 + v % 64);
            assert(u % 64 != v % 64);
            assert(seq![a[1], a[2]].drop_first() =~= seq![a[2]]);
            assert(seq![b[1], b[2]].drop_first() =~= seq![b[2]]);
            assert(seq![a[2]].drop_first() =~= Seq::<u8>::empty());
            assert(seq![b[2]].drop_first() =~= Seq::<u8>::empty());
            assert(bytes_order(seq![a[2]], seq![b[2]]) == num_order(a[2] as int, b[2] as int));
        }
    }
}

proof fn lemma_width_4_order(u: u32, v: u32)
    requires
        vstd::utf8::has_width_4_encoding(u),
        vstd::utf8::has_width_4_encoding(v),
        u != v,
    ensures
        bytes_order(
            seq![
                (0xF0 + u / 262144) as u8,
                (0x80 + (u / 4096) % 64) as u8,
                (0x80 + (u / 64) % 64) as u8,
                (0x80 + u % 64) as u8,
            ],
            seq![
                (0xF0 + v / 262144) as u8,
                (0x80 + (v / 4096) % 64) as u8,
                (0x80 + (v / 64) % 64) as u8,
                (0x80 + v % 64) as u8,
            ],
        ) == num_order(u as int, v as int),
{
    let a = seq![
        (0xF0 + u / 262144) as u8,
        (0x80 + (u / 4096) % 64) as u8,
        (0x80 + (u / 64) % 64) as u8,
        (0x80 + u % 64) as u8,
    ];
    let b = seq![
        (0xF0 + v / 262144) as u8,
        (0x80 + (v / 4096) % 64) as u8,
        (0x80 + (v / 64) % 64) as u8,
        (0x80 + v % 64) as u8,
    ];
    assert(a[0] as int == 0xF0 + u / 262144);
    assert(b[0] as int == 0xF0 + v / 262144);
    if u / 262144 == v / 262144 {
        let a1 = seq![a[1], a[2], a[3]];
        let b1 = seq![b[1], b[2], b[3]];
        assert(a.drop_first() =~= a1);
        assert(b.drop_first() =~= b1);
        assert(a[1] as int == 0x80 + (u / 4096) % 64);
        assert(b[1] as int == 0x80 + (v / 4096) % 64);
        assert(u / 262144 == (u / 4096) / 64);
        assert(v / 262144 == (v / 4096) / 64);
        assert(bytes_order(a, b) == bytes_order(a1, b1));
        if (u / 4096) % 64 != (v / 4096) % 64 {
            assert(bytes_order(a1, b1) == num_order(a[1] as int, b[1] as int));
            assert(((u / 4096) % 64 < (v / 4096) % 64) == (u / 4096 < v / 4096));
        }
        if (u / 4096) % 64 == (v / 4096) % 64 {
            assert(u / 4096 == v / 4096);
            assert(u / 4096 == (u / 64) / 64);
            assert(v / 4096 == (v / 64) / 64);
            assert(a1.drop_first() =~= seq![a[2], a[3]]);
            assert(b1.drop_first() =~= seq![b[2], b[3]]);
            assert(a1[0] == b1[0]);
            assert(bytes_order(a1, b1) == bytes_order(seq![a[2], a[3]], seq![b[2], b[3]]));
            if (u / 64) % 64 != (v / 64) % 64 {
                assert(bytes_order(seq![a[2], a[3]], seq![b[2], b[3]]) == num_order(
                    a[2] as int,
                    b[2] as int,
                ));
                assert(((u / 64) % 64 < (v / 64) % 64) == (u / 64 < v / 64));
            }
            assert(a1.drop_first() =~= seq![a[2], a[3]]);
            assert(b1.drop_first() =~= seq![b[2], b[3]]);
            assert(a[2] as int == 0x80 + (u / 64) % 64);
            assert(b[2] as int == 0x80 + (v / 64) % 64);
            if (u / 64) % 64 == (v / 64) % 64 {
                assert(u / 64 == v / 64);
                assert(a[3] as int == 0x80 + u % 64);
                assert(b[3] as int == 0x80 + v % 64);
                assert(u % 64 != v % 64);
                assert(seq![a[2], a[3]].drop_first() =~= seq![a[3]]);
                assert(seq![b[2], b[3]].drop_first() =~= seq![b[3]]);
                assert(seq![a[3]].drop_first() =~= Seq::<u8>::empty());
                assert(seq![b[3]].drop_first() =~= Seq::<u8>::empty());
                assert(bytes_order(seq![a[3]], seq![b[3]]) == num_order(a[3] as int, b[3] as int));
            }
        }
    }
}

/// Two scalars of the same encoding width: their encodings order as they do.
proof fn lemma_same_width_order(u: u32, v: u32)
    requires
        vstd::utf8::is_scalar(u),
        vstd::utf8::is_scalar(v),
        u != v,
        vstd::utf8::encode_scalar(u).len() == vstd::utf8::encode_scalar(v).len(),
    ensures
        bytes_order(vstd::utf8::encode_scalar(u), vstd::utf8::encode_scalar(v)) == num_order(
            u as int,
            v as int,
        ),
{
    lemma_scalar_bytes(u);
    lemma_scalar_bytes(v);
    if vstd::utf8::has_width_1_encoding(u) {
        lemma_width_1_order(u, v);
    } else if vstd::utf8::has_width_2_encoding(u) {
        lemma_width_2_order(u, v);
    } else if vstd::utf8::has_width_3_encoding(u) {
        lemma_width_3_order(u, v);
    } else {
        lemma_width_4_order(u, v);
    }
}

/// Two different scalars: their encodings, whatever follows them, order as they do.
proof fn lemma_scalar_order(u: u32, v: u32, r: Seq<u8>, s: Seq<u8>)
    requires
        vstd::utf8::is_scalar(u),
        vstd::utf8::is_scalar(v),
        u != v,
    ensures
        bytes_order(vstd::utf8::encode_scalar(u) + r, vstd::utf8::encode_scalar(v) + s) == num_order(
            u as int,
            v as int,
        ),
{
    lemma_scalar_bytes(u);
    lemma_scalar_bytes(v);
    let a = vstd::utf8::encode_scalar(u);
    let b = vstd::utf8::encode_scalar(v);
    assert((a + r)[0] == a[0]);
    assert((b + s)[0] == b[0]);
    if a.len() == b.len() {
        lemma_same_width_order(u, v);
        if a == b {
            assert(a[0] == b[0]);
        }
        lemma_bytes_order_differ(a, b, r, s);
    }
}

/// Texts are ordered as the bytes of their UTF-8 encoding are, whatever
/// characters they hold: `chars_order`, the order of alphanumeric prerelease
/// identifiers, is the lexicographic order of the encoded bytes
/// (`<[u8] as Ord>::cmp` on `str::as_bytes`).
pub proof fn law_text_order_is_utf8_byte_order(x: Seq<char>, y: Seq<char>)
    ensures
        chars_order(x, y) == bytes_order(vstd::utf8::encode_utf8(x), vstd::utf8::encode_utf8(y)),
        pre_order(PreIdentView::Alpha(x), PreIdentView::Alpha(y)) == bytes_order(
            vstd::utf8::encode_utf8(x),
            vstd::utf8::encode_utf8(y),
        ),
    decreases x.len(),
{
    let ex = vstd::utf8::encode_utf8(x);
    let ey = vstd::utf8::encode_utf8(y);
    if x.len() > 0 {
        vstd::utf8::char_is_scalar(x[0]);
        lemma_scalar_bytes(x[0] as u32);
    }
    if y.len() > 0 {
        vstd::utf8::char_is_scalar(y[0]);
        lemma_scalar_bytes(y[0] as u32);
    }
    if x.len() > 0 && y.len() > 0 {
        let ax = vstd::utf8::encode_scalar(x[0] as u32);
        let ay = vstd::utf8::encode_scalar(y[0] as u32);
        if x[0] == y[0] {
            lemma_bytes_order_same_prefix(
                ax,
                vstd::utf8::encode_utf8(x.drop_first()),
                vstd::utf8::encode_utf8(y.drop_first()),
            );
            law_text_order_is_utf8_byte_order(x.drop_first(), y.drop_first());
        } else {
            vstd::utf8::char_u32_cast(x[0], x[0] as u32);
            vstd::utf8::char_u32_cast(y[0], y[0] as u32);
            assert(x[0] as u32 != y[0] as u32);
            lemma_scalar_order(
                x[0] as u32,
                y[0] as u32,
                vstd::utf8::encode_utf8(x.drop_first()),
                vstd::utf8::encode_utf8(y.drop_first()),
            );
        }
    } else if x.len() > 0 {
        assert(ey =~= Seq::<u8>::empty());
    } else if y.len() > 0 {
        assert(ex =~= Seq::<u8>::empty());
    } else {
        assert(ex =~= Seq::<u8>::empty());
        assert(ey =~= Seq::<u8>::empty());
    }
}

// ---------------------------------------------------------------------------
// Combining and simplifying clauses
// ---------------------------------------------------------------------------

proof fn lemma_all_append(a: Seq<ClauseView>, b: Seq<ClauseView>, v: VersionView)
    ensures
        all_clauses_match(a + b, v) == (all_clauses_match(a, v) && all_clauses_match(b, v)),
        any_clause_matches(a + b, v) == (any_clause_matches(a, v) || any_clause_matches(b, v)),
    decreases a.len(),
{
    if a.len() == 0 {
        assert(a + b =~= b);
    } else {
        assert((a + b)[0] == a[0]);
        assert((a + b).drop_first() =~= a.drop_first() + b);
        lemma_all_append(a.drop_first(), b, v);
    }
}

proof fn lemma_pair_matches(c1: ClauseView, c2: ClauseView, v: VersionView)
    ensures
        all_clauses_match(seq![c1, c2], v) == (clause_matches(c1, v) && clause_matches(c2, v)),
        any_clause_matches(seq![c1, c2], v) == (clause_matches(c1, v) || clause_matches(c2, v)),
{
    let s = seq![c1, c2];
    assert(s.drop_first() =~= seq![c2]);
    lemma_one_matches(seq![c2], v);
}

proof fn lemma_push_matches(x: Seq<ClauseView>, c: ClauseView, v: VersionView)
    ensures
        all_clauses_match(x.push(c), v) == (all_clauses_match(x, v) && clause_matches(c, v)),
        any_clause_matches(x.push(c), v) == (any_clause_matches(x, v) || clause_matches(c, v)),
{
    assert(x.push(c) =~= x + seq![c]);
    lemma_all_append(x, seq![c], v);
    lemma_one_matches(seq![c], v);
}

/// A version satisfies `a & b` exactly when it satisfies both `a` and `b`.
pub proof fn law_and_is_conjunction(a: ClauseView, b: ClauseView, v: VersionView)
    ensures
        clause_matches(and_view(a, b), v) == (clause_matches(a, v) && clause_matches(b, v)),
{
    match (a, b) {
        (ClauseView::Never, _) => {},
        (_, ClauseView::Never) => {},
        (ClauseView::Always, _) => {},
        (_, ClauseView::Always) => {},
        (ClauseView::AllOf(x), ClauseView::AllOf(y)) => {
            lemma_all_append(x, y, v);
        },
        (ClauseView::AllOf(x), c) => {
            lemma_push_matches(x, c, v);
        },
        (c, ClauseView::AllOf(x)) => {
            lemma_push_matches(x, c, v);
        },
        (c1, c2) => {
            lemma_pair_matches(c1, c2, v);
        },
    }
}

/// A version satisfies `a | b` exactly when it satisfies `a` or `b`.
pub proof fn law_or_is_disjunction(a: ClauseView, b: ClauseView, v: VersionView)
    ensures
        clause_matches(or_view(a, b), v) == (clause_matches(a, v) || clause_matches(b, v)),
{
    match (a, b) {
        (ClauseView::Always, _) => {},
        (_, ClauseView::Always) => {},
        (ClauseView::Never, _) => {},
        (_, ClauseView::Never) => {},
        (ClauseView::AnyOf(x), ClauseView::AnyOf(y)) => {
            lemma_all_append(x, y, v);
        },
        (ClauseView::AnyOf(x), c) => {
            lemma_push_matches(x, c, v);
        },
        (c, ClauseView::AnyOf(x)) => {
            lemma_push_matches(x, c, v);
        },
        (c1, c2) => {
            lemma_pair_matches(c1, c2, v);
        },
    }
}

proof fn lemma_one_matches(l: Seq<ClauseView>, v: VersionView)
    requires
        l.len() == 1,
    ensures
        all_clauses_match(l, v) == clause_matches(l[0], v),
        any_clause_matches(l, v) == clause_matches(l[0], v),
{
    let e = l.drop_first();
    assert(e.len() == 0);
    assert(all_clauses_match(e, v));
    assert(!any_clause_matches(e, v));
}

proof fn lemma_collect_all_matches(cs: Seq<ClauseView>, v: VersionView)
    ensures
        match collect_all(cs) {
            None => !all_clauses_match(cs, v),
            Some(l) => all_clauses_match(l, v) == all_clauses_match(cs, v),
        },
    decreases cs,
{
    if cs.len() > 0 {
        let sc = simplify_view(cs[0]);
        law_simplify_keeps_matches(cs[0], v);
        lemma_collect_all_matches(cs.drop_first(), v);
        if !(sc is Never) {
            match collect_all(cs.drop_first()) {
                None => {},
                Some(rest) => {
                    lemma_all_append(all_part(sc), rest, v);
                    match sc {
                        ClauseView::Always => {},
                        ClauseView::AllOf(_) => {},
                        _ => {
                            lemma_one_matches(seq![sc], v);
                        },
                    }
                },
            }
        }
    }
}

proof fn lemma_collect_any_matches(cs: Seq<ClauseView>, v: VersionView)
    ensures
        match collect_any(cs) {
            None => any_clause_matches(cs, v),
            Some(l) => any_clause_matches(l, v) == any_clause_matches(cs, v),
        },
    decreases cs,
{
    if cs.len() > 0 {
        let sc = simplify_view(cs[0]);
        law_simplify_keeps_matches(cs[0], v);
        lemma_collect_any_matches(cs.drop_first(), v);
        if !(sc is Always) {
            match collect_any(cs.drop_first()) {
                None => {},
                Some(rest) => {
                    lemma_all_append(any_part(sc), rest, v);
                    match sc {
                        ClauseView::Never => {},
                        ClauseView::AnyOf(_) => {},
                        _ => {
                            lemma_one_matches(seq![sc], v);
                        },
                    }
                },
            }
        }
    }
}

/// A clause in simplified shape: every `AllOf` and `AnyOf` in it has at least
/// two children, none of them `Always`, `Never` or a node of its own kind.
pub open spec fn simplified_shape(c: ClauseView) -> bool
    decreases c, 1nat,
{
    match c {
        ClauseView::AllOf(cs) => cs.len() >= 2 && children_fit(cs, true),
        ClauseView::AnyOf(cs) => cs.len() >= 2 && children_fit(cs, false),
        _ => true,
    }
}

/// Every clause of `cs` is in simplified shape, neither `Always` nor `Never`,
/// and not an `AllOf` (when `in_all`) or not an `AnyOf` (otherwise).
pub open spec fn children_fit(cs: Seq<ClauseView>, in_all: bool) -> bool
    decreases cs, 0nat,
{
    cs.len() == 0 || (child_fits(cs[0], in_all) && children_fit(cs.drop_first(), in_all))
}

/// `c` may stand as a child of a simplified `AllOf` (when `in_all`) or `AnyOf`.
pub open spec fn child_fits(c: ClauseView, in_all: bool) -> bool
    decreases c, 2nat,
{
    &&& simplified_shape(c)
    &&& !(c is Always)
    &&& !(c is Never)
    &&& if in_all {
        !(c is AllOf)
    } else {
        !(c is AnyOf)
    }
}

proof fn lemma_children_fit(cs: Seq<ClauseView>, in_all: bool)
    ensures
        children_fit(cs, in_all) == (forall|i: int|
            0 <= i < cs.len() ==> #[trigger] child_fits(cs[i], in_all)),
    decreases cs.len(),
{
    if cs.len() > 0 {
        lemma_children_fit(cs.drop_first(), in_all);
        assert forall|i: int| 0 < i < cs.len() implies #[trigger] cs[i] == cs.drop_first()[i
            - 1] by {}
        if !children_fit(cs, in_all) && child_fits(cs[0], in_all) {
            let k = choose|k: int|
                0 <= k < cs.len() - 1 && !child_fits(cs.drop_first()[k], in_all);
            assert(cs[k + 1] == cs.drop_first()[k]);
        }
    }
}

proof fn lemma_fit_append(a: Seq<ClauseView>, b: Seq<ClauseView>, in_all: bool)
    requires
        children_fit(a, in_all),
        children_fit(b, in_all),
    ensures
        children_fit(a + b, in_all),
{
    lemma_children_fit(a, in_all);
    lemma_children_fit(b, in_all);
    lemma_children_fit(a + b, in_all);
    assert forall|i: int| 0 <= i < (a + b).len() implies #[trigger] child_fits((a + b)[i], in_all) by {
        if i < a.len() {
            assert((a + b)[i] == a[i]);
        } else {
            assert((a + b)[i] == b[i - a.len()]);
        }
    }
}

proof fn lemma_collect_all_shape(cs: Seq<ClauseView>)
    ensures
        collect_all(cs) matches Some(l) ==> children_fit(l, true),
        collect_all(cs) is None <==> exists|i: int|
            0 <= i < cs.len() && #[trigger] simplify_view(cs[i]) is Never,
    decreases cs, 0nat,
{
    if cs.len() > 0 {
        lemma_collect_all_shape(cs.drop_first());
        law_simplify_shape(cs[0]);
        let sc = simplify_view(cs[0]);
        assert forall|i: int| 0 < i < cs.len() implies #[trigger] cs[i] == cs.drop_first()[i
            - 1] by {}
        if let Some(rest) = collect_all(cs.drop_first()) {
            match sc {
                ClauseView::Always => {
                    assert(all_part(sc) =~= Seq::<ClauseView>::empty());
                    assert(children_fit(Seq::<ClauseView>::empty(), true));
                },
                ClauseView::Never => {},
                ClauseView::AllOf(sub) => {},
                _ => {
                    lemma_children_fit(seq![sc], true);
                },
            }
            if !(sc is Never) {
                lemma_fit_append(all_part(sc), rest, true);
            }
        }
        if exists|i: int| 0 <= i < cs.len() && #[trigger] simplify_view(cs[i]) is Never {
            let i = choose|i: int| 0 <= i < cs.len() && #[trigger] simplify_view(cs[i]) is Never;
            if i > 0 {
                assert(simplify_view(cs.drop_first()[i - 1]) is Never);
            }
        }
        if collect_all(cs.drop_first()) is None {
            let i = choose|i: int|
                0 <= i < cs.drop_first().len() && #[trigger] simplify_view(cs.drop_first()[i]) is Never;
            assert(simplify_view(cs[i + 1]) is Never);
        }
    }
}

proof fn lemma_collect_any_shape(cs: Seq<ClauseView>)
    ensures
        collect_any(cs) matches Some(l) ==> children_fit(l, false),
        collect_any(cs) is None <==> exists|i: int|
            0 <= i < cs.len() && #[trigger] simplify_view(cs[i]) is Always,
    decreases cs, 0nat,
{
    if cs.len() > 0 {
        lemma_collect_any_shape(cs.drop_first());
        law_simplify_shape(cs[0]);
        let sc = simplify_view(cs[0]);
        assert forall|i: int| 0 < i < cs.len() implies #[trigger] cs[i] == cs.drop_first()[i
            - 1] by {}
        if let Some(rest) = collect_any(cs.drop_first()) {
            match sc {
                ClauseView::Never => {
                    assert(any_part(sc) =~= Seq::<ClauseView>::empty());
                    assert(children_fit(Seq::<ClauseView>::empty(), false));
                },
                ClauseView::Always => {},
                ClauseView::AnyOf(sub) => {},
                _ => {
                    lemma_children_fit(seq![sc], false);
                },
            }
            if !(sc is Always) {
                lemma_fit_append(any_part(sc), rest, false);
            }
        }
        if exists|i: int| 0 <= i < cs.len() && #[trigger] simplify_view(cs[i]) is Always {
            let i = choose|i: int| 0 <= i < cs.len() && #[trigger] simplify_view(cs[i]) is Always;
            if i > 0 {
                assert(simplify_view(cs.drop_first()[i - 1]) is Always);
            }
        }
        if collect_any(cs.drop_first()) is None {
            let i = choose|i: int|
                0 <= i < cs.drop_first().len() && #[trigger] simplify_view(cs.drop_first()[i]) is Always;
            assert(simplify_view(cs[i + 1]) is Always);
        }
    }
}

/// `simplify` gives a clause in simplified shape: every `AllOf` and `AnyOf`
/// in it has at least two children, none of them `Always`, `Never` or a node
/// of its own kind. An `AllOf` with a child that simplifies to `Never` becomes
/// `Never`; an `AnyOf` with a child that simplifies to `Always` becomes
/// `Always`. (The children that remain keep their order: they are the
/// simplified children, flattened in turn, by the definition of `collect_all`
/// and `collect_any`.)
pub proof fn law_simplify_shape(c: ClauseView)
    ensures
        simplified_shape(simplify_view(c)),
        c matches ClauseView::AllOf(cs) ==> ((exists|i: int|
            0 <= i < cs.len() && #[trigger] simplify_view(cs[i]) is Never) ==> simplify_view(c) is Never),
        c matches ClauseView::AnyOf(cs) ==> ((exists|i: int|
            0 <= i < cs.len() && #[trigger] simplify_view(cs[i]) is Always) ==> simplify_view(c) is Always),
    decreases c, 1nat,
{
    match c {
        ClauseView::AllOf(cs) => {
            lemma_collect_all_shape(cs);
            if let Some(l) = collect_all(cs) {
                lemma_children_fit(l, true);
                if l.len() == 1 {
                    assert(child_fits(l[0], true));
                }
            }
        },
        ClauseView::AnyOf(cs) => {
            lemma_collect_any_shape(cs);
            if let Some(l) = collect_any(cs) {
                lemma_children_fit(l, false);
                if l.len() == 1 {
                    assert(child_fits(l[0], false));
                }
            }
        },
        _ => {},
    }
}

/// The parts that the children of an `AllOf` contribute once simplified, in order.
pub open spec fn all_parts_in_order(cs: Seq<ClauseView>) -> Seq<ClauseView> {
    cs.map_values(|c: ClauseView| all_part(simplify_view(c))).flatten()
}

/// The parts that the children of an `AnyOf` contribute once simplified, in order.
pub open spec fn any_parts_in_order(cs: Seq<ClauseView>) -> Seq<ClauseView> {
    cs.map_values(|c: ClauseView| any_part(simplify_view(c))).flatten()
}

proof fn lemma_collect_all_in_order(cs: Seq<ClauseView>)
    requires
        forall|i: int| 0 <= i < cs.len() ==> !(#[trigger] simplify_view(cs[i]) is Never),
    ensures
        collect_all(cs) == Some(all_parts_in_order(cs)),
    decreases cs.len(),
{
    if cs.len() > 0 {
        assert forall|i: int| 0 <= i < cs.drop_first().len() implies !(#[trigger] simplify_view(
            cs.drop_first()[i],
        ) is Never) by {
            assert(cs.drop_first()[i] == cs[i + 1]);
        }
        lemma_collect_all_in_order(cs.drop_first());
        let m = cs.map_values(|c: ClauseView| all_part(simplify_view(c)));
        assert(m.drop_first() =~= cs.drop_first().map_values(
            |c: ClauseView| all_part(simplify_view(c)),
        ));
        assert(!(simplify_view(cs[0]) is Never));
    }
}

proof fn lemma_collect_any_in_order(cs: Seq<ClauseView>)
    requires
        forall|i: int| 0 <= i < cs.len() ==> !(#[trigger] simplify_view(cs[i]) is Always),
    ensures
        collect_any(cs) == Some(any_parts_in_order(cs)),
    decreases cs.len(),
{
    if cs.len() > 0 {
        assert forall|i: int| 0 <= i < cs.drop_first().len() implies !(#[trigger] simplify_view(
            cs.drop_first()[i],
        ) is Always) by {
            assert(cs.drop_first()[i] == cs[i + 1]);
        }
        lemma_collect_any_in_order(cs.drop_first());
        let m = cs.map_values(|c: ClauseView| any_part(simplify_view(c)));
        assert(m.drop_first() =~= cs.drop_first().map_values(
            |c: ClauseView| any_part(simplify_view(c)),
        ));
        assert(!(simplify_view(cs[0]) is Always));
    }
}

/// `simplify` keeps the relative order of the children that survive: unless
/// a child simplifies to `Never`, the children of a simplified `AllOf` are the
/// parts its children simplify to (an `AllOf` child giving its own children,
/// an `Always` child giving none), concatenated in the original order, and
/// `AnyOf` dually.
pub proof fn law_simplify_keeps_order(cs: Seq<ClauseView>)
    ensures
        (forall|i: int| 0 <= i < cs.len() ==> !(#[trigger] simplify_view(cs[i]) is Never)) ==> {
            let l = all_parts_in_order(cs);
            simplify_view(ClauseView::AllOf(cs)) == if l.len() == 0 {
                ClauseView::Always
            } else if l.len() == 1 {
                l[0]
            } else {
                ClauseView::AllOf(l)
            }
        },
        (forall|i: int| 0 <= i < cs.len() ==> !(#[trigger] simplify_view(cs[i]) is Always)) ==> {
            let l = any_parts_in_order(cs);
            simplify_view(ClauseView::AnyOf(cs)) == if l.len() == 0 {
                ClauseView::Never
            } else if l.len() == 1 {
                l[0]
            } else {
                ClauseView::AnyOf(l)
            }
        },
{
    if forall|i: int| 0 <= i < cs.len() ==> !(#[trigger] simplify_view(cs[i]) is Never) {
        lemma_collect_all_in_order(cs);
    }
    if forall|i: int| 0 <= i < cs.len() ==> !(#[trigger] simplify_view(cs[i]) is Always) {
        lemma_collect_any_in_order(cs);
    }
}

/// Simplifying a clause does not change which versions satisfy it.
pub proof fn law_simplify_keeps_matches(c: ClauseView, v: VersionView)
    ensures
        clause_matches(simplify_view(c), v) == clause_matches(c, v),
    decreases c,
{
    match c {
        ClauseView::AllOf(cs) => {
            lemma_collect_all_matches(cs, v);
            match collect_all(cs) {
                None => {},
                Some(l) => {
                    if l.len() == 1 {
                        lemma_one_matches(l, v);
                    }
                },
            }
        },
        ClauseView::AnyOf(cs) => {
            lemma_collect_any_matches(cs, v);
            match collect_any(cs) {
                None => {},
                Some(l) => {
                    if l.len() == 1 {
                        lemma_one_matches(l, v);
                    }
                },
            }
        },
        _ => {},
    }
}

// ---------------------------------------------------------------------------
// Comparing version strings
// ---------------------------------------------------------------------------

/// Comparing two versions the other way round gives the opposite answer,
/// and "no order" both ways.
pub proof fn law_compare_antisymmetric(a: VersionView, b: VersionView)
    ensures
        match compare_outcome(a, b) {
            Some(x) => compare_outcome(b, a) == Some((-x) as i32),
            None => compare_outcome(b, a) is None,
        },
        compare_outcome(a, b) == Some(0i32) <==> version_eq(a, b),
{
    law_precedence_antisymmetric(a, b);
    if version_eq(a, b) {
        law_equal_versions_same_precedence(a, b);
    }
}

// ---------------------------------------------------------------------------
// Policies of a range
// ---------------------------------------------------------------------------

/// An ordering range accepts only versions on its side of the target: `>T`
/// versions of higher precedence than `T` (never `T` itself), `>=T` of at
/// least its precedence, `<T` of lower, `<=T` of at most its precedence. For a
/// version without prerelease, whatever the policies, being on that side is
/// also enough.
pub proof fn law_ordering_ranges_follow_precedence(r: RangeView, v: VersionView)
    ensures
        r.operator == Operator::Gt && range_matches(r, v) ==> precedence_order(v, r.target) > 0,
        r.operator == Operator::Gte && range_matches(r, v) ==> precedence_order(v, r.target) >= 0,
        r.operator == Operator::Lt && range_matches(r, v) ==> precedence_order(v, r.target) < 0,
        r.operator == Operator::Lte && range_matches(r, v) ==> precedence_order(v, r.target) <= 0,
        pre_or_empty(v).len() == 0 ==> {
            &&& r.operator == Operator::Gt ==> (range_matches(r, v) <==> precedence_order(v, r.target) > 0)
            &&& r.operator == Operator::Gte ==> (range_matches(r, v) <==> precedence_order(v, r.target) >= 0)
            &&& r.operator == Operator::Lt ==> (range_matches(r, v) <==> precedence_order(v, r.target) < 0)
            &&& r.operator == Operator::Lte ==> (range_matches(r, v) <==> precedence_order(v, r.target) <= 0)
        },
{
    let c = spec_truncate_to_prerelease(v);
    assert(precedence_key(c) == precedence_key(v));
    assert(pre_or_empty(c) == pre_or_empty(v));
}

/// An equality range accepts only versions of its target's precedence, and
/// an inequality range accepts every version without prerelease whose
/// precedence differs from its target's, whatever the policies.
pub proof fn law_equality_ranges_follow_precedence(r: RangeView, v: VersionView)
    ensures
        r.operator == Operator::Eq && range_matches(r, v) ==> precedence_order(v, r.target) == 0,
        r.operator == Operator::Neq && pre_or_empty(v).len() == 0 && precedence_order(v, r.target)
            != 0 ==> range_matches(r, v),
{
    let c = spec_truncate_to_prerelease(v);
    assert(precedence_key(c) == precedence_key(v));
    assert(pre_or_empty(c) == pre_or_empty(v));
    let check = if r.build_policy != BuildPolicy::Strict {
        c
    } else {
        v
    };
    let tt = spec_truncate_to_prerelease(r.target);
    assert(precedence_key(tt) == precedence_key(r.target));
    let ct = spec_truncate_to_prerelease(check);
    assert(precedence_key(ct) == precedence_key(v));
    if version_eq(tt, ct) {
        law_equal_versions_same_precedence(tt, ct);
        law_precedence_antisymmetric(tt, ct);
    }
    if version_eq(check, r.target) {
        law_equal_versions_same_precedence(check, r.target);
    }
}

/// Under the implicit build policy, an equality range accepts every version
/// equal to its target once build metadata is set aside, and an inequality
/// range refuses every such version.
pub proof fn law_equality_ranges_accept_equal(r: RangeView, v: VersionView)
    requires
        r.build_policy == BuildPolicy::Implicit,
        version_eq(spec_truncate_to_prerelease(v), r.target),
    ensures
        r.operator == Operator::Eq ==> range_matches(r, v),
        r.operator == Operator::Neq ==> !range_matches(r, v),
{
    let c = spec_truncate_to_prerelease(v);
    assert(version_eq(spec_truncate_to_patch(r.target), spec_truncate_to_patch(c)));
}

/// Under the implicit build policy, build metadata of the version plays no
/// part: a version matches exactly when it matches without its build metadata.
pub proof fn law_implicit_policy_ignores_build(r: RangeView, v: VersionView)
    requires
        r.build_policy == BuildPolicy::Implicit,
    ensures
        range_matches(r, v) == range_matches(r, spec_truncate_to_prerelease(v)),
{
    assert(spec_truncate_to_prerelease(spec_truncate_to_prerelease(v)) == spec_truncate_to_prerelease(v));
}

/// Under the natural policy, `<X.Y.Z` does not match a prerelease of `X.Y.Z`.
pub proof fn law_natural_lt_excludes_own_prereleases(r: RangeView, v: VersionView)
    requires
        r.operator == Operator::Lt,
        r.prerelease_policy == PrereleasePolicy::Natural,
        !r.target.partial,
        !v.partial,
        !has_prerelease(r.target),
        has_prerelease(v),
        v.major == r.target.major,
        v.minor == r.target.minor,
        v.patch == r.target.patch,
    ensures
        !range_matches(r, v),
{
}

/// Under the "always" policy, `<T` matches exactly the versions of lower
/// precedence than `T`, prereleases of `T`'s release included.
pub proof fn law_always_lt_is_precedence(r: RangeView, v: VersionView)
    requires
        r.operator == Operator::Lt,
        r.prerelease_policy == PrereleasePolicy::Always,
    ensures
        range_matches(r, v) == (precedence_order(v, r.target) < 0),
{
    let t = spec_truncate_to_prerelease(v);
    assert(precedence_key(t) == precedence_key(v));
}

/// Under the "same patch" policy, a prerelease matches no bound on another
/// release.
pub proof fn law_same_patch_excludes_other_releases(r: RangeView, v: VersionView)
    requires
        r.prerelease_policy == PrereleasePolicy::SamePatch,
        !r.target.partial,
        !v.partial,
        has_prerelease(v),
        v.major != r.target.major || v.minor != r.target.minor || v.patch != r.target.patch,
    ensures
        !range_matches(r, v),
{
}

// ---------------------------------------------------------------------------
// Simple specs
// ---------------------------------------------------------------------------

proof fn lemma_and_fold_matches(cs: Seq<ClauseView>, v: VersionView)
    ensures
        clause_matches(and_fold(cs), v) == all_clauses_match(cs, v),
    decreases cs.len(),
{
    if cs.len() == 0 {
    } else {
        lemma_and_fold_matches(cs.drop_last(), v);
        law_and_is_conjunction(and_fold(cs.drop_last()), cs.last(), v);
        assert(cs.drop_last().push(cs.last()) =~= cs);
        lemma_push_matches(cs.drop_last(), cs.last(), v);
    }
}

/// A version satisfies a simple spec of several comma-separated blocks
/// exactly when it satisfies every block.
pub proof fn law_simple_spec_all_blocks(s: Seq<char>, v: VersionView)
    requires
        spec_simple_parse(s) is Ok,
        s != "*"@,
    ensures
        parse_simple_blocks(crate::text::split_on(s, ',')) is Ok,
        clause_matches(spec_simple_parse(s)->Ok_0, v) == all_clauses_match(
            parse_simple_blocks(crate::text::split_on(s, ','))->Ok_0,
            v,
        ),
{
    let cs = parse_simple_blocks(crate::text::split_on(s, ','))->Ok_0;
    law_simplify_keeps_matches(and_fold(cs), v);
    lemma_and_fold_matches(cs, v);
}

// ---------------------------------------------------------------------------
// Selecting and filtering versions
// ---------------------------------------------------------------------------

/// `filter` keeps exactly the versions that satisfy the clause.
pub proof fn law_filter_keeps_matching(c: ClauseView, vs: Seq<VersionView>, v: VersionView)
    ensures
        filter_matching(c, vs).contains(v) <==> (vs.contains(v) && clause_matches(c, v)),
    decreases vs.len(),
{
    if vs.len() > 0 {
        law_filter_keeps_matching(c, vs.drop_last(), v);
        let f = filter_matching(c, vs.drop_last());
        if vs.drop_last().contains(v) {
            let i = choose|i: int| 0 <= i < vs.drop_last().len() && vs.drop_last()[i] == v;
            assert(vs[i] == v);
        }
        if vs.contains(v) && !vs.drop_last().contains(v) {
            let i = choose|i: int| 0 <= i < vs.len() && vs[i] == v;
            if i < vs.len() - 1 {
                assert(vs.drop_last()[i] == v);
            }
            assert(v == vs.last());
        }
        if clause_matches(c, vs.last()) {
            assert(f.push(vs.last())[f.len() as int] == vs.last());
            if f.contains(v) {
                let i = choose|i: int| 0 <= i < f.len() && f[i] == v;
                assert(f.push(vs.last())[i] == v);
            }
            if f.push(vs.last()).contains(v) && v != vs.last() {
                let i = choose|i: int| 0 <= i < f.len() + 1 && f.push(vs.last())[i] == v;
                assert(f[i] == v);
            }
        }
        if vs.drop_last().contains(v) {
            assert(vs.contains(v)) by {
                let i = choose|i: int| 0 <= i < vs.drop_last().len() && vs.drop_last()[i] == v;
                assert(vs[i] == v);
            }
        }
        if v == vs.last() {
            assert(vs[vs.len() - 1] == v);
        }
    }
}

/// `select` gives a version of the list that satisfies the clause, with
/// precedence at least that of every other satisfying version, and the first
/// such one; `None` only when no version satisfies the clause.
pub proof fn law_select_is_best(c: ClauseView, vs: Seq<VersionView>)
    ensures
        match select_best(c, vs) {
            None => forall|i: int| 0 <= i < vs.len() ==> !clause_matches(c, #[trigger] vs[i]),
            Some(b) => clause_matches(c, b) && (exists|k: int|
                0 <= k < vs.len() && vs[k] == b && (forall|j: int|
                    0 <= j < k && clause_matches(c, #[trigger] vs[j]) ==> precedence_order(vs[j], b)
                        < 0)) && (forall|i: int|
                0 <= i < vs.len() && clause_matches(c, #[trigger] vs[i]) ==> precedence_order(vs[i], b)
                    <= 0),
        },
    decreases vs.len(),
{
    if vs.len() > 0 {
        let d = vs.drop_last();
        law_select_is_best(c, d);
        let last = vs.last();
        assert forall|i: int| 0 <= i < d.len() implies #[trigger] d[i] == vs[i] by {}
        if clause_matches(c, last) {
            law_precedence_reflexive(last);
            match select_best(c, d) {
                None => {
                    assert forall|j: int|
                        0 <= j < vs.len() - 1 && clause_matches(c, #[trigger] vs[j]) implies precedence_order(vs[j], last) < 0 by {
                        assert(d[j] == vs[j]);
                    }
                    assert(vs[vs.len() - 1] == last);
                },
                Some(x) => {
                    law_precedence_antisymmetric(last, x);
                    if precedence_order(last, x) > 0 {
                        assert forall|j: int|
                            0 <= j < vs.len() - 1 && clause_matches(c, #[trigger] vs[j]) implies precedence_order(vs[j], last) < 0 by {
                            assert(d[j] == vs[j]);
                            law_precedence_transitive(vs[j], x, last);
                        }
                        assert forall|i: int|
                            0 <= i < vs.len() && clause_matches(c, #[trigger] vs[i]) implies precedence_order(vs[i], last) <= 0 by {
                            if i < vs.len() - 1 {
                                assert(d[i] == vs[i]);
                                law_precedence_transitive(vs[i], x, last);
                            }
                        }
                        assert(vs[vs.len() - 1] == last);
                    } else {
                        let k = choose|k: int|
                            0 <= k < d.len() && d[k] == x && (forall|j: int|
                                0 <= j < k && clause_matches(c, #[trigger] d[j]) ==> precedence_order(d[j], x) < 0);
                        assert(vs[k] == x);
                        assert forall|j: int|
                            0 <= j < k && clause_matches(c, #[trigger] vs[j]) implies precedence_order(vs[j], x) < 0 by {
                            assert(d[j] == vs[j]);
                        }
                        assert forall|i: int|
                            0 <= i < vs.len() && clause_matches(c, #[trigger] vs[i]) implies precedence_order(vs[i], x) <= 0 by {
                            if i < vs.len() - 1 {
                                assert(d[i] == vs[i]);
                            }
                        }
                    }
                },
            }
        } else {
            match select_best(c, d) {
                None => {
                    assert forall|i: int| 0 <= i < vs.len() implies !clause_matches(c, #[trigger] vs[i]) by {
                        if i < vs.len() - 1 {
                            assert(d[i] == vs[i]);
                        }
                    }
                },
                Some(x) => {
                    let k = choose|k: int|
                        0 <= k < d.len() && d[k] == x && (forall|j: int|
                            0 <= j < k && clause_matches(c, #[trigger] d[j]) ==> precedence_order(d[j], x) < 0);
                    assert(vs[k] == x);
                    assert forall|j: int|
                        0 <= j < k && clause_matches(c, #[trigger] vs[j]) implies precedence_order(vs[j], x) < 0 by {
                        assert(d[j] == vs[j]);
                    }
                    assert forall|i: int|
                        0 <= i < vs.len() && clause_matches(c, #[trigger] vs[i]) implies precedence_order(vs[i], x) <= 0 by {
                        if i < vs.len() - 1 {
                            assert(d[i] == vs[i]);
                        }
                    }
                },
            }
        }
    }
}

// ---------------------------------------------------------------------------
// Equivalence of clauses
// ---------------------------------------------------------------------------

/// Every clause is equivalent to itself.
pub proof fn law_clause_equiv_reflexive(c: ClauseView)
    ensures
        clause_equiv(c, c),
    decreases c,
{
    match c {
        ClauseView::AllOf(xs) => {
            lemma_equiv_lists(xs, xs);
            assert forall|i: int| 0 <= i < xs.len() implies #[trigger] has_match(xs[i], xs) by {
                law_clause_equiv_reflexive(xs[i]);
                lemma_match_exists(xs[i], xs);
            }
            assert forall|i: int| 0 <= i < xs.len() implies #[trigger] matched_by(xs, xs[i]) by {
                law_clause_equiv_reflexive(xs[i]);
                lemma_match_exists(xs[i], xs);
            }
        },
        ClauseView::AnyOf(xs) => {
            lemma_equiv_lists(xs, xs);
            assert forall|i: int| 0 <= i < xs.len() implies #[trigger] has_match(xs[i], xs) by {
                law_clause_equiv_reflexive(xs[i]);
                lemma_match_exists(xs[i], xs);
            }
            assert forall|i: int| 0 <= i < xs.len() implies #[trigger] matched_by(xs, xs[i]) by {
                law_clause_equiv_reflexive(xs[i]);
                lemma_match_exists(xs[i], xs);
            }
        },
        _ => {},
    }
}

/// Equivalence of clauses is symmetric.
pub proof fn law_clause_equiv_symmetric(a: ClauseView, b: ClauseView)
    requires
        clause_equiv(a, b),
    ensures
        clause_equiv(b, a),
    decreases a,
{
    match (a, b) {
        (ClauseView::AllOf(xs), ClauseView::AllOf(ys)) => {
            lemma_equiv_lists(xs, ys);
            lemma_equiv_lists(ys, xs);
            assert forall|j: int| 0 <= j < ys.len() implies #[trigger] has_match(ys[j], xs) by {
                assert(matched_by(xs, ys[j]));
                lemma_match_exists(ys[j], xs);
                let i = choose|i: int| 0 <= i < xs.len() && #[trigger] clause_equiv(xs[i], ys[j]);
                law_clause_equiv_symmetric(xs[i], ys[j]);
            }
            assert forall|i: int| 0 <= i < xs.len() implies #[trigger] matched_by(ys, xs[i]) by {
                assert(has_match(xs[i], ys));
                lemma_match_exists(xs[i], ys);
                let j = choose|j: int| 0 <= j < ys.len() && #[trigger] clause_equiv(xs[i], ys[j]);
                law_clause_equiv_symmetric(xs[i], ys[j]);
            }
        },
        (ClauseView::AnyOf(xs), ClauseView::AnyOf(ys)) => {
            lemma_equiv_lists(xs, ys);
            lemma_equiv_lists(ys, xs);
            assert forall|j: int| 0 <= j < ys.len() implies #[trigger] has_match(ys[j], xs) by {
                assert(matched_by(xs, ys[j]));
                lemma_match_exists(ys[j], xs);
                let i = choose|i: int| 0 <= i < xs.len() && #[trigger] clause_equiv(xs[i], ys[j]);
                law_clause_equiv_symmetric(xs[i], ys[j]);
            }
            assert forall|i: int| 0 <= i < xs.len() implies #[trigger] matched_by(ys, xs[i]) by {
                assert(has_match(xs[i], ys));
                lemma_match_exists(xs[i], ys);
                let j = choose|j: int| 0 <= j < ys.len() && #[trigger] clause_equiv(xs[i], ys[j]);
                law_clause_equiv_symmetric(xs[i], ys[j]);
            }
        },
        _ => {},
    }
}

/// Equivalence of clauses is transitive.
pub proof fn law_clause_equiv_transitive(a: ClauseView, b: ClauseView, c: ClauseView)
    requires
        clause_equiv(a, b),
        clause_equiv(b, c),
    ensures
        clause_equiv(a, c),
    decreases a,
{
    match (a, b, c) {
        (ClauseView::AllOf(xs), ClauseView::AllOf(ys), ClauseView::AllOf(zs)) => {
            lemma_equiv_lists(xs, ys);
            lemma_equiv_lists(ys, zs);
            lemma_equiv_lists(xs, zs);
            assert forall|i: int| 0 <= i < xs.len() implies #[trigger] has_match(xs[i], zs) by {
                assert(has_match(xs[i], ys));
                lemma_match_exists(xs[i], ys);
                let j = choose|j: int| 0 <= j < ys.len() && #[trigger] clause_equiv(xs[i], ys[j]);
                assert(has_match(ys[j], zs));
                lemma_match_exists(ys[j], zs);
                let k = choose|k: int| 0 <= k < zs.len() && #[trigger] clause_equiv(ys[j], zs[k]);
                law_clause_equiv_transitive(xs[i], ys[j], zs[k]);
                lemma_match_exists(xs[i], zs);
            }
            assert forall|k: int| 0 <= k < zs.len() implies #[trigger] matched_by(xs, zs[k]) by {
                assert(matched_by(ys, zs[k]));
                lemma_match_exists(zs[k], ys);
                let j = choose|j: int| 0 <= j < ys.len() && #[trigger] clause_equiv(ys[j], zs[k]);
                assert(matched_by(xs, ys[j]));
                lemma_match_exists(ys[j], xs);
                let i = choose|i: int| 0 <= i < xs.len() && #[trigger] clause_equiv(xs[i], ys[j]);
                law_clause_equiv_transitive(xs[i], ys[j], zs[k]);
                lemma_match_exists(zs[k], xs);
            }
        },
        (ClauseView::AnyOf(xs), ClauseView::AnyOf(ys), ClauseView::AnyOf(zs)) => {
            lemma_equiv_lists(xs, ys);
            lemma_equiv_lists(ys, zs);
            lemma_equiv_lists(xs, zs);
            assert forall|i: int| 0 <= i < xs.len() implies #[trigger] has_match(xs[i], zs) by {
                assert(has_match(xs[i], ys));
                lemma_match_exists(xs[i], ys);
                let j = choose|j: int| 0 <= j < ys.len() && #[trigger] clause_equiv(xs[i], ys[j]);
                assert(has_match(ys[j], zs));
                lemma_match_exists(ys[j], zs);
                let k = choose|k: int| 0 <= k < zs.len() && #[trigger] clause_equiv(ys[j], zs[k]);
                law_clause_equiv_transitive(xs[i], ys[j], zs[k]);
                lemma_match_exists(xs[i], zs);
            }
            assert forall|k: int| 0 <= k < zs.len() implies #[trigger] matched_by(xs, zs[k]) by {
                assert(matched_by(ys, zs[k]));
                lemma_match_exists(zs[k], ys);
                let j = choose|j: int| 0 <= j < ys.len() && #[trigger] clause_equiv(ys[j], zs[k]);
                assert(matched_by(xs, ys[j]));
                lemma_match_exists(ys[j], xs);
                let i = choose|i: int| 0 <= i < xs.len() && #[trigger] clause_equiv(xs[i], ys[j]);
                law_clause_equiv_transitive(xs[i], ys[j], zs[k]);
                lemma_match_exists(zs[k], xs);
            }
        },
        _ => {},
    }
}

// ---------------------------------------------------------------------------
// npm ranges
// ---------------------------------------------------------------------------

/// A version satisfies an npm range exactly when it satisfies one of the
/// range's `||` groups.
pub proof fn law_npm_union_of_groups(s: Seq<char>, v: VersionView)
    requires
        spec_npm_parse(s) is Ok,
    ensures
        clause_matches(spec_npm_parse(s)->Ok_0, v) == (exists|i: int|
            0 <= i < split_seq(trim(s), "||"@).len() && #[trigger] npm_group_accepts(
                trim(split_seq(trim(s), "||"@)[i]),
                v,
            )),
{
    let t = trim(s);
    let gs = split_seq(t, "||"@);
    if t.len() == 0 || t == "*"@ {
        if t.len() == 0 {
            reveal_strlit("||");
            assert(gs == seq![t]);
            assert(trim(t) =~= t);
        } else {
            lemma_star_group();
        }
        assert(spec_npm_group(trim(gs[0])) == Ok::<Seq<ClauseView>, ErrorView>(
            seq![any_npm_clause()],
        ));
        crate::clause::lemma_list_matches(seq![any_npm_clause()], v);
        assert(npm_group_accepts(trim(gs[0]), v) == clause_matches(any_npm_clause(), v));
    } else {
        let l = npm_groups(gs)->Ok_0;
        lemma_npm_groups_accept(gs, v);
        if l.len() == 1 {
            crate::clause::lemma_list_matches(l, v);
        } else {
            crate::clause::lemma_dedup_any_matches(l, v);
        }
    }
}

// ---------------------------------------------------------------------------
// Legacy specs
// ---------------------------------------------------------------------------

/// A legacy spec accepts a version exactly when every comma-separated block
/// of it does.
pub proof fn law_legacy_spec_all_blocks(s: Seq<char>, v: VersionView)
    requires
        spec_legacy_expression(s) is Ok,
    ensures
        legacy_blocks(split_on(s, ',')) is Ok,
        clause_matches(spec_legacy_expression(s)->Ok_0, v) == all_clauses_match(
            legacy_blocks(split_on(s, ','))->Ok_0,
            v,
        ),
{
    let cs = legacy_blocks(split_on(s, ','))->Ok_0;
    lemma_and_fold_matches(cs, v);
    if s.contains(',') {
        let f = and_fold(cs);
        let xs = allof_children(f);
        lemma_legacy_blocks_listed(split_on(s, ','));
        crate::simple_spec::lemma_and_fold_listed(cs);
        match f {
            ClauseView::AllOf(ys) => {
                crate::clause::lemma_all_build_listed(ys);
            },
            _ => {
                crate::clause::lemma_all_build_listed(seq![f]);
                crate::clause::lemma_list_matches(seq![f], v);
            },
        }
        crate::clause::lemma_dedup_all_matches(xs, v);
    }
}

} // verus!
