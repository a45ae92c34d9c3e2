//! `Version`: parsing, rendering, coercion, bumping and precedence.
//!
//! The numbers of a version are written in ASCII digits (`0`-`9`). `coerce`
//! finds its leading numbers as runs of decimal digits of any script, as a
//! Unicode-aware `\d` does; a number in another script then fails the parse.
//!
//! Equality includes build metadata; precedence (`precedence_lt` and friends)
//! ignores it. So two versions that differ only in build metadata are not
//! equal, yet neither has a lower precedence than the other.

use vstd::prelude::*;

use crate::error::{
    msg_empty_identifier, msg_empty_version, msg_invalid_version, msg_leading_zero_identifier,
    msg_invalid_coerce, msg_leading_zero_major, msg_leading_zero_minor, msg_leading_zero_patch,
    ErrorView,
    SemverError,
};
use crate::identifiers::{
    build_list_compare, build_list_equal, build_list_order, build_text, build_views,
    lemma_pre_list_order,
    duplicate_build_list, duplicate_pre_list, num_order, parse_build_chars,
    parse_prerelease_chars, pre_list_compare, pre_list_equal, pre_list_order, pre_text,
    pre_views, spec_build, spec_prerelease, BuildIdent, BuildIdentView, PreIdentError,
    PreIdentView, PreParse, PreReleaseIdent,
};
use crate::text::{
    append_chars, is_alnum_char, all_ident_chars, all_ident_chars_exec, chars_of, decimal,
    digit_run, digit_run_at, digits_value, find_char, has_leading_zero, has_leading_zero_exec,
    index_of_char, join_with, lemma_digit_run, parse_u64, push_decimal, push_joined, string_of,
    sub_chars, texts_view, zero_run, decimal_run, decimal_run_at, lemma_decimal_run,
};

verus! {

/// A parsed semantic version.
///
/// `minor` and `patch` are `None` only in partial versions; `prerelease` and
/// `build` are `None` when a partial version does not mention them, and
/// `Some(empty)` when there are none.
#[derive(Debug, Clone, Hash)]
pub struct Version {
    pub major: u64,
    pub minor: Option<u64>,
    pub patch: Option<u64>,
    pub prerelease: Option<Vec<PreReleaseIdent>>,
    pub build: Option<Vec<BuildIdent>>,
    /// Whether this was parsed as a partial version.
    pub partial: bool,
}

/// The mathematical value of a `Version`.
pub struct VersionView {
    pub major: u64,
    pub minor: Option<u64>,
    pub patch: Option<u64>,
    pub prerelease: Option<Seq<PreIdentView>>,
    pub build: Option<Seq<BuildIdentView>>,
    pub partial: bool,
}

pub open spec fn opt_pre_views(p: Option<Vec<PreReleaseIdent>>) -> Option<Seq<PreIdentView>> {
    match p {
        Some(v) => Some(pre_views(v@)),
        None => None,
    }
}

pub open spec fn opt_build_views(b: Option<Vec<BuildIdent>>) -> Option<Seq<BuildIdentView>> {
    match b {
        Some(v) => Some(build_views(v@)),
        None => None,
    }
}

impl View for Version {
    type V = VersionView;

    open spec fn view(&self) -> VersionView {
        VersionView {
            major: self.major,
            minor: self.minor,
            patch: self.patch,
            prerelease: opt_pre_views(self.prerelease),
            build: opt_build_views(self.build),
            partial: self.partial,
        }
    }
}

/// The prerelease identifiers of `v`, none when unspecified.
pub open spec fn pre_or_empty(v: VersionView) -> Seq<PreIdentView> {
    match v.prerelease {
        Some(p) => p,
        None => Seq::empty(),
    }
}

/// The build identifiers of `v`, none when unspecified.
pub open spec fn build_or_empty(v: VersionView) -> Seq<BuildIdentView> {
    match v.build {
        Some(b) => b,
        None => Seq::empty(),
    }
}

/// Version equality: all components, with "unspecified" prerelease or build
/// equal to "none".
pub open spec fn version_eq(a: VersionView, b: VersionView) -> bool {
    &&& a.major == b.major
    &&& a.minor == b.minor
    &&& a.patch == b.patch
    &&& pre_or_empty(a) == pre_or_empty(b)
    &&& build_or_empty(a) == build_or_empty(b)
}

// ---------------------------------------------------------------------------
// The grammar of version strings
// ---------------------------------------------------------------------------

/// The pieces a version string is made of, before any conversion.
pub struct VersionPieces {
    pub major: Seq<char>,
    pub minor: Option<Seq<char>>,
    pub patch: Option<Seq<char>>,
    pub prerelease: Option<Seq<char>>,
    pub build: Option<Seq<char>>,
}

/// `.` followed by at least one digit at the start of `r`: the digits and what follows.
pub open spec fn dotted_number(r: Seq<char>) -> Option<(Seq<char>, Seq<char>)> {
    if r.len() > 0 && r[0] == '.' && digit_run(r.drop_first()) > 0 {
        let n = digit_run(r.drop_first()) as int;
        Some((r.drop_first().take(n), r.drop_first().skip(n)))
    } else {
        None
    }
}

/// An optional `-prerelease` then an optional `+build`, to the end of `t`.
/// With `nonempty`, each part that is present must have at least one character.
pub open spec fn version_tail(t: Seq<char>, nonempty: bool) -> Option<(Option<Seq<char>>, Option<Seq<char>>)> {
    if t.len() == 0 {
        Some((None, None))
    } else if t[0] == '-' {
        let u = t.drop_first();
        let k = index_of_char(u, '+') as int;
        let pre = u.take(k);
        if !all_ident_chars(pre) || (nonempty && pre.len() == 0) {
            None
        } else if k >= u.len() {
            Some((Some(pre), None))
        } else {
            let b = u.skip(k + 1);
            if all_ident_chars(b) && !(nonempty && b.len() == 0) {
                Some((Some(pre), Some(b)))
            } else {
                None
            }
        }
    } else if t[0] == '+' {
        let b = t.drop_first();
        if all_ident_chars(b) && !(nonempty && b.len() == 0) {
            Some((None, Some(b)))
        } else {
            None
        }
    } else {
        None
    }
}

/// Splits a version string into its pieces.
///
/// A full version is `MAJOR.MINOR.PATCH[-PRERELEASE][+BUILD]` with the numbers
/// made of ASCII digits and the optional parts non-empty over `[0-9a-zA-Z.-]`.
/// A partial version may stop after `MAJOR` or `MAJOR.MINOR`, and its optional
/// parts may be empty.
pub open spec fn version_pieces(s: Seq<char>, partial: bool) -> Option<VersionPieces> {
    let a = digit_run(s) as int;
    if a == 0 {
        None
    } else {
        let major = s.take(a);
        let r1 = s.skip(a);
        let (minor, r2): (Option<Seq<char>>, Seq<char>) = match dotted_number(r1) {
            Some((d, rest)) => (Some(d), rest),
            None => (None, r1),
        };
        let (patch, r3): (Option<Seq<char>>, Seq<char>) = if minor is Some {
            match dotted_number(r2) {
                Some((d, rest)) => (Some(d), rest),
                None => (None, r2),
            }
        } else {
            (None, r2)
        };
        if !partial && (minor is None || patch is None) {
            None
        } else {
            match version_tail(r3, !partial) {
                Some((pre, build)) => Some(
                    VersionPieces { major, minor, patch, prerelease: pre, build },
                ),
                None => None,
            }
        }
    }
}

pub open spec fn opt_has_leading_zero(s: Option<Seq<char>>) -> bool {
    match s {
        Some(t) => has_leading_zero(t),
        None => false,
    }
}

pub open spec fn opt_too_big(s: Option<Seq<char>>) -> bool {
    match s {
        Some(t) => digits_value(t) > u64::MAX,
        None => false,
    }
}

pub open spec fn opt_number(s: Option<Seq<char>>) -> Option<u64> {
    match s {
        Some(t) => Some(digits_value(t) as u64),
        None => None,
    }
}

/// The prerelease component for the pieces (or the error it raises).
pub open spec fn prerelease_component(pre: Option<Seq<char>>, build: Option<Seq<char>>, partial: bool) -> Result<Option<Seq<PreIdentView>>, ErrorView> {
    match pre {
        None => Ok(
            if partial && build is None {
                None
            } else {
                Some(Seq::empty())
            },
        ),
        Some(p) => if p.len() == 0 {
            Ok(Some(Seq::empty()))
        } else {
            match spec_prerelease(p) {
                Ok(ids) => Ok(Some(ids)),
                Err(PreIdentError::Empty) => Err(ErrorView::InvalidVersion(msg_empty_identifier(p))),
                Err(PreIdentError::LeadingZero(x)) => Err(
                    ErrorView::InvalidVersion(msg_leading_zero_identifier(x)),
                ),
            }
        },
    }
}

/// The build component for the pieces; `None` when it is invalid.
pub open spec fn build_component(build: Option<Seq<char>>, partial: bool) -> Option<Option<Seq<BuildIdentView>>> {
    match build {
        None => Some(
            if partial {
                None
            } else {
                Some(Seq::empty())
            },
        ),
        Some(b) => if b.len() == 0 {
            Some(Some(Seq::empty()))
        } else {
            match spec_build(b) {
                Some(ids) => Some(Some(ids)),
                None => None,
            }
        },
    }
}

/// What parsing `s` gives, as a full (`partial == false`) or partial version.
pub open spec fn spec_parse_version(s: Seq<char>, partial: bool) -> Result<VersionView, ErrorView> {
    if s.len() == 0 {
        Err(ErrorView::InvalidVersion(msg_empty_version(s)))
    } else {
        match version_pieces(s, partial) {
            None => Err(ErrorView::InvalidVersion(msg_invalid_version(s))),
            Some(p) => if has_leading_zero(p.major) {
                Err(ErrorView::InvalidVersion(msg_leading_zero_major(s)))
            } else if opt_has_leading_zero(p.minor) {
                Err(ErrorView::InvalidVersion(msg_leading_zero_minor(s)))
            } else if opt_has_leading_zero(p.patch) {
                Err(ErrorView::InvalidVersion(msg_leading_zero_patch(s)))
            } else if digits_value(p.major) > u64::MAX || opt_too_big(p.minor) || opt_too_big(
                p.patch,
            ) {
                Err(ErrorView::InvalidVersion(msg_invalid_version(s)))
            } else {
                match prerelease_component(p.prerelease, p.build, partial) {
                    Err(e) => Err(e),
                    Ok(pre) => match build_component(p.build, partial) {
                        None => Err(ErrorView::InvalidVersion(msg_invalid_version(s))),
                        Some(build) => Ok(
                            VersionView {
                                major: digits_value(p.major) as u64,
                                minor: opt_number(p.minor),
                                patch: opt_number(p.patch),
                                prerelease: pre,
                                build,
                                partial,
                            },
                        ),
                    },
                }
            },
        }
    }
}

/// The view of a parse result.
pub open spec fn version_result_view(r: Result<Version, SemverError>) -> Result<VersionView, ErrorView> {
    match r {
        Ok(v) => Ok(v@),
        Err(e) => Err(e@),
    }
}

// ---------------------------------------------------------------------------
// Executable grammar
// ---------------------------------------------------------------------------

/// The pieces of a version string, as characters.
pub(crate) struct Pieces {
    pub(crate) major: Vec<char>,
    pub(crate) minor: Option<Vec<char>>,
    pub(crate) patch: Option<Vec<char>>,
    pub(crate) prerelease: Option<Vec<char>>,
    pub(crate) build: Option<Vec<char>>,
}

pub(crate) open spec fn opt_chars(o: Option<Vec<char>>) -> Option<Seq<char>> {
    match o {
        Some(v) => Some(v@),
        None => None,
    }
}

pub(crate) open spec fn pieces_view(p: Pieces) -> VersionPieces {
    VersionPieces {
        major: p.major@,
        minor: opt_chars(p.minor),
        patch: opt_chars(p.patch),
        prerelease: opt_chars(p.prerelease),
        build: opt_chars(p.build),
    }
}

fn dotted_number_exec(r: &Vec<char>) -> (res: Option<(Vec<char>, Vec<char>)>)
    ensures
        match dotted_number(r@) {
            Some((d, rest)) => res matches Some((dv, rv)) && dv@ == d && rv@ == rest,
            None => res is None,
        },
{
    if r.len() > 0 && r[0] == '.' {
        let n = digit_run_at(r, 1);
        assert(r@.skip(1) =~= r@.drop_first());
        if n > 0 {
            let d = sub_chars(r, 1, 1 + n);
            let rest = sub_chars(r, 1 + n, r.len());
            assert(d@ =~= r@.drop_first().take(n as int));
            assert(rest@ =~= r@.drop_first().skip(n as int));
            Some((d, rest))
        } else {
            None
        }
    } else {
        None
    }
}

pub(crate) fn version_tail_exec(t: &Vec<char>, nonempty: bool) -> (res: Option<(Option<Vec<char>>, Option<Vec<char>>)>)
    ensures
        match version_tail(t@, nonempty) {
            Some((pre, build)) => res matches Some((pv, bv)) && opt_chars(pv) == pre && opt_chars(
                bv,
            ) == build,
            None => res is None,
        },
{
    if t.len() == 0 {
        Some((None, None))
    } else if t[0] == '-' {
        let u = sub_chars(t, 1, t.len());
        assert(u@ =~= t@.drop_first());
        let k = find_char(&u, 0, '+');
        assert(u@.skip(0) =~= u@);
        let pre = sub_chars(&u, 0, k);
        assert(pre@ =~= u@.take(k as int));
        if !all_ident_chars_exec(&pre) || (nonempty && pre.len() == 0) {
            None
        } else if k >= u.len() {
            Some((Some(pre), None))
        } else {
            let b = sub_chars(&u, k + 1, u.len());
            assert(b@ =~= u@.skip(k + 1));
            if all_ident_chars_exec(&b) && !(nonempty && b.len() == 0) {
                Some((Some(pre), Some(b)))
            } else {
                None
            }
        }
    } else if t[0] == '+' {
        let b = sub_chars(t, 1, t.len());
        assert(b@ =~= t@.drop_first());
        if all_ident_chars_exec(&b) && !(nonempty && b.len() == 0) {
            Some((None, Some(b)))
        } else {
            None
        }
    } else {
        None
    }
}

pub(crate) fn version_pieces_exec(s: &Vec<char>, partial: bool) -> (res: Option<Pieces>)
    ensures
        match version_pieces(s@, partial) {
            Some(p) => res matches Some(q) && pieces_view(q) == p,
            None => res is None,
        },
{
    let a = digit_run_at(s, 0);
    assert(s@.skip(0) =~= s@);
    if a == 0 {
        return None;
    }
    let major = sub_chars(s, 0, a);
    let r1 = sub_chars(s, a, s.len());
    assert(major@ =~= s@.take(a as int));
    assert(r1@ =~= s@.skip(a as int));
    let (minor, r2) = match dotted_number_exec(&r1) {
        Some((d, rest)) => (Some(d), rest),
        None => (None, r1),
    };
    let (patch, r3) = if minor.is_some() {
        match dotted_number_exec(&r2) {
            Some((d, rest)) => (Some(d), rest),
            None => (None, r2),
        }
    } else {
        (None, r2)
    };
    if !partial && (minor.is_none() || patch.is_none()) {
        return None;
    }
    match version_tail_exec(&r3, !partial) {
        Some((pre, build)) => Some(Pieces { major, minor, patch, prerelease: pre, build }),
        None => None,
    }
}

fn opt_leading_zero_exec(o: &Option<Vec<char>>) -> (r: bool)
    ensures
        r == opt_has_leading_zero(opt_chars(*o)),
{
    match o {
        Some(v) => has_leading_zero_exec(v),
        None => false,
    }
}

/// Reads an optional all-digit piece: `Ok(None)` when absent, `Err(())` when too big.
fn opt_number_exec(o: &Option<Vec<char>>) -> (r: Result<Option<u64>, ()>)
    requires
        match opt_chars(*o) {
            Some(t) => crate::text::all_digits(t),
            None => true,
        },
    ensures
        r is Err <==> opt_too_big(opt_chars(*o)),
        r matches Ok(n) ==> n == opt_number(opt_chars(*o)),
{
    match o {
        Some(v) => match parse_u64(v) {
            Some(n) => Ok(Some(n)),
            None => Err(()),
        },
        None => Ok(None),
    }
}

pub proof fn lemma_pieces_digits(s: Seq<char>, partial: bool)
    requires
        version_pieces(s, partial) is Some,
    ensures
        ({
            let p = version_pieces(s, partial)->0;
            &&& crate::text::all_digits(p.major)
            &&& p.major.len() > 0
            &&& (p.minor matches Some(m) ==> crate::text::all_digits(m) && m.len() > 0)
            &&& (p.patch matches Some(m) ==> crate::text::all_digits(m) && m.len() > 0)
        }),
{
    lemma_digit_run(s);
    let a = digit_run(s) as int;
    let r1 = s.skip(a);
    if r1.len() > 0 && r1[0] == '.' {
        lemma_digit_run(r1.drop_first());
    }
    match dotted_number(r1) {
        Some((d, r2)) => {
            if r2.len() > 0 && r2[0] == '.' {
                lemma_digit_run(r2.drop_first());
            }
        },
        None => {},
    }
}

/// No prerelease identifiers.
pub fn no_pre() -> (r: Vec<PreReleaseIdent>)
    ensures
        pre_views(r@) == Seq::<PreIdentView>::empty(),
        r@.len() == 0,
{
    let r: Vec<PreReleaseIdent> = Vec::new();
    assert(pre_views(r@) =~= Seq::<PreIdentView>::empty());
    r
}

/// No build identifiers.
pub fn no_build() -> (r: Vec<BuildIdent>)
    ensures
        build_views(r@) == Seq::<BuildIdentView>::empty(),
        r@.len() == 0,
{
    let r: Vec<BuildIdent> = Vec::new();
    assert(build_views(r@) =~= Seq::<BuildIdentView>::empty());
    r
}

/// The prerelease identifiers of a non-empty prerelease text, or the
/// version error naming the refused identifier.
fn parse_prerelease_identifiers_errmapped(p: &Vec<char>) -> (r: Result<Vec<PreReleaseIdent>, SemverError>)
    requires
        p@.len() > 0,
    ensures
        version_result_pre(r) == prerelease_component(Some(p@), None, false),
{
    match parse_prerelease_chars(p) {
        PreParse::Parsed(ids) => Ok(ids),
        PreParse::Empty => Err(SemverError::empty_identifier(p)),
        PreParse::LeadingZero(x) => Err(SemverError::leading_zero_identifier(&x)),
    }
}

/// The build identifiers of a non-empty build text; an invalid-version error
/// on the whole input `full_input` when one is empty.
fn parse_build_identifiers_errmapped(b: &Vec<char>, full_input: &Vec<char>) -> (r: Result<Vec<BuildIdent>, SemverError>)
    requires
        b@.len() > 0,
    ensures
        match spec_build(b@) {
            Some(ids) => r matches Ok(v) && build_views(v@) == ids,
            None => r matches Err(e) && e@ == ErrorView::InvalidVersion(msg_invalid_version(full_input@)),
        },
{
    match parse_build_chars(b) {
        Some(ids) => Ok(ids),
        None => Err(SemverError::invalid_version(full_input)),
    }
}

pub open spec fn version_result_pre(r: Result<Vec<PreReleaseIdent>, SemverError>) -> Result<Option<Seq<PreIdentView>>, ErrorView> {
    match r {
        Ok(v) => Ok(Some(pre_views(v@))),
        Err(e) => Err(e@),
    }
}

impl Version {
    /// Parse a version string given as characters, full or partial.
    pub fn parse_chars(s: &Vec<char>, partial: bool) -> (r: Result<Self, SemverError>)
        ensures
            version_result_view(r) == spec_parse_version(s@, partial),
    {
        if s.len() == 0 {
            return Err(SemverError::empty_version(s));
        }
        let pieces = match version_pieces_exec(s, partial) {
            Some(p) => p,
            None => {
                return Err(SemverError::invalid_version(s));
            },
        };
        proof {
            lemma_pieces_digits(s@, partial);
        }
        if has_leading_zero_exec(&pieces.major) {
            return Err(SemverError::leading_zero_major(s));
        }
        if opt_leading_zero_exec(&pieces.minor) {
            return Err(SemverError::leading_zero_minor(s));
        }
        if opt_leading_zero_exec(&pieces.patch) {
            return Err(SemverError::leading_zero_patch(s));
        }
        let major = match parse_u64(&pieces.major) {
            Some(n) => n,
            None => {
                return Err(SemverError::invalid_version(s));
            },
        };
        let minor = match opt_number_exec(&pieces.minor) {
            Ok(n) => n,
            Err(_) => {
                return Err(SemverError::invalid_version(s));
            },
        };
        let patch = match opt_number_exec(&pieces.patch) {
            Ok(n) => n,
            Err(_) => {
                return Err(SemverError::invalid_version(s));
            },
        };
        let prerelease: Option<Vec<PreReleaseIdent>> = match &pieces.prerelease {
            None => {
                if partial && pieces.build.is_none() {
                    None
                } else {
                    Some(no_pre())
                }
            },
            Some(p) => {
                if p.len() == 0 {
                    Some(no_pre())
                } else {
                    match parse_prerelease_identifiers_errmapped(p) {
                        Ok(ids) => Some(ids),
                        Err(e) => {
                            return Err(e);
                        },
                    }
                }
            },
        };
        let build: Option<Vec<BuildIdent>> = match &pieces.build {
            None => {
                if partial {
                    None
                } else {
                    Some(no_build())
                }
            },
            Some(b) => {
                if b.len() == 0 {
                    Some(no_build())
                } else {
                    match parse_build_identifiers_errmapped(b, s) {
                        Ok(ids) => Some(ids),
                        Err(e) => {
                            return Err(e);
                        },
                    }
                }
            },
        };
        Ok(Version { major, minor, patch, prerelease, build, partial })
    }

    /// Parse a standard (full) version string.
    pub fn parse(s: &str) -> (r: Result<Self, SemverError>)
        ensures
            version_result_view(r) == spec_parse_version(s@, false),
    {
        let v = chars_of(s);
        Self::parse_chars(&v, false)
    }

    /// Parse a partial version string (`1`, `1.2`, `1.2-`, ... are accepted).
    pub fn parse_partial(s: &str) -> (r: Result<Self, SemverError>)
        ensures
            version_result_view(r) == spec_parse_version(s@, true),
    {
        let v = chars_of(s);
        Self::parse_chars(&v, true)
    }
}


// ---------------------------------------------------------------------------
// Rendering
// ---------------------------------------------------------------------------

/// `.n` for a present component, nothing otherwise.
pub open spec fn component_text(c: Option<u64>) -> Seq<char> {
    match c {
        Some(n) => seq!['.'] + decimal(n as nat),
        None => Seq::empty(),
    }
}

/// The `-prerelease` part of the text of `v`.
pub open spec fn prerelease_suffix(v: VersionView) -> Seq<char> {
    if pre_or_empty(v).len() > 0 {
        seq!['-'] + join_with(pre_or_empty(v).map_values(|p: PreIdentView| pre_text(p)), '.')
    } else if v.partial && v.prerelease == Some(Seq::<PreIdentView>::empty()) && v.build is None {
        seq!['-']
    } else {
        Seq::empty()
    }
}

/// The `+build` part of the text of `v`.
pub open spec fn build_suffix(v: VersionView) -> Seq<char> {
    if build_or_empty(v).len() > 0 {
        seq!['+'] + join_with(build_or_empty(v).map_values(|b: BuildIdentView| build_text(b)), '.')
    } else if v.partial && v.build == Some(Seq::<BuildIdentView>::empty()) {
        seq!['+']
    } else {
        Seq::empty()
    }
}

/// The text of a version: `MAJOR[.MINOR][.PATCH][-PRERELEASE][+BUILD]`.
pub open spec fn version_text(v: VersionView) -> Seq<char> {
    decimal(v.major as nat) + component_text(v.minor) + component_text(v.patch) + prerelease_suffix(v)
        + build_suffix(v)
}

fn push_component(out: &mut Vec<char>, c: Option<u64>)
    ensures
        final(out)@ == old(out)@ + component_text(c),
{
    match c {
        Some(n) => {
            out.push('.');
            let ghost mid = out@;
            push_decimal(out, n);
            assert(out@ =~= old(out)@ + component_text(c));
        },
        None => {
            assert(out@ =~= old(out)@ + component_text(c));
        },
    }
}

fn pre_texts(ids: &Vec<PreReleaseIdent>) -> (r: Vec<Vec<char>>)
    ensures
        texts_view(r@) == pre_views(ids@).map_values(|p: PreIdentView| pre_text(p)),
{
    let mut r: Vec<Vec<char>> = Vec::new();
    let mut i: usize = 0;
    while i < ids.len()
        invariant
            i <= ids.len(),
            texts_view(r@) == pre_views(ids@.take(i as int)).map_values(|p: PreIdentView| pre_text(p)),
        decreases ids.len() - i,
    {
        let x = ids[i].text();
        let ghost before = r@;
        r.push(x);
        proof {
            assert(r@ =~= before.push(x));
            assert(texts_view(r@) =~= texts_view(before).push(x@));
            assert(ids@.take(i + 1) =~= ids@.take(i as int).push(ids@[i as int]));
            assert(pre_views(ids@.take(i + 1)).map_values(|p: PreIdentView| pre_text(p)) =~= pre_views(ids@.take(i as int)).map_values(|p: PreIdentView| pre_text(p)).push(pre_text(ids@[i as int]@)));
        }
        i = i + 1;
    }
    assert(ids@.take(ids.len() as int) =~= ids@);
    r
}

fn build_texts(ids: &Vec<BuildIdent>) -> (r: Vec<Vec<char>>)
    ensures
        texts_view(r@) == build_views(ids@).map_values(|b: BuildIdentView| build_text(b)),
{
    let mut r: Vec<Vec<char>> = Vec::new();
    let mut i: usize = 0;
    while i < ids.len()
        invariant
            i <= ids.len(),
            texts_view(r@) == build_views(ids@.take(i as int)).map_values(|b: BuildIdentView| build_text(b)),
        decreases ids.len() - i,
    {
        let x = chars_of(ids[i].as_str());
        let ghost before = r@;
        r.push(x);
        proof {
            assert(r@ =~= before.push(x));
            assert(texts_view(r@) =~= texts_view(before).push(x@));
            assert(ids@.take(i + 1) =~= ids@.take(i as int).push(ids@[i as int]));
            assert(build_views(ids@.take(i + 1)).map_values(|b: BuildIdentView| build_text(b)) =~= build_views(ids@.take(i as int)).map_values(|b: BuildIdentView| build_text(b)).push(build_text(ids@[i as int]@)));
        }
        i = i + 1;
    }
    assert(ids@.take(ids.len() as int) =~= ids@);
    r
}

impl Version {
    /// The characters of the text of this version.
    pub fn text(&self) -> (r: Vec<char>)
        ensures
            r@ == version_text(self@),
    {
        let mut out: Vec<char> = Vec::new();
        push_decimal(&mut out, self.major);
        push_component(&mut out, self.minor);
        push_component(&mut out, self.patch);
        let ghost after_numbers = out@;
        let pre_len: usize = match &self.prerelease {
            Some(p) => p.len(),
            None => 0,
        };
        if pre_len > 0 {
            match &self.prerelease {
                Some(p) => {
                    out.push('-');
                    let texts = pre_texts(p);
                    push_joined(&mut out, &texts, '.');
                },
                None => {},
            }
        } else if self.partial && self.prerelease.is_some() && self.build.is_none() {
            out.push('-');
        }
        proof {
            let v = self@;
            assert(pre_or_empty(v).len() == pre_len);
            if pre_len == 0 && self.prerelease.is_some() {
                assert(v.prerelease == Some(Seq::<PreIdentView>::empty()));
            }
            assert(out@ =~= after_numbers + prerelease_suffix(v));
        }
        let ghost after_pre = out@;
        let build_len: usize = match &self.build {
            Some(b) => b.len(),
            None => 0,
        };
        if build_len > 0 {
            match &self.build {
                Some(b) => {
                    out.push('+');
                    let texts = build_texts(b);
                    push_joined(&mut out, &texts, '.');
                },
                None => {},
            }
        } else if self.partial && self.build.is_some() {
            out.push('+');
        }
        proof {
            let v = self@;
            assert(build_or_empty(v).len() == build_len);
            if build_len == 0 && self.build.is_some() {
                assert(v.build == Some(Seq::<BuildIdentView>::empty()));
            }
            assert(out@ =~= after_pre + build_suffix(v));
            assert(out@ =~= version_text(v));
        }
        out
    }

    /// The text of this version, e.g. `1.2.3-rc.1+build.5`.
    pub fn to_string(&self) -> (r: String)
        ensures
            r@ == version_text(self@),
    {
        string_of(&self.text())
    }

    /// A copy of this version.
    pub fn duplicate(&self) -> (r: Self)
        ensures
            r@ == self@,
    {
        let prerelease = match &self.prerelease {
            Some(p) => Some(duplicate_pre_list(p)),
            None => None,
        };
        let build = match &self.build {
            Some(b) => Some(duplicate_build_list(b)),
            None => None,
        };
        Version {
            major: self.major,
            minor: self.minor,
            patch: self.patch,
            prerelease,
            build,
            partial: self.partial,
        }
    }

    /// Equality including build metadata; a missing prerelease or build list
    /// equals an empty one.
    pub fn equals(&self, other: &Self) -> (r: bool)
        ensures
            r == version_eq(self@, other@),
    {
        if self.major != other.major || self.minor != other.minor || self.patch != other.patch {
            return false;
        }
        let e = no_pre();
        let pa = match &self.prerelease {
            Some(p) => p,
            None => &e,
        };
        let pb = match &other.prerelease {
            Some(p) => p,
            None => &e,
        };
        if !pre_list_equal(pa, pb) {
            return false;
        }
        let f = no_build();
        let ba = match &self.build {
            Some(b) => b,
            None => &f,
        };
        let bb = match &other.build {
            Some(b) => b,
            None => &f,
        };
        build_list_equal(ba, bb)
    }
}

impl PartialEq for Version {
    fn eq(&self, other: &Self) -> (r: bool) {
        self.equals(other)
    }
}

impl Eq for Version {
}

impl vstd::std_specs::cmp::PartialEqSpecImpl for Version {
    open spec fn obeys_eq_spec() -> bool {
        true
    }

    open spec fn eq_spec(&self, other: &Self) -> bool {
        version_eq(self@, other@)
    }
}

// ---------------------------------------------------------------------------
// Precedence
// ---------------------------------------------------------------------------

/// The key by which versions are ordered (build metadata excluded).
/// A version without prerelease gets `[Max]` so that it sorts after its prereleases.
#[derive(Debug, Clone, PartialEq, Eq, PartialOrd, Ord)]
pub struct PrecedenceKey {
    pub major: u64,
    pub minor: u64,
    pub patch: u64,
    pub prerelease: Vec<PreReleaseIdent>,
}

/// The key used for a stable sort (build metadata included).
#[derive(Debug, Clone, PartialEq, Eq)]
pub struct SortKey {
    pub major: u64,
    pub minor: u64,
    pub patch: u64,
    pub prerelease: Vec<PreReleaseIdent>,
    pub build: Vec<BuildIdent>,
}

pub struct PrecedenceKeyView {
    pub major: u64,
    pub minor: u64,
    pub patch: u64,
    pub prerelease: Seq<PreIdentView>,
}

pub struct SortKeyView {
    pub major: u64,
    pub minor: u64,
    pub patch: u64,
    pub prerelease: Seq<PreIdentView>,
    pub build: Seq<BuildIdentView>,
}

impl View for PrecedenceKey {
    type V = PrecedenceKeyView;

    open spec fn view(&self) -> PrecedenceKeyView {
        PrecedenceKeyView {
            major: self.major,
            minor: self.minor,
            patch: self.patch,
            prerelease: pre_views(self.prerelease@),
        }
    }
}

impl View for SortKey {
    type V = SortKeyView;

    open spec fn view(&self) -> SortKeyView {
        SortKeyView {
            major: self.major,
            minor: self.minor,
            patch: self.patch,
            prerelease: pre_views(self.prerelease@),
            build: build_views(self.build@),
        }
    }
}

pub open spec fn unwrap_or_zero(c: Option<u64>) -> u64 {
    match c {
        Some(n) => n,
        None => 0,
    }
}

/// The prerelease part of a key: the identifiers, or `[Max]` when there are none.
pub open spec fn key_prerelease(v: VersionView) -> Seq<PreIdentView> {
    if pre_or_empty(v).len() > 0 {
        pre_or_empty(v)
    } else {
        seq![PreIdentView::Max]
    }
}

pub open spec fn precedence_key(v: VersionView) -> PrecedenceKeyView {
    PrecedenceKeyView {
        major: v.major,
        minor: unwrap_or_zero(v.minor),
        patch: unwrap_or_zero(v.patch),
        prerelease: key_prerelease(v),
    }
}

pub open spec fn sort_key(v: VersionView) -> SortKeyView {
    SortKeyView {
        major: v.major,
        minor: unwrap_or_zero(v.minor),
        patch: unwrap_or_zero(v.patch),
        prerelease: key_prerelease(v),
        build: build_or_empty(v),
    }
}

/// Lexicographic order of precedence keys: -1, 0 or 1.
pub open spec fn key_order(a: PrecedenceKeyView, b: PrecedenceKeyView) -> int {
    if a.major != b.major {
        num_order(a.major as int, b.major as int)
    } else if a.minor != b.minor {
        num_order(a.minor as int, b.minor as int)
    } else if a.patch != b.patch {
        num_order(a.patch as int, b.patch as int)
    } else {
        pre_list_order(a.prerelease, b.prerelease)
    }
}

/// Lexicographic order of sort keys: -1, 0 or 1.
pub open spec fn sort_key_order(a: SortKeyView, b: SortKeyView) -> int {
    let ka = PrecedenceKeyView { major: a.major, minor: a.minor, patch: a.patch, prerelease: a.prerelease };
    let kb = PrecedenceKeyView { major: b.major, minor: b.minor, patch: b.patch, prerelease: b.prerelease };
    if key_order(ka, kb) != 0 {
        key_order(ka, kb)
    } else {
        build_list_order(a.build, b.build)
    }
}

/// SemVer precedence of `a` against `b`: -1, 0 or 1 (build metadata ignored).
pub open spec fn precedence_order(a: VersionView, b: VersionView) -> int {
    key_order(precedence_key(a), precedence_key(b))
}

fn order_u64(a: u64, b: u64) -> (r: i8)
    ensures
        r == num_order(a as int, b as int),
{
    if a < b {
        -1
    } else if a == b {
        0
    } else {
        1
    }
}

impl PrecedenceKey {
    /// Three-way comparison (-1, 0, 1) of precedence keys.
    pub fn compare_to(&self, other: &Self) -> (r: i8)
        ensures
            r == key_order(self@, other@),
    {
        if self.major != other.major {
            order_u64(self.major, other.major)
        } else if self.minor != other.minor {
            order_u64(self.minor, other.minor)
        } else if self.patch != other.patch {
            order_u64(self.patch, other.patch)
        } else {
            pre_list_compare(&self.prerelease, &other.prerelease)
        }
    }
}

impl SortKey {
    /// Three-way comparison (-1, 0, 1) of sort keys.
    pub fn compare_to(&self, other: &Self) -> (r: i8)
        ensures
            r == sort_key_order(self@, other@),
    {
        let c = if self.major != other.major {
            order_u64(self.major, other.major)
        } else if self.minor != other.minor {
            order_u64(self.minor, other.minor)
        } else if self.patch != other.patch {
            order_u64(self.patch, other.patch)
        } else {
            pre_list_compare(&self.prerelease, &other.prerelease)
        };
        if c != 0 {
            c
        } else {
            build_list_compare(&self.build, &other.build)
        }
    }
}

impl Version {
    fn key_prerelease_exec(&self) -> (r: Vec<PreReleaseIdent>)
        ensures
            pre_views(r@) == key_prerelease(self@),
    {
        match &self.prerelease {
            Some(p) => {
                if p.len() > 0 {
                    return duplicate_pre_list(p);
                }
            },
            None => {},
        }
        let mut r: Vec<PreReleaseIdent> = Vec::new();
        r.push(PreReleaseIdent::Max);
        assert(pre_views(r@) =~= seq![PreIdentView::Max]);
        r
    }

    fn precedence_key_of(&self) -> (r: PrecedenceKey)
        ensures
            r@ == precedence_key(self@),
    {
        let minor = match self.minor {
            Some(n) => n,
            None => 0,
        };
        let patch = match self.patch {
            Some(n) => n,
            None => 0,
        };
        PrecedenceKey { major: self.major, minor, patch, prerelease: self.key_prerelease_exec() }
    }

    /// The precedence key (build metadata excluded; `[Max]` when there is no prerelease).
    pub fn cmp_precedence_key(&self) -> (r: PrecedenceKey)
        ensures
            r@ == precedence_key(self@),
    {
        self.precedence_key_of()
    }

    /// The sort key (build metadata included).
    pub fn sort_precedence_key(&self) -> (r: SortKey)
        ensures
            r@ == sort_key(self@),
    {
        let k = self.precedence_key_of();
        let build = match &self.build {
            Some(b) => duplicate_build_list(b),
            None => no_build(),
        };
        SortKey { major: k.major, minor: k.minor, patch: k.patch, prerelease: k.prerelease, build }
    }

    /// SemVer precedence of `self` against `other`: -1, 0 or 1.
    pub fn precedence_compare(&self, other: &Self) -> (r: i8)
        ensures
            r == precedence_order(self@, other@),
    {
        let a = self.precedence_key_of();
        let b = other.precedence_key_of();
        a.compare_to(&b)
    }

    /// Strictly lower SemVer precedence than `other` (build metadata ignored).
    pub fn precedence_lt(&self, other: &Self) -> (r: bool)
        ensures
            r == (precedence_order(self@, other@) < 0),
    {
        self.precedence_compare(other) < 0
    }

    /// Lower or equal SemVer precedence.
    pub fn precedence_le(&self, other: &Self) -> (r: bool)
        ensures
            r == (precedence_order(self@, other@) <= 0),
    {
        self.precedence_compare(other) <= 0
    }

    /// Strictly higher SemVer precedence.
    pub fn precedence_gt(&self, other: &Self) -> (r: bool)
        ensures
            r == (precedence_order(self@, other@) > 0),
    {
        self.precedence_compare(other) > 0
    }

    /// Higher or equal SemVer precedence.
    pub fn precedence_ge(&self, other: &Self) -> (r: bool)
        ensures
            r == (precedence_order(self@, other@) >= 0),
    {
        self.precedence_compare(other) >= 0
    }
}

// ---------------------------------------------------------------------------
// Construction, bumping, truncation
// ---------------------------------------------------------------------------

/// `n + 1`, or `n` itself at `u64::MAX`.
pub open spec fn saturating_inc(n: u64) -> u64 {
    if n == u64::MAX {
        n
    } else {
        (n + 1) as u64
    }
}

/// The full version `major.minor.patch` without prerelease or build metadata.
pub open spec fn release(major: u64, minor: u64, patch: u64) -> VersionView {
    VersionView {
        major,
        minor: Some(minor),
        patch: Some(patch),
        prerelease: Some(Seq::empty()),
        build: Some(Seq::empty()),
        partial: false,
    }
}

pub open spec fn spec_next_major(v: VersionView) -> VersionView {
    if pre_or_empty(v).len() > 0 && unwrap_or_zero(v.minor) == 0 && unwrap_or_zero(v.patch) == 0 {
        release(v.major, 0, 0)
    } else {
        release(saturating_inc(v.major), 0, 0)
    }
}

pub open spec fn spec_next_minor(v: VersionView) -> VersionView {
    if pre_or_empty(v).len() > 0 && unwrap_or_zero(v.patch) == 0 {
        release(v.major, unwrap_or_zero(v.minor), 0)
    } else {
        release(v.major, saturating_inc(unwrap_or_zero(v.minor)), 0)
    }
}

pub open spec fn spec_next_patch(v: VersionView) -> VersionView {
    if pre_or_empty(v).len() > 0 {
        release(v.major, unwrap_or_zero(v.minor), unwrap_or_zero(v.patch))
    } else {
        release(v.major, unwrap_or_zero(v.minor), saturating_inc(unwrap_or_zero(v.patch)))
    }
}

/// `v` without build metadata (unspecified for partial versions).
pub open spec fn spec_truncate_to_prerelease(v: VersionView) -> VersionView {
    VersionView {
        build: if v.partial {
            None
        } else {
            Some(Seq::empty())
        },
        ..v
    }
}

/// `v` without prerelease and build metadata (unspecified for partial versions).
pub open spec fn spec_truncate_to_patch(v: VersionView) -> VersionView {
    VersionView {
        prerelease: if v.partial {
            None
        } else {
            Some(Seq::empty())
        },
        build: if v.partial {
            None
        } else {
            Some(Seq::empty())
        },
        ..v
    }
}

pub(crate) fn saturating_inc_exec(n: u64) -> (r: u64)
    ensures
        r == saturating_inc(n),
{
    n.saturating_add(1)
}

impl Version {
    /// A full version from its components; missing lists mean "none".
    pub fn from_parts(
        major: u64,
        minor: u64,
        patch: u64,
        prerelease: Option<Vec<PreReleaseIdent>>,
        build: Option<Vec<BuildIdent>>,
    ) -> (r: Self)
        ensures
            r@ == (VersionView {
                major,
                minor: Some(minor),
                patch: Some(patch),
                prerelease: Some(
                    match prerelease {
                        Some(p) => pre_views(p@),
                        None => Seq::empty(),
                    },
                ),
                build: Some(
                    match build {
                        Some(b) => build_views(b@),
                        None => Seq::empty(),
                    },
                ),
                partial: false,
            }),
    {
        let p = match prerelease {
            Some(p) => p,
            None => no_pre(),
        };
        let b = match build {
            Some(b) => b,
            None => no_build(),
        };
        Version { major, minor: Some(minor), patch: Some(patch), prerelease: Some(p), build: Some(b), partial: false }
    }

    pub(crate) fn release_exec(major: u64, minor: u64, patch: u64) -> (r: Self)
        ensures
            r@ == release(major, minor, patch),
    {
        Version {
            major,
            minor: Some(minor),
            patch: Some(patch),
            prerelease: Some(no_pre()),
            build: Some(no_build()),
            partial: false,
        }
    }

    fn has_prerelease(&self) -> (r: bool)
        ensures
            r == (pre_or_empty(self@).len() > 0),
    {
        match &self.prerelease {
            Some(p) => p.len() > 0,
            None => false,
        }
    }

    /// Returns `true` if `s` is a valid (full) SemVer version string.
    pub fn is_valid(s: &str) -> (r: bool)
        ensures
            r == (spec_parse_version(s@, false) is Ok),
    {
        Self::parse(s).is_ok()
    }

    /// The next major version: `1.2.3` gives `2.0.0`; a prerelease of a
    /// `X.0.0` release gives that release.
    pub fn next_major(&self) -> (r: Self)
        ensures
            r@ == spec_next_major(self@),
    {
        let minor = match self.minor {
            Some(n) => n,
            None => 0,
        };
        let patch = match self.patch {
            Some(n) => n,
            None => 0,
        };
        if self.has_prerelease() && minor == 0 && patch == 0 {
            Self::release_exec(self.major, 0, 0)
        } else {
            Self::release_exec(saturating_inc_exec(self.major), 0, 0)
        }
    }

    /// The next minor version: `1.2.3` gives `1.3.0`; a prerelease of a
    /// `X.Y.0` release gives that release.
    pub fn next_minor(&self) -> (r: Self)
        ensures
            r@ == spec_next_minor(self@),
    {
        let minor = match self.minor {
            Some(n) => n,
            None => 0,
        };
        let patch = match self.patch {
            Some(n) => n,
            None => 0,
        };
        if self.has_prerelease() && patch == 0 {
            Self::release_exec(self.major, minor, 0)
        } else {
            Self::release_exec(self.major, saturating_inc_exec(minor), 0)
        }
    }

    /// The next patch version: `1.2.3` gives `1.2.4`; a prerelease gives its release.
    pub fn next_patch(&self) -> (r: Self)
        ensures
            r@ == spec_next_patch(self@),
    {
        let minor = match self.minor {
            Some(n) => n,
            None => 0,
        };
        let patch = match self.patch {
            Some(n) => n,
            None => 0,
        };
        if self.has_prerelease() {
            Self::release_exec(self.major, minor, patch)
        } else {
            Self::release_exec(self.major, minor, saturating_inc_exec(patch))
        }
    }

    /// This version without build metadata.
    pub fn truncate_to_prerelease(&self) -> (r: Self)
        ensures
            r@ == spec_truncate_to_prerelease(self@),
    {
        let prerelease = match &self.prerelease {
            Some(p) => Some(duplicate_pre_list(p)),
            None => None,
        };
        Version {
            major: self.major,
            minor: self.minor,
            patch: self.patch,
            prerelease,
            build: if self.partial {
                None
            } else {
                Some(no_build())
            },
            partial: self.partial,
        }
    }

    /// This version without prerelease and build metadata.
    pub fn truncate_to_patch(&self) -> (r: Self)
        ensures
            r@ == spec_truncate_to_patch(self@),
    {
        Version {
            major: self.major,
            minor: self.minor,
            patch: self.patch,
            prerelease: if self.partial {
                None
            } else {
                Some(no_pre())
            },
            build: if self.partial {
                None
            } else {
                Some(no_build())
            },
            partial: self.partial,
        }
    }

    /// Same as `truncate_to_patch`.
    pub fn truncate(&self) -> (r: Self)
        ensures
            r@ == spec_truncate_to_patch(self@),
    {
        self.truncate_to_patch()
    }
}

/// Returns `true` if `s` is a valid SemVer version string.
pub fn validate(s: &str) -> (r: bool)
    ensures
        r == (spec_parse_version(s@, false) is Ok),
{
    Version::is_valid(s)
}

/// What `compare` answers for two parsed versions: their precedence order,
/// or `None` when they have the same precedence yet are not equal.
pub open spec fn compare_outcome(a: VersionView, b: VersionView) -> Option<i32> {
    if precedence_order(a, b) == 0 && !version_eq(a, b) {
        None
    } else {
        Some(precedence_order(a, b) as i32)
    }
}

/// Compare two version strings by SemVer precedence: `Some(-1)`, `Some(0)` or
/// `Some(1)`; `None` when they differ in build metadata only.
pub fn compare(v1: &str, v2: &str) -> (r: Result<Option<i32>, SemverError>)
    ensures
        match (spec_parse_version(v1@, false), spec_parse_version(v2@, false)) {
            (Err(e), _) => r matches Err(x) && x@ == e,
            (Ok(_), Err(e)) => r matches Err(x) && x@ == e,
            (Ok(a), Ok(b)) => r == Ok::<Option<i32>, SemverError>(compare_outcome(a, b)),
        },
{
    let a = match Version::parse(v1) {
        Ok(a) => a,
        Err(e) => {
            return Err(e);
        },
    };
    let b = match Version::parse(v2) {
        Ok(b) => b,
        Err(e) => {
            return Err(e);
        },
    };
    let c = a.precedence_compare(&b);
    proof {
        lemma_pre_list_order(precedence_key(a@).prerelease, precedence_key(b@).prerelease);
    }
    if c == 0 && !a.equals(&b) {
        return Ok(None);
    }
    let n: i32 = if c < 0 {
        -1
    } else if c == 0 {
        0
    } else {
        1
    };
    Ok(Some(n))
}

// ---------------------------------------------------------------------------
// Coercion
// ---------------------------------------------------------------------------

/// `.` followed by at least one decimal digit (of any script) at the start of
/// `r`: the digits and what follows.
pub open spec fn dotted_decimal(r: Seq<char>) -> Option<(Seq<char>, Seq<char>)> {
    if r.len() > 0 && r[0] == '.' && decimal_run(r.drop_first()) > 0 {
        let n = decimal_run(r.drop_first()) as int;
        Some((r.drop_first().take(n), r.drop_first().skip(n)))
    } else {
        None
    }
}

/// The leading numbers of `s` (one to three, dot-separated), as the pattern
/// `^\d+(\.\d+(\.\d+)?)?` with a Unicode-aware `\d` finds them: a number
/// here is a run of decimal digits of any script (`is_decimal_digit`). Only
/// ASCII digits make a valid version afterwards; others make the parse of the
/// coerced text fail.
pub open spec fn coerce_numbers(s: Seq<char>) -> Seq<Seq<char>> {
    let a = decimal_run(s) as int;
    if a == 0 {
        Seq::empty()
    } else {
        match dotted_decimal(s.skip(a)) {
            None => seq![s.take(a)],
            Some((d, r)) => match dotted_decimal(r) {
                None => seq![s.take(a), d],
                Some((d2, _)) => seq![s.take(a), d, d2],
            },
        }
    }
}

/// Length of the text the leading numbers take.
pub open spec fn coerce_numbers_len(nums: Seq<Seq<char>>) -> int {
    if nums.len() == 0 {
        0
    } else if nums.len() == 1 {
        nums[0].len() as int
    } else if nums.len() == 2 {
        (nums[0].len() + 1 + nums[1].len()) as int
    } else {
        (nums[0].len() + 1 + nums[1].len() + 1 + nums[2].len()) as int
    }
}

/// A digit string without its leading zeros (`"0"` when nothing else is left).
pub open spec fn strip_zeros(s: Seq<char>) -> Seq<char> {
    if zero_run(s) >= s.len() {
        seq!['0']
    } else {
        s.skip(zero_run(s) as int)
    }
}

/// The numbers padded with `0` up to three of them.
pub open spec fn pad_numbers(nums: Seq<Seq<char>>) -> Seq<Seq<char>> {
    if nums.len() == 1 {
        nums + seq![seq!['0'], seq!['0']]
    } else if nums.len() == 2 {
        nums + seq![seq!['0']]
    } else {
        nums
    }
}

/// Characters outside `[0-9a-zA-Z+.-]` become `-`.
pub open spec fn sanitize(c: char) -> char {
    if crate::text::is_alnum(c) || c == '+' || c == '.' || c == '-' {
        c
    } else {
        '-'
    }
}

/// `+` becomes `.`.
pub open spec fn plus_to_dot(c: char) -> char {
    if c == '+' {
        '.'
    } else {
        c
    }
}

/// How the text after the numbers splits into a prerelease and a build part.
pub open spec fn coerce_rest_split(rest: Seq<char>) -> (Seq<char>, Seq<char>) {
    if rest[0] == '+' || rest[0] == '.' {
        (Seq::empty(), rest.drop_first())
    } else if rest[0] == '-' {
        let inner = rest.drop_first();
        let k = index_of_char(inner, '+') as int;
        if k < inner.len() {
            (inner.take(k), inner.skip(k + 1))
        } else {
            (inner, Seq::empty())
        }
    } else {
        let k = index_of_char(rest, '+') as int;
        if k < rest.len() {
            (rest.take(k), rest.skip(k + 1))
        } else {
            (rest, Seq::empty())
        }
    }
}

/// The version text `coerce` builds out of `s` before parsing it.
pub open spec fn coerce_text(s: Seq<char>, partial: bool) -> Seq<char> {
    let nums = coerce_numbers(s);
    let padded = if partial {
        nums
    } else {
        pad_numbers(nums)
    };
    let base = join_with(padded.map_values(|p: Seq<char>| strip_zeros(p)), '.');
    let a = coerce_numbers_len(nums);
    if a >= s.len() {
        base
    } else {
        let rest = s.skip(a).map_values(|c: char| sanitize(c));
        let (pre, build0) = coerce_rest_split(rest);
        let build = build0.map_values(|c: char| plus_to_dot(c));
        let with_pre = if pre.len() > 0 {
            base + seq!['-'] + pre
        } else {
            base
        };
        if build.len() > 0 {
            with_pre + seq!['+'] + build
        } else {
            with_pre
        }
    }
}

/// What `coerce` gives for `s`.
pub open spec fn spec_coerce(s: Seq<char>, partial: bool) -> Result<VersionView, ErrorView> {
    if coerce_numbers(s).len() == 0 {
        Err(ErrorView::InvalidCoerce(msg_invalid_coerce(s)))
    } else {
        spec_parse_version(coerce_text(s, partial), partial)
    }
}

fn strip_zeros_exec(s: &Vec<char>) -> (r: Vec<char>)
    ensures
        r@ == strip_zeros(s@),
{
    let mut i: usize = 0;
    assert(s@.skip(0) =~= s@);
    while i < s.len() && s[i] == '0'
        invariant
            i <= s.len(),
            zero_run(s@) == i + zero_run(s@.skip(i as int)),
        decreases s.len() - i,
    {
        assert(s@.skip(i as int).drop_first() =~= s@.skip(i + 1));
        i = i + 1;
    }
    assert(zero_run(s@.skip(i as int)) == 0);
    if i >= s.len() {
        let mut r = Vec::new();
        r.push('0');
        assert(r@ =~= seq!['0']);
        r
    } else {
        sub_chars(s, i, s.len())
    }
}

proof fn lemma_dotted_decimal(r: Seq<char>)
    ensures
        dotted_decimal(r) matches Some((d, rest)) ==> r.len() == 1 + d.len() + rest.len()
            && d.len() > 0,
{
    if r.len() > 0 && r[0] == '.' {
        lemma_decimal_run(r.drop_first());
    }
}

fn dotted_decimal_exec(r: &Vec<char>) -> (res: Option<(Vec<char>, Vec<char>)>)
    ensures
        match dotted_decimal(r@) {
            Some((d, rest)) => res matches Some((dv, rv)) && dv@ == d && rv@ == rest,
            None => res is None,
        },
{
    if r.len() > 0 && r[0] == '.' {
        let n = decimal_run_at(r, 1);
        assert(r@.skip(1) =~= r@.drop_first());
        if n > 0 {
            let d = sub_chars(r, 1, 1 + n);
            let rest = sub_chars(r, 1 + n, r.len());
            assert(d@ =~= r@.drop_first().take(n as int));
            assert(rest@ =~= r@.drop_first().skip(n as int));
            Some((d, rest))
        } else {
            None
        }
    } else {
        None
    }
}

fn coerce_numbers_exec(s: &Vec<char>) -> (r: Vec<Vec<char>>)
    ensures
        texts_view(r@) == coerce_numbers(s@),
        coerce_numbers_len(coerce_numbers(s@)) <= s.len(),
        r@.len() <= 3,
{
    let mut r: Vec<Vec<char>> = Vec::new();
    let a = decimal_run_at(s, 0);
    assert(s@.skip(0) =~= s@);
    if a == 0 {
        assert(texts_view(r@) =~= Seq::<Seq<char>>::empty());
        return r;
    }
    let first = sub_chars(s, 0, a);
    assert(first@ =~= s@.take(a as int));
    let r1 = sub_chars(s, a, s.len());
    assert(r1@ =~= s@.skip(a as int));
    proof {
        lemma_dotted_decimal(r1@);
    }
    r.push(first);
    match dotted_decimal_exec(&r1) {
        None => {
            assert(texts_view(r@) =~= coerce_numbers(s@));
        },
        Some((d, rest)) => {
            r.push(d);
            proof {
                lemma_dotted_decimal(rest@);
            }
            match dotted_decimal_exec(&rest) {
                None => {
                    assert(texts_view(r@) =~= coerce_numbers(s@));
                },
                Some((d2, _)) => {
                    r.push(d2);
                    assert(texts_view(r@) =~= coerce_numbers(s@));
                },
            }
        },
    }
    r
}

/// The numbers, padded (unless `partial`) and without leading zeros, joined with dots.
fn coerce_base(nums: &Vec<Vec<char>>, partial: bool) -> (r: Vec<char>)
    requires
        1 <= nums@.len() <= 3,
    ensures
        r@ == join_with(
            (if partial {
                texts_view(nums@)
            } else {
                pad_numbers(texts_view(nums@))
            }).map_values(|p: Seq<char>| strip_zeros(p)),
            '.',
        ),
{
    let mut stripped: Vec<Vec<char>> = Vec::new();
    let mut i: usize = 0;
    while i < nums.len()
        invariant
            i <= nums.len(),
            texts_view(stripped@) == texts_view(nums@.take(i as int)).map_values(
                |p: Seq<char>| strip_zeros(p),
            ),
        decreases nums.len() - i,
    {
        let z = strip_zeros_exec(&nums[i]);
        let ghost before = stripped@;
        stripped.push(z);
        proof {
            assert(stripped@ =~= before.push(z));
            assert(texts_view(stripped@) =~= texts_view(before).push(z@));
            assert(nums@.take(i + 1) =~= nums@.take(i as int).push(nums@[i as int]));
            assert(texts_view(nums@.take(i + 1)) =~= texts_view(nums@.take(i as int)).push(
                nums@[i as int]@,
            ));
            assert(texts_view(nums@.take(i + 1)).map_values(|p: Seq<char>| strip_zeros(p))
                =~= texts_view(nums@.take(i as int)).map_values(|p: Seq<char>| strip_zeros(p)).push(
                strip_zeros(nums@[i as int]@),
            ));
        }
        i = i + 1;
    }
    assert(nums@.take(nums.len() as int) =~= nums@);
    if !partial {
        let ghost before = texts_view(stripped@);
        let n = nums.len();
        if n < 3 {
            let mut z: Vec<char> = Vec::new();
            z.push('0');
            let ghost b1 = stripped@;
            stripped.push(z);
            assert(stripped@ =~= b1.push(z));
            assert(texts_view(stripped@) =~= texts_view(b1).push(seq!['0']));
        }
        if n < 2 {
            let mut z: Vec<char> = Vec::new();
            z.push('0');
            let ghost b2 = stripped@;
            stripped.push(z);
            assert(stripped@ =~= b2.push(z));
            assert(texts_view(stripped@) =~= texts_view(b2).push(seq!['0']));
        }
        proof {
            assert(strip_zeros(seq!['0']) =~= seq!['0']) by {
                assert(seq!['0'].drop_first() =~= Seq::<char>::empty());
                assert(zero_run(Seq::<char>::empty()) == 0);
            }
            let nv = texts_view(nums@);
            if n == 3 {
                assert(pad_numbers(nv) == nv);
            } else if n == 2 {
                assert(pad_numbers(nv) =~= nv.push(seq!['0']));
            } else {
                assert(pad_numbers(nv) =~= nv.push(seq!['0']).push(seq!['0']));
            }
            assert(texts_view(stripped@) =~= pad_numbers(texts_view(nums@)).map_values(
                |p: Seq<char>| strip_zeros(p),
            ));
        }
    }
    let mut text: Vec<char> = Vec::new();
    push_joined(&mut text, &stripped, '.');
    assert(text@ =~= join_with(texts_view(stripped@), '.'));
    text
}

/// The characters of `v` from `a` on, each passed through `sanitize`.
fn sanitized_rest(v: &Vec<char>, a: usize) -> (r: Vec<char>)
    requires
        a <= v.len(),
    ensures
        r@ == v@.skip(a as int).map_values(|c: char| sanitize(c)),
{
    let mut rest: Vec<char> = Vec::new();
    let mut j: usize = a;
    while j < v.len()
        invariant
            a <= j <= v.len(),
            rest@ == v@.subrange(a as int, j as int).map_values(|c: char| sanitize(c)),
        decreases v.len() - j,
    {
        let c = v[j];
        let d = if is_alnum_char(c) || c == '+' || c == '.' || c == '-' {
            c
        } else {
            '-'
        };
        rest.push(d);
        j = j + 1;
        assert(rest@ =~= v@.subrange(a as int, j as int).map_values(|c: char| sanitize(c)));
    }
    assert(v@.subrange(a as int, v.len() as int) =~= v@.skip(a as int));
    rest
}

fn coerce_rest_split_exec(rest: &Vec<char>) -> (r: (Vec<char>, Vec<char>))
    requires
        rest.len() > 0,
    ensures
        r.0@ == coerce_rest_split(rest@).0,
        r.1@ == coerce_rest_split(rest@).1,
{
    if rest[0] == '+' || rest[0] == '.' {
        let b = sub_chars(rest, 1, rest.len());
        assert(b@ =~= rest@.drop_first());
        (Vec::new(), b)
    } else if rest[0] == '-' {
        let k = find_char(rest, 1, '+');
        assert(rest@.skip(1) =~= rest@.drop_first());
        if k < rest.len() {
            let p = sub_chars(rest, 1, k);
            let b = sub_chars(rest, k + 1, rest.len());
            assert(p@ =~= rest@.drop_first().take(k - 1));
            assert(b@ =~= rest@.drop_first().skip(k as int));
            (p, b)
        } else {
            let p = sub_chars(rest, 1, rest.len());
            assert(p@ =~= rest@.drop_first());
            (p, Vec::new())
        }
    } else {
        let k = find_char(rest, 0, '+');
        assert(rest@.skip(0) =~= rest@);
        if k < rest.len() {
            let p = sub_chars(rest, 0, k);
            let b = sub_chars(rest, k + 1, rest.len());
            assert(p@ =~= rest@.take(k as int));
            assert(b@ =~= rest@.skip(k + 1));
            (p, b)
        } else {
            let p = sub_chars(rest, 0, rest.len());
            assert(p@ =~= rest@);
            (p, Vec::new())
        }
    }
}

fn plus_to_dot_exec(b: &Vec<char>) -> (r: Vec<char>)
    ensures
        r@ == b@.map_values(|c: char| plus_to_dot(c)),
{
    let mut out: Vec<char> = Vec::new();
    let mut m: usize = 0;
    while m < b.len()
        invariant
            m <= b.len(),
            out@ == b@.take(m as int).map_values(|c: char| plus_to_dot(c)),
        decreases b.len() - m,
    {
        let c = b[m];
        out.push(if c == '+' { '.' } else { c });
        m = m + 1;
        assert(out@ =~= b@.take(m as int).map_values(|c: char| plus_to_dot(c)));
    }
    assert(b@.take(b.len() as int) =~= b@);
    out
}

fn coerce_text_exec(v: &Vec<char>, partial: bool) -> (r: Vec<char>)
    requires
        coerce_numbers(v@).len() > 0,
    ensures
        r@ == coerce_text(v@, partial),
{
    let nums = coerce_numbers_exec(v);
    let mut text = coerce_base(&nums, partial);
    let a: usize = if nums.len() == 1 {
        nums[0].len()
    } else if nums.len() == 2 {
        nums[0].len() + 1 + nums[1].len()
    } else {
        nums[0].len() + 1 + nums[1].len() + 1 + nums[2].len()
    };
    assert(a == coerce_numbers_len(coerce_numbers(v@)));
    if a >= v.len() {
        return text;
    }
    let rest = sanitized_rest(v, a);
    let (pre, build0) = coerce_rest_split_exec(&rest);
    let build = plus_to_dot_exec(&build0);
    let ghost base = text@;
    if pre.len() > 0 {
        text.push('-');
        append_chars(&mut text, &pre);
    }
    if build.len() > 0 {
        text.push('+');
        append_chars(&mut text, &build);
    }
    assert(text@ =~= coerce_text(v@, partial));
    text
}

impl Version {
    /// Coerce a loose version string (`"0.1"`, `"1.2.3.4"`, `"1.02-rc"`) into
    /// a valid one: missing numbers become `0` (unless `partial`), leading
    /// zeros go, and what follows the numbers becomes prerelease and build
    /// metadata.
    pub fn coerce(s: &str, partial: bool) -> (r: Result<Self, SemverError>)
        ensures
            version_result_view(r) == spec_coerce(s@, partial),
    {
        let v = chars_of(s);
        let nums = coerce_numbers_exec(&v);
        if nums.len() == 0 {
            return Err(SemverError::invalid_coerce(&v));
        }
        let text = coerce_text_exec(&v, partial);
        Self::parse_chars(&text, partial)
    }
}

} // verus!
