//! Prerelease and build-metadata identifiers.
//!
//! Prerelease identifiers order as SemVer §11.4 says: numeric ones by value,
//! alphanumeric ones by their ASCII bytes, numeric before alphanumeric, and
//! the `Max` sentinel (standing for "no prerelease") after every other one.

use vstd::prelude::*;

use crate::error::{debug_rendering, debug_string};
use crate::text::{
    all_digits, all_digits_exec, append_chars, chars_of, decimal, digit_value, digits_value,
    find_char, is_digit, zero_run,
    has_leading_zero, has_leading_zero_exec, parse_u64, lemma_split_last, lemma_split_step,
    push_decimal, split_on, string_of, sub_chars,
};

verus! {

/// A single dot-separated prerelease identifier.
#[derive(Debug, Clone, PartialEq, Eq, PartialOrd, Ord, Hash)]
pub enum PreReleaseIdent {
    /// An all-digit identifier, compared as a number.
    Numeric(u64),
    /// An all-digit identifier too large for a `u64`: its digits (without
    /// leading zeros) and how many there are. The count comes first so that
    /// the derived order is the order of the numbers.
    BigNumeric { len: usize, digits: String },
    /// Any other identifier, compared by its bytes.
    Alpha(String),
    /// Stands for "no prerelease" and sorts after every other identifier.
    Max,
}

/// The mathematical value of a `PreReleaseIdent`.
pub enum PreIdentView {
    Numeric(u64),
    BigNumeric(Seq<char>),
    Alpha(Seq<char>),
    Max,
}

impl View for PreReleaseIdent {
    type V = PreIdentView;

    open spec fn view(&self) -> PreIdentView {
        match self {
            PreReleaseIdent::Numeric(n) => PreIdentView::Numeric(*n),
            PreReleaseIdent::BigNumeric { digits, .. } => PreIdentView::BigNumeric(digits@),
            PreReleaseIdent::Alpha(s) => PreIdentView::Alpha(s@),
            PreReleaseIdent::Max => PreIdentView::Max,
        }
    }
}

/// A single dot-separated build-metadata identifier; the text is kept as written.
#[derive(Debug, Clone, PartialEq, Eq, Hash)]
pub enum BuildIdent {
    /// An all-digit identifier (leading zeros allowed).
    Numeric(String),
    /// Any other identifier.
    Alpha(String),
}

/// The mathematical value of a `BuildIdent`.
pub enum BuildIdentView {
    Numeric(Seq<char>),
    Alpha(Seq<char>),
}

impl View for BuildIdent {
    type V = BuildIdentView;

    open spec fn view(&self) -> BuildIdentView {
        match self {
            BuildIdent::Numeric(s) => BuildIdentView::Numeric(s@),
            BuildIdent::Alpha(s) => BuildIdentView::Alpha(s@),
        }
    }
}

/// The views of a sequence of prerelease identifiers.
pub open spec fn pre_views(s: Seq<PreReleaseIdent>) -> Seq<PreIdentView> {
    s.map_values(|x: PreReleaseIdent| x@)
}

/// The views of a sequence of build identifiers.
pub open spec fn build_views(s: Seq<BuildIdent>) -> Seq<BuildIdentView> {
    s.map_values(|x: BuildIdent| x@)
}

/// The text of a build identifier.
pub open spec fn build_text(b: BuildIdentView) -> Seq<char> {
    match b {
        BuildIdentView::Numeric(s) => s,
        BuildIdentView::Alpha(s) => s,
    }
}

/// The text a prerelease identifier is written as (`Max` is written as nothing).
pub open spec fn pre_text(p: PreIdentView) -> Seq<char> {
    match p {
        PreIdentView::Numeric(n) => decimal(n as nat),
        PreIdentView::BigNumeric(d) => d,
        PreIdentView::Alpha(s) => s,
        PreIdentView::Max => Seq::empty(),
    }
}

// ---------------------------------------------------------------------------
// Parsing
// ---------------------------------------------------------------------------

/// The build identifier that the text `s` stands for.
pub open spec fn build_ident_of(s: Seq<char>) -> BuildIdentView {
    if all_digits(s) {
        BuildIdentView::Numeric(s)
    } else {
        BuildIdentView::Alpha(s)
    }
}

/// The numeric identifier of an all-digit text: a `u64` when the number fits,
/// else its digits without leading zeros.
pub open spec fn numeric_ident(s: Seq<char>) -> PreIdentView {
    if digits_value(s) <= u64::MAX {
        PreIdentView::Numeric(digits_value(s) as u64)
    } else {
        PreIdentView::BigNumeric(drop_leading_zeros(s))
    }
}

/// The prerelease identifier that the (non-empty, valid) text `s` stands for:
/// numeric when it is all digits (whatever its size), alphanumeric otherwise.
pub open spec fn pre_ident_of(s: Seq<char>) -> PreIdentView {
    if all_digits(s) {
        numeric_ident(s)
    } else {
        PreIdentView::Alpha(s)
    }
}

/// The prerelease identifier of a part: numeric when it is non-empty and all
/// digits (whatever its size), alphanumeric otherwise.
pub open spec fn loose_pre_ident(s: Seq<char>) -> PreIdentView {
    if s.len() > 0 && all_digits(s) {
        numeric_ident(s)
    } else {
        PreIdentView::Alpha(s)
    }
}

/// The identifier `loose_pre_ident` gives for `part`.
pub fn loose_pre_ident_exec(part: &Vec<char>) -> (r: PreReleaseIdent)
    ensures
        r@ == loose_pre_ident(part@),
{
    if part.len() > 0 && all_digits_exec(part) {
        numeric_ident_exec(part)
    } else {
        PreReleaseIdent::Alpha(string_of(part))
    }
}

/// Why a prerelease text is refused.
pub enum PreIdentError {
    /// Two dots in a row, or a dot at either end.
    Empty,
    /// A numeric identifier written with a leading zero (the identifier).
    LeadingZero(Seq<char>),
}

/// The complaint about one prerelease identifier, if any.
pub open spec fn pre_part_error(part: Seq<char>) -> Option<PreIdentError> {
    if part.len() == 0 {
        Some(PreIdentError::Empty)
    } else if has_leading_zero(part) {
        Some(PreIdentError::LeadingZero(part))
    } else {
        None
    }
}

/// The identifiers of `parts`, or the complaint about the first bad one.
pub open spec fn pre_idents_of(parts: Seq<Seq<char>>) -> Result<Seq<PreIdentView>, PreIdentError>
    decreases parts.len(),
{
    if parts.len() == 0 {
        Ok(Seq::empty())
    } else {
        match pre_part_error(parts[0]) {
            Some(e) => Err(e),
            None => match pre_idents_of(parts.drop_first()) {
                Ok(rest) => Ok(seq![pre_ident_of(parts[0])] + rest),
                Err(e) => Err(e),
            },
        }
    }
}

/// The prerelease identifiers written as `s` (dot-separated; empty text gives none).
pub open spec fn spec_prerelease(s: Seq<char>) -> Result<Seq<PreIdentView>, PreIdentError> {
    if s.len() == 0 {
        Ok(Seq::empty())
    } else {
        pre_idents_of(split_on(s, '.'))
    }
}

/// The build identifiers written as `s`; `None` when one of them is empty.
pub open spec fn spec_build(s: Seq<char>) -> Option<Seq<BuildIdentView>> {
    if s.len() == 0 {
        Some(Seq::empty())
    } else if exists|i: int|
        0 <= i < split_on(s, '.').len() && #[trigger] split_on(s, '.')[i].len() == 0 {
        None
    } else {
        Some(split_on(s, '.').map_values(|p: Seq<char>| build_ident_of(p)))
    }
}

/// The message `parse_prerelease_identifiers` gives for a refused text.
pub open spec fn pre_error_message(s: Seq<char>, e: PreIdentError) -> Seq<char> {
    match e {
        PreIdentError::Empty => "Empty identifier in prerelease "@ + debug_rendering(s),
        PreIdentError::LeadingZero(part) => "Leading zero in prerelease identifier "@
            + debug_rendering(part),
    }
}

impl BuildIdent {
    /// Parse a single build identifier; leading zeros are allowed.
    pub fn parse(s: &str) -> (r: Self)
        ensures
            r@ == build_ident_of(s@),
    {
        let v = chars_of(s);
        let owned = String::from_str(s);
        if all_digits_exec(&v) {
            BuildIdent::Numeric(owned)
        } else {
            BuildIdent::Alpha(owned)
        }
    }

    /// The text of this identifier.
    pub fn as_str(&self) -> (r: &str)
        ensures
            r@ == build_text(self@),
    {
        match self {
            BuildIdent::Numeric(s) => s.as_str(),
            BuildIdent::Alpha(s) => s.as_str(),
        }
    }

    /// A copy of this identifier.
    pub fn duplicate(&self) -> (r: Self)
        ensures
            r@ == self@,
    {
        match self {
            BuildIdent::Numeric(s) => BuildIdent::Numeric(s.clone()),
            BuildIdent::Alpha(s) => BuildIdent::Alpha(s.clone()),
        }
    }
}

impl PreReleaseIdent {
    /// A copy of this identifier.
    pub fn duplicate(&self) -> (r: Self)
        ensures
            r@ == self@,
    {
        match self {
            PreReleaseIdent::Numeric(n) => PreReleaseIdent::Numeric(*n),
            PreReleaseIdent::BigNumeric { len, digits } => PreReleaseIdent::BigNumeric {
                len: *len,
                digits: digits.clone(),
            },
            PreReleaseIdent::Alpha(s) => PreReleaseIdent::Alpha(s.clone()),
            PreReleaseIdent::Max => PreReleaseIdent::Max,
        }
    }

    /// The text this identifier is written as.
    pub fn text(&self) -> (r: Vec<char>)
        ensures
            r@ == pre_text(self@),
    {
        match self {
            PreReleaseIdent::Numeric(n) => {
                let mut v = Vec::new();
                push_decimal(&mut v, *n);
                assert(v@ =~= decimal(*n as nat));
                v
            },
            PreReleaseIdent::BigNumeric { digits, .. } => chars_of(digits.as_str()),
            PreReleaseIdent::Alpha(s) => chars_of(s.as_str()),
            PreReleaseIdent::Max => Vec::new(),
        }
    }
}

/// The numeric identifier of an all-digit text.
fn numeric_ident_exec(part: &Vec<char>) -> (r: PreReleaseIdent)
    requires
        all_digits(part@),
    ensures
        r@ == numeric_ident(part@),
{
    match parse_u64(part) {
        Some(n) => PreReleaseIdent::Numeric(n),
        None => {
            let d = drop_leading_zeros_exec(part);
            PreReleaseIdent::BigNumeric { len: d.len(), digits: string_of(&d) }
        },
    }
}

/// The identifier for one valid, non-empty prerelease text.
fn pre_ident_from(part: &Vec<char>) -> (r: PreReleaseIdent)
    ensures
        r@ == pre_ident_of(part@),
{
    if all_digits_exec(part) {
        numeric_ident_exec(part)
    } else {
        PreReleaseIdent::Alpha(string_of(part))
    }
}

/// Classifies one prerelease text: `0` valid, `1` empty, `2` leading zero.
fn pre_part_check(part: &Vec<char>) -> (r: u8)
    ensures
        r == 0 <==> pre_part_error(part@) is None,
        r == 1 <==> pre_part_error(part@) == Some(PreIdentError::Empty),
        r == 2 <==> pre_part_error(part@) == Some(PreIdentError::LeadingZero(part@)),
{
    if part.len() == 0 {
        1
    } else if has_leading_zero_exec(part) {
        2
    } else {
        0
    }
}

/// The outcome of parsing prerelease text, with the refused identifier on failure.
pub enum PreParse {
    Parsed(Vec<PreReleaseIdent>),
    Empty,
    LeadingZero(Vec<char>),
}

pub open spec fn pre_parse_matches(r: PreParse, spec: Result<Seq<PreIdentView>, PreIdentError>) -> bool {
    match r {
        PreParse::Parsed(v) => spec == Ok::<Seq<PreIdentView>, PreIdentError>(pre_views(v@)),
        PreParse::Empty => spec == Err::<Seq<PreIdentView>, PreIdentError>(PreIdentError::Empty),
        PreParse::LeadingZero(p) => spec == Err::<Seq<PreIdentView>, PreIdentError>(
            PreIdentError::LeadingZero(p@),
        ),
    }
}

/// Parses dot-separated prerelease text (given as characters).
pub fn parse_prerelease_chars(s: &Vec<char>) -> (r: PreParse)
    ensures
        pre_parse_matches(r, spec_prerelease(s@)),
{
    let mut out: Vec<PreReleaseIdent> = Vec::new();
    if s.len() == 0 {
        assert(pre_views(out@) =~= Seq::<PreIdentView>::empty());
        return PreParse::Parsed(out);
    }
    let mut pos: usize = 0;
    assert(s@.skip(0) =~= s@);
    loop
        invariant
            pos <= s.len(),
            s.len() > 0,
            spec_prerelease(s@) == match pre_idents_of(split_on(s@.skip(pos as int), '.')) {
                Ok(rest) => Ok(pre_views(out@) + rest),
                Err(e) => Err(e),
            },
        decreases s.len() - pos,
    {
        let k = find_char(s, pos, '.');
        let part = sub_chars(s, pos, k);
        let ghost parts = split_on(s@.skip(pos as int), '.');
        proof {
            if k < s.len() {
                lemma_split_step(s@, pos as int, '.');
            } else {
                lemma_split_last(s@, pos as int, '.');
            }
            assert(parts[0] == part@);
        }
        let check = pre_part_check(&part);
        if check == 1 {
            return PreParse::Empty;
        }
        if check == 2 {
            return PreParse::LeadingZero(part);
        }
        let id = pre_ident_from(&part);
        let ghost old_views = pre_views(out@);
        out.push(id);
        proof {
            assert(pre_views(out@) =~= old_views.push(pre_ident_of(part@)));
        }
        if k == s.len() {
            proof {
                assert(parts.drop_first() =~= Seq::<Seq<char>>::empty());
                assert(pre_idents_of(parts.drop_first()) == Ok::<Seq<PreIdentView>, PreIdentError>(Seq::empty()));
                assert(pre_views(out@) =~= old_views + seq![pre_ident_of(part@)] + Seq::<PreIdentView>::empty());
            }
            return PreParse::Parsed(out);
        }
        proof {
            match pre_idents_of(parts.drop_first()) {
                Ok(rest) => {
                    assert(old_views + (seq![pre_ident_of(part@)] + rest) =~= pre_views(out@) + rest);
                },
                Err(e) => {},
            }
        }
        pos = k + 1;
    }
}

/// Parse a dot-separated prerelease string (e.g. `"rc1.3.14"`).
///
/// The empty string gives no identifiers. An empty identifier, or an all-digit
/// one with a leading zero, is refused with a message naming it.
pub fn parse_prerelease_identifiers(s: &str) -> (r: Result<Vec<PreReleaseIdent>, String>)
    ensures
        match spec_prerelease(s@) {
            Ok(ids) => r matches Ok(v) && pre_views(v@) == ids,
            Err(e) => r matches Err(m) && m@ == pre_error_message(s@, e),
        },
{
    let v = chars_of(s);
    match parse_prerelease_chars(&v) {
        PreParse::Parsed(ids) => Ok(ids),
        PreParse::Empty => {
            let mut m = chars_of("Empty identifier in prerelease ");
            let d = chars_of(debug_string(s).as_str());
            append_chars(&mut m, &d);
            Err(string_of(&m))
        },
        PreParse::LeadingZero(part) => {
            let part_str = string_of(&part);
            let mut m = chars_of("Leading zero in prerelease identifier ");
            let d = chars_of(debug_string(part_str.as_str()).as_str());
            append_chars(&mut m, &d);
            Err(string_of(&m))
        },
    }
}

/// Parses dot-separated build text (given as characters); `None` when an
/// identifier is empty.
pub fn parse_build_chars(s: &Vec<char>) -> (r: Option<Vec<BuildIdent>>)
    ensures
        match spec_build(s@) {
            Some(ids) => r matches Some(v) && build_views(v@) == ids,
            None => r is None,
        },
{
    let mut out: Vec<BuildIdent> = Vec::new();
    if s.len() == 0 {
        assert(build_views(out@) =~= Seq::<BuildIdentView>::empty());
        return Some(out);
    }
    let mut pos: usize = 0;
    let ghost all = split_on(s@, '.');
    assert(s@.skip(0) =~= s@);
    loop
        invariant
            pos <= s.len(),
            s.len() > 0,
            all == split_on(s@, '.'),
            out@.len() <= all.len(),
            all == all.take(out@.len() as int) + split_on(s@.skip(pos as int), '.'),
            forall|i: int| 0 <= i < out@.len() ==> all[i].len() > 0,
            build_views(out@) == all.take(out@.len() as int).map_values(
                |p: Seq<char>| build_ident_of(p),
            ),
        decreases s.len() - pos,
    {
        let k = find_char(s, pos, '.');
        let part = sub_chars(s, pos, k);
        let ghost parts = split_on(s@.skip(pos as int), '.');
        let ghost n = out@.len() as int;
        proof {
            if k < s.len() {
                lemma_split_step(s@, pos as int, '.');
            } else {
                lemma_split_last(s@, pos as int, '.');
            }
            assert(parts[0] == part@);
            assert(all[n] == parts[0]);
        }
        if part.len() == 0 {
            assert(all[n].len() == 0);
            return None;
        }
        let text = string_of(&part);
        let id = if all_digits_exec(&part) {
            BuildIdent::Numeric(text)
        } else {
            BuildIdent::Alpha(text)
        };
        let ghost old_views = build_views(out@);
        out.push(id);
        proof {
            assert(build_views(out@) =~= old_views.push(build_ident_of(part@)));
            assert(all.take(n + 1) =~= all.take(n).push(all[n]));
            assert(build_views(out@) =~= all.take(n + 1).map_values(
                |p: Seq<char>| build_ident_of(p),
            ));
        }
        if k == s.len() {
            proof {
                assert(parts.len() == 1);
                assert(all.len() == n + 1);
                assert(all.take(n + 1) =~= all);
                assert forall|i: int| 0 <= i < all.len() implies #[trigger] all[i].len() > 0 by {
                    if i < n {
                    } else {
                    }
                }
            }
            return Some(out);
        }
        proof {
            assert(all =~= all.take(n + 1) + split_on(s@.skip(k + 1), '.')) by {
                assert(parts =~= seq![parts[0]] + parts.drop_first());
            }
        }
        pos = k + 1;
    }
}

/// Parse a dot-separated build-metadata string; leading zeros are allowed.
pub fn parse_build_identifiers(s: &str) -> (r: Result<Vec<BuildIdent>, String>)
    ensures
        match spec_build(s@) {
            Some(ids) => r matches Ok(v) && build_views(v@) == ids,
            None => r matches Err(m) && m@ == "Empty identifier in build "@ + debug_rendering(s@),
        },
{
    let v = chars_of(s);
    match parse_build_chars(&v) {
        Some(ids) => Ok(ids),
        None => {
            let mut m = chars_of("Empty identifier in build ");
            let d = chars_of(debug_string(s).as_str());
            append_chars(&mut m, &d);
            Err(string_of(&m))
        },
    }
}


// ---------------------------------------------------------------------------
// Ordering
// ---------------------------------------------------------------------------

/// Sign of the comparison of two numbers: -1, 0 or 1.
pub open spec fn num_order(a: int, b: int) -> int {
    if a < b {
        -1
    } else if a == b {
        0
    } else {
        1
    }
}

/// Lexicographic comparison of two texts, character by character (for UTF-8
/// text this is also the order of their bytes).
pub open spec fn chars_order(a: Seq<char>, b: Seq<char>) -> int
    decreases a.len(),
{
    if a.len() == 0 {
        if b.len() == 0 {
            0
        } else {
            -1
        }
    } else if b.len() == 0 {
        1
    } else if a[0] != b[0] {
        num_order(a[0] as int, b[0] as int)
    } else {
        chars_order(a.drop_first(), b.drop_first())
    }
}

/// Comparison of two prerelease identifiers: numeric < alphanumeric < `Max`.
pub open spec fn pre_order(a: PreIdentView, b: PreIdentView) -> int {
    match (a, b) {
        (PreIdentView::Max, PreIdentView::Max) => 0,
        (PreIdentView::Max, _) => 1,
        (_, PreIdentView::Max) => -1,
        (PreIdentView::Numeric(x), PreIdentView::Numeric(y)) => num_order(x as int, y as int),
        (PreIdentView::Numeric(_), _) => -1,
        (PreIdentView::BigNumeric(_), PreIdentView::Numeric(_)) => 1,
        (PreIdentView::BigNumeric(x), PreIdentView::BigNumeric(y)) => digit_text_order(x, y),
        (PreIdentView::BigNumeric(_), PreIdentView::Alpha(_)) => -1,
        (PreIdentView::Alpha(x), PreIdentView::Alpha(y)) => chars_order(x, y),
        (PreIdentView::Alpha(_), _) => 1,
    }
}

/// Lexicographic comparison of two lists of prerelease identifiers; a list
/// that is a proper prefix of the other comes first.
pub open spec fn pre_list_order(a: Seq<PreIdentView>, b: Seq<PreIdentView>) -> int
    decreases a.len(),
{
    if a.len() == 0 {
        if b.len() == 0 {
            0
        } else {
            -1
        }
    } else if b.len() == 0 {
        1
    } else if pre_order(a[0], b[0]) != 0 {
        pre_order(a[0], b[0])
    } else {
        pre_list_order(a.drop_first(), b.drop_first())
    }
}

/// Comparison of two build identifiers: numeric ones by the number they
/// denote (see `lemma_numeric_text_order`), numeric before alphanumeric,
/// alphanumeric ones by text.
pub open spec fn build_order(a: BuildIdentView, b: BuildIdentView) -> int {
    match (a, b) {
        (BuildIdentView::Numeric(_), BuildIdentView::Alpha(_)) => -1,
        (BuildIdentView::Alpha(_), BuildIdentView::Numeric(_)) => 1,
        (BuildIdentView::Numeric(x), BuildIdentView::Numeric(y)) => numeric_text_order(x, y),
        (BuildIdentView::Alpha(x), BuildIdentView::Alpha(y)) => chars_order(x, y),
    }
}

/// Lexicographic comparison of two lists of build identifiers.
pub open spec fn build_list_order(a: Seq<BuildIdentView>, b: Seq<BuildIdentView>) -> int
    decreases a.len(),
{
    if a.len() == 0 {
        if b.len() == 0 {
            0
        } else {
            -1
        }
    } else if b.len() == 0 {
        1
    } else if build_order(a[0], b[0]) != 0 {
        build_order(a[0], b[0])
    } else {
        build_list_order(a.drop_first(), b.drop_first())
    }
}

fn order_u64(a: u64, b: u64) -> (r: i8)
    ensures
        r == num_order(a as int, b as int),
{
    if a < b {
        -1
    } else if a == b {
        0
    } else {
        1
    }
}

/// Lexicographic comparison of two character vectors.
pub fn chars_compare(a: &Vec<char>, b: &Vec<char>) -> (r: i8)
    ensures
        r == chars_order(a@, b@),
{
    let mut i: usize = 0;
    assert(a@.skip(0) =~= a@);
    assert(b@.skip(0) =~= b@);
    while i < a.len() && i < b.len() && a[i] == b[i]
        invariant
            i <= a.len(),
            i <= b.len(),
            chars_order(a@, b@) == chars_order(a@.skip(i as int), b@.skip(i as int)),
        decreases a.len() - i,
    {
        assert(a@.skip(i as int).drop_first() =~= a@.skip(i + 1));
        assert(b@.skip(i as int).drop_first() =~= b@.skip(i + 1));
        i = i + 1;
    }
    assert(a@.skip(i as int).len() == a.len() - i);
    if i == a.len() {
        if i == b.len() {
            0
        } else {
            -1
        }
    } else if i == b.len() {
        1
    } else {
        let ghost sa = a@.skip(i as int);
        let ghost sb = b@.skip(i as int);
        assert(sa[0] == a@[i as int]);
        assert(sb[0] == b@[i as int]);
        assert(sa.len() > 0 && sb.len() > 0 && sa[0] != sb[0]);
        assert(chars_order(sa, sb) == num_order(sa[0] as int, sb[0] as int));
        if a[i] < b[i] {
            -1
        } else {
            1
        }
    }
}

impl PreReleaseIdent {
    /// Three-way comparison (-1, 0, 1) by SemVer identifier precedence.
    pub fn compare_to(&self, other: &Self) -> (r: i8)
        ensures
            r == pre_order(self@, other@),
    {
        match (self, other) {
            (PreReleaseIdent::Max, PreReleaseIdent::Max) => 0,
            (PreReleaseIdent::Max, _) => 1,
            (_, PreReleaseIdent::Max) => -1,
            (PreReleaseIdent::Numeric(x), PreReleaseIdent::Numeric(y)) => order_u64(*x, *y),
            (PreReleaseIdent::Numeric(_), _) => -1,
            (PreReleaseIdent::BigNumeric { .. }, PreReleaseIdent::Numeric(_)) => 1,
            (
                PreReleaseIdent::BigNumeric { digits: x, .. },
                PreReleaseIdent::BigNumeric { digits: y, .. },
            ) => {
                let xa = chars_of(x.as_str());
                let ya = chars_of(y.as_str());
                digit_text_compare(&xa, &ya)
            },
            (PreReleaseIdent::BigNumeric { .. }, PreReleaseIdent::Alpha(_)) => -1,
            (PreReleaseIdent::Alpha(x), PreReleaseIdent::Alpha(y)) => {
                let xa = chars_of(x.as_str());
                let ya = chars_of(y.as_str());
                chars_compare(&xa, &ya)
            },
            (PreReleaseIdent::Alpha(_), _) => 1,
        }
    }
}

/// `digit_text_order` of two character vectors.
fn digit_text_compare(x: &Vec<char>, y: &Vec<char>) -> (r: i8)
    ensures
        r == digit_text_order(x@, y@),
{
    if x.len() < y.len() {
        -1
    } else if x.len() > y.len() {
        1
    } else {
        chars_compare(x, y)
    }
}

/// The characters of `s` after its leading `0`s.
fn drop_leading_zeros_exec(s: &Vec<char>) -> (r: Vec<char>)
    ensures
        r@ == drop_leading_zeros(s@),
{
    let mut i: usize = 0;
    assert(s@.skip(0) =~= s@);
    while i < s.len() && s[i] == '0'
        invariant
            i <= s.len(),
            zero_run(s@) == i + zero_run(s@.skip(i as int)),
        decreases s.len() - i,
    {
        assert(s@.skip(i as int).drop_first() =~= s@.skip(i + 1));
        i = i + 1;
    }
    assert(zero_run(s@.skip(i as int)) == 0);
    sub_chars(s, i, s.len())
}

impl BuildIdent {
    /// Three-way comparison (-1, 0, 1) of build identifiers.
    pub fn compare_to(&self, other: &Self) -> (r: i8)
        ensures
            r == build_order(self@, other@),
    {
        match (self, other) {
            (BuildIdent::Numeric(_), BuildIdent::Alpha(_)) => -1,
            (BuildIdent::Alpha(_), BuildIdent::Numeric(_)) => 1,
            (BuildIdent::Numeric(x), BuildIdent::Numeric(y)) => {
                let xa = drop_leading_zeros_exec(&chars_of(x.as_str()));
                let ya = drop_leading_zeros_exec(&chars_of(y.as_str()));
                digit_text_compare(&xa, &ya)
            },
            (BuildIdent::Alpha(x), BuildIdent::Alpha(y)) => {
                let xa = chars_of(x.as_str());
                let ya = chars_of(y.as_str());
                chars_compare(&xa, &ya)
            },
        }
    }
}

/// Lexicographic comparison of two prerelease identifier lists.
pub fn pre_list_compare(a: &Vec<PreReleaseIdent>, b: &Vec<PreReleaseIdent>) -> (r: i8)
    ensures
        r == pre_list_order(pre_views(a@), pre_views(b@)),
{
    let mut i: usize = 0;
    let ghost av = pre_views(a@);
    let ghost bv = pre_views(b@);
    assert(av.skip(0) =~= av);
    assert(bv.skip(0) =~= bv);
    loop
        invariant
            i <= a.len(),
            i <= b.len(),
            av == pre_views(a@),
            bv == pre_views(b@),
            pre_list_order(av, bv) == pre_list_order(av.skip(i as int), bv.skip(i as int)),
        decreases a.len() - i,
    {
        if i == a.len() {
            if i == b.len() {
                return 0;
            } else {
                return -1;
            }
        }
        if i == b.len() {
            return 1;
        }
        let c = a[i].compare_to(&b[i]);
        assert(av.skip(i as int)[0] == a@[i as int]@);
        assert(bv.skip(i as int)[0] == b@[i as int]@);
        if c != 0 {
            return c;
        }
        assert(av.skip(i as int).drop_first() =~= av.skip(i + 1));
        assert(bv.skip(i as int).drop_first() =~= bv.skip(i + 1));
        i = i + 1;
    }
}

/// Lexicographic comparison of two build identifier lists.
pub fn build_list_compare(a: &Vec<BuildIdent>, b: &Vec<BuildIdent>) -> (r: i8)
    ensures
        r == build_list_order(build_views(a@), build_views(b@)),
{
    let mut i: usize = 0;
    let ghost av = build_views(a@);
    let ghost bv = build_views(b@);
    assert(av.skip(0) =~= av);
    assert(bv.skip(0) =~= bv);
    loop
        invariant
            i <= a.len(),
            i <= b.len(),
            av == build_views(a@),
            bv == build_views(b@),
            build_list_order(av, bv) == build_list_order(av.skip(i as int), bv.skip(i as int)),
        decreases a.len() - i,
    {
        if i == a.len() {
            if i == b.len() {
                return 0;
            } else {
                return -1;
            }
        }
        if i == b.len() {
            return 1;
        }
        let c = a[i].compare_to(&b[i]);
        assert(av.skip(i as int)[0] == a@[i as int]@);
        assert(bv.skip(i as int)[0] == b@[i as int]@);
        if c != 0 {
            return c;
        }
        assert(av.skip(i as int).drop_first() =~= av.skip(i + 1));
        assert(bv.skip(i as int).drop_first() =~= bv.skip(i + 1));
        i = i + 1;
    }
}


// ---------------------------------------------------------------------------
// Properties of the orderings
// ---------------------------------------------------------------------------

/// Text order is antisymmetric and tells equal texts apart from others.
pub proof fn lemma_chars_order(a: Seq<char>, b: Seq<char>)
    ensures
        chars_order(a, b) == -chars_order(b, a),
        chars_order(a, b) == 0 <==> a == b,
        -1 <= chars_order(a, b) <= 1,
    decreases a.len(),
{
    if a.len() > 0 && b.len() > 0 && a[0] == b[0] {
        lemma_chars_order(a.drop_first(), b.drop_first());
        if a.drop_first() == b.drop_first() {
            assert(a =~= seq![a[0]] + a.drop_first());
            assert(b =~= seq![b[0]] + b.drop_first());
        }
    } else if a.len() > 0 && b.len() > 0 {
    } else if a.len() == 0 && b.len() == 0 {
        assert(a =~= b);
    }
}

/// Text order is transitive.
pub proof fn lemma_chars_order_trans(a: Seq<char>, b: Seq<char>, c: Seq<char>)
    requires
        chars_order(a, b) <= 0,
        chars_order(b, c) <= 0,
    ensures
        chars_order(a, c) <= 0,
        (chars_order(a, b) < 0 || chars_order(b, c) < 0) ==> chars_order(a, c) < 0,
    decreases a.len(),
{
    lemma_chars_order(a, b);
    lemma_chars_order(b, c);
    if a.len() > 0 && b.len() > 0 && c.len() > 0 && a[0] == b[0] && b[0] == c[0] {
        lemma_chars_order_trans(a.drop_first(), b.drop_first(), c.drop_first());
    }
}

/// Identifier order is antisymmetric and tells equal identifiers apart.
pub proof fn lemma_pre_order(a: PreIdentView, b: PreIdentView)
    ensures
        pre_order(a, b) == -pre_order(b, a),
        pre_order(a, b) == 0 <==> a == b,
        -1 <= pre_order(a, b) <= 1,
{
    match (a, b) {
        (PreIdentView::Alpha(x), PreIdentView::Alpha(y)) => {
            lemma_chars_order(x, y);
        },
        (PreIdentView::BigNumeric(x), PreIdentView::BigNumeric(y)) => {
            lemma_chars_order(x, y);
        },
        _ => {},
    }
}

/// Identifier order is transitive.
pub proof fn lemma_pre_order_trans(a: PreIdentView, b: PreIdentView, c: PreIdentView)
    requires
        pre_order(a, b) <= 0,
        pre_order(b, c) <= 0,
    ensures
        pre_order(a, c) <= 0,
        (pre_order(a, b) < 0 || pre_order(b, c) < 0) ==> pre_order(a, c) < 0,
{
    match (a, b, c) {
        (PreIdentView::Alpha(x), PreIdentView::Alpha(y), PreIdentView::Alpha(z)) => {
            lemma_chars_order_trans(x, y, z);
        },
        (PreIdentView::BigNumeric(x), PreIdentView::BigNumeric(y), PreIdentView::BigNumeric(z)) => {
            if x.len() == y.len() && y.len() == z.len() {
                lemma_chars_order_trans(x, y, z);
            }
        },
        _ => {
            lemma_pre_order(a, b);
            lemma_pre_order(b, c);
        },
    }
}

/// Identifier-list order is antisymmetric and tells equal lists apart.
pub proof fn lemma_pre_list_order(a: Seq<PreIdentView>, b: Seq<PreIdentView>)
    ensures
        pre_list_order(a, b) == -pre_list_order(b, a),
        pre_list_order(a, b) == 0 <==> a == b,
        -1 <= pre_list_order(a, b) <= 1,
    decreases a.len(),
{
    if a.len() > 0 && b.len() > 0 {
        lemma_pre_order(a[0], b[0]);
        if pre_order(a[0], b[0]) == 0 {
            lemma_pre_list_order(a.drop_first(), b.drop_first());
            if a.drop_first() == b.drop_first() {
                assert(a =~= seq![a[0]] + a.drop_first());
                assert(b =~= seq![b[0]] + b.drop_first());
            }
        }
    } else if a.len() == 0 && b.len() == 0 {
        assert(a =~= b);
    }
}

/// Identifier-list order is transitive.
pub proof fn lemma_pre_list_order_trans(a: Seq<PreIdentView>, b: Seq<PreIdentView>, c: Seq<PreIdentView>)
    requires
        pre_list_order(a, b) <= 0,
        pre_list_order(b, c) <= 0,
    ensures
        pre_list_order(a, c) <= 0,
        (pre_list_order(a, b) < 0 || pre_list_order(b, c) < 0) ==> pre_list_order(a, c) < 0,
    decreases a.len(),
{
    lemma_pre_list_order(a, b);
    lemma_pre_list_order(b, c);
    if a.len() > 0 && b.len() > 0 && c.len() > 0 {
        lemma_pre_order(a[0], b[0]);
        lemma_pre_order(b[0], c[0]);
        lemma_pre_order(a[0], c[0]);
        lemma_pre_order_trans(a[0], b[0], c[0]);
        if pre_order(a[0], b[0]) == 0 && pre_order(b[0], c[0]) == 0 {
            lemma_pre_list_order_trans(a.drop_first(), b.drop_first(), c.drop_first());
        }
    }
}

/// Equality of two prerelease identifier lists.
pub fn pre_list_equal(a: &Vec<PreReleaseIdent>, b: &Vec<PreReleaseIdent>) -> (r: bool)
    ensures
        r == (pre_views(a@) == pre_views(b@)),
{
    let c = pre_list_compare(a, b);
    proof {
        lemma_pre_list_order(pre_views(a@), pre_views(b@));
    }
    c == 0
}

/// Equality of two build identifiers (same kind and same text).
pub fn build_equal(a: &BuildIdent, b: &BuildIdent) -> (r: bool)
    ensures
        r == (a@ == b@),
{
    match (a, b) {
        (BuildIdent::Numeric(x), BuildIdent::Numeric(y)) => *x == *y,
        (BuildIdent::Alpha(x), BuildIdent::Alpha(y)) => *x == *y,
        _ => false,
    }
}

/// Equality of two build identifier lists.
pub fn build_list_equal(a: &Vec<BuildIdent>, b: &Vec<BuildIdent>) -> (r: bool)
    ensures
        r == (build_views(a@) == build_views(b@)),
{
    if a.len() != b.len() {
        assert(build_views(a@).len() != build_views(b@).len());
        return false;
    }
    let mut i: usize = 0;
    while i < a.len()
        invariant
            a.len() == b.len(),
            i <= a.len(),
            forall|j: int| 0 <= j < i ==> a@[j]@ == b@[j]@,
        decreases a.len() - i,
    {
        if !build_equal(&a[i], &b[i]) {
            assert(build_views(a@)[i as int] != build_views(b@)[i as int]);
            return false;
        }
        i = i + 1;
    }
    assert(build_views(a@) =~= build_views(b@));
    true
}

/// A copy of a prerelease identifier list.
pub fn duplicate_pre_list(a: &Vec<PreReleaseIdent>) -> (r: Vec<PreReleaseIdent>)
    ensures
        pre_views(r@) == pre_views(a@),
{
    let mut r: Vec<PreReleaseIdent> = Vec::new();
    let mut i: usize = 0;
    while i < a.len()
        invariant
            i <= a.len(),
            pre_views(r@) == pre_views(a@.take(i as int)),
        decreases a.len() - i,
    {
        let d = a[i].duplicate();
        let ghost before = r@;
        r.push(d);
        assert(r@ =~= before.push(d));
        assert(pre_views(r@) =~= pre_views(before).push(d@));
        assert(a@.take(i + 1) =~= a@.take(i as int).push(a@[i as int]));
        assert(pre_views(a@.take(i + 1)) =~= pre_views(a@.take(i as int)).push(a@[i as int]@));
        i = i + 1;
    }
    assert(a@.take(a.len() as int) =~= a@);
    r
}

/// A copy of a build identifier list.
pub fn duplicate_build_list(a: &Vec<BuildIdent>) -> (r: Vec<BuildIdent>)
    ensures
        build_views(r@) == build_views(a@),
{
    let mut r: Vec<BuildIdent> = Vec::new();
    let mut i: usize = 0;
    while i < a.len()
        invariant
            i <= a.len(),
            build_views(r@) == build_views(a@.take(i as int)),
        decreases a.len() - i,
    {
        let d = a[i].duplicate();
        let ghost before = r@;
        r.push(d);
        assert(r@ =~= before.push(d));
        assert(build_views(r@) =~= build_views(before).push(d@));
        assert(a@.take(i + 1) =~= a@.take(i as int).push(a@[i as int]));
        assert(build_views(a@.take(i + 1)) =~= build_views(a@.take(i as int)).push(a@[i as int]@));
        i = i + 1;
    }
    assert(a@.take(a.len() as int) =~= a@);
    r
}
// ---------------------------------------------------------------------------
// Comparing decimal texts by value, whatever their length
// ---------------------------------------------------------------------------

/// `10` to the power `n`.
pub open spec fn pow10(n: nat) -> nat
    decreases n,
{
    if n == 0 {
        1
    } else {
        10 * pow10((n - 1) as nat)
    }
}

/// `s` without its leading `0` characters.
pub open spec fn drop_leading_zeros(s: Seq<char>) -> Seq<char> {
    s.skip(zero_run(s) as int)
}

proof fn lemma_pow10_grows(m: nat, n: nat)
    requires
        m <= n,
    ensures
        1 <= pow10(m) <= pow10(n),
    decreases n,
{
    if n > 0 {
        if m < n {
            lemma_pow10_grows(m, (n - 1) as nat);
        } else {
            lemma_pow10_grows(0, (n - 1) as nat);
        }
    }
}

proof fn lemma_all_digits_drop_last(s: Seq<char>)
    requires
        all_digits(s),
        s.len() > 0,
    ensures
        all_digits(s.drop_last()),
        all_digits(s.drop_first()),
        is_digit(s[0]),
        is_digit(s.last()),
{
    assert forall|i: int| 0 <= i < s.drop_last().len() implies #[trigger] is_digit(
        s.drop_last()[i],
    ) by {
        assert(s.drop_last()[i] == s[i]);
    }
    assert forall|i: int| 0 <= i < s.drop_first().len() implies #[trigger] is_digit(
        s.drop_first()[i],
    ) by {
        assert(s.drop_first()[i] == s[i + 1]);
    }
    assert(is_digit(s[s.len() - 1]));
}

/// The value of a digit text is its first digit's share plus the value of the rest.
proof fn lemma_value_front(s: Seq<char>)
    requires
        s.len() > 0,
    ensures
        digits_value(s) == digit_value(s[0]) * pow10((s.len() - 1) as nat) + digits_value(
            s.drop_first(),
        ),
    decreases s.len(),
{
    if s.len() == 1 {
        assert(s.drop_last() =~= Seq::<char>::empty());
        assert(s.drop_first() =~= Seq::<char>::empty());
        assert(digits_value(Seq::<char>::empty()) == 0);
        assert(s.last() == s[0]);
        assert(pow10(0) == 1);
        assert(digit_value(s[0]) * 1 == digit_value(s[0]));
    } else {
        let p = s.drop_last();
        lemma_value_front(p);
        assert(digits_value(s) == digits_value(p) * 10 + digit_value(s.last()));
        assert(p[0] == s[0]);
        assert(s.drop_first().drop_last() =~= p.drop_first());
        assert(s.drop_first().last() == s.last());
        let d0 = digit_value(s[0]);
        let q = pow10((p.len() - 1) as nat);
        let t = digits_value(p.drop_first());
        let l = digit_value(s.last());
        assert(pow10((s.len() - 1) as nat) == 10 * q);
        assert(digits_value(s.drop_first()) == t * 10 + l);
        assert(digits_value(p) == d0 * q + t);
        assert((d0 * q + t) * 10 + l == d0 * (10 * q) + (t * 10 + l)) by (nonlinear_arith);
    }
}

/// A digit text of `n` characters has a value below `10^n`.
proof fn lemma_value_below(s: Seq<char>)
    requires
        all_digits(s),
    ensures
        digits_value(s) < pow10(s.len()),
    decreases s.len(),
{
    if s.len() > 0 {
        lemma_all_digits_drop_last(s);
        lemma_value_below(s.drop_last());
        let v = digits_value(s.drop_last());
        let p = pow10(s.drop_last().len());
        let d = digit_value(s.last());
        assert(v * 10 + d < 10 * p) by (nonlinear_arith)
            requires
                v < p,
                d < 10,
        ;
    }
}

/// A digit text that does not start with `0` has a value of at least `10^(n-1)`.
proof fn lemma_value_above(s: Seq<char>)
    requires
        all_digits(s),
        s.len() > 0,
        s[0] != '0',
    ensures
        digits_value(s) >= pow10((s.len() - 1) as nat),
{
    lemma_value_front(s);
    lemma_all_digits_drop_last(s);
    let d = digit_value(s[0]);
    let p = pow10((s.len() - 1) as nat);
    assert(d >= 1);
    assert(d * p >= p) by (nonlinear_arith)
        requires
            d >= 1,
    ;
}

/// Leading zeros change neither the value nor the digits.
proof fn lemma_strip_zeros(s: Seq<char>)
    requires
        all_digits(s),
    ensures
        zero_run(s) <= s.len(),
        all_digits(drop_leading_zeros(s)),
        digits_value(drop_leading_zeros(s)) == digits_value(s),
        drop_leading_zeros(s).len() > 0 ==> drop_leading_zeros(s)[0] != '0',
    decreases s.len(),
{
    if s.len() > 0 && s[0] == '0' {
        lemma_all_digits_drop_last(s);
        lemma_strip_zeros(s.drop_first());
        assert(drop_leading_zeros(s) =~= drop_leading_zeros(s.drop_first()));
        lemma_value_front(s);
        assert(digit_value(s[0]) == 0);
        let p = pow10((s.len() - 1) as nat);
        assert(0 * p == 0) by (nonlinear_arith);
        assert(digits_value(s) == digits_value(s.drop_first()));
    } else {
        assert(drop_leading_zeros(s) =~= s);
    }
}

/// Of two digit texts of the same length, the first differing digit decides.
proof fn lemma_same_length_order(a: Seq<char>, b: Seq<char>)
    requires
        all_digits(a),
        all_digits(b),
        a.len() == b.len(),
    ensures
        chars_order(a, b) == num_order(digits_value(a) as int, digits_value(b) as int),
    decreases a.len(),
{
    if a.len() > 0 {
        lemma_all_digits_drop_last(a);
        lemma_all_digits_drop_last(b);
        lemma_value_front(a);
        lemma_value_front(b);
        lemma_value_below(a.drop_first());
        lemma_value_below(b.drop_first());
        let p = pow10((a.len() - 1) as nat);
        let da = digit_value(a[0]);
        let db = digit_value(b[0]);
        let ta = digits_value(a.drop_first());
        let tb = digits_value(b.drop_first());
        if a[0] != b[0] {
            if da < db {
                assert(da * p + ta < db * p + tb) by (nonlinear_arith)
                    requires
                        da < db,
                        ta < p,
                ;
            } else {
                assert(db * p + tb < da * p + ta) by (nonlinear_arith)
                    requires
                        db < da,
                        tb < p,
                ;
            }
        } else {
            lemma_same_length_order(a.drop_first(), b.drop_first());
        }
    }
}

/// Order of two decimal texts by the numbers they denote, whatever their
/// length: without leading zeros, the longer one is larger; of equal length,
/// the first differing digit decides.
pub open spec fn numeric_text_order(x: Seq<char>, y: Seq<char>) -> int {
    digit_text_order(drop_leading_zeros(x), drop_leading_zeros(y))
}

/// Order of two digit texts as written: the longer one is larger; of equal
/// length, the first differing character decides. For digit texts without
/// leading zeros this is the order of their values.
pub open spec fn digit_text_order(a: Seq<char>, b: Seq<char>) -> int {
    if a.len() < b.len() {
        -1
    } else if a.len() > b.len() {
        1
    } else {
        chars_order(a, b)
    }
}

/// For digit texts, `numeric_text_order` is the order of their values.
pub proof fn lemma_numeric_text_order(x: Seq<char>, y: Seq<char>)
    requires
        all_digits(x),
        all_digits(y),
    ensures
        numeric_text_order(x, y) == num_order(digits_value(x) as int, digits_value(y) as int),
{
    lemma_strip_zeros(x);
    lemma_strip_zeros(y);
    let a = drop_leading_zeros(x);
    let b = drop_leading_zeros(y);
    if a.len() < b.len() {
        lemma_value_below(a);
        lemma_value_above(b);
        lemma_pow10_grows(a.len(), (b.len() - 1) as nat);
    } else if a.len() > b.len() {
        lemma_value_below(b);
        lemma_value_above(a);
        lemma_pow10_grows(b.len(), (a.len() - 1) as nat);
    } else {
        lemma_same_length_order(a, b);
    }
}

} // verus!
