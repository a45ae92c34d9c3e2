//! The error type of the crate and the messages it carries.

use vstd::prelude::*;

use crate::text::{append_chars, chars_of, string_of};

verus! {

/// All errors produced by this crate. Each variant carries the full message.
#[derive(Debug, Clone, PartialEq, Eq)]
pub enum SemverError {
    /// A version string failed to parse (e.g. `"1.2"`, `"01.2.3"`, `"1.2.3 "`).
    InvalidVersion(String),
    /// A range specification failed to parse (e.g. `"!0.1"`, `">=1.0.0+build"`).
    InvalidSpec(String),
    /// `Version::coerce` found no leading number.
    InvalidCoerce(String),
}

/// The mathematical value of a `SemverError`: its kind and its message.
pub enum ErrorView {
    InvalidVersion(Seq<char>),
    InvalidSpec(Seq<char>),
    InvalidCoerce(Seq<char>),
}

impl View for SemverError {
    type V = ErrorView;

    open spec fn view(&self) -> ErrorView {
        match self {
            SemverError::InvalidVersion(m) => ErrorView::InvalidVersion(m@),
            SemverError::InvalidSpec(m) => ErrorView::InvalidSpec(m@),
            SemverError::InvalidCoerce(m) => ErrorView::InvalidCoerce(m@),
        }
    }
}

/// `s` between single quotes.
pub open spec fn quoted(s: Seq<char>) -> Seq<char> {
    seq!['\''] + s + seq!['\'']
}

pub open spec fn msg_empty_version(s: Seq<char>) -> Seq<char> {
    "Invalid empty version string: "@ + quoted(s)
}

pub open spec fn msg_invalid_version(s: Seq<char>) -> Seq<char> {
    "Invalid version string: "@ + quoted(s)
}

pub open spec fn msg_leading_zero_major(s: Seq<char>) -> Seq<char> {
    "Invalid leading zero in major: "@ + quoted(s)
}

pub open spec fn msg_leading_zero_minor(s: Seq<char>) -> Seq<char> {
    "Invalid leading zero in minor: "@ + quoted(s)
}

pub open spec fn msg_leading_zero_patch(s: Seq<char>) -> Seq<char> {
    "Invalid leading zero in patch: "@ + quoted(s)
}

pub open spec fn msg_empty_identifier(whole: Seq<char>) -> Seq<char> {
    "Invalid empty identifier "@ + quoted(Seq::empty()) + " in "@ + quoted(whole)
}

pub open spec fn msg_leading_zero_identifier(item: Seq<char>) -> Seq<char> {
    "Invalid leading zero in identifier "@ + quoted(item)
}

pub open spec fn msg_invalid_coerce(s: Seq<char>) -> Seq<char> {
    "Version string lacks a numerical component: "@ + quoted(s)
}

pub open spec fn msg_invalid_block(s: Seq<char>) -> Seq<char> {
    "Invalid simple block "@ + quoted(s)
}

pub open spec fn msg_empty_simple_spec() -> Seq<char> {
    "Invalid simple spec: empty string"@
}

/// The message `prefix` followed by `s` between single quotes.
pub fn quoted_message(prefix: &str, s: &Vec<char>) -> (r: String)
    ensures
        r@ == prefix@ + quoted(s@),
{
    let mut v = chars_of(prefix);
    v.push('\'');
    append_chars(&mut v, s);
    v.push('\'');
    assert(v@ =~= prefix@ + quoted(s@));
    string_of(&v)
}

impl SemverError {
    pub fn empty_version(s: &Vec<char>) -> (r: Self)
        ensures
            r@ == ErrorView::InvalidVersion(msg_empty_version(s@)),
    {
        SemverError::InvalidVersion(quoted_message("Invalid empty version string: ", s))
    }

    pub fn invalid_version(s: &Vec<char>) -> (r: Self)
        ensures
            r@ == ErrorView::InvalidVersion(msg_invalid_version(s@)),
    {
        SemverError::InvalidVersion(quoted_message("Invalid version string: ", s))
    }

    pub fn leading_zero_major(s: &Vec<char>) -> (r: Self)
        ensures
            r@ == ErrorView::InvalidVersion(msg_leading_zero_major(s@)),
    {
        SemverError::InvalidVersion(quoted_message("Invalid leading zero in major: ", s))
    }

    pub fn leading_zero_minor(s: &Vec<char>) -> (r: Self)
        ensures
            r@ == ErrorView::InvalidVersion(msg_leading_zero_minor(s@)),
    {
        SemverError::InvalidVersion(quoted_message("Invalid leading zero in minor: ", s))
    }

    pub fn leading_zero_patch(s: &Vec<char>) -> (r: Self)
        ensures
            r@ == ErrorView::InvalidVersion(msg_leading_zero_patch(s@)),
    {
        SemverError::InvalidVersion(quoted_message("Invalid leading zero in patch: ", s))
    }

    pub fn empty_identifier(whole: &Vec<char>) -> (r: Self)
        ensures
            r@ == ErrorView::InvalidVersion(msg_empty_identifier(whole@)),
    {
        let mut v = chars_of("Invalid empty identifier ");
        v.push('\'');
        v.push('\'');
        let tail = chars_of(" in ");
        append_chars(&mut v, &tail);
        v.push('\'');
        append_chars(&mut v, whole);
        v.push('\'');
        assert(v@ =~= msg_empty_identifier(whole@));
        SemverError::InvalidVersion(string_of(&v))
    }

    pub fn leading_zero_identifier(item: &Vec<char>) -> (r: Self)
        ensures
            r@ == ErrorView::InvalidVersion(msg_leading_zero_identifier(item@)),
    {
        SemverError::InvalidVersion(quoted_message("Invalid leading zero in identifier ", item))
    }

    pub fn invalid_coerce(s: &Vec<char>) -> (r: Self)
        ensures
            r@ == ErrorView::InvalidCoerce(msg_invalid_coerce(s@)),
    {
        SemverError::InvalidCoerce(quoted_message("Version string lacks a numerical component: ", s))
    }

    pub fn invalid_block(s: &Vec<char>) -> (r: Self)
        ensures
            r@ == ErrorView::InvalidSpec(msg_invalid_block(s@)),
    {
        SemverError::InvalidSpec(quoted_message("Invalid simple block ", s))
    }

    pub fn empty_simple_spec() -> (r: Self)
        ensures
            r@ == ErrorView::InvalidSpec(msg_empty_simple_spec()),
    {
        SemverError::InvalidSpec(string_of(&chars_of("Invalid simple spec: empty string")))
    }

    pub fn invalid_spec(message: Vec<char>) -> (r: Self)
        ensures
            r@ == ErrorView::InvalidSpec(message@),
    {
        SemverError::InvalidSpec(string_of(&message))
    }

    /// The message this error carries.
    pub fn to_string(&self) -> (r: String)
        ensures
            r@ == match self@ {
                ErrorView::InvalidVersion(m) => m,
                ErrorView::InvalidSpec(m) => m,
                ErrorView::InvalidCoerce(m) => m,
            },
    {
        match self {
            SemverError::InvalidVersion(m) => m.clone(),
            SemverError::InvalidSpec(m) => m.clone(),
            SemverError::InvalidCoerce(m) => m.clone(),
        }
    }

    /// A copy of this error.
    pub fn duplicate(&self) -> (r: Self)
        ensures
            r@ == self@,
    {
        match self {
            SemverError::InvalidVersion(m) => SemverError::InvalidVersion(m.clone()),
            SemverError::InvalidSpec(m) => SemverError::InvalidSpec(m.clone()),
            SemverError::InvalidCoerce(m) => SemverError::InvalidCoerce(m.clone()),
        }
    }
}

/// The message with which `{:?}` renders a string (`<str as Debug>::fmt`):
/// the text between double quotes, with std's escapes.
pub uninterp spec fn debug_rendering(s: Seq<char>) -> Seq<char>;

/// Renders `s` as `format!("{:?}", s)` does, through std's `Debug` for `str`.
/// The contract names the result and says nothing more of it.
#[verifier::external_body]
pub(crate) fn debug_string(s: &str) -> (r: String)
    ensures
        r@ == debug_rendering(s@),
{
    format!("{:?}", s)
}

} // verus!
