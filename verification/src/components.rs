//! Building a version from its parts, truncating it at a named level, and
//! comparing versions field by field.

use vstd::prelude::*;

use crate::error::{debug_rendering, debug_string, ErrorView, SemverError};
use crate::identifiers::{
    build_ident_of, build_list_equal, build_views, loose_pre_ident, loose_pre_ident_exec,
    pre_list_equal, pre_views, BuildIdent, PreReleaseIdent,
};
use crate::text::{
    append_chars, chars_eq, chars_of, has_leading_zero, has_leading_zero_exec, join_with,
    push_joined, string_of, texts_view,
};
use crate::version::{
    build_or_empty, no_build, no_pre, pre_or_empty, spec_next_major, spec_next_minor,
    spec_next_patch, spec_parse_version, version_result_view, Version, VersionView,
};
use crate::identifiers::{duplicate_build_list, duplicate_pre_list};

verus! {

pub open spec fn strings_of(v: Seq<String>) -> Seq<Seq<char>> {
    v.map_values(|x: String| x@)
}

/// The complaint about one identifier of `all`, if any: empty, or (unless
/// `allow_leading_zeros`) numeric with a leading zero.
pub open spec fn identifier_error(item: Seq<char>, all: Seq<Seq<char>>, allow_leading_zeros: bool) -> Option<Seq<char>> {
    if item.len() == 0 {
        Some(
            "Invalid empty identifier "@ + debug_rendering(Seq::empty()) + " in "@
                + debug_rendering(join_with(all, '.')),
        )
    } else if !allow_leading_zeros && has_leading_zero(item) {
        Some("Invalid leading zero in identifier "@ + debug_rendering(item))
    } else {
        None
    }
}

/// The complaint about the first refused identifier of `ids`, if any.
pub open spec fn identifiers_error(ids: Seq<Seq<char>>, all: Seq<Seq<char>>, allow_leading_zeros: bool) -> Option<Seq<char>>
    decreases ids.len(),
{
    if ids.len() == 0 {
        None
    } else {
        match identifiers_error(ids.drop_last(), all, allow_leading_zeros) {
            Some(m) => Some(m),
            None => identifier_error(ids.last(), all, allow_leading_zeros),
        }
    }
}

pub open spec fn msg_either_text_or_parts() -> Seq<char> {
    "Call either Version('1.2.3') or Version(major=1, ...)."@
}

pub open spec fn msg_no_major() -> Seq<char> {
    "Invalid kwargs to Version(major=None, ...)"@
}

pub open spec fn msg_missing_parts() -> Seq<char> {
    "Invalid kwargs to Version(major=..., minor=..., patch=..., ...)"@
}

/// What building a version from a text, or else from its parts, gives.
pub open spec fn spec_from_components(
    text: Option<Seq<char>>,
    major: Option<u64>,
    minor: Option<u64>,
    patch: Option<u64>,
    prerelease: Option<Seq<Seq<char>>>,
    build: Option<Seq<Seq<char>>>,
    partial: bool,
) -> Result<VersionView, ErrorView> {
    let has_parts = major is Some || minor is Some || patch is Some || prerelease is Some
        || build is Some;
    if (text is Some) == has_parts {
        Err(ErrorView::InvalidVersion(msg_either_text_or_parts()))
    } else if text is Some {
        spec_parse_version(text->0, partial)
    } else if major is None {
        Err(ErrorView::InvalidVersion(msg_no_major()))
    } else if (minor is None || patch is None) && !partial {
        Err(ErrorView::InvalidVersion(msg_missing_parts()))
    } else {
        let pre_error = match prerelease {
            Some(ids) => identifiers_error(ids, ids, false),
            None => None,
        };
        let build_error = match build {
            Some(ids) => identifiers_error(ids, ids, true),
            None => None,
        };
        if pre_error is Some {
            Err(ErrorView::InvalidVersion(pre_error->0))
        } else if build_error is Some {
            Err(ErrorView::InvalidVersion(build_error->0))
        } else {
            Ok(
                VersionView {
                    major: major->0,
                    minor,
                    patch,
                    prerelease: match prerelease {
                        Some(ids) => Some(ids.map_values(|t: Seq<char>| loose_pre_ident(t))),
                        None => if partial {
                            None
                        } else {
                            Some(Seq::empty())
                        },
                    },
                    build: match build {
                        Some(ids) => Some(ids.map_values(|t: Seq<char>| build_ident_of(t))),
                        None => if partial {
                            None
                        } else {
                            Some(Seq::empty())
                        },
                    },
                    partial,
                },
            )
        }
    }
}

/// `v` truncated at `level` (`build`, `prerelease`, `patch`, `minor` or
/// `major`): the parts after the level are dropped, numbers after it become
/// zero (missing in a partial version).
pub open spec fn spec_truncate_level(v: VersionView, level: Seq<char>) -> Result<VersionView, ErrorView> {
    let no_build_part = if v.partial {
        None
    } else {
        Some(Seq::empty())
    };
    let zero = if v.partial {
        None
    } else {
        Some(0u64)
    };
    if level == "build"@ {
        Ok(
            VersionView {
                prerelease: Some(pre_or_empty(v)),
                build: if v.partial {
                    None
                } else {
                    Some(build_or_empty(v))
                },
                ..v
            },
        )
    } else if level == "prerelease"@ {
        Ok(VersionView { prerelease: Some(pre_or_empty(v)), build: no_build_part, ..v })
    } else if level == "patch"@ {
        Ok(VersionView { prerelease: Some(Seq::empty()), build: no_build_part, ..v })
    } else if level == "minor"@ {
        Ok(VersionView { patch: zero, prerelease: Some(Seq::empty()), build: no_build_part, ..v })
    } else if level == "major"@ {
        Ok(
            VersionView {
                minor: zero,
                patch: zero,
                prerelease: Some(Seq::empty()),
                build: no_build_part,
                ..v
            },
        )
    } else {
        Err(ErrorView::InvalidVersion("Invalid truncation level `"@ + level + "`."@))
    }
}

/// `v` marked partial or not, without build metadata (missing when partial).
pub open spec fn with_partial(v: VersionView, partial: bool) -> VersionView {
    VersionView {
        build: if partial {
            None
        } else {
            Some(Seq::empty())
        },
        partial,
        ..v
    }
}

/// The views of a list of texts.
fn texts_of(v: &Vec<String>) -> (r: Vec<Vec<char>>)
    ensures
        texts_view(r@) == strings_of(v@),
{
    let mut out: Vec<Vec<char>> = Vec::new();
    let mut i: usize = 0;
    while i < v.len()
        invariant
            i <= v.len(),
            texts_view(out@) == strings_of(v@).take(i as int),
        decreases v.len() - i,
    {
        let t = chars_of(v[i].as_str());
        let ghost before = texts_view(out@);
        out.push(t);
        proof {
            assert(texts_view(out@) =~= before.push(v@[i as int]@));
            assert(strings_of(v@).take(i + 1) =~= strings_of(v@).take(i as int).push(v@[i as int]@));
        }
        i = i + 1;
    }
    assert(strings_of(v@).take(v.len() as int) =~= strings_of(v@));
    out
}

/// The complaint about the first refused identifier, if any.
fn identifiers_error_exec(ids: &Vec<Vec<char>>, allow_leading_zeros: bool) -> (r: Option<String>)
    ensures
        match identifiers_error(texts_view(ids@), texts_view(ids@), allow_leading_zeros) {
            Some(m) => r matches Some(s) && s@ == m,
            None => r is None,
        },
{
    let ghost all = texts_view(ids@);
    let mut i: usize = 0;
    assert(all.take(0) =~= Seq::<Seq<char>>::empty());
    while i < ids.len()
        invariant
            i <= ids.len(),
            all == texts_view(ids@),
            identifiers_error(all.take(i as int), all, allow_leading_zeros) is None,
        decreases ids.len() - i,
    {
        proof {
            assert(all.take(i + 1).drop_last() =~= all.take(i as int));
            assert(all.take(i + 1).last() == ids@[i as int]@);
        }
        let item = &ids[i];
        if item.len() == 0 {
            let mut joined: Vec<char> = Vec::new();
            push_joined(&mut joined, ids, '.');
            assert(joined@ =~= join_with(all, '.'));
            let joined_text = string_of(&joined);
            let mut m = chars_of("Invalid empty identifier ");
            let e = debug_string("");
            proof {
                reveal_strlit("");
                assert(""@ =~= Seq::<char>::empty());
            }
            let ec = chars_of(e.as_str());
            append_chars(&mut m, &ec);
            let sep = chars_of(" in ");
            append_chars(&mut m, &sep);
            let d = debug_string(joined_text.as_str());
            let dc = chars_of(d.as_str());
            append_chars(&mut m, &dc);
            proof {
                assert(all[i as int] == item@);
                assert(item@ =~= Seq::<char>::empty());
                lemma_error_prefix(all, i as int, allow_leading_zeros);
            }
            return Some(string_of(&m));
        }
        if !allow_leading_zeros && has_leading_zero_exec(item) {
            let text = string_of(item);
            let mut m = chars_of("Invalid leading zero in identifier ");
            let d = debug_string(text.as_str());
            let dc = chars_of(d.as_str());
            append_chars(&mut m, &dc);
            proof {
                lemma_error_prefix(all, i as int, allow_leading_zeros);
            }
            return Some(string_of(&m));
        }
        i = i + 1;
    }
    assert(all.take(ids.len() as int) =~= all);
    None
}

proof fn lemma_error_prefix(all: Seq<Seq<char>>, n: int, allow: bool)
    requires
        0 <= n < all.len(),
        identifiers_error(all.take(n), all, allow) is None,
        identifier_error(all[n], all, allow) is Some,
    ensures
        identifiers_error(all, all, allow) == identifier_error(all[n], all, allow),
{
    lemma_error_first(all, all, n, allow);
}

proof fn lemma_error_first(ids: Seq<Seq<char>>, all: Seq<Seq<char>>, n: int, allow: bool)
    requires
        0 <= n < ids.len(),
        identifiers_error(ids.take(n), all, allow) is None,
        identifier_error(ids[n], all, allow) is Some,
    ensures
        identifiers_error(ids, all, allow) == identifier_error(ids[n], all, allow),
    decreases ids.len() - n,
{
    if n + 1 == ids.len() {
        assert(ids.drop_last() =~= ids.take(n));
    } else {
        assert(ids.drop_last().take(n) =~= ids.take(n));
        assert(ids.drop_last()[n] == ids[n]);
        lemma_error_first(ids.drop_last(), all, n, allow);
    }
}

fn loose_pre_list(ids: &Vec<Vec<char>>) -> (r: Vec<PreReleaseIdent>)
    ensures
        pre_views(r@) == texts_view(ids@).map_values(|t: Seq<char>| loose_pre_ident(t)),
{
    let ghost tv = texts_view(ids@);
    let mut out: Vec<PreReleaseIdent> = Vec::new();
    let mut k: usize = 0;
    while k < ids.len()
        invariant
            k <= ids.len(),
            tv == texts_view(ids@),
            pre_views(out@) == tv.take(k as int).map_values(|t: Seq<char>| loose_pre_ident(t)),
        decreases ids.len() - k,
    {
        let id = loose_pre_ident_exec(&ids[k]);
        let ghost before = pre_views(out@);
        out.push(id);
        proof {
            assert(pre_views(out@) =~= before.push(loose_pre_ident(tv[k as int])));
            assert(tv.take(k + 1).map_values(|t: Seq<char>| loose_pre_ident(t)) =~= tv.take(
                k as int,
            ).map_values(|t: Seq<char>| loose_pre_ident(t)).push(loose_pre_ident(tv[k as int])));
        }
        k = k + 1;
    }
    assert(tv.take(ids.len() as int) =~= tv);
    out
}

fn build_list_of(ids: &Vec<Vec<char>>) -> (r: Vec<BuildIdent>)
    ensures
        build_views(r@) == texts_view(ids@).map_values(|t: Seq<char>| build_ident_of(t)),
{
    let ghost tv = texts_view(ids@);
    let mut out: Vec<BuildIdent> = Vec::new();
    let mut k: usize = 0;
    while k < ids.len()
        invariant
            k <= ids.len(),
            tv == texts_view(ids@),
            build_views(out@) == tv.take(k as int).map_values(|t: Seq<char>| build_ident_of(t)),
        decreases ids.len() - k,
    {
        let text = string_of(&ids[k]);
        let id = BuildIdent::parse(text.as_str());
        let ghost before = build_views(out@);
        out.push(id);
        proof {
            assert(build_views(out@) =~= before.push(build_ident_of(tv[k as int])));
            assert(tv.take(k + 1).map_values(|t: Seq<char>| build_ident_of(t)) =~= tv.take(
                k as int,
            ).map_values(|t: Seq<char>| build_ident_of(t)).push(build_ident_of(tv[k as int])));
        }
        k = k + 1;
    }
    assert(tv.take(ids.len() as int) =~= tv);
    out
}

pub open spec fn opt_text(o: Option<&str>) -> Option<Seq<char>> {
    match o {
        Some(s) => Some(s@),
        None => None,
    }
}

pub open spec fn opt_strings(o: Option<Vec<String>>) -> Option<Seq<Seq<char>>> {
    match o {
        Some(v) => Some(strings_of(v@)),
        None => None,
    }
}

impl Version {
    /// A version from a text, or else from its parts (exactly one of the two
    /// must be given). Identifiers are checked: none may be empty, and
    /// numeric prerelease identifiers may not have leading zeros.
    pub fn from_components(
        text: Option<&str>,
        major: Option<u64>,
        minor: Option<u64>,
        patch: Option<u64>,
        prerelease: Option<Vec<String>>,
        build: Option<Vec<String>>,
        partial: bool,
    ) -> (r: Result<Version, SemverError>)
        ensures
            version_result_view(r) == spec_from_components(
                opt_text(text),
                major,
                minor,
                patch,
                opt_strings(prerelease),
                opt_strings(build),
                partial,
            ),
    {
        let has_parts = major.is_some() || minor.is_some() || patch.is_some()
            || prerelease.is_some() || build.is_some();
        if text.is_some() == has_parts {
            return Err(
                SemverError::InvalidVersion(
                    string_of(&chars_of("Call either Version('1.2.3') or Version(major=1, ...).")),
                ),
            );
        }
        if let Some(t) = text {
            return if partial {
                Version::parse_partial(t)
            } else {
                Version::parse(t)
            };
        }
        let mj = match major {
            Some(m) => m,
            None => {
                return Err(
                    SemverError::InvalidVersion(
                        string_of(&chars_of("Invalid kwargs to Version(major=None, ...)")),
                    ),
                );
            },
        };
        if (minor.is_none() || patch.is_none()) && !partial {
            return Err(
                SemverError::InvalidVersion(
                    string_of(
                        &chars_of("Invalid kwargs to Version(major=..., minor=..., patch=..., ...)"),
                    ),
                ),
            );
        }
        let pre_texts = match &prerelease {
            Some(ids) => Some(texts_of(ids)),
            None => None,
        };
        let build_texts = match &build {
            Some(ids) => Some(texts_of(ids)),
            None => None,
        };
        if let Some(ids) = &pre_texts {
            if let Some(m) = identifiers_error_exec(ids, false) {
                return Err(SemverError::InvalidVersion(m));
            }
        }
        if let Some(ids) = &build_texts {
            if let Some(m) = identifiers_error_exec(ids, true) {
                return Err(SemverError::InvalidVersion(m));
            }
        }
        let pre_v = match &pre_texts {
            Some(ids) => Some(loose_pre_list(ids)),
            None => if partial {
                None
            } else {
                Some(no_pre())
            },
        };
        let build_v = match &build_texts {
            Some(ids) => Some(build_list_of(ids)),
            None => if partial {
                None
            } else {
                Some(no_build())
            },
        };
        Ok(Version { major: mj, minor, patch, prerelease: pre_v, build: build_v, partial })
    }

    /// This version truncated at `level` (see `spec_truncate_level`).
    pub fn truncate_level(&self, level: &str) -> (r: Result<Version, SemverError>)
        ensures
            version_result_view(r) == spec_truncate_level(self@, level@),
    {
        let lv = chars_of(level);
        let pre = match &self.prerelease {
            Some(p) => duplicate_pre_list(p),
            None => no_pre(),
        };
        let no_build_part = if self.partial {
            None
        } else {
            Some(no_build())
        };
        let zero: Option<u64> = if self.partial {
            None
        } else {
            Some(0)
        };
        if chars_eq(&lv, &chars_of("build")) {
            let b = match &self.build {
                Some(b) => duplicate_build_list(b),
                None => no_build(),
            };
            Ok(
                Version {
                    major: self.major,
                    minor: self.minor,
                    patch: self.patch,
                    prerelease: Some(pre),
                    build: if self.partial {
                        None
                    } else {
                        Some(b)
                    },
                    partial: self.partial,
                },
            )
        } else if chars_eq(&lv, &chars_of("prerelease")) {
            Ok(
                Version {
                    major: self.major,
                    minor: self.minor,
                    patch: self.patch,
                    prerelease: Some(pre),
                    build: no_build_part,
                    partial: self.partial,
                },
            )
        } else if chars_eq(&lv, &chars_of("patch")) {
            Ok(
                Version {
                    major: self.major,
                    minor: self.minor,
                    patch: self.patch,
                    prerelease: Some(no_pre()),
                    build: no_build_part,
                    partial: self.partial,
                },
            )
        } else if chars_eq(&lv, &chars_of("minor")) {
            Ok(
                Version {
                    major: self.major,
                    minor: self.minor,
                    patch: zero,
                    prerelease: Some(no_pre()),
                    build: no_build_part,
                    partial: self.partial,
                },
            )
        } else if chars_eq(&lv, &chars_of("major")) {
            Ok(
                Version {
                    major: self.major,
                    minor: zero,
                    patch: zero,
                    prerelease: Some(no_pre()),
                    build: no_build_part,
                    partial: self.partial,
                },
            )
        } else {
            let mut m = chars_of("Invalid truncation level `");
            append_chars(&mut m, &lv);
            let tail = chars_of("`.");
            append_chars(&mut m, &tail);
            Err(SemverError::InvalidVersion(string_of(&m)))
        }
    }

    /// Whether the two versions have the very same numbers, prerelease and
    /// build fields (a missing list differs from an empty one).
    pub fn fields_equal(&self, other: &Version) -> (r: bool)
        ensures
            r == (self@.major == other@.major && self@.minor == other@.minor && self@.patch
                == other@.patch && self@.prerelease == other@.prerelease && self@.build
                == other@.build),
    {
        let pre_same = match (&self.prerelease, &other.prerelease) {
            (Some(a), Some(b)) => pre_list_equal(a, b),
            (None, None) => true,
            _ => false,
        };
        let build_same = match (&self.build, &other.build) {
            (Some(a), Some(b)) => build_list_equal(a, b),
            (None, None) => true,
            _ => false,
        };
        self.major == other.major && self.minor == other.minor && self.patch == other.patch
            && pre_same && build_same
    }
}

impl Version {
    fn keep_partial(v: Version, partial: bool) -> (r: Version)
        ensures
            r@ == with_partial(v@, partial),
    {
        Version {
            major: v.major,
            minor: v.minor,
            patch: v.patch,
            prerelease: v.prerelease,
            build: if partial {
                None
            } else {
                Some(no_build())
            },
            partial,
        }
    }

    /// The next major version, partial when this one is.
    pub fn bump_major(&self) -> (r: Version)
        ensures
            r@ == with_partial(spec_next_major(self@), self@.partial),
    {
        Self::keep_partial(self.next_major(), self.partial)
    }

    /// The next minor version, partial when this one is.
    pub fn bump_minor(&self) -> (r: Version)
        ensures
            r@ == with_partial(spec_next_minor(self@), self@.partial),
    {
        Self::keep_partial(self.next_minor(), self.partial)
    }

    /// The next patch version, partial when this one is.
    pub fn bump_patch(&self) -> (r: Version)
        ensures
            r@ == with_partial(spec_next_patch(self@), self@.partial),
    {
        Self::keep_partial(self.next_patch(), self.partial)
    }
}

} // verus!
