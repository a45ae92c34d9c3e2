//! A readable rendering of clauses, e.g.
//! `AllOf(Range('<', Version('2.0.0')), Range('>=', Version('1.0.0')))`.
//! The children of `AllOf` and `AnyOf` are listed in sorted order, so that
//! clauses that differ only in the order of their children render alike.

use vstd::prelude::*;

use crate::clause::{
    clauses_view, lemma_clauses_view, operator_text, BuildPolicy, Clause, ClauseView,
    PrereleasePolicy, Range, RangeView,
};
use crate::identifiers::{chars_compare, chars_order};
use crate::text::{append_chars, append_str, chars_of, string_of, texts_view};
use crate::version::version_text;

verus! {

pub open spec fn prerelease_policy_text(p: PrereleasePolicy) -> Seq<char> {
    match p {
        PrereleasePolicy::Natural => Seq::empty(),
        PrereleasePolicy::SamePatch => ", prerelease_policy='same-patch'"@,
        PrereleasePolicy::Always => ", prerelease_policy='always'"@,
    }
}

pub open spec fn build_policy_text(p: BuildPolicy) -> Seq<char> {
    match p {
        BuildPolicy::Implicit => Seq::empty(),
        BuildPolicy::Strict => ", build_policy='strict'"@,
    }
}

/// The rendering of a range; policies appear only when not the default.
pub open spec fn range_repr(r: RangeView) -> Seq<char> {
    "Range('"@ + operator_text(r.operator) + "', Version('"@ + version_text(r.target) + "')"@
        + prerelease_policy_text(r.prerelease_policy) + build_policy_text(r.build_policy) + ")"@
}

/// `x` put into the sorted `s` before the first element not less than it.
pub open spec fn sorted_insert(x: Seq<char>, s: Seq<Seq<char>>) -> Seq<Seq<char>>
    decreases s.len(),
{
    if s.len() == 0 {
        seq![x]
    } else if chars_order(x, s[0]) <= 0 {
        seq![x] + s
    } else {
        seq![s[0]] + sorted_insert(x, s.drop_first())
    }
}

/// `s` sorted by character order (insertion sort).
pub open spec fn sort_texts(s: Seq<Seq<char>>) -> Seq<Seq<char>>
    decreases s.len(),
{
    if s.len() == 0 {
        Seq::empty()
    } else {
        sorted_insert(s.last(), sort_texts(s.drop_last()))
    }
}

/// The pieces joined by `", "`.
pub open spec fn join_commas(parts: Seq<Seq<char>>) -> Seq<char>
    decreases parts.len(),
{
    if parts.len() == 0 {
        Seq::empty()
    } else if parts.len() == 1 {
        parts[0]
    } else {
        join_commas(parts.drop_last()) + ", "@ + parts.last()
    }
}

/// The rendering of a clause.
pub open spec fn clause_repr(c: ClauseView) -> Seq<char>
    decreases c, 0nat,
{
    match c {
        ClauseView::Always => "Always()"@,
        ClauseView::Never => "Never()"@,
        ClauseView::Range(r) => range_repr(r),
        ClauseView::AllOf(cs) => "AllOf("@ + join_commas(sort_texts(clause_reprs(cs))) + ")"@,
        ClauseView::AnyOf(cs) => "AnyOf("@ + join_commas(sort_texts(clause_reprs(cs))) + ")"@,
    }
}

/// The renderings of the clauses of `cs`, in order.
pub open spec fn clause_reprs(cs: Seq<ClauseView>) -> Seq<Seq<char>>
    decreases cs, 1nat,
{
    if cs.len() == 0 {
        Seq::empty()
    } else {
        clause_reprs(cs.drop_last()).push(clause_repr(cs.last()))
    }
}

/// Index of the first element of `s` not less than `x`.
pub open spec fn insert_index(x: Seq<char>, s: Seq<Seq<char>>) -> nat
    decreases s.len(),
{
    if s.len() == 0 {
        0
    } else if chars_order(x, s[0]) <= 0 {
        0
    } else {
        1 + insert_index(x, s.drop_first())
    }
}

proof fn lemma_sorted_insert(x: Seq<char>, s: Seq<Seq<char>>)
    ensures
        insert_index(x, s) <= s.len(),
        sorted_insert(x, s) == s.insert(insert_index(x, s) as int, x),
        forall|i: int| 0 <= i < insert_index(x, s) ==> chars_order(x, #[trigger] s[i]) > 0,
        insert_index(x, s) < s.len() ==> chars_order(x, s[insert_index(x, s) as int]) <= 0,
    decreases s.len(),
{
    if s.len() > 0 {
        lemma_sorted_insert(x, s.drop_first());
        if chars_order(x, s[0]) <= 0 {
            assert(seq![x] + s =~= s.insert(0, x));
        } else {
            let k = insert_index(x, s.drop_first()) as int;
            assert(seq![s[0]] + s.drop_first().insert(k, x) =~= s.insert(k + 1, x));
            assert forall|i: int| 0 <= i < insert_index(x, s) implies chars_order(x, #[trigger] s[i])
                > 0 by {
                if i > 0 {
                    assert(s[i] == s.drop_first()[i - 1]);
                }
            }
            if insert_index(x, s) < s.len() {
                assert(s[k + 1] == s.drop_first()[k]);
            }
        }
    }
}

fn range_repr_exec(r: &Range) -> (res: Vec<char>)
    ensures
        res@ == range_repr(r@),
{
    let mut out = chars_of("Range('");
    append_str(&mut out, r.operator.text());
    append_str(&mut out, "', Version('");
    let t = r.target.text();
    append_chars(&mut out, &t);
    append_str(&mut out, "')");
    match r.prerelease_policy {
        PrereleasePolicy::Natural => {
            assert(out@ =~= out@ + Seq::<char>::empty());
        },
        PrereleasePolicy::SamePatch => append_str(&mut out, ", prerelease_policy='same-patch'"),
        PrereleasePolicy::Always => append_str(&mut out, ", prerelease_policy='always'"),
    }
    match r.build_policy {
        BuildPolicy::Implicit => {
            assert(out@ =~= out@ + Seq::<char>::empty());
        },
        BuildPolicy::Strict => append_str(&mut out, ", build_policy='strict'"),
    }
    append_str(&mut out, ")");
    out
}

/// `texts` sorted by character order.
fn sort_exec(texts: Vec<Vec<char>>) -> (r: Vec<Vec<char>>)
    ensures
        texts_view(r@) == sort_texts(texts_view(texts@)),
{
    let ghost tv = texts_view(texts@);
    let mut out: Vec<Vec<char>> = Vec::new();
    let mut i: usize = 0;
    let mut texts = texts;
    assert(tv.take(0) =~= Seq::<Seq<char>>::empty());
    assert(texts_view(out@) =~= Seq::<Seq<char>>::empty());
    while i < texts.len()
        invariant
            i <= texts.len(),
            tv == texts_view(texts@),
            texts_view(out@) == sort_texts(tv.take(i as int)),
        decreases texts.len() - i,
    {
        let x = texts[i].clone();
        let ghost ov = texts_view(out@);
        proof {
            lemma_sorted_insert(tv[i as int], ov);
        }
        let mut k: usize = 0;
        while k < out.len() && chars_compare(&x, &out[k]) > 0
            invariant
                k <= out.len(),
                ov == texts_view(out@),
                x@ == tv[i as int],
                insert_index(x@, ov) <= ov.len(),
                forall|j: int| 0 <= j < insert_index(x@, ov) ==> chars_order(x@, #[trigger] ov[j]) > 0,
                insert_index(x@, ov) < ov.len() ==> chars_order(x@, ov[insert_index(x@, ov) as int]) <= 0,
                k <= insert_index(x@, ov),
            decreases out.len() - k,
        {
            proof {
                if k == insert_index(x@, ov) {
                    assert(ov[k as int] == out@[k as int]@);
                }
            }
            k = k + 1;
        }
        proof {
            if k < out.len() {
                assert(ov[k as int] == out@[k as int]@);
            }
            if k < insert_index(x@, ov) {
                assert(ov[k as int] == out@[k as int]@);
            }
            assert(k == insert_index(x@, ov));
        }
        out.insert(k, x);
        proof {
            assert(texts_view(out@) =~= ov.insert(k as int, tv[i as int]));
            assert(tv.take(i + 1).drop_last() =~= tv.take(i as int));
            assert(tv.take(i + 1).last() == tv[i as int]);
        }
        i = i + 1;
    }
    assert(tv.take(texts.len() as int) =~= tv);
    out
}

fn join_commas_exec(parts: &Vec<Vec<char>>) -> (r: Vec<char>)
    ensures
        r@ == join_commas(texts_view(parts@)),
{
    let ghost pv = texts_view(parts@);
    let mut out: Vec<char> = Vec::new();
    let mut i: usize = 0;
    assert(pv.take(0) =~= Seq::<Seq<char>>::empty());
    while i < parts.len()
        invariant
            i <= parts.len(),
            pv == texts_view(parts@),
            out@ == join_commas(pv.take(i as int)),
        decreases parts.len() - i,
    {
        proof {
            assert(pv.take(i + 1).drop_last() =~= pv.take(i as int));
            assert(pv.take(i + 1).last() == parts@[i as int]@);
        }
        if i > 0 {
            append_str(&mut out, ", ");
        } else {
            assert(pv.take(1)[0] == parts@[0]@);
        }
        append_chars(&mut out, &parts[i]);
        i = i + 1;
    }
    assert(pv.take(parts.len() as int) =~= pv);
    out
}

impl Clause {
    /// The rendering of this clause (see `clause_repr`).
    pub fn repr(&self) -> (r: String)
        ensures
            r@ == clause_repr(self@),
    {
        let v = self.repr_chars();
        string_of(&v)
    }

    fn repr_chars(&self) -> (r: Vec<char>)
        ensures
            r@ == clause_repr(self@),
        decreases self,
    {
        match self {
            Clause::Always => chars_of("Always()"),
            Clause::Never => chars_of("Never()"),
            Clause::Range(r) => range_repr_exec(r),
            Clause::AllOf(cs) => {
                let mut out = chars_of("AllOf(");
                let inner = Self::children_repr(cs);
                append_chars(&mut out, &inner);
                append_str(&mut out, ")");
                out
            },
            Clause::AnyOf(cs) => {
                let mut out = chars_of("AnyOf(");
                let inner = Self::children_repr(cs);
                append_chars(&mut out, &inner);
                append_str(&mut out, ")");
                out
            },
        }
    }

    fn children_repr(cs: &Vec<Clause>) -> (r: Vec<char>)
        ensures
            r@ == join_commas(sort_texts(clause_reprs(clauses_view(cs@)))),
        decreases cs,
    {
        proof {
            lemma_clauses_view(cs@);
        }
        let ghost cv = clauses_view(cs@);
        let mut texts: Vec<Vec<char>> = Vec::new();
        let mut i: usize = 0;
        assert(cv.take(0) =~= Seq::<ClauseView>::empty());
        assert(texts_view(texts@) =~= Seq::<Seq<char>>::empty());
        while i < cs.len()
            invariant
                i <= cs.len(),
                cv == clauses_view(cs@),
                cv.len() == cs@.len(),
                forall|j: int| 0 <= j < cs@.len() ==> #[trigger] cv[j] == cs@[j]@,
                texts_view(texts@) == clause_reprs(cv.take(i as int)),
            decreases cs.len() - i,
        {
            proof {
                assert(decreases_to!(cs => cs@[i as int]));
                assert(cv.take(i + 1).drop_last() =~= cv.take(i as int));
                assert(cv.take(i + 1).last() == cv[i as int]);
            }
            let t = cs[i].repr_chars();
            let ghost before = texts_view(texts@);
            texts.push(t);
            assert(texts_view(texts@) =~= before.push(clause_repr(cv[i as int])));
            i = i + 1;
        }
        assert(cv.take(cs.len() as int) =~= cv);
        let sorted = sort_exec(texts);
        join_commas_exec(&sorted)
    }
}

} // verus!
