//! Character-level helpers shared by the version and range parsers:
//! character classes, decimal numbers, splitting and joining, and the
//! conversions between `&str`, `String` and `Vec<char>`.

use vstd::prelude::*;

verus! {

// ---------------------------------------------------------------------------
// Character classes
// ---------------------------------------------------------------------------

/// An ASCII decimal digit.
pub open spec fn is_digit(c: char) -> bool {
    '0' <= c && c <= '9'
}

/// An ASCII letter or digit.
pub open spec fn is_alnum(c: char) -> bool {
    is_digit(c) || ('a' <= c && c <= 'z') || ('A' <= c && c <= 'Z')
}

/// A character allowed inside prerelease and build metadata: `[0-9a-zA-Z.-]`.
pub open spec fn is_ident_char(c: char) -> bool {
    is_alnum(c) || c == '.' || c == '-'
}

/// Every character of `s` is an ASCII digit.
pub open spec fn all_digits(s: Seq<char>) -> bool {
    forall|i: int| 0 <= i < s.len() ==> #[trigger] is_digit(s[i])
}

/// Every character of `s` belongs to `[0-9a-zA-Z.-]`.
pub open spec fn all_ident_chars(s: Seq<char>) -> bool {
    forall|i: int| 0 <= i < s.len() ==> #[trigger] is_ident_char(s[i])
}

/// A digit string of more than one character that starts with `0`.
pub open spec fn has_leading_zero(s: Seq<char>) -> bool {
    s.len() > 1 && s[0] == '0' && all_digits(s)
}

/// The characters Unicode classifies as `White_Space` (what `str::trim`
/// and `str::split_whitespace` skip).
pub open spec fn is_whitespace(c: char) -> bool {
    ||| ('\u{9}' <= c && c <= '\u{d}')
    ||| c == ' '
    ||| c == '\u{85}'
    ||| c == '\u{a0}'
    ||| c == '\u{1680}'
    ||| ('\u{2000}' <= c && c <= '\u{200a}')
    ||| c == '\u{2028}'
    ||| c == '\u{2029}'
    ||| c == '\u{202f}'
    ||| c == '\u{205f}'
    ||| c == '\u{3000}'
}

pub fn is_digit_char(c: char) -> (r: bool)
    ensures
        r == is_digit(c),
{
    '0' <= c && c <= '9'
}

pub fn is_alnum_char(c: char) -> (r: bool)
    ensures
        r == is_alnum(c),
{
    ('0' <= c && c <= '9') || ('a' <= c && c <= 'z') || ('A' <= c && c <= 'Z')
}

pub fn is_ident_char_exec(c: char) -> (r: bool)
    ensures
        r == is_ident_char(c),
{
    is_alnum_char(c) || c == '.' || c == '-'
}

pub fn is_whitespace_char(c: char) -> (r: bool)
    ensures
        r == is_whitespace(c),
{
    ('\u{9}' <= c && c <= '\u{d}') || c == ' ' || c == '\u{85}' || c == '\u{a0}'
        || c == '\u{1680}' || ('\u{2000}' <= c && c <= '\u{200a}') || c == '\u{2028}'
        || c == '\u{2029}' || c == '\u{202f}' || c == '\u{205f}' || c == '\u{3000}'
}

pub fn all_digits_exec(s: &Vec<char>) -> (r: bool)
    ensures
        r == all_digits(s@),
{
    let mut i: usize = 0;
    while i < s.len()
        invariant
            i <= s.len(),
            forall|j: int| 0 <= j < i ==> #[trigger] is_digit(s@[j]),
        decreases s.len() - i,
    {
        if !is_digit_char(s[i]) {
            return false;
        }
        i = i + 1;
    }
    true
}

pub fn all_ident_chars_exec(s: &Vec<char>) -> (r: bool)
    ensures
        r == all_ident_chars(s@),
{
    let mut i: usize = 0;
    while i < s.len()
        invariant
            i <= s.len(),
            forall|j: int| 0 <= j < i ==> #[trigger] is_ident_char(s@[j]),
        decreases s.len() - i,
    {
        if !is_ident_char_exec(s[i]) {
            return false;
        }
        i = i + 1;
    }
    true
}

pub fn has_leading_zero_exec(s: &Vec<char>) -> (r: bool)
    ensures
        r == has_leading_zero(s@),
{
    s.len() > 1 && s[0] == '0' && all_digits_exec(s)
}

// ---------------------------------------------------------------------------
// Decimal numbers
// ---------------------------------------------------------------------------

/// The value of an ASCII digit.
pub open spec fn digit_value(c: char) -> nat {
    (c as int - '0' as int) as nat
}

/// The digit character of `d < 10`.
pub open spec fn digit_char(d: nat) -> char {
    (('0' as int) + d) as char
}

/// The number that the decimal string `s` denotes (read most significant first).
pub open spec fn digits_value(s: Seq<char>) -> nat
    decreases s.len(),
{
    if s.len() == 0 {
        0
    } else {
        digits_value(s.drop_last()) * 10 + digit_value(s.last())
    }
}

/// The shortest decimal representation of `n`.
pub open spec fn decimal(n: nat) -> Seq<char>
    decreases n,
{
    if n < 10 {
        seq![digit_char(n)]
    } else {
        decimal(n / 10).push(digit_char(n % 10))
    }
}

/// A canonical decimal string: digits only, not empty, no superfluous `0` in front.
pub open spec fn is_canonical_decimal(s: Seq<char>) -> bool {
    s.len() > 0 && all_digits(s) && !has_leading_zero(s)
}

proof fn lemma_digit_char(d: nat)
    requires
        d < 10,
    ensures
        is_digit(digit_char(d)),
        digit_value(digit_char(d)) == d,
        digit_char(d) == '0' <==> d == 0,
{
}

proof fn lemma_char_of_digit(c: char)
    requires
        is_digit(c),
    ensures
        digit_value(c) < 10,
        digit_char(digit_value(c)) == c,
{
}

/// `decimal(n)` is a canonical decimal string and reads back as `n`.
pub proof fn lemma_decimal(n: nat)
    ensures
        is_canonical_decimal(decimal(n)),
        digits_value(decimal(n)) == n,
        n > 0 ==> decimal(n)[0] != '0',
    decreases n,
{
    if n < 10 {
        lemma_digit_char(n);
        let s = decimal(n);
        assert(s.drop_last() =~= Seq::<char>::empty());
        assert(digits_value(s.drop_last()) == 0);
    } else {
        lemma_decimal(n / 10);
        lemma_digit_char(n % 10);
        let s = decimal(n);
        let p = decimal(n / 10);
        assert(s.drop_last() =~= p);
        lemma_digits_value_push(p, digit_char(n % 10));
        assert(n == (n / 10) * 10 + n % 10);
        assert(s[0] == p[0]);
        assert forall|i: int| 0 <= i < s.len() implies #[trigger] is_digit(s[i]) by {
            if i < p.len() {
                assert(s[i] == p[i]);
            }
        }
    }
}

proof fn lemma_value_positive(s: Seq<char>)
    requires
        s.len() > 0,
        all_digits(s),
        s[0] != '0',
    ensures
        digits_value(s) >= 1,
        s.len() >= 2 ==> digits_value(s) >= 10,
    decreases s.len(),
{
    if s.len() == 1 {
        assert(s.drop_last() =~= Seq::<char>::empty());
        assert(digits_value(s.drop_last()) == 0);
        assert(s.last() == s[0]);
        assert(is_digit(s[0]));
    } else {
        let p = s.drop_last();
        assert(p[0] == s[0]);
        assert(all_digits(p)) by {
            assert forall|i: int| 0 <= i < p.len() implies #[trigger] is_digit(p[i]) by {
                assert(p[i] == s[i]);
            }
        }
        lemma_value_positive(p);
    }
}

/// A canonical decimal string is the decimal representation of its value.
pub proof fn lemma_canonical_decimal(s: Seq<char>)
    requires
        is_canonical_decimal(s),
    ensures
        decimal(digits_value(s)) == s,
    decreases s.len(),
{
    let v = digits_value(s);
    let p = s.drop_last();
    assert(is_digit(s[s.len() - 1]));
    lemma_char_of_digit(s.last());
    if s.len() == 1 {
        assert(p =~= Seq::<char>::empty());
        assert(digits_value(p) == 0);
        assert(v == digit_value(s.last()));
        assert(decimal(v) =~= s);
    } else {
        assert(all_digits(p)) by {
            assert forall|i: int| 0 <= i < p.len() implies #[trigger] is_digit(p[i]) by {
                assert(p[i] == s[i]);
            }
        }
        assert(p[0] == s[0]);
        assert(s[0] != '0');
        lemma_value_positive(p);
        assert(is_canonical_decimal(p));
        lemma_canonical_decimal(p);
        let d = digit_value(s.last());
        assert(v == digits_value(p) * 10 + d);
        assert(v >= 10);
        assert(v / 10 == digits_value(p) && v % 10 == d) by (nonlinear_arith)
            requires
                v == digits_value(p) * 10 + d,
                d < 10,
        ;
        assert(decimal(v) == decimal(v / 10).push(digit_char(v % 10)));
        assert(decimal(v) =~= s);
    }
}

proof fn lemma_digits_value_push(s: Seq<char>, c: char)
    ensures
        digits_value(s.push(c)) == digits_value(s) * 10 + digit_value(c),
{
    assert(s.push(c).drop_last() =~= s);
}

/// Reads the decimal number in `s`; `None` when it does not fit in a `u64`.
pub fn parse_u64(s: &Vec<char>) -> (r: Option<u64>)
    requires
        all_digits(s@),
    ensures
        r matches Some(v) ==> v == digits_value(s@),
        r is None <==> digits_value(s@) > u64::MAX,
{
    let mut acc: u64 = 0;
    let mut overflow = false;
    let mut i: usize = 0;
    while i < s.len()
        invariant
            i <= s.len(),
            all_digits(s@),
            !overflow ==> acc == digits_value(s@.take(i as int)),
            overflow ==> digits_value(s@.take(i as int)) > u64::MAX,
        decreases s.len() - i,
    {
        let c = s[i];
        assert(is_digit(s@[i as int]));
        let d: u64 = ((c as u32) - ('0' as u32)) as u64;
        proof {
            assert(s@.take(i + 1) =~= s@.take(i as int).push(c));
            lemma_digits_value_push(s@.take(i as int), c);
        }
        if !overflow {
            if acc > (u64::MAX - d) / 10 {
                overflow = true;
                assert(acc * 10 + d > u64::MAX) by (nonlinear_arith)
                    requires
                        acc > (u64::MAX - d) / 10,
                        d < 10,
                ;
            } else {
                assert(acc * 10 + d <= u64::MAX) by (nonlinear_arith)
                    requires
                        acc <= (u64::MAX - d) / 10,
                        d < 10,
                ;
                acc = acc * 10 + d;
            }
        }
        i = i + 1;
    }
    assert(s@.take(s.len() as int) =~= s@);
    if overflow {
        None
    } else {
        Some(acc)
    }
}

fn digit_to_char(d: u64) -> (c: char)
    requires
        d < 10,
    ensures
        c == digit_char(d as nat),
{
    let b: u8 = 48u8 + (d as u8);
    b as char
}

/// Appends the decimal representation of `n` to `out`.
pub fn push_decimal(out: &mut Vec<char>, n: u64)
    ensures
        final(out)@ == old(out)@ + decimal(n as nat),
    decreases n,
{
    if n >= 10 {
        push_decimal(out, n / 10);
    }
    let c = digit_to_char(n % 10);
    out.push(c);
    proof {
        if n >= 10 {
            assert(decimal(n as nat) == decimal((n / 10) as nat).push(digit_char((n % 10) as nat)));
        } else {
            assert(decimal(n as nat) == seq![digit_char(n as nat)]);
        }
    }
    assert(out@ =~= old(out)@ + decimal(n as nat));
}

// ---------------------------------------------------------------------------
// Searching, splitting, joining
// ---------------------------------------------------------------------------

/// Number of characters of `s` before the first `c` (the whole length if none).
pub open spec fn index_of_char(s: Seq<char>, c: char) -> nat
    decreases s.len(),
{
    if s.len() == 0 {
        0
    } else if s[0] == c {
        0
    } else {
        1 + index_of_char(s.drop_first(), c)
    }
}

/// Number of leading ASCII digits of `s`.
pub open spec fn digit_run(s: Seq<char>) -> nat
    decreases s.len(),
{
    if s.len() == 0 {
        0
    } else if !is_digit(s[0]) {
        0
    } else {
        1 + digit_run(s.drop_first())
    }
}

pub proof fn lemma_index_of_char(s: Seq<char>, c: char)
    ensures
        index_of_char(s, c) <= s.len(),
        forall|i: int| 0 <= i < index_of_char(s, c) ==> s[i] != c,
        index_of_char(s, c) < s.len() ==> s[index_of_char(s, c) as int] == c,
    decreases s.len(),
{
    if s.len() > 0 && s[0] != c {
        lemma_index_of_char(s.drop_first(), c);
        assert forall|i: int| 0 <= i < index_of_char(s, c) implies s[i] != c by {
            if i > 0 {
                assert(s[i] == s.drop_first()[i - 1]);
            }
        }
    }
}

pub proof fn lemma_digit_run(s: Seq<char>)
    ensures
        digit_run(s) <= s.len(),
        all_digits(s.take(digit_run(s) as int)),
        digit_run(s) < s.len() ==> !is_digit(s[digit_run(s) as int]),
    decreases s.len(),
{
    if s.len() > 0 && is_digit(s[0]) {
        lemma_digit_run(s.drop_first());
        let k = digit_run(s) as int;
        assert forall|i: int| 0 <= i < k implies #[trigger] is_digit(s.take(k)[i]) by {
            if i > 0 {
                assert(s.take(k)[i] == s.drop_first().take(k - 1)[i - 1]);
            }
        }
    } else {
        assert(s.take(0) =~= Seq::<char>::empty());
    }
}

/// The pieces of `s` between occurrences of `c`, as `str::split` yields them.
pub open spec fn split_on(s: Seq<char>, c: char) -> Seq<Seq<char>>
    decreases s.len(),
{
    let k = index_of_char(s, c);
    if k >= s.len() {
        seq![s]
    } else {
        seq![s.take(k as int)] + split_on(s.skip(k + 1int), c)
    }
}

/// The pieces of `parts` joined with `c` between them.
pub open spec fn join_with(parts: Seq<Seq<char>>, c: char) -> Seq<char>
    decreases parts.len(),
{
    if parts.len() == 0 {
        Seq::empty()
    } else if parts.len() == 1 {
        parts[0]
    } else {
        parts[0] + seq![c] + join_with(parts.drop_first(), c)
    }
}

/// Splitting then joining with the same separator gives the input back.
pub proof fn lemma_join_split(s: Seq<char>, c: char)
    ensures
        join_with(split_on(s, c), c) == s,
        split_on(s, c).len() >= 1,
    decreases s.len(),
{
    lemma_index_of_char(s, c);
    let k = index_of_char(s, c);
    if k < s.len() {
        let rest = s.skip(k + 1int);
        lemma_join_split(rest, c);
        let parts = split_on(s, c);
        assert(parts.drop_first() =~= split_on(rest, c));
        assert(parts[0] == s.take(k as int));
        assert(s =~= s.take(k as int) + seq![c] + rest);
    }
}

/// No piece of `split_on(s, c)` contains `c`.
pub proof fn lemma_split_pieces(s: Seq<char>, c: char)
    ensures
        forall|i: int, j: int|
            0 <= i < split_on(s, c).len() && 0 <= j < split_on(s, c)[i].len() ==> split_on(
                s,
                c,
            )[i][j] != c,
    decreases s.len(),
{
    lemma_index_of_char(s, c);
    let k = index_of_char(s, c);
    if k < s.len() {
        lemma_split_pieces(s.skip(k + 1int), c);
        let parts = split_on(s, c);
        assert forall|i: int, j: int|
            0 <= i < parts.len() && 0 <= j < parts[i].len() implies parts[i][j] != c by {
            if i > 0 {
                assert(parts[i] == split_on(s.skip(k + 1int), c)[i - 1]);
            }
        }
    }
}

// ---------------------------------------------------------------------------
// Conversions between `&str`, `String` and `Vec<char>`
// ---------------------------------------------------------------------------

/// Appends one character to a `String` (`String::push`).
#[verifier::external_body]
pub(crate) fn push_char(s: &mut String, c: char)
    ensures
        final(s)@ == old(s)@.push(c),
{
    s.push(c);
}

/// The characters of `s`.
pub fn chars_of(s: &str) -> (r: Vec<char>)
    ensures
        r@ == s@,
{
    let n = s.unicode_len();
    let mut v: Vec<char> = Vec::new();
    let mut i: usize = 0;
    while i < n
        invariant
            n == s@.len(),
            i <= n,
            v@ == s@.take(i as int),
        decreases n - i,
    {
        let c = s.get_char(i);
        v.push(c);
        i = i + 1;
        assert(v@ =~= s@.take(i as int));
    }
    assert(s@.take(n as int) =~= s@);
    v
}

/// A `String` holding the characters of `v`.
pub fn string_of(v: &Vec<char>) -> (r: String)
    ensures
        r@ == v@,
{
    let mut s = String::new();
    let mut i: usize = 0;
    while i < v.len()
        invariant
            i <= v.len(),
            s@ == v@.take(i as int),
        decreases v.len() - i,
    {
        push_char(&mut s, v[i]);
        i = i + 1;
        assert(s@ =~= v@.take(i as int));
    }
    assert(v@.take(v.len() as int) =~= v@);
    s
}

/// The characters of `s` from `lo` up to `hi`.
pub fn sub_chars(s: &Vec<char>, lo: usize, hi: usize) -> (r: Vec<char>)
    requires
        lo <= hi <= s.len(),
    ensures
        r@ == s@.subrange(lo as int, hi as int),
{
    let mut v: Vec<char> = Vec::new();
    let mut i: usize = lo;
    while i < hi
        invariant
            lo <= i <= hi <= s.len(),
            v@ == s@.subrange(lo as int, i as int),
        decreases hi - i,
    {
        v.push(s[i]);
        i = i + 1;
        assert(v@ =~= s@.subrange(lo as int, i as int));
    }
    v
}

/// Appends the characters of `v` to `s`.
pub fn append_chars(out: &mut Vec<char>, v: &Vec<char>)
    ensures
        final(out)@ == old(out)@ + v@,
{
    let mut i: usize = 0;
    while i < v.len()
        invariant
            i <= v.len(),
            out@ == old(out)@ + v@.take(i as int),
        decreases v.len() - i,
    {
        out.push(v[i]);
        i = i + 1;
        assert(out@ =~= old(out)@ + v@.take(i as int));
    }
    assert(v@.take(v.len() as int) =~= v@);
}

/// Appends the characters of `s` to `out`.
pub fn append_str(out: &mut Vec<char>, s: &str)
    ensures
        final(out)@ == old(out)@ + s@,
{
    let v = chars_of(s);
    append_chars(out, &v);
}

/// Equality of two character vectors.
pub fn chars_eq(a: &Vec<char>, b: &Vec<char>) -> (r: bool)
    ensures
        r == (a@ == b@),
{
    if a.len() != b.len() {
        return false;
    }
    let mut i: usize = 0;
    while i < a.len()
        invariant
            a.len() == b.len(),
            i <= a.len(),
            forall|j: int| 0 <= j < i ==> a@[j] == b@[j],
        decreases a.len() - i,
    {
        if a[i] != b[i] {
            return false;
        }
        i = i + 1;
    }
    assert(a@ =~= b@);
    true
}

/// First index `>= from` at which `c` occurs, or `s.len()`.
pub fn find_char(s: &Vec<char>, from: usize, c: char) -> (r: usize)
    requires
        from <= s.len(),
    ensures
        r == from + index_of_char(s@.skip(from as int), c),
        from <= r <= s.len(),
{
    let mut i: usize = from;
    proof {
        lemma_index_of_char(s@.skip(from as int), c);
    }
    while i < s.len() && s[i] != c
        invariant
            from <= i <= s.len(),
            forall|j: int| from <= j < i ==> s@[j] != c,
            index_of_char(s@.skip(from as int), c) <= s.len() - from,
            from + index_of_char(s@.skip(from as int), c) >= i,
        decreases s.len() - i,
    {
        proof {
            lemma_index_of_char(s@.skip(from as int), c);
            let k = index_of_char(s@.skip(from as int), c) as int;
            if from + k == i {
                assert(s@.skip(from as int)[k] == s@[i as int]);
            }
        }
        i = i + 1;
    }
    proof {
        lemma_index_of_char(s@.skip(from as int), c);
        let k = index_of_char(s@.skip(from as int), c) as int;
        if from + k > i {
            assert(s@.skip(from as int)[i - from] == s@[i as int]);
        }
    }
    i
}

/// Number of ASCII digits of `s` starting at `from`.
pub fn digit_run_at(s: &Vec<char>, from: usize) -> (r: usize)
    requires
        from <= s.len(),
    ensures
        r == digit_run(s@.skip(from as int)),
        from + r <= s.len(),
{
    let mut i: usize = from;
    proof {
        lemma_digit_run(s@.skip(from as int));
    }
    while i < s.len() && is_digit_char(s[i])
        invariant
            from <= i <= s.len(),
            forall|j: int| from <= j < i ==> is_digit(#[trigger] s@[j]),
            from + digit_run(s@.skip(from as int)) >= i,
            digit_run(s@.skip(from as int)) <= s.len() - from,
        decreases s.len() - i,
    {
        proof {
            lemma_digit_run(s@.skip(from as int));
            let k = digit_run(s@.skip(from as int)) as int;
            if from + k == i {
                assert(s@.skip(from as int)[k] == s@[i as int]);
            }
        }
        i = i + 1;
    }
    proof {
        lemma_digit_run(s@.skip(from as int));
        let k = digit_run(s@.skip(from as int)) as int;
        if from + k > i {
            assert(s@.skip(from as int).take(k)[i - from] == s@[i as int]);
        }
    }
    i - from
}


/// Joining one more piece appends the separator and the piece.
pub proof fn lemma_join_push(parts: Seq<Seq<char>>, x: Seq<char>, c: char)
    ensures
        join_with(parts.push(x), c) == if parts.len() == 0 {
            x
        } else {
            join_with(parts, c) + seq![c] + x
        },
    decreases parts.len(),
{
    if parts.len() == 0 {
    } else if parts.len() == 1 {
        assert(parts.push(x).drop_first() =~= seq![x]);
        assert(join_with(seq![x], c) == x);
        assert(parts.push(x)[0] == parts[0]);
    } else {
        lemma_join_push(parts.drop_first(), x, c);
        assert(parts.push(x).drop_first() =~= parts.drop_first().push(x));
        assert(parts.push(x)[0] == parts[0]);
        assert(join_with(parts.push(x), c) == parts[0] + seq![c] + join_with(parts.drop_first().push(x), c));
        assert(join_with(parts.push(x), c) =~= join_with(parts, c) + seq![c] + x);
    }
}

/// The views of a vector of character vectors.
pub open spec fn texts_view(v: Seq<Vec<char>>) -> Seq<Seq<char>> {
    v.map_values(|t: Vec<char>| t@)
}

/// Appends the pieces of `texts` to `out`, with `c` between consecutive ones.
pub fn push_joined(out: &mut Vec<char>, texts: &Vec<Vec<char>>, c: char)
    ensures
        final(out)@ == old(out)@ + join_with(texts_view(texts@), c),
{
    let ghost start = out@;
    let mut i: usize = 0;
    while i < texts.len()
        invariant
            i <= texts.len(),
            out@ == start + join_with(texts_view(texts@.take(i as int)), c),
        decreases texts.len() - i,
    {
        proof {
            lemma_join_push(texts_view(texts@.take(i as int)), texts@[i as int]@, c);
            assert(texts_view(texts@.take(i + 1)) =~= texts_view(texts@.take(i as int)).push(
                texts@[i as int]@,
            ));
        }
        if i > 0 {
            out.push(c);
        }
        append_chars(out, &texts[i]);
        proof {
            if i == 0 {
                assert(texts_view(texts@.take(0)) =~= Seq::<Seq<char>>::empty());
                assert(join_with(Seq::<Seq<char>>::empty(), c) =~= Seq::<char>::empty());
            }
        }
        i = i + 1;
        assert(out@ =~= start + join_with(texts_view(texts@.take(i as int)), c));
    }
    assert(texts@.take(texts.len() as int) =~= texts@);
}
/// One step of splitting from `pos`: the first piece and the rest.
pub proof fn lemma_split_step(s: Seq<char>, pos: int, c: char)
    requires
        0 <= pos <= s.len(),
        index_of_char(s.skip(pos), c) < s.skip(pos).len(),
    ensures
        ({
            let k = index_of_char(s.skip(pos), c) as int;
            &&& split_on(s.skip(pos), c)[0] == s.subrange(pos, pos + k)
            &&& split_on(s.skip(pos), c).drop_first() == split_on(s.skip(pos + k + 1), c)
            &&& pos + k < s.len()
            &&& s[pos + k] == c
        }),
{
    let t = s.skip(pos);
    let k = index_of_char(t, c) as int;
    lemma_index_of_char(t, c);
    assert(t.skip(k + 1) =~= s.skip(pos + k + 1));
    assert(t.take(k) =~= s.subrange(pos, pos + k));
    assert(split_on(t, c) == seq![t.take(k)] + split_on(t.skip(k + 1), c));
    assert(split_on(t, c).drop_first() =~= split_on(t.skip(k + 1), c));
    assert(t[k] == s[pos + k]);
}

/// The last step of splitting from `pos`: one piece to the end.
pub proof fn lemma_split_last(s: Seq<char>, pos: int, c: char)
    requires
        0 <= pos <= s.len(),
        index_of_char(s.skip(pos), c) >= s.skip(pos).len(),
    ensures
        split_on(s.skip(pos), c) == seq![s.subrange(pos, s.len() as int)],
{
    assert(s.skip(pos) =~= s.subrange(pos, s.len() as int));
}

/// The pieces of `s` between occurrences of `c` (`str::split`).
pub fn split_chars(s: &Vec<char>, c: char) -> (r: Vec<Vec<char>>)
    ensures
        texts_view(r@) == split_on(s@, c),
{
    let mut out: Vec<Vec<char>> = Vec::new();
    let mut pos: usize = 0;
    let ghost all = split_on(s@, c);
    assert(s@.skip(0) =~= s@);
    assert(texts_view(out@) =~= all.take(0));
    loop
        invariant
            pos <= s.len(),
            all == split_on(s@, c),
            out@.len() <= all.len(),
            all == all.take(out@.len() as int) + split_on(s@.skip(pos as int), c),
            texts_view(out@) == all.take(out@.len() as int),
        decreases s.len() - pos,
    {
        let k = find_char(s, pos, c);
        let part = sub_chars(s, pos, k);
        let ghost parts = split_on(s@.skip(pos as int), c);
        let ghost n = out@.len() as int;
        proof {
            if k < s.len() {
                lemma_split_step(s@, pos as int, c);
            } else {
                lemma_split_last(s@, pos as int, c);
            }
            assert(parts[0] == part@);
            assert(all[n] == parts[0]);
        }
        let ghost old_views = texts_view(out@);
        out.push(part);
        proof {
            assert(texts_view(out@) =~= old_views.push(part@));
            assert(all.take(n + 1) =~= all.take(n).push(all[n]));
        }
        if k == s.len() {
            proof {
                assert(parts.len() == 1);
                assert(all.len() == n + 1);
                assert(all.take(n + 1) =~= all);
            }
            return out;
        }
        proof {
            assert(all =~= all.take(n + 1) + split_on(s@.skip(k + 1), c)) by {
                assert(parts =~= seq![parts[0]] + parts.drop_first());
            }
        }
        pos = k + 1;
    }
}

// ---------------------------------------------------------------------------
// Trimming, splitting on a pattern, splitting on white space
// ---------------------------------------------------------------------------

/// `s` without its leading white space.
pub open spec fn trim_start(s: Seq<char>) -> Seq<char>
    decreases s.len(),
{
    if s.len() > 0 && is_whitespace(s[0]) {
        trim_start(s.drop_first())
    } else {
        s
    }
}

/// `s` without its trailing white space.
pub open spec fn trim_end(s: Seq<char>) -> Seq<char>
    decreases s.len(),
{
    if s.len() > 0 && is_whitespace(s.last()) {
        trim_end(s.drop_last())
    } else {
        s
    }
}

/// `s` without leading and trailing white space (`str::trim`).
pub open spec fn trim(s: Seq<char>) -> Seq<char> {
    trim_end(trim_start(s))
}

/// The characters of `v` without leading and trailing white space.
pub fn trim_chars(v: &Vec<char>) -> (r: Vec<char>)
    ensures
        r@ == trim(v@),
{
    let mut lo: usize = 0;
    assert(v@.skip(0) =~= v@);
    while lo < v.len() && is_whitespace_char(v[lo])
        invariant
            lo <= v.len(),
            trim_start(v@) == trim_start(v@.skip(lo as int)),
        decreases v.len() - lo,
    {
        assert(v@.skip(lo as int).drop_first() =~= v@.skip(lo + 1));
        lo = lo + 1;
    }
    let t = sub_chars(v, lo, v.len());
    assert(t@ =~= v@.skip(lo as int));
    let mut hi: usize = t.len();
    assert(t@.take(hi as int) =~= t@);
    while hi > 0 && is_whitespace_char(t[hi - 1])
        invariant
            hi <= t.len(),
            trim_end(t@) == trim_end(t@.take(hi as int)),
        decreases hi,
    {
        assert(t@.take(hi as int).drop_last() =~= t@.take(hi - 1));
        hi = hi - 1;
    }
    let r = sub_chars(&t, 0, hi);
    assert(r@ =~= t@.take(hi as int));
    r
}

/// Index of the first occurrence of `pat` in `s`, or `s.len()`.
pub open spec fn index_of_seq(s: Seq<char>, pat: Seq<char>) -> nat
    decreases s.len(),
{
    if s.len() < pat.len() {
        s.len()
    } else if s.take(pat.len() as int) == pat {
        0
    } else if s.len() == 0 {
        0
    } else {
        1 + index_of_seq(s.drop_first(), pat)
    }
}

/// The pieces of `s` between occurrences of `pat` (`str::split` with a
/// non-empty pattern).
pub open spec fn split_seq(s: Seq<char>, pat: Seq<char>) -> Seq<Seq<char>>
    decreases s.len(),
{
    let k = index_of_seq(s, pat);
    if pat.len() == 0 || k + pat.len() > s.len() {
        seq![s]
    } else {
        seq![s.take(k as int)] + split_seq(s.skip((k + pat.len()) as int), pat)
    }
}

/// First index `>= from` at which `pat` occurs, or `s.len()`.
pub fn find_seq(s: &Vec<char>, from: usize, pat: &Vec<char>) -> (r: usize)
    requires
        from <= s.len(),
        pat.len() > 0,
    ensures
        r == from + index_of_seq(s@.skip(from as int), pat@),
        from <= r <= s.len(),
        r < s.len() ==> r + pat.len() <= s.len() && s@.subrange(r as int, r + pat.len()) == pat@,
{
    let mut q: usize = from;
    while q <= s.len()
        invariant
            from <= q <= s.len(),
            pat.len() > 0,
            from + index_of_seq(s@.skip(from as int), pat@) == q + index_of_seq(
                s@.skip(q as int),
                pat@,
            ),
        decreases s.len() - q,
    {
        let rest = s.len() - q;
        if rest < pat.len() {
            return s.len();
        }
        let w = sub_chars(s, q, q + pat.len());
        assert(w@ =~= s@.skip(q as int).take(pat.len() as int));
        if chars_eq(&w, pat) {
            return q;
        }
        assert(s@.skip(q as int).drop_first() =~= s@.skip(q + 1));
        q = q + 1;
    }
    s.len()
}

/// The pieces of `v` between occurrences of `pat`.
pub fn split_on_seq(v: &Vec<char>, pat: &Vec<char>) -> (r: Vec<Vec<char>>)
    requires
        pat.len() > 0,
    ensures
        texts_view(r@) == split_seq(v@, pat@),
{
    let mut out: Vec<Vec<char>> = Vec::new();
    let mut pos: usize = 0;
    let ghost all = split_seq(v@, pat@);
    assert(v@.skip(0) =~= v@);
    assert(texts_view(out@) =~= all.take(0));
    loop
        invariant
            pos <= v.len(),
            pat.len() > 0,
            all == split_seq(v@, pat@),
            out@.len() <= all.len(),
            all == all.take(out@.len() as int) + split_seq(v@.skip(pos as int), pat@),
            texts_view(out@) == all.take(out@.len() as int),
        decreases v.len() - pos,
    {
        let k = find_seq(v, pos, pat);
        let ghost t = v@.skip(pos as int);
        let ghost n = out@.len() as int;
        let part = sub_chars(v, pos, k);
        let ghost old_views = texts_view(out@);
        if k >= v.len() {
            proof {
                assert(split_seq(t, pat@) == seq![t]);
                assert(part@ =~= t);
                assert(all.len() == n + 1);
            }
            out.push(part);
            proof {
                assert(texts_view(out@) =~= old_views.push(part@));
                assert(all.take(n + 1) =~= all);
            }
            return out;
        }
        proof {
            let kk = k - pos;
            assert(kk == index_of_seq(t, pat@));
            assert(t.take(kk) =~= part@);
            assert(t.skip(kk + pat.len()) =~= v@.skip(k + pat.len()));
            assert(split_seq(t, pat@) == seq![part@] + split_seq(v@.skip(k + pat.len()), pat@));
            assert(all[n] == part@);
        }
        out.push(part);
        proof {
            assert(texts_view(out@) =~= old_views.push(part@));
            assert(all.take(n + 1) =~= all.take(n).push(all[n]));
            assert(all =~= all.take(n + 1) + split_seq(v@.skip(k + pat.len()), pat@));
        }
        pos = k + pat.len();
    }
}

/// Number of characters before the first white space of `s`.
pub open spec fn nonspace_run(s: Seq<char>) -> nat
    decreases s.len(),
{
    if s.len() > 0 && !is_whitespace(s[0]) {
        1 + nonspace_run(s.drop_first())
    } else {
        0
    }
}

/// The maximal runs of non-white-space characters of `s`
/// (`str::split_whitespace`).
pub open spec fn words(s: Seq<char>) -> Seq<Seq<char>>
    decreases s.len(),
{
    if s.len() == 0 {
        Seq::empty()
    } else if is_whitespace(s[0]) {
        words(s.drop_first())
    } else {
        let n = nonspace_run(s);
        if n == 0 || n > s.len() {
            Seq::empty()
        } else {
            seq![s.take(n as int)] + words(s.skip(n as int))
        }
    }
}

proof fn lemma_nonspace_run(s: Seq<char>)
    ensures
        nonspace_run(s) <= s.len(),
        forall|i: int| 0 <= i < nonspace_run(s) ==> !is_whitespace(#[trigger] s[i]),
        nonspace_run(s) < s.len() ==> is_whitespace(s[nonspace_run(s) as int]),
    decreases s.len(),
{
    if s.len() > 0 && !is_whitespace(s[0]) {
        lemma_nonspace_run(s.drop_first());
        assert forall|i: int| 0 <= i < nonspace_run(s) implies !is_whitespace(#[trigger] s[i]) by {
            if i > 0 {
                assert(s[i] == s.drop_first()[i - 1]);
            }
        }
        if nonspace_run(s) < s.len() {
            assert(s[nonspace_run(s) as int] == s.drop_first()[nonspace_run(s) - 1]);
        }
    }
}

/// The words of `v`, as `str::split_whitespace` gives them.
pub fn split_words(v: &Vec<char>) -> (r: Vec<Vec<char>>)
    ensures
        texts_view(r@) == words(v@),
{
    let mut out: Vec<Vec<char>> = Vec::new();
    let mut pos: usize = 0;
    let ghost all = words(v@);
    assert(v@.skip(0) =~= v@);
    assert(texts_view(out@) =~= Seq::<Seq<char>>::empty());
    while pos < v.len()
        invariant
            pos <= v.len(),
            all == words(v@),
            all == texts_view(out@) + words(v@.skip(pos as int)),
        decreases v.len() - pos,
    {
        let ghost t = v@.skip(pos as int);
        if is_whitespace_char(v[pos]) {
            assert(t.drop_first() =~= v@.skip(pos + 1));
            pos = pos + 1;
        } else {
            let mut e: usize = pos;
            while e < v.len() && !is_whitespace_char(v[e])
                invariant
                    pos <= e <= v.len(),
                    forall|i: int| pos <= i < e ==> !is_whitespace(#[trigger] v@[i]),
                decreases v.len() - e,
            {
                e = e + 1;
            }
            proof {
                lemma_nonspace_run(t);
                let n = nonspace_run(t) as int;
                if n < e - pos {
                    assert(t[n] == v@[pos + n]);
                }
                if n > e - pos {
                    assert(t[e - pos] == v@[e as int]);
                }
                assert(n == e - pos);
            }
            let w = sub_chars(v, pos, e);
            let ghost old_views = texts_view(out@);
            proof {
                assert(w@ =~= t.take(e - pos));
                assert(t.skip(e - pos) =~= v@.skip(e as int));
            }
            out.push(w);
            proof {
                assert(texts_view(out@) =~= old_views.push(w@));
                assert(old_views.push(w@) + words(v@.skip(e as int)) =~= old_views + (seq![w@]
                    + words(v@.skip(e as int))));
            }
            pos = e;
        }
    }
    assert(v@.skip(pos as int) =~= Seq::<char>::empty());
    assert(texts_view(out@) + Seq::<Seq<char>>::empty() =~= texts_view(out@));
    out
}

/// The number of `0` characters at the start of `s`.
pub open spec fn zero_run(s: Seq<char>) -> nat
    decreases s.len(),
{
    if s.len() > 0 && s[0] == '0' {
        1 + zero_run(s.drop_first())
    } else {
        0
    }
}

// ---------------------------------------------------------------------------
// Decimal digits of any script
// ---------------------------------------------------------------------------

/// A decimal digit of any script: Unicode's `Nd` category (Unicode 16.0), the
/// characters that a Unicode-aware `\d` matches. The ASCII digits are among them.
pub open spec fn is_decimal_digit(c: char) -> bool {
    let n = c as u32;
    ||| 0x30 <= n <= 0x39
    ||| 0x660 <= n <= 0x669
    ||| 0x6F0 <= n <= 0x6F9
    ||| 0x7C0 <= n <= 0x7C9
    ||| 0x966 <= n <= 0x96F
    ||| 0x9E6 <= n <= 0x9EF
    ||| 0xA66 <= n <= 0xA6F
    ||| 0xAE6 <= n <= 0xAEF
    ||| 0xB66 <= n <= 0xB6F
    ||| 0xBE6 <= n <= 0xBEF
    ||| 0xC66 <= n <= 0xC6F
    ||| 0xCE6 <= n <= 0xCEF
    ||| 0xD66 <= n <= 0xD6F
    ||| 0xDE6 <= n <= 0xDEF
    ||| 0xE50 <= n <= 0xE59
    ||| 0xED0 <= n <= 0xED9
    ||| 0xF20 <= n <= 0xF29
    ||| 0x1040 <= n <= 0x1049
    ||| 0x1090 <= n <= 0x1099
    ||| 0x17E0 <= n <= 0x17E9
    ||| 0x1810 <= n <= 0x1819
    ||| 0x1946 <= n <= 0x194F
    ||| 0x19D0 <= n <= 0x19D9
    ||| 0x1A80 <= n <= 0x1A89
    ||| 0x1A90 <= n <= 0x1A99
    ||| 0x1B50 <= n <= 0x1B59
    ||| 0x1BB0 <= n <= 0x1BB9
    ||| 0x1C40 <= n <= 0x1C49
    ||| 0x1C50 <= n <= 0x1C59
    ||| 0xA620 <= n <= 0xA629
    ||| 0xA8D0 <= n <= 0xA8D9
    ||| 0xA900 <= n <= 0xA909
    ||| 0xA9D0 <= n <= 0xA9D9
    ||| 0xA9F0 <= n <= 0xA9F9
    ||| 0xAA50 <= n <= 0xAA59
    ||| 0xABF0 <= n <= 0xABF9
    ||| 0xFF10 <= n <= 0xFF19
    ||| 0x104A0 <= n <= 0x104A9
    ||| 0x10D30 <= n <= 0x10D39
    ||| 0x10D40 <= n <= 0x10D49
    ||| 0x11066 <= n <= 0x1106F
    ||| 0x110F0 <= n <= 0x110F9
    ||| 0x11136 <= n <= 0x1113F
    ||| 0x111D0 <= n <= 0x111D9
    ||| 0x112F0 <= n <= 0x112F9
    ||| 0x11450 <= n <= 0x11459
    ||| 0x114D0 <= n <= 0x114D9
    ||| 0x11650 <= n <= 0x11659
    ||| 0x116C0 <= n <= 0x116C9
    ||| 0x116D0 <= n <= 0x116E3
    ||| 0x11730 <= n <= 0x11739
    ||| 0x118E0 <= n <= 0x118E9
    ||| 0x11950 <= n <= 0x11959
    ||| 0x11BF0 <= n <= 0x11BF9
    ||| 0x11C50 <= n <= 0x11C59
    ||| 0x11D50 <= n <= 0x11D59
    ||| 0x11DA0 <= n <= 0x11DA9
    ||| 0x11F50 <= n <= 0x11F59
    ||| 0x16130 <= n <= 0x16139
    ||| 0x16A60 <= n <= 0x16A69
    ||| 0x16AC0 <= n <= 0x16AC9
    ||| 0x16B50 <= n <= 0x16B59
    ||| 0x16D70 <= n <= 0x16D79
    ||| 0x1CCF0 <= n <= 0x1CCF9
    ||| 0x1D7CE <= n <= 0x1D7FF
    ||| 0x1E140 <= n <= 0x1E149
    ||| 0x1E2F0 <= n <= 0x1E2F9
    ||| 0x1E4F0 <= n <= 0x1E4F9
    ||| 0x1E5F1 <= n <= 0x1E5FA
    ||| 0x1E950 <= n <= 0x1E959
    ||| 0x1FBF0 <= n <= 0x1FBF9
}

/// Whether `c` is a decimal digit of any script.
pub fn is_decimal_digit_char(c: char) -> (r: bool)
    ensures
        r == is_decimal_digit(c),
{
    let n = c as u32;
    (0x30 <= n && n <= 0x39) || (0x660 <= n && n <= 0x669) || (0x6F0 <= n && n <= 0x6F9)
        || (0x7C0 <= n && n <= 0x7C9) || (0x966 <= n && n <= 0x96F) || (0x9E6 <= n && n <= 0x9EF)
        || (0xA66 <= n && n <= 0xA6F) || (0xAE6 <= n && n <= 0xAEF) || (0xB66 <= n && n <= 0xB6F)
        || (0xBE6 <= n && n <= 0xBEF) || (0xC66 <= n && n <= 0xC6F) || (0xCE6 <= n && n <= 0xCEF)
        || (0xD66 <= n && n <= 0xD6F) || (0xDE6 <= n && n <= 0xDEF) || (0xE50 <= n && n <= 0xE59)
        || (0xED0 <= n && n <= 0xED9) || (0xF20 <= n && n <= 0xF29) || (0x1040 <= n && n <= 0x1049)
        || (0x1090 <= n && n <= 0x1099) || (0x17E0 <= n && n <= 0x17E9) || (0x1810 <= n && n
        <= 0x1819) || (0x1946 <= n && n <= 0x194F) || (0x19D0 <= n && n <= 0x19D9) || (0x1A80
        <= n && n <= 0x1A89) || (0x1A90 <= n && n <= 0x1A99) || (0x1B50 <= n && n <= 0x1B59)
        || (0x1BB0 <= n && n <= 0x1BB9) || (0x1C40 <= n && n <= 0x1C49) || (0x1C50 <= n && n
        <= 0x1C59) || (0xA620 <= n && n <= 0xA629) || (0xA8D0 <= n && n <= 0xA8D9) || (0xA900
        <= n && n <= 0xA909) || (0xA9D0 <= n && n <= 0xA9D9) || (0xA9F0 <= n && n <= 0xA9F9)
        || (0xAA50 <= n && n <= 0xAA59) || (0xABF0 <= n && n <= 0xABF9) || (0xFF10 <= n && n
        <= 0xFF19) || (0x104A0 <= n && n <= 0x104A9) || (0x10D30 <= n && n <= 0x10D39)
        || (0x10D40 <= n && n <= 0x10D49) || (0x11066 <= n && n <= 0x1106F) || (0x110F0 <= n
        && n <= 0x110F9) || (0x11136 <= n && n <= 0x1113F) || (0x111D0 <= n && n <= 0x111D9)
        || (0x112F0 <= n && n <= 0x112F9) || (0x11450 <= n && n <= 0x11459) || (0x114D0 <= n
        && n <= 0x114D9) || (0x11650 <= n && n <= 0x11659) || (0x116C0 <= n && n <= 0x116C9)
        || (0x116D0 <= n && n <= 0x116E3) || (0x11730 <= n && n <= 0x11739) || (0x118E0 <= n
        && n <= 0x118E9) || (0x11950 <= n && n <= 0x11959) || (0x11BF0 <= n && n <= 0x11BF9)
        || (0x11C50 <= n && n <= 0x11C59) || (0x11D50 <= n && n <= 0x11D59) || (0x11DA0 <= n
        && n <= 0x11DA9) || (0x11F50 <= n && n <= 0x11F59) || (0x16130 <= n && n <= 0x16139)
        || (0x16A60 <= n && n <= 0x16A69) || (0x16AC0 <= n && n <= 0x16AC9) || (0x16B50 <= n
        && n <= 0x16B59) || (0x16D70 <= n && n <= 0x16D79) || (0x1CCF0 <= n && n <= 0x1CCF9)
        || (0x1D7CE <= n && n <= 0x1D7FF) || (0x1E140 <= n && n <= 0x1E149) || (0x1E2F0 <= n
        && n <= 0x1E2F9) || (0x1E4F0 <= n && n <= 0x1E4F9) || (0x1E5F1 <= n && n <= 0x1E5FA)
        || (0x1E950 <= n && n <= 0x1E959) || (0x1FBF0 <= n && n <= 0x1FBF9)
}

/// Number of decimal digits (of any script) at the start of `s`.
pub open spec fn decimal_run(s: Seq<char>) -> nat
    decreases s.len(),
{
    if s.len() == 0 {
        0
    } else if !is_decimal_digit(s[0]) {
        0
    } else {
        1 + decimal_run(s.drop_first())
    }
}

pub proof fn lemma_decimal_run(s: Seq<char>)
    ensures
        decimal_run(s) <= s.len(),
        decimal_run(s) < s.len() ==> !is_decimal_digit(s[decimal_run(s) as int]),
        forall|i: int| 0 <= i < decimal_run(s) ==> is_decimal_digit(#[trigger] s[i]),
    decreases s.len(),
{
    if s.len() > 0 && is_decimal_digit(s[0]) {
        lemma_decimal_run(s.drop_first());
        assert forall|i: int| 0 <= i < decimal_run(s) implies is_decimal_digit(#[trigger] s[i]) by {
            if i > 0 {
                assert(s[i] == s.drop_first()[i - 1]);
            }
        }
    }
}

/// The decimal digits of `d + r`, when `d` is ASCII digits and `r` does not
/// start with a decimal digit.
pub proof fn lemma_decimal_run_of(d: Seq<char>, r: Seq<char>)
    requires
        all_digits(d),
        r.len() == 0 || !is_decimal_digit(r[0]),
    ensures
        decimal_run(d + r) == d.len(),
    decreases d.len(),
{
    if d.len() == 0 {
        assert(d + r =~= r);
    } else {
        assert((d + r).drop_first() =~= d.drop_first() + r);
        assert((d + r)[0] == d[0]);
        assert(is_digit(d[0]));
        assert(all_digits(d.drop_first())) by {
            assert forall|i: int| 0 <= i < d.drop_first().len() implies #[trigger] is_digit(
                d.drop_first()[i],
            ) by {
                assert(d.drop_first()[i] == d[i + 1]);
            }
        }
        lemma_decimal_run_of(d.drop_first(), r);
    }
}

/// The length of the run of decimal digits of `s` from `from` on.
pub fn decimal_run_at(s: &Vec<char>, from: usize) -> (r: usize)
    requires
        from <= s.len(),
    ensures
        r == decimal_run(s@.skip(from as int)),
        from + r <= s.len(),
{
    let mut i: usize = from;
    assert(s@.skip(from as int).skip(0) =~= s@.skip(from as int));
    while i < s.len() && is_decimal_digit_char(s[i])
        invariant
            from <= i <= s.len(),
            decimal_run(s@.skip(from as int)) == (i - from) + decimal_run(s@.skip(i as int)),
        decreases s.len() - i,
    {
        assert(s@.skip(i as int)[0] == s@[i as int]);
        assert(s@.skip(i as int).drop_first() =~= s@.skip(i + 1));
        i = i + 1;
    }
    if i < s.len() {
        assert(s@.skip(i as int)[0] == s@[i as int]);
    } else {
        assert(s@.skip(i as int).len() == 0);
    }
    i - from
}

} // verus!
