//! Character classes and index scans over character sequences.
//!
//! Every routine that walks text in this crate is built from the spec
//! functions here: first-occurrence scans, whitespace trimming, and
//! separator splitting, each with an executable counterpart proved
//! equal to it.

use vstd::prelude::*;

verus! {

/// ASCII whitespace, the class removed when a line or a scalar is trimmed.
pub open spec fn is_ws(c: char) -> bool {
    c == ' ' || c == '\t' || c == '\r' || c == '\n' || c == '\x0b' || c == '\x0c'
}

/// ASCII decimal digit.
pub open spec fn is_digit(c: char) -> bool {
    '0' <= c && c <= '9'
}

/// Numeric value of a digit character.
pub open spec fn digit_val(c: char) -> int {
    c as int - '0' as int
}

/// First index `j >= i` with `s[j] == c`, or `s.len()` if there is none.
pub open spec fn find_from(s: Seq<char>, c: char, i: int) -> int
    decreases s.len() - i,
{
    if i < 0 || i >= s.len() {
        s.len() as int
    } else if s[i] == c {
        i
    } else {
        find_from(s, c, i + 1)
    }
}

pub proof fn lemma_find_from(s: Seq<char>, c: char, i: int)
    requires
        0 <= i <= s.len(),
    ensures
        i <= find_from(s, c, i) <= s.len(),
        find_from(s, c, i) < s.len() ==> s[find_from(s, c, i)] == c,
        forall|k: int| i <= k < find_from(s, c, i) ==> s[k] != c,
    decreases s.len() - i,
{
    if i < s.len() && s[i] != c {
        lemma_find_from(s, c, i + 1);
    }
}

pub proof fn lemma_find_from_offset(s: Seq<char>, c: char, p: int, k: int)
    requires
        0 <= p <= s.len(),
        0 <= k <= s.len() - p,
    ensures
        find_from(s.subrange(p, s.len() as int), c, k) == find_from(s, c, p + k) - p,
    decreases s.len() - p - k,
{
    let sub = s.subrange(p, s.len() as int);
    if k < sub.len() && sub[k] != c {
        lemma_find_from_offset(s, c, p, k + 1);
    }
}

/// First index `j >= i` whose character is not a digit, or `s.len()`:
/// the end of the digit run starting at `i`.
pub open spec fn skip_digits(s: Seq<char>, i: int) -> int
    decreases s.len() - i,
{
    if 0 <= i < s.len() && is_digit(s[i]) {
        skip_digits(s, i + 1)
    } else {
        i
    }
}

pub proof fn lemma_skip_digits(s: Seq<char>, i: int)
    requires
        0 <= i <= s.len(),
    ensures
        i <= skip_digits(s, i) <= s.len(),
        skip_digits(s, i) < s.len() ==> !is_digit(s[skip_digits(s, i)]),
        forall|k: int| i <= k < skip_digits(s, i) ==> is_digit(s[k]),
    decreases s.len() - i,
{
    if i < s.len() && is_digit(s[i]) {
        lemma_skip_digits(s, i + 1);
    }
}

/// Whether `c` occurs in `s` at all.
pub open spec fn has_char(s: Seq<char>, c: char) -> bool {
    find_from(s, c, 0) < s.len()
}

/// First index `j >= i` whose character is not whitespace, or `s.len()`.
pub open spec fn skip_ws(s: Seq<char>, i: int) -> int
    decreases s.len() - i,
{
    if 0 <= i < s.len() && is_ws(s[i]) {
        skip_ws(s, i + 1)
    } else {
        i
    }
}

pub proof fn lemma_skip_ws(s: Seq<char>, i: int)
    requires
        0 <= i <= s.len(),
    ensures
        i <= skip_ws(s, i) <= s.len(),
        skip_ws(s, i) < s.len() ==> !is_ws(s[skip_ws(s, i)]),
        forall|k: int| i <= k < skip_ws(s, i) ==> is_ws(s[k]),
    decreases s.len() - i,
{
    if i < s.len() && is_ws(s[i]) {
        lemma_skip_ws(s, i + 1);
    }
}

/// One past the last non-whitespace index below `j`, or `0` if all of
/// `s[0..j]` is whitespace.
pub open spec fn rskip_ws(s: Seq<char>, j: int) -> int
    decreases j,
{
    if 0 < j <= s.len() && is_ws(s[j - 1]) {
        rskip_ws(s, j - 1)
    } else {
        j
    }
}

pub proof fn lemma_rskip_ws(s: Seq<char>, j: int)
    requires
        0 <= j <= s.len(),
    ensures
        0 <= rskip_ws(s, j) <= j,
        rskip_ws(s, j) > 0 ==> !is_ws(s[rskip_ws(s, j) - 1]),
        forall|k: int| rskip_ws(s, j) <= k < j ==> is_ws(s[k]),
    decreases j,
{
    if 0 < j && is_ws(s[j - 1]) {
        lemma_rskip_ws(s, j - 1);
    }
}

/// `s` with leading and trailing whitespace removed.
pub open spec fn trim_spec(s: Seq<char>) -> Seq<char> {
    let a = skip_ws(s, 0);
    let b = rskip_ws(s, s.len() as int);
    if a < b {
        s.subrange(a, b)
    } else {
        Seq::empty()
    }
}

/// `s` split on every occurrence of `c`; the separators themselves are
/// dropped.  A text with no separator yields one part, so the result is
/// never empty.
pub open spec fn split_on(s: Seq<char>, c: char) -> Seq<Seq<char>>
    decreases s.len(),
{
    let j = find_from(s, c, 0);
    if 0 <= j < s.len() {
        seq![s.subrange(0, j)] + split_on(s.subrange(j + 1, s.len() as int), c)
    } else {
        seq![s]
    }
}

/// A non-empty, all-digit character sequence.
pub open spec fn all_digits(s: Seq<char>) -> bool {
    s.len() > 0 && forall|k: int| 0 <= k < s.len() ==> is_digit(#[trigger] s[k])
}

/// The number an all-digit sequence denotes, most significant digit
/// first.
pub open spec fn digits_val(s: Seq<char>) -> int
    decreases s.len(),
{
    if s.len() == 0 {
        0
    } else {
        digits_val(s.drop_last()) * 10 + digit_val(s.last())
    }
}

pub proof fn lemma_digits_val_bounds(s: Seq<char>)
    requires
        forall|k: int| 0 <= k < s.len() ==> is_digit(#[trigger] s[k]),
    ensures
        digits_val(s) >= 0,
        s.len() > 0 ==> digits_val(s) >= digits_val(s.drop_last()),
    decreases s.len(),
{
    if s.len() > 0 {
        lemma_digits_val_bounds(s.drop_last());
    }
}

pub proof fn lemma_digits_val_prefix(s: Seq<char>, i: int)
    requires
        0 <= i <= s.len(),
        forall|k: int| 0 <= k < s.len() ==> is_digit(#[trigger] s[k]),
    ensures
        digits_val(s.subrange(0, i)) <= digits_val(s),
    decreases s.len() - i,
{
    if i < s.len() {
        lemma_digits_val_prefix(s, i + 1);
        assert(s.subrange(0, i + 1).drop_last() =~= s.subrange(0, i));
        lemma_digits_val_bounds(s.subrange(0, i + 1));
    } else {
        assert(s.subrange(0, i) =~= s);
    }
}

/// Executable digit test.
pub fn digit(c: char) -> (r: bool)
    ensures
        r == is_digit(c),
{
    '0' <= c && c <= '9'
}

/// Reads a whole string as a decimal number of at most `65535`; yields
/// nothing when the string is empty, holds a non-digit, or denotes a
/// larger number.
pub fn parse_num(s: &str) -> (r: Option<u16>)
    ensures
        match r {
            Some(v) => all_digits(s@) && digits_val(s@) == v as int,
            None => !(all_digits(s@) && digits_val(s@) <= 65535),
        },
{
    let len = s.unicode_len();
    if len == 0 {
        return None;
    }
    let mut acc: u32 = 0;
    let mut i: usize = 0;
    proof {
        assert(s@.subrange(0, 0) =~= Seq::<char>::empty());
    }
    while i < len
        invariant
            0 <= i <= len,
            len == s@.len(),
            forall|k: int| 0 <= k < i ==> is_digit(#[trigger] s@[k]),
            acc <= 65535,
            acc as int == digits_val(s@.subrange(0, i as int)),
        decreases len - i,
    {
        let c = s.get_char(i);
        if !digit(c) {
            assert(!all_digits(s@));
            return None;
        }
        let d: u32 = c as u32 - '0' as u32;
        acc = acc * 10 + d;
        proof {
            assert(s@.subrange(0, i + 1).drop_last() =~= s@.subrange(0, i as int));
            assert(s@.subrange(0, i + 1).last() == s@[i as int]);
            assert(acc as int == digits_val(s@.subrange(0, i + 1)));
        }
        if acc > 65535 {
            proof {
                if all_digits(s@) {
                    lemma_digits_val_prefix(s@, i + 1);
                }
            }
            return None;
        }
        i = i + 1;
    }
    proof {
        assert(s@.subrange(0, len as int) =~= s@);
    }
    Some(acc as u16)
}

/// Executable whitespace test.
pub fn white(c: char) -> (r: bool)
    ensures
        r == is_ws(c),
{
    c == ' ' || c == '\t' || c == '\r' || c == '\n' || c == '\x0b' || c == '\x0c'
}

/// First occurrence of `c` in `s` at or after `from`, as an index;
/// `s` length if absent.
pub fn find_char(s: &str, c: char, from: usize, len: usize) -> (r: usize)
    requires
        len == s@.len(),
        from <= len,
    ensures
        r == find_from(s@, c, from as int),
{
    let mut i: usize = from;
    while i < len
        invariant
            from <= i <= len,
            len == s@.len(),
            find_from(s@, c, from as int) == find_from(s@, c, i as int),
        decreases len - i,
    {
        if s.get_char(i) == c {
            return i;
        }
        i = i + 1;
    }
    i
}

/// End of the digit run beginning at `from`.
pub fn digits_stop(s: &str, from: usize, len: usize) -> (r: usize)
    requires
        len == s@.len(),
        from <= len,
    ensures
        r == skip_digits(s@, from as int),
        from <= r <= len,
{
    let mut i: usize = from;
    while i < len && digit(s.get_char(i))
        invariant
            from <= i <= len,
            len == s@.len(),
            skip_digits(s@, from as int) == skip_digits(s@, i as int),
        decreases len - i,
    {
        i = i + 1;
    }
    i
}

/// Reads a whole string as a decimal number that fits a 64-bit signed
/// integer; yields nothing when the string is empty, holds a
/// non-digit, or denotes a larger number.
pub fn parse_i64(s: &str) -> (r: Option<i64>)
    ensures
        match r {
            Some(v) => all_digits(s@) && digits_val(s@) == v as int,
            None => !(all_digits(s@) && digits_val(s@) <= i64::MAX),
        },
{
    let len = s.unicode_len();
    if len == 0 {
        return None;
    }
    let bound: u64 = 0x7fff_ffff_ffff_ffff;
    let mut acc: u64 = 0;
    let mut i: usize = 0;
    proof {
        assert(s@.subrange(0, 0) =~= Seq::<char>::empty());
    }
    while i < len
        invariant
            0 <= i <= len,
            len == s@.len(),
            bound == i64::MAX,
            forall|k: int| 0 <= k < i ==> is_digit(#[trigger] s@[k]),
            acc <= bound,
            acc as int == digits_val(s@.subrange(0, i as int)),
        decreases len - i,
    {
        let c = s.get_char(i);
        if !digit(c) {
            assert(!all_digits(s@));
            return None;
        }
        let d: u64 = (c as u32 - '0' as u32) as u64;
        proof {
            assert(s@.subrange(0, i + 1).drop_last() =~= s@.subrange(0, i as int));
            assert(s@.subrange(0, i + 1).last() == s@[i as int]);
        }
        if acc > (bound - d) / 10 {
            proof {
                assert(acc * 10 + d > bound);
                assert(digits_val(s@.subrange(0, i + 1)) > i64::MAX);
                if all_digits(s@) {
                    lemma_digits_val_prefix(s@, i + 1);
                }
            }
            return None;
        }
        proof {
            assert(acc * 10 + d <= bound);
        }
        acc = acc * 10 + d;
        i = i + 1;
    }
    proof {
        assert(s@.subrange(0, len as int) =~= s@);
    }
    Some(acc as i64)
}

/// Bounds of `s` once trimmed: the pair `(a, b)` with
/// `trim_spec(s@) == s@.subrange(a, b)` when `a < b`, and an empty trim
/// when `a >= b`.
pub fn trim_bounds(s: &str, len: usize) -> (r: (usize, usize))
    requires
        len == s@.len(),
    ensures
        r.0 == skip_ws(s@, 0),
        r.1 == rskip_ws(s@, s@.len() as int),
        r.0 <= len,
        r.1 <= len,
{
    proof {
        lemma_skip_ws(s@, 0);
        lemma_rskip_ws(s@, s@.len() as int);
    }
    let mut a: usize = 0;
    while a < len && white(s.get_char(a))
        invariant
            0 <= a <= len,
            len == s@.len(),
            skip_ws(s@, 0) == skip_ws(s@, a as int),
        decreases len - a,
    {
        a = a + 1;
    }
    let mut b: usize = len;
    while b > 0 && white(s.get_char(b - 1))
        invariant
            0 <= b <= len,
            len == s@.len(),
            rskip_ws(s@, s@.len() as int) == rskip_ws(s@, b as int),
        decreases b,
    {
        b = b - 1;
    }
    (a, b)
}

/// A copy of `s` with leading and trailing whitespace removed.
pub fn trim(s: &str) -> (r: String)
    ensures
        r@ == trim_spec(s@),
{
    let len = s.unicode_len();
    let (a, b) = trim_bounds(s, len);
    if a < b {
        s.substring_char(a, b).to_owned()
    } else {
        String::new()
    }
}

} // verus!
