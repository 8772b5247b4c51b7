//! The pieces the line grammars are made of: runs of one character class,
//! literal words, decimal numbers, and the leftmost position at which a
//! pattern matches.

use vstd::prelude::*;
use crate::text::{is_space, is_decimal, is_ascii_digit, char_is_space, char_is_decimal};

verus! {

/// A class of characters that a run may be made of.
#[derive(Clone, Copy, PartialEq, Eq, Structural)]
pub enum CharClass {
    /// `\s`
    Space,
    /// `\S`
    NonSpace,
    /// `\d`
    Decimal,
    /// `[0-9]`
    AsciiDigit,
}

pub open spec fn in_class(c: char, cls: CharClass) -> bool {
    match cls {
        CharClass::Space => is_space(c),
        CharClass::NonSpace => !is_space(c),
        CharClass::Decimal => is_decimal(c),
        CharClass::AsciiDigit => is_ascii_digit(c),
    }
}

pub fn char_in_class(c: char, cls: CharClass) -> (r: bool)
    ensures
        r == in_class(c, cls),
{
    match cls {
        CharClass::Space => char_is_space(c),
        CharClass::NonSpace => !char_is_space(c),
        CharClass::Decimal => char_is_decimal(c),
        CharClass::AsciiDigit => '0' <= c && c <= '9',
    }
}

/// The end of the longest run of `cls` characters of `s` that starts at `i`.
pub open spec fn run_end(s: Seq<char>, i: int, cls: CharClass) -> int
    decreases s.len() - i,
{
    if 0 <= i < s.len() && in_class(s[i], cls) {
        run_end(s, i + 1, cls)
    } else {
        i
    }
}

pub proof fn lemma_run_end(s: Seq<char>, i: int, cls: CharClass)
    requires
        0 <= i <= s.len(),
    ensures
        i <= run_end(s, i, cls) <= s.len(),
        forall|k: int| i <= k < run_end(s, i, cls) ==> in_class(#[trigger] s[k], cls),
        run_end(s, i, cls) < s.len() ==> !in_class(s[run_end(s, i, cls)], cls),
    decreases s.len() - i,
{
    if i < s.len() && in_class(s[i], cls) {
        lemma_run_end(s, i + 1, cls);
    }
}

/// A run that covers `[i, j)` and stops at `j` ends at `j`.
pub proof fn lemma_run_end_at(s: Seq<char>, i: int, j: int, cls: CharClass)
    requires
        0 <= i <= j <= s.len(),
        forall|k: int| i <= k < j ==> in_class(#[trigger] s[k], cls),
        j == s.len() || !in_class(s[j], cls),
    ensures
        run_end(s, i, cls) == j,
    decreases j - i,
{
    if i < j {
        lemma_run_end_at(s, i + 1, j, cls);
    }
}

/// Scans the run of `cls` characters that starts at `i`.
pub fn scan_run(s: &Vec<char>, i: usize, cls: CharClass) -> (j: usize)
    requires
        i <= s@.len(),
    ensures
        j == run_end(s@, i as int, cls),
        i <= j <= s@.len(),
{
    proof {
        lemma_run_end(s@, i as int, cls);
    }
    let mut j = i;
    while j < s.len() && char_in_class(s[j], cls)
        invariant
            i <= j <= s@.len(),
            run_end(s@, j as int, cls) == run_end(s@, i as int, cls),
        decreases s@.len() - j,
    {
        j = j + 1;
    }
    j
}

/// `s` holds the word `lit` at position `i`.
pub open spec fn has_literal(s: Seq<char>, i: int, lit: Seq<char>) -> bool {
    0 <= i && i + lit.len() <= s.len() && s.subrange(i, i + lit.len()) == lit
}

pub fn literal_at(s: &Vec<char>, i: usize, lit: &[char]) -> (r: bool)
    ensures
        r == has_literal(s@, i as int, lit@),
{
    if i > s.len() || lit.len() > s.len() - i {
        return false;
    }
    let mut k: usize = 0;
    while k < lit.len()
        invariant
            i + lit@.len() <= s.len(),
            k <= lit@.len(),
            forall|m: int| 0 <= m < k ==> s@[i + m] == lit@[m],
        decreases lit@.len() - k,
    {
        if s[i + k] != lit[k] {
            assert(s@.subrange(i as int, i + lit@.len())[k as int] != lit@[k as int]);
            return false;
        }
        k = k + 1;
    }
    assert(s@.subrange(i as int, i + lit@.len()) =~= lit@);
    true
}

/// The character of `s` at `i` is `c`.
pub open spec fn char_at(s: Seq<char>, i: int, c: char) -> bool {
    0 <= i < s.len() && s[i] == c
}

pub fn is_char_at(s: &Vec<char>, i: usize, c: char) -> (r: bool)
    ensures
        r == char_at(s@, i as int, c),
{
    i < s.len() && s[i] == c
}

/// Copies `v[start..end]` into a vector of its own.
pub fn copy_span(v: &Vec<char>, start: usize, end: usize) -> (r: Vec<char>)
    requires
        start <= end <= v@.len(),
    ensures
        r@ == v@.subrange(start as int, end as int),
{
    let mut r: Vec<char> = Vec::new();
    let mut i = start;
    while i < end
        invariant
            start <= i <= end <= v@.len(),
            r@ == v@.subrange(start as int, i as int),
        decreases end - i,
    {
        r.push(v[i]);
        i = i + 1;
        assert(r@ =~= v@.subrange(start as int, i as int));
    }
    r
}

// ---------------------------------------------------------------------------
// Decimal numbers
// ---------------------------------------------------------------------------

/// Every character of `s` is an ASCII digit: what `str::parse` accepts as
/// the digits of a number.
pub open spec fn all_ascii_digits(s: Seq<char>) -> bool {
    forall|k: int| 0 <= k < s.len() ==> is_ascii_digit(#[trigger] s[k])
}

/// The number an ASCII decimal numeral denotes.
pub open spec fn digits_value(s: Seq<char>) -> nat
    decreases s.len(),
{
    if s.len() == 0 {
        0
    } else {
        digits_value(s.drop_last()) * 10 + ((s.last() as u32 - '0' as u32) as nat)
    }
}

pub fn all_ascii_digits_exec(s: &Vec<char>) -> (r: bool)
    ensures
        r == all_ascii_digits(s@),
{
    let mut k: usize = 0;
    while k < s.len()
        invariant
            k <= s@.len(),
            forall|m: int| 0 <= m < k ==> is_ascii_digit(#[trigger] s@[m]),
        decreases s@.len() - k,
    {
        if !('0' <= s[k] && s[k] <= '9') {
            return false;
        }
        k = k + 1;
    }
    true
}

proof fn lemma_value_prefix_le(s: Seq<char>, k: int)
    requires
        all_ascii_digits(s),
        0 <= k <= s.len(),
    ensures
        digits_value(s.take(k)) <= digits_value(s),
    decreases s.len() - k,
{
    if k < s.len() {
        lemma_value_prefix_le(s, k + 1);
        assert(s.take(k + 1).drop_last() =~= s.take(k));
        assert(is_ascii_digit(s[k]));
    } else {
        assert(s.take(k) =~= s);
    }
}

/// `str::parse::<usize>` on an ASCII numeral: its value, or `None` when it
/// does not fit.
pub fn parse_usize(s: &Vec<char>) -> (r: Option<usize>)
    requires
        all_ascii_digits(s@),
    ensures
        r matches Some(v) ==> v as nat == digits_value(s@),
        r is None ==> digits_value(s@) > usize::MAX,
{
    let mut acc: usize = 0;
    let mut k: usize = 0;
    assert(s@.take(0) =~= Seq::<char>::empty());
    while k < s.len()
        invariant
            k <= s@.len(),
            all_ascii_digits(s@),
            acc as nat == digits_value(s@.take(k as int)),
        decreases s@.len() - k,
    {
        let c = s[k];
        assert(is_ascii_digit(s@[k as int]));
        let d = (c as u32 - '0' as u32) as usize;
        assert(s@.take(k + 1).drop_last() =~= s@.take(k as int));
        match acc.checked_mul(10) {
            Some(m) => match m.checked_add(d) {
                Some(next) => {
                    acc = next;
                },
                None => {
                    proof {
                        lemma_value_prefix_le(s@, k + 1);
                    }
                    return None;
                },
            },
            None => {
                proof {
                    lemma_value_prefix_le(s@, k + 1);
                }
                return None;
            },
        }
        k = k + 1;
    }
    assert(s@.take(k as int) =~= s@);
    Some(acc)
}

/// An ASCII numeral denotes zero exactly when all its digits are `0`.
pub proof fn lemma_value_zero(s: Seq<char>)
    requires
        all_ascii_digits(s),
    ensures
        digits_value(s) == 0 <==> (forall|k: int| 0 <= k < s.len() ==> s[k] == '0'),
    decreases s.len(),
{
    if s.len() > 0 {
        let t = s.drop_last();
        assert(all_ascii_digits(t)) by {
            assert forall|k: int| 0 <= k < t.len() implies is_ascii_digit(#[trigger] t[k]) by {
                assert(t[k] == s[k]);
            }
        }
        lemma_value_zero(t);
        if digits_value(s) == 0 {
            assert forall|k: int| 0 <= k < s.len() implies s[k] == '0' by {
                if k < s.len() - 1 {
                    assert(t[k] == s[k]);
                }
            }
        }
        if forall|k: int| 0 <= k < s.len() ==> s[k] == '0' {
            assert forall|k: int| 0 <= k < t.len() implies t[k] == '0' by {
                assert(t[k] == s[k]);
            }
            assert(s[s.len() - 1] == '0');
        }
    }
}

/// Whether an ASCII numeral denotes a number other than zero.
pub fn numeral_nonzero(s: &Vec<char>) -> (r: bool)
    requires
        all_ascii_digits(s@),
    ensures
        r == (digits_value(s@) > 0),
{
    proof {
        lemma_value_zero(s@);
    }
    let mut k: usize = 0;
    while k < s.len()
        invariant
            k <= s@.len(),
            all_ascii_digits(s@),
            forall|m: int| 0 <= m < k ==> s@[m] == '0',
        decreases s@.len() - k,
    {
        if s[k] != '0' {
            proof {
                lemma_value_zero(s@);
                if digits_value(s@) == 0 {
                    assert(s@[k as int] == '0');
                }
            }
            return true;
        }
        k = k + 1;
    }
    false
}

} // verus!
