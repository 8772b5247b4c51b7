//! The line grammars of build output: the progress prefixes that ninja and
//! make print, cargo's `Compiling` lines and their `(n/m)` counters, and the
//! `>>> emerge (n of m)` lines of Portage's log. Each pattern is stated as
//! where a match starting at a given position ends and what it captures; a
//! search finds the leftmost position at which the pattern matches.

use vstd::prelude::*;
use crate::pattern::{CharClass, run_end, scan_run, char_at, is_char_at, has_literal, literal_at};

verus! {

pub open spec fn word_compiling() -> Seq<char> {
    seq!['C', 'o', 'm', 'p', 'i', 'l', 'i', 'n', 'g']
}

pub open spec fn word_prompt() -> Seq<char> {
    seq!['>', '>', '>']
}

pub open spec fn word_emerge() -> Seq<char> {
    seq!['e', 'm', 'e', 'r', 'g', 'e']
}

pub open spec fn word_of() -> Seq<char> {
    seq!['o', 'f']
}

// ---------------------------------------------------------------------------
// ninja and meson: `[done/total] step`
// ---------------------------------------------------------------------------

/// A match of `\[\s*(\d+)/(\d+)\]\s*(.*)` that starts at `i`, with its three
/// groups.
pub open spec fn ninja_at(s: Seq<char>, i: int) -> Option<(Seq<char>, Seq<char>, Seq<char>)> {
    if !char_at(s, i, '[') {
        None
    } else {
        let a = run_end(s, i + 1, CharClass::Space);
        let b = run_end(s, a, CharClass::Decimal);
        if !(a < b && char_at(s, b, '/')) {
            None
        } else {
            let c = run_end(s, b + 1, CharClass::Decimal);
            if !(b + 1 < c && char_at(s, c, ']')) {
                None
            } else {
                let d = run_end(s, c + 1, CharClass::Space);
                Some((s.subrange(a, b), s.subrange(b + 1, c), s.subrange(d, s.len() as int)))
            }
        }
    }
}

/// The leftmost match of the ninja pattern at or after `i`.
pub open spec fn ninja_search(s: Seq<char>, i: int) -> Option<
    (Seq<char>, Seq<char>, Seq<char>),
>
    decreases s.len() - i,
{
    if i < 0 || i >= s.len() {
        None
    } else if ninja_at(s, i) is Some {
        ninja_at(s, i)
    } else {
        ninja_search(s, i + 1)
    }
}

/// Spans of the three groups of a ninja match.
pub struct NinjaSpans {
    pub done: (usize, usize),
    pub total: (usize, usize),
    pub step: (usize, usize),
}

pub open spec fn ninja_spans_are(s: Seq<char>, p: NinjaSpans, m: (Seq<char>, Seq<char>, Seq<char>)) -> bool {
    &&& p.done.0 <= p.done.1 <= s.len()
    &&& p.total.0 <= p.total.1 <= s.len()
    &&& p.step.0 <= p.step.1 <= s.len()
    &&& m.0 == s.subrange(p.done.0 as int, p.done.1 as int)
    &&& m.1 == s.subrange(p.total.0 as int, p.total.1 as int)
    &&& m.2 == s.subrange(p.step.0 as int, p.step.1 as int)
}

fn ninja_at_exec(s: &Vec<char>, i: usize) -> (r: Option<NinjaSpans>)
    requires
        i < s@.len(),
    ensures
        r is None <==> ninja_at(s@, i as int) is None,
        r matches Some(p) ==> ninja_spans_are(s@, p, ninja_at(s@, i as int)->0),
{
    let n = s.len();
    if s[i] != '[' {
        return None;
    }
    let a = scan_run(s, i + 1, CharClass::Space);
    let b = scan_run(s, a, CharClass::Decimal);
    if !(a < b && is_char_at(s, b, '/')) {
        return None;
    }
    let c = scan_run(s, b + 1, CharClass::Decimal);
    if !(b + 1 < c && is_char_at(s, c, ']')) {
        return None;
    }
    let d = scan_run(s, c + 1, CharClass::Space);
    Some(NinjaSpans { done: (a, b), total: (b + 1, c), step: (d, n) })
}

pub fn ninja_find(s: &Vec<char>) -> (r: Option<NinjaSpans>)
    ensures
        r is None <==> ninja_search(s@, 0) is None,
        r matches Some(p) ==> ninja_spans_are(s@, p, ninja_search(s@, 0)->0),
{
    let mut i: usize = 0;
    while i < s.len()
        invariant
            i <= s@.len(),
            ninja_search(s@, i as int) == ninja_search(s@, 0),
        decreases s@.len() - i,
    {
        let r = ninja_at_exec(s, i);
        if r.is_some() {
            return r;
        }
        i = i + 1;
    }
    None
}

// ---------------------------------------------------------------------------
// make and cmake: `[ pct%] step`
// ---------------------------------------------------------------------------

/// A match of `\[\s*(\d{1,3})%\]\s*(.*)` that starts at `i`, with its two
/// groups.
pub open spec fn make_at(s: Seq<char>, i: int) -> Option<(Seq<char>, Seq<char>)> {
    if !char_at(s, i, '[') {
        None
    } else {
        let a = run_end(s, i + 1, CharClass::Space);
        let b = run_end(s, a, CharClass::Decimal);
        if !(a < b && b - a <= 3 && char_at(s, b, '%') && char_at(s, b + 1, ']')) {
            None
        } else {
            let d = run_end(s, b + 2, CharClass::Space);
            Some((s.subrange(a, b), s.subrange(d, s.len() as int)))
        }
    }
}

/// The leftmost match of the make pattern at or after `i`.
pub open spec fn make_search(s: Seq<char>, i: int) -> Option<(Seq<char>, Seq<char>)>
    decreases s.len() - i,
{
    if i < 0 || i >= s.len() {
        None
    } else if make_at(s, i) is Some {
        make_at(s, i)
    } else {
        make_search(s, i + 1)
    }
}

pub open spec fn pair_spans_are(s: Seq<char>, p: ((usize, usize), (usize, usize)), m: (Seq<char>, Seq<char>)) -> bool {
    &&& p.0.0 <= p.0.1 <= s.len()
    &&& p.1.0 <= p.1.1 <= s.len()
    &&& m.0 == s.subrange(p.0.0 as int, p.0.1 as int)
    &&& m.1 == s.subrange(p.1.0 as int, p.1.1 as int)
}

fn make_at_exec(s: &Vec<char>, i: usize) -> (r: Option<((usize, usize), (usize, usize))>)
    requires
        i < s@.len(),
    ensures
        r is None <==> make_at(s@, i as int) is None,
        r matches Some(p) ==> pair_spans_are(s@, p, make_at(s@, i as int)->0),
{
    let n = s.len();
    if s[i] != '[' {
        return None;
    }
    let a = scan_run(s, i + 1, CharClass::Space);
    let b = scan_run(s, a, CharClass::Decimal);
    if !(a < b && b - a <= 3 && is_char_at(s, b, '%') && is_char_at(s, b + 1, ']')) {
        return None;
    }
    let d = scan_run(s, b + 2, CharClass::Space);
    Some(((a, b), (d, n)))
}

pub fn make_find(s: &Vec<char>) -> (r: Option<((usize, usize), (usize, usize))>)
    ensures
        r is None <==> make_search(s@, 0) is None,
        r matches Some(p) ==> pair_spans_are(s@, p, make_search(s@, 0)->0),
{
    let mut i: usize = 0;
    while i < s.len()
        invariant
            i <= s@.len(),
            make_search(s@, i as int) == make_search(s@, 0),
        decreases s@.len() - i,
    {
        let r = make_at_exec(s, i);
        if r.is_some() {
            return r;
        }
        i = i + 1;
    }
    None
}

// ---------------------------------------------------------------------------
// cargo: `Compiling name vversion` and its `(done/total)` counter
// ---------------------------------------------------------------------------

/// The match of `^\s*Compiling\s+(\S+)\s+v?(\S*)`, anchored at the start of
/// `s`, with its two groups (the crate and its version).
pub open spec fn cargo_match(s: Seq<char>) -> Option<(Seq<char>, Seq<char>)> {
    let a = run_end(s, 0, CharClass::Space);
    if !has_literal(s, a, word_compiling()) {
        None
    } else {
        let b = a + 9;
        let c = run_end(s, b, CharClass::Space);
        let d = run_end(s, c, CharClass::NonSpace);
        let e = run_end(s, d, CharClass::Space);
        if !(b < c && c < d && d < e) {
            None
        } else {
            let f = if char_at(s, e, 'v') {
                e + 1
            } else {
                e
            };
            let g = run_end(s, f, CharClass::NonSpace);
            Some((s.subrange(c, d), s.subrange(f, g)))
        }
    }
}

pub fn cargo_find(s: &Vec<char>) -> (r: Option<((usize, usize), (usize, usize))>)
    ensures
        r is None <==> cargo_match(s@) is None,
        r matches Some(p) ==> pair_spans_are(s@, p, cargo_match(s@)->0),
{
    let n = s.len();
    let a = scan_run(s, 0, CharClass::Space);
    let word = ['C', 'o', 'm', 'p', 'i', 'l', 'i', 'n', 'g'];
    assert(word@ =~= word_compiling());
    if !literal_at(s, a, &word) {
        return None;
    }
    let b = a + 9;
    let c = scan_run(s, b, CharClass::Space);
    let d = scan_run(s, c, CharClass::NonSpace);
    let e = scan_run(s, d, CharClass::Space);
    if !(b < c && c < d && d < e) {
        return None;
    }
    let f = if is_char_at(s, e, 'v') {
        e + 1
    } else {
        e
    };
    let g = scan_run(s, f, CharClass::NonSpace);
    Some(((c, d), (f, g)))
}

/// A match of `\((\d+)/(\d+)\)` that starts at `i`, with its two groups.
pub open spec fn count_at(s: Seq<char>, i: int) -> Option<(Seq<char>, Seq<char>)> {
    if !char_at(s, i, '(') {
        None
    } else {
        let b = run_end(s, i + 1, CharClass::Decimal);
        if !(i + 1 < b && char_at(s, b, '/')) {
            None
        } else {
            let c = run_end(s, b + 1, CharClass::Decimal);
            if !(b + 1 < c && char_at(s, c, ')')) {
                None
            } else {
                Some((s.subrange(i + 1, b), s.subrange(b + 1, c)))
            }
        }
    }
}

/// The leftmost match of the counter pattern at or after `i`.
pub open spec fn count_search(s: Seq<char>, i: int) -> Option<(Seq<char>, Seq<char>)>
    decreases s.len() - i,
{
    if i < 0 || i >= s.len() {
        None
    } else if count_at(s, i) is Some {
        count_at(s, i)
    } else {
        count_search(s, i + 1)
    }
}

fn count_at_exec(s: &Vec<char>, i: usize) -> (r: Option<((usize, usize), (usize, usize))>)
    requires
        i < s@.len(),
    ensures
        r is None <==> count_at(s@, i as int) is None,
        r matches Some(p) ==> pair_spans_are(s@, p, count_at(s@, i as int)->0),
{
    let n = s.len();
    if s[i] != '(' {
        return None;
    }
    let b = scan_run(s, i + 1, CharClass::Decimal);
    if !(i + 1 < b && is_char_at(s, b, '/')) {
        return None;
    }
    let c = scan_run(s, b + 1, CharClass::Decimal);
    if !(b + 1 < c && is_char_at(s, c, ')')) {
        return None;
    }
    Some(((i + 1, b), (b + 1, c)))
}

pub fn count_find(s: &Vec<char>) -> (r: Option<((usize, usize), (usize, usize))>)
    ensures
        r is None <==> count_search(s@, 0) is None,
        r matches Some(p) ==> pair_spans_are(s@, p, count_search(s@, 0)->0),
{
    let mut i: usize = 0;
    while i < s.len()
        invariant
            i <= s@.len(),
            count_search(s@, i as int) == count_search(s@, 0),
        decreases s@.len() - i,
    {
        let r = count_at_exec(s, i);
        if r.is_some() {
            return r;
        }
        i = i + 1;
    }
    None
}

// ---------------------------------------------------------------------------
// Portage: `>>> emerge (n of m)`
// ---------------------------------------------------------------------------

/// A match of `>>>\s*emerge\s*\((\d+)\s+of\s+(\d+)\)` that starts at `i`,
/// with its two groups.
pub open spec fn emerge_at(s: Seq<char>, i: int) -> Option<(Seq<char>, Seq<char>)> {
    if !has_literal(s, i, word_prompt()) {
        None
    } else {
        let a = run_end(s, i + 3, CharClass::Space);
        if !has_literal(s, a, word_emerge()) {
            None
        } else {
            let b = run_end(s, a + 6, CharClass::Space);
            let c = run_end(s, b + 1, CharClass::Decimal);
            let d = run_end(s, c, CharClass::Space);
            if !(char_at(s, b, '(') && b + 1 < c && c < d && has_literal(s, d, word_of())) {
                None
            } else {
                let e = run_end(s, d + 2, CharClass::Space);
                let f = run_end(s, e, CharClass::Decimal);
                if !(d + 2 < e && e < f && char_at(s, f, ')')) {
                    None
                } else {
                    Some((s.subrange(b + 1, c), s.subrange(e, f)))
                }
            }
        }
    }
}

/// The leftmost match of the emerge pattern at or after `i`.
pub open spec fn emerge_search(s: Seq<char>, i: int) -> Option<(Seq<char>, Seq<char>)>
    decreases s.len() - i,
{
    if i < 0 || i >= s.len() {
        None
    } else if emerge_at(s, i) is Some {
        emerge_at(s, i)
    } else {
        emerge_search(s, i + 1)
    }
}

fn emerge_at_exec(s: &Vec<char>, i: usize) -> (r: Option<((usize, usize), (usize, usize))>)
    requires
        i < s@.len(),
    ensures
        r is None <==> emerge_at(s@, i as int) is None,
        r matches Some(p) ==> pair_spans_are(s@, p, emerge_at(s@, i as int)->0),
{
    let n = s.len();
    let prompt = ['>', '>', '>'];
    assert(prompt@ =~= word_prompt());
    if !literal_at(s, i, &prompt) {
        return None;
    }
    let a = scan_run(s, i + 3, CharClass::Space);
    let emerge = ['e', 'm', 'e', 'r', 'g', 'e'];
    assert(emerge@ =~= word_emerge());
    if !literal_at(s, a, &emerge) {
        return None;
    }
    let b = scan_run(s, a + 6, CharClass::Space);
    if !is_char_at(s, b, '(') {
        return None;
    }
    let c = scan_run(s, b + 1, CharClass::Decimal);
    let d = scan_run(s, c, CharClass::Space);
    let of = ['o', 'f'];
    assert(of@ =~= word_of());
    if !(b + 1 < c && c < d && literal_at(s, d, &of)) {
        return None;
    }
    let e = scan_run(s, d + 2, CharClass::Space);
    let f = scan_run(s, e, CharClass::Decimal);
    if !(d + 2 < e && e < f && is_char_at(s, f, ')')) {
        return None;
    }
    Some(((b + 1, c), (e, f)))
}

pub fn emerge_find(s: &Vec<char>) -> (r: Option<((usize, usize), (usize, usize))>)
    ensures
        r is None <==> emerge_search(s@, 0) is None,
        r matches Some(p) ==> pair_spans_are(s@, p, emerge_search(s@, 0)->0),
{
    let mut i: usize = 0;
    while i < s.len()
        invariant
            i <= s@.len(),
            emerge_search(s@, i as int) == emerge_search(s@, 0),
        decreases s@.len() - i,
    {
        let r = emerge_at_exec(s, i);
        if r.is_some() {
            return r;
        }
        i = i + 1;
    }
    None
}

} // verus!
