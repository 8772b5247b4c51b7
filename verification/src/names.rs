//! Portage names its build directories `<name>-<version>`; this module
//! splits such a directory name back into the package's name and version.

use vstd::prelude::*;
use crate::pattern::{CharClass, run_end, lemma_run_end, scan_run, char_at, is_char_at, has_literal, literal_at, copy_span, all_ascii_digits};
use crate::text::{string_of_range, is_ascii_digit};

verus! {

// ---------------------------------------------------------------------------
// The version grammar
//   [0-9]+ (\.[0-9]+)* [a-z]? (_(alpha|beta|pre|rc|p)[0-9]*)* (-r[0-9]+)?
// ---------------------------------------------------------------------------

/// After the numbers `(\.[0-9]+)*` that follow position `i`.
pub open spec fn dot_groups_end(s: Seq<char>, i: int) -> int
    decreases s.len() - i,
{
    if 0 <= i && char_at(s, i, '.') && run_end(s, i + 1, CharClass::AsciiDigit) > i + 1 {
        proof {
            lemma_run_end(s, i + 1, CharClass::AsciiDigit);
        }
        dot_groups_end(s, run_end(s, i + 1, CharClass::AsciiDigit))
    } else {
        i
    }
}

/// After the optional letter `[a-z]?` at `i`.
pub open spec fn letter_end(s: Seq<char>, i: int) -> int {
    if 0 <= i < s.len() && 'a' <= s[i] && s[i] <= 'z' {
        i + 1
    } else {
        i
    }
}

pub open spec fn word_alpha() -> Seq<char> {
    seq!['a', 'l', 'p', 'h', 'a']
}

pub open spec fn word_beta() -> Seq<char> {
    seq!['b', 'e', 't', 'a']
}

pub open spec fn word_pre() -> Seq<char> {
    seq!['p', 'r', 'e']
}

pub open spec fn word_rc() -> Seq<char> {
    seq!['r', 'c']
}

pub open spec fn word_p() -> Seq<char> {
    seq!['p']
}

/// The length of the suffix word `alpha|beta|pre|rc|p` at `i`, the first of
/// them that is there; 0 when none is.
pub open spec fn suffix_word_len(s: Seq<char>, i: int) -> int {
    if has_literal(s, i, word_alpha()) {
        5
    } else if has_literal(s, i, word_beta()) {
        4
    } else if has_literal(s, i, word_pre()) {
        3
    } else if has_literal(s, i, word_rc()) {
        2
    } else if has_literal(s, i, word_p()) {
        1
    } else {
        0
    }
}

/// After the suffixes `(_(alpha|beta|pre|rc|p)[0-9]*)*` that follow `i`.
pub open spec fn suffix_groups_end(s: Seq<char>, i: int) -> int
    decreases s.len() - i,
{
    if 0 <= i && char_at(s, i, '_') && suffix_word_len(s, i + 1) > 0 {
        let w = suffix_word_len(s, i + 1);
        proof {
            lemma_run_end(s, i + 1 + w, CharClass::AsciiDigit);
        }
        suffix_groups_end(s, run_end(s, i + 1 + w, CharClass::AsciiDigit))
    } else {
        i
    }
}

/// What is left from `i` is nothing, or a revision `-r[0-9]+`.
pub open spec fn revision_ends(s: Seq<char>, i: int) -> bool {
    ||| i == s.len()
    ||| (char_at(s, i, '-') && char_at(s, i + 1, 'r') && i + 2 < s.len() && run_end(
        s,
        i + 2,
        CharClass::AsciiDigit,
    ) == s.len())
}

/// `s` is a Portage version: all of it matches
/// `[0-9]+(\.[0-9]+)*[a-z]?(_(alpha|beta|pre|rc|p)[0-9]*)*(-r[0-9]+)?`.
/// Each part starts with a character that the part before it cannot take,
/// so each is taken as far as it goes.
pub open spec fn is_version(s: Seq<char>) -> bool {
    let a = run_end(s, 0, CharClass::AsciiDigit);
    a > 0 && revision_ends(s, suffix_groups_end(s, letter_end(s, dot_groups_end(s, a))))
}

fn dot_groups_end_exec(s: &Vec<char>, i: usize) -> (r: usize)
    requires
        i <= s@.len(),
    ensures
        r == dot_groups_end(s@, i as int),
        i <= r <= s@.len(),
{
    let n = s.len();
    let mut j = i;
    while is_char_at(s, j, '.')
        invariant
            i <= j <= n == s@.len(),
            dot_groups_end(s@, j as int) == dot_groups_end(s@, i as int),
        decreases n - j,
    {
        let k = scan_run(s, j + 1, CharClass::AsciiDigit);
        if k == j + 1 {
            return j;
        }
        j = k;
    }
    j
}

fn suffix_word_len_exec(s: &Vec<char>, i: usize) -> (r: usize)
    ensures
        r as int == suffix_word_len(s@, i as int),
        r <= 5,
{
    let alpha = ['a', 'l', 'p', 'h', 'a'];
    let beta = ['b', 'e', 't', 'a'];
    let pre = ['p', 'r', 'e'];
    let rc = ['r', 'c'];
    let p = ['p'];
    assert(alpha@ =~= word_alpha());
    assert(beta@ =~= word_beta());
    assert(pre@ =~= word_pre());
    assert(rc@ =~= word_rc());
    assert(p@ =~= word_p());
    if literal_at(s, i, &alpha) {
        5
    } else if literal_at(s, i, &beta) {
        4
    } else if literal_at(s, i, &pre) {
        3
    } else if literal_at(s, i, &rc) {
        2
    } else if literal_at(s, i, &p) {
        1
    } else {
        0
    }
}

fn suffix_groups_end_exec(s: &Vec<char>, i: usize) -> (r: usize)
    requires
        i <= s@.len(),
    ensures
        r == suffix_groups_end(s@, i as int),
        i <= r <= s@.len(),
{
    let n = s.len();
    let mut j = i;
    while is_char_at(s, j, '_')
        invariant
            i <= j <= n == s@.len(),
            suffix_groups_end(s@, j as int) == suffix_groups_end(s@, i as int),
        decreases n - j,
    {
        let w = suffix_word_len_exec(s, j + 1);
        if w == 0 {
            return j;
        }
        j = scan_run(s, j + 1 + w, CharClass::AsciiDigit);
    }
    j
}

/// Whether `s` is a Portage version (see [`is_version`]).
pub fn version_matches(s: &Vec<char>) -> (r: bool)
    ensures
        r == is_version(s@),
{
    let n = s.len();
    let a = scan_run(s, 0, CharClass::AsciiDigit);
    if a == 0 {
        return false;
    }
    let b = dot_groups_end_exec(s, a);
    let c = if b < n && 'a' <= s[b] && s[b] <= 'z' {
        b + 1
    } else {
        b
    };
    let d = suffix_groups_end_exec(s, c);
    if d == n {
        return true;
    }
    is_char_at(s, d, '-') && is_char_at(s, d + 1, 'r') && d + 2 < n && scan_run(
        s,
        d + 2,
        CharClass::AsciiDigit,
    ) == n
}

// ---------------------------------------------------------------------------
// Splitting a directory name
// ---------------------------------------------------------------------------

pub open spec fn no_newline(s: Seq<char>) -> bool {
    forall|k: int| 0 <= k < s.len() ==> s[k] != '\n'
}

/// `s` reads as name, `-`, version with the hyphen at `p`: the match of
/// `^(.+)-(version)$` whose name ends at `p`.
pub open spec fn splits_at(s: Seq<char>, p: int) -> bool {
    &&& 1 <= p < s.len()
    &&& s[p] == '-'
    &&& no_newline(s.take(p))
    &&& is_version(s.skip(p + 1))
}

/// The last hyphen at or before `p` at which `s` splits.
pub open spec fn last_split(s: Seq<char>, p: int) -> Option<int>
    decreases p,
{
    if p < 1 {
        None
    } else if splits_at(s, p) {
        Some(p)
    } else {
        last_split(s, p - 1)
    }
}

/// The name and version in a build directory's name: the longest name after
/// which the rest is a hyphen and a version, as the greedy `(.+)` of
/// `^(.+)-(version)$` takes it; the whole name and no version when no split
/// works.
pub open spec fn name_version(s: Seq<char>) -> (Seq<char>, Seq<char>) {
    match last_split(s, s.len() - 1) {
        Some(p) => (s.take(p), s.skip(p + 1)),
        None => (s, Seq::empty()),
    }
}

proof fn lemma_last_split(s: Seq<char>, q: int)
    ensures
        last_split(s, q) matches Some(p) ==> splits_at(s, p),
    decreases q,
{
    if q >= 1 && !splits_at(s, q) {
        lemma_last_split(s, q - 1);
    }
}

/// A split gives back the directory name: name, hyphen, version, with a
/// name that is not empty and a version in Portage's grammar; with no split,
/// the name is the whole directory name.
pub proof fn lemma_name_version_rejoins(s: Seq<char>)
    ensures
        name_version(s).1.len() > 0 ==> {
            &&& name_version(s).0 + seq!['-'] + name_version(s).1 == s
            &&& name_version(s).0.len() > 0
            &&& is_version(name_version(s).1)
        },
        name_version(s).1.len() == 0 ==> name_version(s).0 == s,
{
    lemma_last_split(s, s.len() - 1);
    match last_split(s, s.len() - 1) {
        Some(p) => {
            assert(s.take(p) + seq!['-'] + s.skip(p + 1) =~= s);
            lemma_run_end(s.skip(p + 1), 0, CharClass::AsciiDigit);
        },
        None => {},
    }
}

/// The full name of a package whose directory name splits is its category,
/// a slash and the directory name.
pub proof fn lemma_full_name_of_split(category: Seq<char>, dirname: Seq<char>)
    requires
        name_version(dirname).1.len() > 0,
    ensures
        crate::format::full_name_text(category, name_version(dirname).0, name_version(dirname).1)
            == category + seq!['/'] + dirname,
{
    lemma_name_version_rejoins(dirname);
    let n = name_version(dirname).0;
    let v = name_version(dirname).1;
    assert(category + seq!['/'] + n + seq!['-'] + v =~= category + seq!['/'] + (n + seq!['-'] + v));
}

// ---------------------------------------------------------------------------
// Versions made of numbers and dots
// ---------------------------------------------------------------------------

/// `v` is numbers joined by single dots, as `128.0.6613.119` is: ASCII
/// digits, and dots that each stand between two digits.
pub open spec fn dotted_numbers(v: Seq<char>) -> bool {
    &&& v.len() > 0
    &&& forall|k: int|
        0 <= k < v.len() ==> {
            ||| is_ascii_digit(#[trigger] v[k])
            ||| (v[k] == '.' && 0 < k < v.len() - 1 && is_ascii_digit(v[k - 1]) && is_ascii_digit(
                v[k + 1],
            ))
        }
}

/// From the end `i` of one of its numbers, the dot groups of numbers joined
/// by dots that make up `s` up to `e` run to `e`, when what stands at `e`
/// is neither a digit nor a dot.
proof fn lemma_dot_groups_run_out(s: Seq<char>, e: int, i: int)
    requires
        0 < i <= e <= s.len(),
        dotted_numbers(s.take(e)),
        e == s.len() || (!is_ascii_digit(s[e]) && s[e] != '.'),
        i == e || s[i] == '.',
    ensures
        dot_groups_end(s, i) == e,
    decreases e - i,
{
    let v = s.take(e);
    if i < e {
        assert(v[i] == s[i]);
        assert(v[i + 1] == s[i + 1]);
        assert(is_ascii_digit(s[i + 1]));
        lemma_run_end(s, i + 1, CharClass::AsciiDigit);
        lemma_run_end(s, i + 2, CharClass::AsciiDigit);
        let j = run_end(s, i + 1, CharClass::AsciiDigit);
        assert(j > i + 1);
        if j > e {
            assert(is_ascii_digit(s[e]));
        }
        if j < e {
            assert(v[j] == s[j]);
            assert(!is_ascii_digit(s[j]));
            assert(s[j] == '.');
        }
        lemma_dot_groups_run_out(s, e, j);
    } else {
        assert(!char_at(s, i, '.'));
    }
}

/// The numbers joined by dots that make up `s` up to `e` are the numeric
/// part of the version grammar: the dot groups run out at `e`.
proof fn lemma_numeric_part(s: Seq<char>, e: int)
    requires
        0 < e <= s.len(),
        dotted_numbers(s.take(e)),
        e == s.len() || (!is_ascii_digit(s[e]) && s[e] != '.'),
    ensures
        run_end(s, 0, CharClass::AsciiDigit) > 0,
        dot_groups_end(s, run_end(s, 0, CharClass::AsciiDigit)) == e,
{
    let v = s.take(e);
    assert(v[0] == s[0]);
    assert(is_ascii_digit(s[0]));
    lemma_run_end(s, 0, CharClass::AsciiDigit);
    lemma_run_end(s, 1, CharClass::AsciiDigit);
    let a = run_end(s, 0, CharClass::AsciiDigit);
    if a > e {
        assert(is_ascii_digit(s[e]));
    }
    if a < e {
        assert(v[a] == s[a]);
        assert(!is_ascii_digit(s[a]));
        assert(s[a] == '.');
    }
    lemma_dot_groups_run_out(s, e, a);
}

/// Numbers joined by dots are a version, however many dot groups they have.
pub proof fn lemma_dotted_numbers_are_version(v: Seq<char>)
    requires
        dotted_numbers(v),
    ensures
        is_version(v),
{
    assert(v.take(v.len() as int) =~= v);
    lemma_numeric_part(v, v.len() as int);
    assert(letter_end(v, v.len() as int) == v.len());
    assert(suffix_groups_end(v, v.len() as int) == v.len());
}

/// Numbers joined by dots and one lower-case letter are a version.
pub proof fn lemma_lettered_version(v: Seq<char>, c: char)
    requires
        dotted_numbers(v),
        'a' <= c <= 'z',
    ensures
        is_version(v.push(c)),
{
    let s = v.push(c);
    let e = v.len() as int;
    assert(s.take(e) =~= v);
    lemma_numeric_part(s, e);
    assert(letter_end(s, e) == s.len());
    assert(suffix_groups_end(s, s.len() as int) == s.len());
}

/// The suffix words of the version grammar.
pub open spec fn is_suffix_word(w: Seq<char>) -> bool {
    ||| w == word_alpha()
    ||| w == word_beta()
    ||| w == word_pre()
    ||| w == word_rc()
    ||| w == word_p()
}

/// Numbers joined by dots, then `_`, a suffix word (`alpha`, `beta`, `pre`,
/// `rc` or `p`) and digits, as many as there are (none too), are a version.
pub proof fn lemma_suffixed_version(v: Seq<char>, w: Seq<char>, d: Seq<char>)
    requires
        dotted_numbers(v),
        is_suffix_word(w),
        all_ascii_digits(d),
    ensures
        is_version(v + seq!['_'] + w + d),
{
    let s = v + seq!['_'] + w + d;
    let e = v.len() as int;
    let g = e + 1 + w.len();
    assert(s.take(e) =~= v);
    lemma_numeric_part(s, e);
    assert(letter_end(s, e) == e);
    assert(s.subrange(e + 1, g) =~= w);
    assert(s[e + 1] == w[0]);
    if g < s.len() {
        assert(s[g] == d[0]);
        assert(is_ascii_digit(d[0]));
    }
    if w == word_p() && has_literal(s, e + 1, word_pre()) {
        assert(s.subrange(e + 1, e + 4)[1] == s[g]);
    }
    assert(suffix_word_len(s, e + 1) == w.len());
    assert forall|k: int| g <= k < s.len() implies crate::pattern::in_class(
        #[trigger] s[k],
        CharClass::AsciiDigit,
    ) by {
        assert(s[k] == d[k - g]);
    }
    crate::pattern::lemma_run_end_at(s, g, s.len() as int, CharClass::AsciiDigit);
    assert(suffix_groups_end(s, s.len() as int) == s.len());
    assert(suffix_groups_end(s, e) == s.len());
}

/// Numbers joined by dots, then a revision `-r` and its number, are a
/// version.
pub proof fn lemma_revised_version(v: Seq<char>, r: Seq<char>)
    requires
        dotted_numbers(v),
        r.len() > 0,
        all_ascii_digits(r),
    ensures
        is_version(v + seq!['-', 'r'] + r),
{
    let s = v + seq!['-', 'r'] + r;
    let e = v.len() as int;
    assert(s.take(e) =~= v);
    lemma_numeric_part(s, e);
    assert(letter_end(s, e) == e);
    assert(suffix_groups_end(s, e) == e);
    assert forall|k: int| e + 2 <= k < s.len() implies crate::pattern::in_class(
        #[trigger] s[k],
        CharClass::AsciiDigit,
    ) by {
        assert(s[k] == r[k - e - 2]);
    }
    crate::pattern::lemma_run_end_at(s, e + 2, s.len() as int, CharClass::AsciiDigit);
}

/// A dot and one more number after numbers joined by dots give numbers
/// joined by dots again, and so a version: the dot groups are unbounded.
pub proof fn lemma_dot_group_appended(v: Seq<char>, d: Seq<char>)
    requires
        dotted_numbers(v),
        d.len() > 0,
        all_ascii_digits(d),
    ensures
        dotted_numbers(v + seq!['.'] + d),
        is_version(v + seq!['.'] + d),
{
    let w = v + seq!['.'] + d;
    let n = v.len() as int;
    assert(is_ascii_digit(v[n - 1]));
    assert(is_ascii_digit(d[0]));
    assert forall|k: int| 0 <= k < w.len() implies {
        ||| is_ascii_digit(#[trigger] w[k])
        ||| (w[k] == '.' && 0 < k < w.len() - 1 && is_ascii_digit(w[k - 1]) && is_ascii_digit(
            w[k + 1],
        ))
    } by {
        if k < n {
            assert(w[k] == v[k]);
            if !is_ascii_digit(v[k]) {
                assert(w[k - 1] == v[k - 1]);
                assert(w[k + 1] == v[k + 1]);
            }
        } else if k > n {
            assert(w[k] == d[k - n - 1]);
        }
    }
    lemma_dotted_numbers_are_version(w);
}

proof fn lemma_last_split_past(s: Seq<char>, p: int, q: int)
    requires
        1 <= p <= q,
        splits_at(s, p),
        forall|k: int| p < k <= q ==> !splits_at(s, k),
    ensures
        last_split(s, q) == Some(p),
    decreases q,
{
    if q > p {
        lemma_last_split_past(s, p, q - 1);
    }
}

/// A name with no newline, a hyphen and a version split into that name and
/// that version, unless a hyphen inside the version is followed by a
/// version of its own (the name then takes the longest split).
pub proof fn lemma_split_at_version(n: Seq<char>, v: Seq<char>)
    requires
        n.len() > 0,
        no_newline(n),
        is_version(v),
        forall|k: int| 0 <= k < v.len() && v[k] == '-' ==> !is_version(#[trigger] v.skip(k + 1)),
    ensures
        name_version(n + seq!['-'] + v) == (n, v),
{
    let s = n + seq!['-'] + v;
    let p = n.len() as int;
    assert(s.take(p) =~= n);
    assert(s.skip(p + 1) =~= v);
    assert(splits_at(s, p));
    assert forall|q: int| p < q <= s.len() - 1 implies !splits_at(s, q) by {
        let k = q - p - 1;
        assert(s[q] == v[k]);
        assert(s.skip(q + 1) =~= v.skip(k + 1));
    }
    lemma_last_split_past(s, p, s.len() - 1);
}

/// A build directory named by a package's name, a hyphen and numbers joined
/// by dots splits into that name and those numbers, however many dot groups
/// they have.
pub proof fn lemma_split_dotted_version(n: Seq<char>, v: Seq<char>)
    requires
        n.len() > 0,
        no_newline(n),
        dotted_numbers(v),
    ensures
        name_version(n + seq!['-'] + v) == (n, v),
{
    lemma_dotted_numbers_are_version(v);
    assert forall|k: int| 0 <= k < v.len() && v[k] == '-' implies !is_version(
        #[trigger] v.skip(k + 1),
    ) by {
        assert(is_ascii_digit(v[k]) || v[k] == '.');
    }
    lemma_split_at_version(n, v);
}

/// A build directory named by a package's name, a hyphen, numbers joined by
/// dots and a revision `-rN` splits into that name and the version with its
/// revision.
pub proof fn lemma_split_revised_version(n: Seq<char>, v: Seq<char>, r: Seq<char>)
    requires
        n.len() > 0,
        no_newline(n),
        dotted_numbers(v),
        r.len() > 0,
        all_ascii_digits(r),
    ensures
        name_version(n + seq!['-'] + (v + seq!['-', 'r'] + r)) == (n, v + seq!['-', 'r'] + r),
{
    let w = v + seq!['-', 'r'] + r;
    let e = v.len() as int;
    lemma_revised_version(v, r);
    assert forall|k: int| 0 <= k < w.len() && w[k] == '-' implies !is_version(
        #[trigger] w.skip(k + 1),
    ) by {
        if k < e {
            assert(w[k] == v[k]);
            assert(is_ascii_digit(v[k]) || v[k] == '.');
        } else if k > e {
            assert(w[k] == seq!['-', 'r'][k - e] || w[k] == r[k - e - 2]);
            if k > e + 1 {
                assert(w[k] == r[k - e - 2]);
                assert(is_ascii_digit(r[k - e - 2]));
            }
        } else {
            let t = w.skip(k + 1);
            assert(t[0] == 'r');
            assert(run_end(t, 0, CharClass::AsciiDigit) == 0);
        }
    }
    lemma_split_at_version(n, w);
}

/// Splits a build directory's name into the package's name and version (see
/// [`name_version`]).
pub fn split_name_version(dirname: &str) -> (r: (String, String))
    ensures
        (r.0@, r.1@) == name_version(dirname@),
{
    let s = crate::text::chars_of(dirname);
    let n = s.len();
    let mut f: usize = 0;
    while f < n && s[f] != '\n'
        invariant
            f <= n == s@.len(),
            forall|k: int| 0 <= k < f ==> s@[k] != '\n',
        decreases n - f,
    {
        f = f + 1;
    }
    if n == 0 {
        return (string_of_range(&s, 0, 0), string_of_range(&s, 0, 0));
    }
    let mut p = n - 1;
    while p >= 1
        invariant
            p < n == s@.len(),
            s@ == dirname@,
            f <= n,
            forall|k: int| 0 <= k < f ==> s@[k] != '\n',
            f < n ==> s@[f as int] == '\n',
            last_split(s@, p as int) == last_split(s@, n - 1),
        decreases p,
    {
        if s[p] == '-' && p <= f {
            let rest = copy_span(&s, p + 1, n);
            if version_matches(&rest) {
                proof {
                    assert(rest@ =~= s@.skip(p + 1));
                    assert(no_newline(s@.take(p as int)));
                }
                return (string_of_range(&s, 0, p), string_of_range(&s, p + 1, n));
            }
            assert(rest@ =~= s@.skip(p + 1));
        } else if s[p] == '-' {
            assert(s@.take(p as int)[f as int] == '\n');
        }
        p = p - 1;
    }
    assert(s@.subrange(0, n as int) =~= s@);
    (string_of_range(&s, 0, n), string_of_range(&s, 0, 0))
}

} // verus!
