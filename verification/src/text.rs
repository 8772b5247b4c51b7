//! Character classes and text primitives shared by the log parsers: the
//! Unicode classes that `\s` and `\d` name, splitting text into lines the way
//! `str::lines` does, trimming, and building strings from characters.

use vstd::prelude::*;

verus! {

broadcast use vstd::string::group_string_axioms;

/// The Unicode `White_Space` property: the characters that `char::is_whitespace`,
/// `str::trim` and the regular-expression class `\s` treat as white space.
pub open spec fn is_space(c: char) -> bool {
    ||| ('\u{9}' <= c && c <= '\u{d}')
    ||| c == ' '
    ||| c == '\u{85}'
    ||| c == '\u{a0}'
    ||| c == '\u{1680}'
    ||| ('\u{2000}' <= c && c <= '\u{200a}')
    ||| c == '\u{2028}'
    ||| c == '\u{2029}'
    ||| c == '\u{202f}'
    ||| c == '\u{205f}'
    ||| c == '\u{3000}'
}

/// Executable test for [`is_space`].
pub fn char_is_space(c: char) -> (r: bool)
    ensures
        r == is_space(c),
{
    ('\u{9}' <= c && c <= '\u{d}') || c == ' ' || c == '\u{85}' || c == '\u{a0}' || c
        == '\u{1680}' || ('\u{2000}' <= c && c <= '\u{200a}') || c == '\u{2028}' || c
        == '\u{2029}' || c == '\u{202f}' || c == '\u{205f}' || c == '\u{3000}'
}

/// A digit `0`..=`9` of ASCII.
pub open spec fn is_ascii_digit(c: char) -> bool {
    '0' <= c && c <= '9'
}

/// The Unicode general category `Nd` (decimal number), version 16.0: the
/// class that `\d` names in a Unicode-aware regular expression. Each range
/// holds the ten digits of one script (two of them hold several sets).
pub open spec fn is_decimal(c: char) -> bool {
    let u = c as u32;
    ||| (0x30 <= u && u <= 0x39)
    ||| (0x660 <= u && u <= 0x669)
    ||| (0x6f0 <= u && u <= 0x6f9)
    ||| (0x7c0 <= u && u <= 0x7c9)
    ||| (0x966 <= u && u <= 0x96f)
    ||| (0x9e6 <= u && u <= 0x9ef)
    ||| (0xa66 <= u && u <= 0xa6f)
    ||| (0xae6 <= u && u <= 0xaef)
    ||| (0xb66 <= u && u <= 0xb6f)
    ||| (0xbe6 <= u && u <= 0xbef)
    ||| (0xc66 <= u && u <= 0xc6f)
    ||| (0xce6 <= u && u <= 0xcef)
    ||| (0xd66 <= u && u <= 0xd6f)
    ||| (0xde6 <= u && u <= 0xdef)
    ||| (0xe50 <= u && u <= 0xe59)
    ||| (0xed0 <= u && u <= 0xed9)
    ||| (0xf20 <= u && u <= 0xf29)
    ||| (0x1040 <= u && u <= 0x1049)
    ||| (0x1090 <= u && u <= 0x1099)
    ||| (0x17e0 <= u && u <= 0x17e9)
    ||| (0x1810 <= u && u <= 0x1819)
    ||| (0x1946 <= u && u <= 0x194f)
    ||| (0x19d0 <= u && u <= 0x19d9)
    ||| (0x1a80 <= u && u <= 0x1a89)
    ||| (0x1a90 <= u && u <= 0x1a99)
    ||| (0x1b50 <= u && u <= 0x1b59)
    ||| (0x1bb0 <= u && u <= 0x1bb9)
    ||| (0x1c40 <= u && u <= 0x1c49)
    ||| (0x1c50 <= u && u <= 0x1c59)
    ||| (0xa620 <= u && u <= 0xa629)
    ||| (0xa8d0 <= u && u <= 0xa8d9)
    ||| (0xa900 <= u && u <= 0xa909)
    ||| (0xa9d0 <= u && u <= 0xa9d9)
    ||| (0xa9f0 <= u && u <= 0xa9f9)
    ||| (0xaa50 <= u && u <= 0xaa59)
    ||| (0xabf0 <= u && u <= 0xabf9)
    ||| (0xff10 <= u && u <= 0xff19)
    ||| (0x104a0 <= u && u <= 0x104a9)
    ||| (0x10d30 <= u && u <= 0x10d39)
    ||| (0x10d40 <= u && u <= 0x10d49)
    ||| (0x11066 <= u && u <= 0x1106f)
    ||| (0x110f0 <= u && u <= 0x110f9)
    ||| (0x11136 <= u && u <= 0x1113f)
    ||| (0x111d0 <= u && u <= 0x111d9)
    ||| (0x112f0 <= u && u <= 0x112f9)
    ||| (0x11450 <= u && u <= 0x11459)
    ||| (0x114d0 <= u && u <= 0x114d9)
    ||| (0x11650 <= u && u <= 0x11659)
    ||| (0x116c0 <= u && u <= 0x116c9)
    ||| (0x116d0 <= u && u <= 0x116e3)
    ||| (0x11730 <= u && u <= 0x11739)
    ||| (0x118e0 <= u && u <= 0x118e9)
    ||| (0x11950 <= u && u <= 0x11959)
    ||| (0x11bf0 <= u && u <= 0x11bf9)
    ||| (0x11c50 <= u && u <= 0x11c59)
    ||| (0x11d50 <= u && u <= 0x11d59)
    ||| (0x11da0 <= u && u <= 0x11da9)
    ||| (0x11f50 <= u && u <= 0x11f59)
    ||| (0x16130 <= u && u <= 0x16139)
    ||| (0x16a60 <= u && u <= 0x16a69)
    ||| (0x16ac0 <= u && u <= 0x16ac9)
    ||| (0x16b50 <= u && u <= 0x16b59)
    ||| (0x16d70 <= u && u <= 0x16d79)
    ||| (0x1ccf0 <= u && u <= 0x1ccf9)
    ||| (0x1d7ce <= u && u <= 0x1d7ff)
    ||| (0x1e140 <= u && u <= 0x1e149)
    ||| (0x1e2f0 <= u && u <= 0x1e2f9)
    ||| (0x1e4f0 <= u && u <= 0x1e4f9)
    ||| (0x1e5f1 <= u && u <= 0x1e5fa)
    ||| (0x1e950 <= u && u <= 0x1e959)
    ||| (0x1fbf0 <= u && u <= 0x1fbf9)
}

/// Executable test for [`is_decimal`].
pub fn char_is_decimal(c: char) -> (r: bool)
    ensures
        r == is_decimal(c),
{
    let u = c as u32;
    (0x30 <= u && u <= 0x39) || (0x660 <= u && u <= 0x669) || (0x6f0 <= u && u <= 0x6f9) || (
    0x7c0 <= u && u <= 0x7c9) || (0x966 <= u && u <= 0x96f) || (0x9e6 <= u && u <= 0x9ef) || (
    0xa66 <= u && u <= 0xa6f) || (0xae6 <= u && u <= 0xaef) || (0xb66 <= u && u <= 0xb6f) || (
    0xbe6 <= u && u <= 0xbef) || (0xc66 <= u && u <= 0xc6f) || (0xce6 <= u && u <= 0xcef) || (
    0xd66 <= u && u <= 0xd6f) || (0xde6 <= u && u <= 0xdef) || (0xe50 <= u && u <= 0xe59) || (
    0xed0 <= u && u <= 0xed9) || (0xf20 <= u && u <= 0xf29) || (0x1040 <= u && u <= 0x1049) || (
    0x1090 <= u && u <= 0x1099) || (0x17e0 <= u && u <= 0x17e9) || (0x1810 <= u && u <= 0x1819)
        || (0x1946 <= u && u <= 0x194f) || (0x19d0 <= u && u <= 0x19d9) || (0x1a80 <= u && u
        <= 0x1a89) || (0x1a90 <= u && u <= 0x1a99) || (0x1b50 <= u && u <= 0x1b59) || (0x1bb0
        <= u && u <= 0x1bb9) || (0x1c40 <= u && u <= 0x1c49) || (0x1c50 <= u && u <= 0x1c59) || (
    0xa620 <= u && u <= 0xa629) || (0xa8d0 <= u && u <= 0xa8d9) || (0xa900 <= u && u <= 0xa909)
        || (0xa9d0 <= u && u <= 0xa9d9) || (0xa9f0 <= u && u <= 0xa9f9) || (0xaa50 <= u && u
        <= 0xaa59) || (0xabf0 <= u && u <= 0xabf9) || (0xff10 <= u && u <= 0xff19) || (0x104a0
        <= u && u <= 0x104a9) || (0x10d30 <= u && u <= 0x10d39) || (0x10d40 <= u && u
        <= 0x10d49) || (0x11066 <= u && u <= 0x1106f) || (0x110f0 <= u && u <= 0x110f9) || (
    0x11136 <= u && u <= 0x1113f) || (0x111d0 <= u && u <= 0x111d9) || (0x112f0 <= u && u
        <= 0x112f9) || (0x11450 <= u && u <= 0x11459) || (0x114d0 <= u && u <= 0x114d9) || (
    0x11650 <= u && u <= 0x11659) || (0x116c0 <= u && u <= 0x116c9) || (0x116d0 <= u && u
        <= 0x116e3) || (0x11730 <= u && u <= 0x11739) || (0x118e0 <= u && u <= 0x118e9) || (
    0x11950 <= u && u <= 0x11959) || (0x11bf0 <= u && u <= 0x11bf9) || (0x11c50 <= u && u
        <= 0x11c59) || (0x11d50 <= u && u <= 0x11d59) || (0x11da0 <= u && u <= 0x11da9) || (
    0x11f50 <= u && u <= 0x11f59) || (0x16130 <= u && u <= 0x16139) || (0x16a60 <= u && u
        <= 0x16a69) || (0x16ac0 <= u && u <= 0x16ac9) || (0x16b50 <= u && u <= 0x16b59) || (
    0x16d70 <= u && u <= 0x16d79) || (0x1ccf0 <= u && u <= 0x1ccf9) || (0x1d7ce <= u && u
        <= 0x1d7ff) || (0x1e140 <= u && u <= 0x1e149) || (0x1e2f0 <= u && u <= 0x1e2f9) || (
    0x1e4f0 <= u && u <= 0x1e4f9) || (0x1e5f1 <= u && u <= 0x1e5fa) || (0x1e950 <= u && u
        <= 0x1e959) || (0x1fbf0 <= u && u <= 0x1fbf9)
}

/// Copies the characters of `s` into a vector.
pub fn chars_of(s: &str) -> (v: Vec<char>)
    ensures
        v@ == s@,
{
    let mut v: Vec<char> = Vec::new();
    for c in it: s.chars()
        invariant
            v@ == it.seq().take(it.index()),
            it.seq() == s@,
    {
        v.push(c);
    }
    v
}

/// `String::push`: appends one character; the contract states that the
/// string grows by exactly that character.
#[verifier::external_body]
pub(crate) fn push_char(s: &mut String, c: char)
    ensures
        final(s)@ == old(s)@.push(c),
{
    s.push(c);
}

/// Appends `v[start..end]` to `out`.
pub fn push_range(out: &mut String, v: &Vec<char>, start: usize, end: usize)
    requires
        start <= end <= v@.len(),
    ensures
        final(out)@ == old(out)@ + v@.subrange(start as int, end as int),
{
    let mut i = start;
    while i < end
        invariant
            start <= i <= end <= v@.len(),
            out@ == old(out)@ + v@.subrange(start as int, i as int),
        decreases end - i,
    {
        push_char(out, v[i]);
        i = i + 1;
        assert(v@.subrange(start as int, i as int) =~= v@.subrange(start as int, i - 1).push(
            v@[i - 1],
        ));
    }
}

/// Appends the characters of `s` to `out`.
pub fn push_str(out: &mut String, s: &str)
    ensures
        final(out)@ == old(out)@ + s@,
{
    let v = chars_of(s);
    push_range(out, &v, 0, v.len());
    assert(v@.subrange(0, v@.len() as int) =~= s@);
}

/// The string made of `v[start..end]`.
pub fn string_of_range(v: &Vec<char>, start: usize, end: usize) -> (s: String)
    requires
        start <= end <= v@.len(),
    ensures
        s@ == v@.subrange(start as int, end as int),
{
    let mut s = String::new();
    push_range(&mut s, v, start, end);
    s
}

// ---------------------------------------------------------------------------
// Lines
// ---------------------------------------------------------------------------

/// The pieces of `t` between line feeds, as `str::split('\n')` gives them:
/// one more piece than `t` has line feeds.
pub open spec fn split_lf(t: Seq<char>) -> Seq<Seq<char>>
    decreases t.len(),
{
    if t.len() == 0 {
        seq![Seq::<char>::empty()]
    } else {
        let init = split_lf(t.drop_last());
        if t.last() == '\n' {
            init.push(Seq::<char>::empty())
        } else {
            init.update(init.len() - 1, init.last().push(t.last()))
        }
    }
}

/// A line ended by a line feed loses a carriage return just before it.
pub open spec fn strip_cr(s: Seq<char>) -> Seq<char> {
    if s.len() > 0 && s.last() == '\r' {
        s.drop_last()
    } else {
        s
    }
}

/// The lines of `t` as `str::lines` yields them: the text is cut at each line
/// feed; a line that a line feed ends drops one carriage return before it; a
/// last piece after the final line feed counts only when it is not empty.
pub open spec fn text_lines(t: Seq<char>) -> Seq<Seq<char>> {
    let pieces = split_lf(t);
    let ended = pieces.drop_last().map_values(|p: Seq<char>| strip_cr(p));
    if pieces.last().len() == 0 {
        ended
    } else {
        ended.push(pieces.last())
    }
}

pub proof fn lemma_split_lf_len(t: Seq<char>)
    ensures
        split_lf(t).len() >= 1,
    decreases t.len(),
{
    if t.len() > 0 {
        lemma_split_lf_len(t.drop_last());
    }
}

/// A span `[start, end)` of a character vector.
pub open spec fn span_of(v: Seq<char>, r: (usize, usize)) -> Seq<char> {
    v.subrange(r.0 as int, r.1 as int)
}

pub open spec fn spans_in(v: Seq<char>, rs: Seq<(usize, usize)>) -> bool {
    forall|k: int| 0 <= k < rs.len() ==> #[trigger] rs[k].0 <= rs[k].1 <= v.len()
}

/// The spans of the lines of `v`, in order (see [`text_lines`]).
pub fn line_spans(v: &Vec<char>) -> (rs: Vec<(usize, usize)>)
    ensures
        spans_in(v@, rs@),
        rs@.len() == text_lines(v@).len(),
        forall|k: int| 0 <= k < rs@.len() ==> span_of(v@, #[trigger] rs@[k]) == text_lines(v@)[k],
{
    let n = v.len();
    let mut rs: Vec<(usize, usize)> = Vec::new();
    let mut cur: usize = 0;
    let mut i: usize = 0;
    proof {
        assert(v@.take(0) =~= Seq::<char>::empty());
    }
    while i < n
        invariant
            n == v@.len(),
            cur <= i <= n,
            spans_in(v@, rs@),
            rs@.len() + 1 == split_lf(v@.take(i as int)).len(),
            split_lf(v@.take(i as int)).last() == v@.subrange(cur as int, i as int),
            forall|k: int|
                0 <= k < rs@.len() ==> span_of(v@, #[trigger] rs@[k]) == strip_cr(
                    split_lf(v@.take(i as int))[k],
                ),
        decreases n - i,
    {
        let ghost before = split_lf(v@.take(i as int));
        proof {
            lemma_split_lf_len(v@.take(i as int));
            assert(v@.take(i + 1).drop_last() =~= v@.take(i as int));
            assert(v@.take(i + 1).last() == v@[i as int]);
        }
        if v[i] == '\n' {
            let end = if cur < i && v[i - 1] == '\r' {
                i - 1
            } else {
                i
            };
            proof {
                let piece = v@.subrange(cur as int, i as int);
                if cur < i && v@[i - 1] == '\r' {
                    assert(piece.drop_last() =~= v@.subrange(cur as int, end as int));
                }
                assert(strip_cr(piece) == v@.subrange(cur as int, end as int));
            }
            let ghost rs_before = rs@;
            rs.push((cur, end));
            cur = i + 1;
            proof {
                assert(split_lf(v@.take(i + 1)) == before.push(Seq::<char>::empty()));
                assert(v@.subrange(cur as int, i + 1) =~= Seq::<char>::empty());
                assert forall|k: int| 0 <= k < rs@.len() implies span_of(
                    v@,
                    #[trigger] rs@[k],
                ) == strip_cr(split_lf(v@.take(i + 1))[k]) by {
                    if k < rs@.len() - 1 {
                        assert(rs@[k] == rs_before[k]);
                    }
                }
            }
        } else {
            proof {
                assert(split_lf(v@.take(i + 1)) == before.update(
                    before.len() - 1,
                    before.last().push(v@[i as int]),
                ));
                assert(v@.subrange(cur as int, i + 1) =~= v@.subrange(cur as int, i as int).push(
                    v@[i as int],
                ));
            }
        }
        i = i + 1;
    }
    proof {
        assert(v@.take(n as int) =~= v@);
        lemma_split_lf_len(v@);
    }
    if cur < n {
        rs.push((cur, n));
    }
    rs
}

// ---------------------------------------------------------------------------
// Trimming
// ---------------------------------------------------------------------------

/// `s` without its leading white space.
pub open spec fn trim_start(s: Seq<char>) -> Seq<char>
    decreases s.len(),
{
    if s.len() > 0 && is_space(s[0]) {
        trim_start(s.drop_first())
    } else {
        s
    }
}

/// `s` without its trailing white space.
pub open spec fn trim_end(s: Seq<char>) -> Seq<char>
    decreases s.len(),
{
    if s.len() > 0 && is_space(s.last()) {
        trim_end(s.drop_last())
    } else {
        s
    }
}

/// `str::trim`: `s` without leading and trailing white space.
pub open spec fn trim(s: Seq<char>) -> Seq<char> {
    trim_end(trim_start(s))
}

/// The span of `v[start..end]` once trimmed.
pub fn trim_span(v: &Vec<char>, start: usize, end: usize) -> (r: (usize, usize))
    requires
        start <= end <= v@.len(),
    ensures
        start <= r.0 <= r.1 <= end,
        span_of(v@, r) == trim(v@.subrange(start as int, end as int)),
{
    let mut a = start;
    while a < end && char_is_space(v[a])
        invariant
            start <= a <= end <= v@.len(),
            trim_start(v@.subrange(a as int, end as int)) == trim_start(
                v@.subrange(start as int, end as int),
            ),
        decreases end - a,
    {
        assert(v@.subrange(a as int, end as int).drop_first() =~= v@.subrange(
            a + 1,
            end as int,
        ));
        a = a + 1;
    }
    let mut b = end;
    proof {
        assert(trim_start(v@.subrange(a as int, end as int)) == v@.subrange(a as int, end as int));
    }
    while b > a && char_is_space(v[b - 1])
        invariant
            start <= a <= b <= end <= v@.len(),
            trim_end(v@.subrange(a as int, b as int)) == trim(
                v@.subrange(start as int, end as int),
            ),
        decreases b - a,
    {
        assert(v@.subrange(a as int, b as int).drop_last() =~= v@.subrange(a as int, b - 1));
        b = b - 1;
    }
    (a, b)
}

proof fn lemma_trim_start_first(s: Seq<char>)
    ensures
        trim_start(s).len() > 0 ==> !is_space(trim_start(s)[0]),
        trim_start(s).len() <= s.len(),
    decreases s.len(),
{
    if s.len() > 0 && is_space(s[0]) {
        lemma_trim_start_first(s.drop_first());
    }
}

proof fn lemma_trim_end_prefix(s: Seq<char>)
    ensures
        trim_end(s).len() <= s.len(),
        trim_end(s) == s.take(trim_end(s).len() as int),
        trim_end(s).len() > 0 ==> !is_space(trim_end(s).last()),
    decreases s.len(),
{
    if s.len() > 0 && is_space(s.last()) {
        lemma_trim_end_prefix(s.drop_last());
        assert(s.drop_last().take(trim_end(s).len() as int) =~= s.take(trim_end(s).len() as int));
    } else {
        assert(s.take(s.len() as int) =~= s);
    }
}

/// A trimmed text that is not empty starts and ends with a character that is
/// not white space.
pub proof fn lemma_trim_bounds(s: Seq<char>)
    ensures
        trim(s).len() <= s.len(),
        trim(s).len() > 0 ==> !is_space(trim(s)[0]) && !is_space(trim(s).last()),
{
    lemma_trim_start_first(s);
    lemma_trim_end_prefix(trim_start(s));
    if trim(s).len() > 0 {
        assert(trim(s)[0] == trim_start(s).take(trim(s).len() as int)[0]);
    }
}

proof fn lemma_trim_end_keeps_first(s: Seq<char>)
    requires
        s.len() > 0,
        !is_space(s[0]),
    ensures
        trim_end(s).len() > 0,
    decreases s.len(),
{
    if is_space(s.last()) {
        assert(s.len() > 1);
        assert(s.drop_last()[0] == s[0]);
        lemma_trim_end_keeps_first(s.drop_last());
    }
}

/// A text that starts with a character other than white space is not
/// empty once trimmed.
pub proof fn lemma_trim_keeps_first(s: Seq<char>)
    requires
        s.len() > 0,
        !is_space(s[0]),
    ensures
        trim(s).len() > 0,
{
    assert(trim_start(s) == s);
    lemma_trim_end_keeps_first(s);
}

/// Trimming a trimmed text changes nothing.
pub proof fn lemma_trim_idempotent(s: Seq<char>)
    ensures
        trim(trim(s)) == trim(s),
{
    lemma_trim_bounds(s);
    let r = trim(s);
    if r.len() > 0 {
        assert(trim_start(r) == r);
        assert(trim_end(r) == r);
    } else {
        assert(trim_start(r) == r);
    }
}

/// `str::trim` on an owned string.
pub fn trimmed(s: &str) -> (r: String)
    ensures
        r@ == trim(s@),
{
    let v = chars_of(s);
    let (a, b) = trim_span(&v, 0, v.len());
    assert(v@.subrange(0, v@.len() as int) =~= s@);
    string_of_range(&v, a, b)
}

// ---------------------------------------------------------------------------
// The newest meaningful lines
// ---------------------------------------------------------------------------

/// The lines of `lines` trimmed, with the blank ones dropped, newest (last)
/// first.
pub open spec fn meaningful(lines: Seq<Seq<char>>) -> Seq<Seq<char>>
    decreases lines.len(),
{
    if lines.len() == 0 {
        Seq::empty()
    } else {
        let rest = meaningful(lines.drop_first());
        let l = trim(lines[0]);
        if l.len() == 0 {
            rest
        } else {
            rest.push(l)
        }
    }
}

/// At most `n` elements of `s`, from the front.
pub open spec fn take_at_most<A>(s: Seq<A>, n: nat) -> Seq<A> {
    if s.len() <= n {
        s
    } else {
        s.take(n as int)
    }
}

/// The last `n` non-blank lines of `t`, trimmed, newest first.
pub open spec fn recent_lines(t: Seq<char>, n: nat) -> Seq<Seq<char>> {
    take_at_most(meaningful(text_lines(t)), n)
}

proof fn lemma_meaningful_concat(a: Seq<Seq<char>>, b: Seq<Seq<char>>)
    ensures
        meaningful(a + b) == meaningful(b) + meaningful(a),
    decreases a.len(),
{
    if a.len() == 0 {
        assert(a + b =~= b);
        assert(meaningful(b) + meaningful(a) =~= meaningful(b));
    } else {
        assert((a + b).drop_first() =~= a.drop_first() + b);
        assert((a + b)[0] == a[0]);
        lemma_meaningful_concat(a.drop_first(), b);
        let l = trim(a[0]);
        if l.len() > 0 {
            assert((meaningful(b) + meaningful(a.drop_first())).push(l) =~= meaningful(b) + meaningful(
                a.drop_first(),
            ).push(l));
        }
    }
}

proof fn lemma_meaningful_split(lines: Seq<Seq<char>>, j: int)
    requires
        0 <= j <= lines.len(),
    ensures
        meaningful(lines) == meaningful(lines.subrange(j, lines.len() as int)) + meaningful(
            lines.subrange(0, j),
        ),
{
    assert(lines =~= lines.subrange(0, j) + lines.subrange(j, lines.len() as int));
    lemma_meaningful_concat(lines.subrange(0, j), lines.subrange(j, lines.len() as int));
}

/// The newest meaningful lines are at most `n`, none of them blank, none
/// starting or ending with white space.
pub proof fn lemma_recent_lines_trimmed(t: Seq<char>, n: nat)
    ensures
        recent_lines(t, n).len() <= n,
        forall|i: int|
            0 <= i < recent_lines(t, n).len() ==> {
                let l = #[trigger] recent_lines(t, n)[i];
                l.len() > 0 && !is_space(l[0]) && !is_space(l.last())
            },
{
    lemma_meaningful_trimmed(text_lines(t));
    let m = meaningful(text_lines(t));
    assert forall|i: int| 0 <= i < recent_lines(t, n).len() implies {
        let l = #[trigger] recent_lines(t, n)[i];
        l.len() > 0 && !is_space(l[0]) && !is_space(l.last())
    } by {
        assert(recent_lines(t, n)[i] == m[i]);
    }
}

proof fn lemma_meaningful_trimmed(lines: Seq<Seq<char>>)
    ensures
        forall|i: int|
            0 <= i < meaningful(lines).len() ==> {
                let l = #[trigger] meaningful(lines)[i];
                l.len() > 0 && !is_space(l[0]) && !is_space(l.last())
            },
    decreases lines.len(),
{
    if lines.len() > 0 {
        lemma_meaningful_trimmed(lines.drop_first());
        lemma_trim_bounds(lines[0]);
        let rest = meaningful(lines.drop_first());
        assert forall|i: int| 0 <= i < meaningful(lines).len() implies {
            let l = #[trigger] meaningful(lines)[i];
            l.len() > 0 && !is_space(l[0]) && !is_space(l.last())
        } by {
            if i < rest.len() {
                assert(meaningful(lines)[i] == rest[i]);
            }
        }
    }
}

/// No line feed in `s`.
pub open spec fn single_line(s: Seq<char>) -> bool {
    forall|k: int| 0 <= k < s.len() ==> s[k] != '\n'
}

proof fn lemma_split_lf_append(p: Seq<char>, l: Seq<char>)
    requires
        split_lf(p).last().len() == 0,
        single_line(l),
    ensures
        split_lf(p + l) == split_lf(p).drop_last().push(l),
    decreases l.len(),
{
    lemma_split_lf_len(p);
    if l.len() == 0 {
        assert(p + l =~= p);
        assert(split_lf(p).last() =~= l);
        assert(split_lf(p).drop_last().push(l) =~= split_lf(p));
    } else {
        let l2 = l.drop_last();
        lemma_split_lf_append(p, l2);
        assert((p + l).drop_last() =~= p + l2);
        assert((p + l).last() == l.last());
        assert(l2.push(l.last()) =~= l);
        let init = split_lf(p).drop_last().push(l2);
        assert(init.update(init.len() - 1, init.last().push(l.last())) =~= split_lf(p).drop_last().push(l));
    }
}

/// Appending a line (without a line feed) to a text that is empty or ends
/// with a line feed appends that line to its lines; it becomes the newest
/// meaningful line when it is not blank.
pub proof fn lemma_newest_line(p: Seq<char>, l: Seq<char>)
    requires
        p.len() == 0 || p.last() == '\n',
        single_line(l),
        trim(l).len() > 0,
    ensures
        text_lines(p + l) == text_lines(p).push(l),
        meaningful(text_lines(p + l)) == seq![trim(l)] + meaningful(text_lines(p)),
{
    if p.len() > 0 {
        lemma_split_lf_len(p.drop_last());
        assert(p.drop_last().push(p.last()) =~= p);
    }
    assert(split_lf(p).last().len() == 0);
    lemma_split_lf_append(p, l);
    lemma_split_lf_len(p);
    assert(l.len() > 0);
    let pieces = split_lf(p + l);
    assert(pieces.drop_last() =~= split_lf(p).drop_last());
    assert(pieces.last() == l);
    assert(text_lines(p + l) =~= text_lines(p).push(l));
    lemma_meaningful_concat(text_lines(p), seq![l]);
    assert(text_lines(p).push(l) =~= text_lines(p) + seq![l]);
    let one = seq![l];
    assert(one.drop_first() =~= Seq::<Seq<char>>::empty());
    assert(meaningful(one.drop_first()) =~= Seq::<Seq<char>>::empty());
    assert(meaningful(one) =~= seq![trim(l)]);
}

/// The spans of at most `n` meaningful lines of `v`, newest first, already
/// trimmed (see [`recent_lines`]).
pub fn recent_line_spans(v: &Vec<char>, n: usize) -> (rs: Vec<(usize, usize)>)
    ensures
        spans_in(v@, rs@),
        rs@.map_values(|r: (usize, usize)| span_of(v@, r)) == recent_lines(v@, n as nat),
{
    let lines = line_spans(v);
    let ghost all = text_lines(v@);
    let mut out: Vec<(usize, usize)> = Vec::new();
    let mut j = lines.len();
    proof {
        assert(all.subrange(j as int, all.len() as int) =~= Seq::<Seq<char>>::empty());
    }
    while j > 0 && out.len() < n
        invariant
            j <= lines@.len() == all.len(),
            all == text_lines(v@),
            spans_in(v@, lines@),
            forall|k: int| 0 <= k < lines@.len() ==> span_of(v@, #[trigger] lines@[k]) == all[k],
            spans_in(v@, out@),
            out@.len() <= n,
            out@.map_values(|r: (usize, usize)| span_of(v@, r)) == meaningful(
                all.subrange(j as int, all.len() as int),
            ),
        decreases j,
    {
        j = j - 1;
        let (a, b) = lines[j];
        let r = trim_span(v, a, b);
        let ghost sub = all.subrange(j as int, all.len() as int);
        proof {
            assert(sub.drop_first() =~= all.subrange(j + 1, all.len() as int));
            assert(sub[0] == all[j as int]);
        }
        if r.0 < r.1 {
            let ghost before = out@;
            out.push(r);
            proof {
                assert(out@.map_values(|r: (usize, usize)| span_of(v@, r)) =~= before.map_values(
                    |r: (usize, usize)| span_of(v@, r),
                ).push(span_of(v@, r)));
            }
        } else {
            assert(span_of(v@, r).len() == 0);
        }
    }
    proof {
        lemma_meaningful_split(all, j as int);
        let m = meaningful(all);
        let head = meaningful(all.subrange(j as int, all.len() as int));
        if j == 0 {
            assert(all.subrange(0, all.len() as int) =~= all);
            assert(meaningful(all.subrange(0, 0)) =~= Seq::<Seq<char>>::empty());
            assert(m =~= head);
        } else {
            assert(head.len() == n);
            assert(m.take(n as int) =~= head);
        }
    }
    out
}

/// `text.lines().rev().map(str::trim).filter(|l| !l.is_empty()).take(n)`:
/// the last `n` non-blank lines of `text`, trimmed, newest first.
pub fn last_meaningful_lines(text: &str, n: usize) -> (lines: Vec<String>)
    ensures
        lines@.map_values(|l: String| l@) == recent_lines(text@, n as nat),
{
    let v = chars_of(text);
    let spans = recent_line_spans(&v, n);
    let mut out: Vec<String> = Vec::new();
    let mut k: usize = 0;
    while k < spans.len()
        invariant
            k <= spans@.len(),
            spans_in(v@, spans@),
            out@.len() == k,
            forall|i: int| 0 <= i < k ==> (#[trigger] out@[i])@ == span_of(v@, spans@[i]),
        decreases spans@.len() - k,
    {
        let (a, b) = spans[k];
        out.push(string_of_range(&v, a, b));
        k = k + 1;
    }
    assert(out@.map_values(|l: String| l@) =~= spans@.map_values(
        |r: (usize, usize)| span_of(v@, r),
    ));
    out
}

} // verus!
