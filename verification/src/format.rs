//! The text the dashboard shows: numbers, durations, padded and shortened
//! labels, package names, panel titles and process summaries.

use vstd::prelude::*;
use crate::model::BuildSystem;
use crate::text::{chars_of, push_str, push_char, string_of_range};

verus! {

broadcast use vstd::string::group_string_axioms;

/// The ASCII digit for `d < 10`.
pub open spec fn digit_char(d: nat) -> char {
    (d + 48) as char
}

/// The decimal numeral of `n`, without leading zeros.
pub open spec fn decimal(n: nat) -> Seq<char>
    decreases n,
{
    if n < 10 {
        seq![digit_char(n)]
    } else {
        decimal(n / 10).push(digit_char(n % 10))
    }
}

/// Appends the decimal numeral of `n`.
pub fn push_decimal(out: &mut String, n: u64)
    ensures
        final(out)@ == old(out)@ + decimal(n as nat),
    decreases n,
{
    if n >= 10 {
        push_decimal(out, n / 10);
    }
    let d = (n % 10) as u8;
    let c = (d + 48u8) as char;
    assert(c == digit_char((n % 10) as nat));
    push_char(out, c);
    assert(out@ =~= old(out)@ + decimal(n as nat));
}

/// The decimal numeral of `n` (`n.to_string()`).
pub fn decimal_string(n: u64) -> (s: String)
    ensures
        s@ == decimal(n as nat),
{
    let mut s = String::new();
    push_decimal(&mut s, n);
    assert(s@ =~= decimal(n as nat));
    s
}

/// A decimal numeral reads back as the number it was made from.
pub proof fn lemma_decimal_parses_back(n: nat)
    ensures
        crate::pattern::all_ascii_digits(decimal(n)),
        crate::pattern::digits_value(decimal(n)) == n,
        decimal(n).len() > 0,
    decreases n,
{
    let d = decimal(n);
    let r = (n % 10) as nat;
    assert((digit_char(r) as u32) == r + 48);
    if n >= 10 {
        lemma_decimal_parses_back(n / 10);
        assert(d.drop_last() =~= decimal(n / 10));
        assert forall|k: int| 0 <= k < d.len() implies crate::text::is_ascii_digit(#[trigger] d[k]) by {
            if k < d.len() - 1 {
                assert(d[k] == decimal(n / 10)[k]);
            }
        }
        assert(d.last() == digit_char(r));
        assert(n == (n / 10) * 10 + r);
    } else {
        assert(d.drop_last() =~= Seq::<char>::empty());
        assert(crate::pattern::digits_value(Seq::<char>::empty()) == 0);
        assert(d.last() == digit_char(r));
    }
}

/// A shortened text fits in `max` characters (when `max` is at least 1), and
/// a text that fits is left as it is; one that does not is cut to exactly
/// `max` characters: its first `max - 1` and an ellipsis.
pub proof fn lemma_truncated_fits(s: Seq<char>, max: nat)
    ensures
        max >= 1 ==> truncated(s, max).len() <= max,
        s.len() <= max ==> truncated(s, max) == s,
        s.len() > max ==> truncated(s, max).last() == '…',
        s.len() > max && max >= 1 ==> truncated(s, max).len() == max && forall|k: int|
            0 <= k < max - 1 ==> #[trigger] truncated(s, max)[k] == s[k],
        s.len() > max && max == 0 ==> truncated(s, max) == seq!['…'],
{
}

/// Padding keeps the text and makes it at least `w` characters long.
pub proof fn lemma_padded_width(s: Seq<char>, w: nat)
    ensures
        padded(s, w).len() == if s.len() < w {
            w
        } else {
            s.len()
        },
        padded(s, w).take(s.len() as int) == s,
        forall|k: int| s.len() <= k < padded(s, w).len() ==> #[trigger] padded(s, w)[k] == ' ',
{
    assert(padded(s, w).take(s.len() as int) =~= s);
}

/// `{n:02}`: the numeral of `n`, with a leading zero when it has one digit.
pub open spec fn two_digits(n: nat) -> Seq<char> {
    if n < 10 {
        seq!['0'] + decimal(n)
    } else {
        decimal(n)
    }
}

fn push_two_digits(out: &mut String, n: u64)
    ensures
        final(out)@ == old(out)@ + two_digits(n as nat),
{
    if n < 10 {
        push_char(out, '0');
    }
    push_decimal(out, n);
    proof {
        if n < 10 {
            assert(out@ =~= old(out)@ + two_digits(n as nat));
        }
    }
}

/// A duration of `secs` seconds as `h:mm:ss`, or `m:ss` under an hour.
pub open spec fn duration_text(secs: nat) -> Seq<char> {
    let h = secs / 3600;
    let m = (secs % 3600) / 60;
    let s = secs % 60;
    if h > 0 {
        decimal(h) + seq![':'] + two_digits(m) + seq![':'] + two_digits(s)
    } else {
        decimal(m) + seq![':'] + two_digits(s)
    }
}

/// Two digits that read back as `n`, for `n < 100`.
proof fn lemma_two_digits(n: nat)
    requires
        n < 100,
    ensures
        two_digits(n).len() == 2,
        crate::pattern::all_ascii_digits(two_digits(n)),
        crate::pattern::digits_value(two_digits(n)) == n,
{
    lemma_decimal_parses_back(n);
    if n < 10 {
        let t = two_digits(n);
        assert(decimal(n) =~= seq![digit_char(n)]);
        assert(t.drop_last() =~= seq!['0']);
        let z = seq!['0'];
        assert(z[0] == '0');
        assert(crate::pattern::all_ascii_digits(z));
        crate::pattern::lemma_value_zero(z);
        assert(t.last() == digit_char(n));
        assert((digit_char(n) as u32) == n + 48);
        assert forall|k: int| 0 <= k < t.len() implies crate::text::is_ascii_digit(#[trigger] t[k]) by {
            if k == 1 {
                assert(t[k] == digit_char(n));
            }
        }
    } else {
        assert(decimal(n / 10) =~= seq![digit_char(n / 10)]);
    }
}

/// A duration of `h` hours, `m` minutes and `s` seconds reads `h:mm:ss`, or
/// `m:ss` when `h` is zero: the hours (or the minutes) as a numeral, and
/// the minutes and seconds after them as two digits each, each field
/// reading back as its number.
pub proof fn lemma_duration_fields(h: nat, m: nat, s: nat)
    requires
        m < 60,
        s < 60,
    ensures
        ({
            let t = duration_text(h * 3600 + m * 60 + s);
            let head = if h > 0 {
                h
            } else {
                m
            };
            let n = decimal(head).len() as int;
            &&& crate::pattern::digits_value(t.take(n)) == head
            &&& crate::pattern::all_ascii_digits(t.take(n))
            &&& h > 0 ==> {
                &&& t.len() == n + 6
                &&& t[n] == ':'
                &&& t[n + 3] == ':'
                &&& crate::pattern::digits_value(t.subrange(n + 1, n + 3)) == m
                &&& crate::pattern::digits_value(t.subrange(n + 4, n + 6)) == s
                &&& crate::pattern::all_ascii_digits(t.subrange(n + 1, n + 3))
                &&& crate::pattern::all_ascii_digits(t.subrange(n + 4, n + 6))
            }
            &&& h == 0 ==> {
                &&& t.len() == n + 3
                &&& t[n] == ':'
                &&& crate::pattern::digits_value(t.subrange(n + 1, n + 3)) == s
                &&& crate::pattern::all_ascii_digits(t.subrange(n + 1, n + 3))
            }
        }),
{
    let secs = h * 3600 + m * 60 + s;
    assert(secs / 3600 == h && (secs % 3600) / 60 == m && secs % 60 == s) by (nonlinear_arith)
        requires
            secs == h * 3600 + m * 60 + s,
            m < 60,
            s < 60,
    ;
    lemma_decimal_parses_back(h);
    lemma_decimal_parses_back(m);
    lemma_two_digits(m);
    lemma_two_digits(s);
    let t = duration_text(secs);
    if h > 0 {
        let n = decimal(h).len() as int;
        assert(t.take(n) =~= decimal(h));
        assert(t.subrange(n + 1, n + 3) =~= two_digits(m));
        assert(t.subrange(n + 4, n + 6) =~= two_digits(s));
    } else {
        let n = decimal(m).len() as int;
        assert(t.take(n) =~= decimal(m));
        assert(t.subrange(n + 1, n + 3) =~= two_digits(s));
    }
}

/// Formats a duration given in seconds (see [`duration_text`]).
pub fn fmt_duration(secs: u64) -> (r: String)
    ensures
        r@ == duration_text(secs as nat),
{
    let h = secs / 3600;
    let m = (secs % 3600) / 60;
    let s = secs % 60;
    let mut out = String::new();
    if h > 0 {
        push_decimal(&mut out, h);
        push_char(&mut out, ':');
        push_two_digits(&mut out, m);
        push_char(&mut out, ':');
        push_two_digits(&mut out, s);
    } else {
        push_decimal(&mut out, m);
        push_char(&mut out, ':');
        push_two_digits(&mut out, s);
    }
    assert(out@ =~= duration_text(secs as nat));
    out
}

/// `n` spaces.
pub open spec fn spaces(n: nat) -> Seq<char> {
    Seq::new(n, |i: int| ' ')
}

/// `format!("{:<w$}", s)`: `s` followed by spaces up to `w` characters.
pub open spec fn padded(s: Seq<char>, w: nat) -> Seq<char> {
    if s.len() < w {
        s + spaces((w - s.len()) as nat)
    } else {
        s
    }
}

/// Pads `s` with spaces on the right to `w` characters (see [`padded`]).
pub fn pad(s: &str, w: usize) -> (r: String)
    ensures
        r@ == padded(s@, w as nat),
{
    let v = chars_of(s);
    let mut out = string_of_range(&v, 0, v.len());
    assert(v@.subrange(0, v@.len() as int) =~= s@);
    let mut k = v.len();
    while k < w
        invariant
            v@.len() <= k <= w || (k == v@.len() && k >= w),
            v@ == s@,
            out@ == s@ + spaces((k - v@.len()) as nat),
        decreases w - k,
    {
        push_char(&mut out, ' ');
        k = k + 1;
        assert(out@ =~= s@ + spaces((k - v@.len()) as nat));
    }
    assert(out@ =~= padded(s@, w as nat));
    out
}

/// `s` cut to at most `max` characters: kept when it fits, else its first
/// `max - 1` characters and an ellipsis.
pub open spec fn truncated(s: Seq<char>, max: nat) -> Seq<char> {
    if s.len() <= max {
        s
    } else {
        s.take(if max >= 1 {
            max - 1
        } else {
            0
        }) + seq!['…']
    }
}

/// Shortens `s` to at most `max` characters (see [`truncated`]).
pub fn truncate(s: &str, max: usize) -> (r: String)
    ensures
        r@ == truncated(s@, max as nat),
{
    let v = chars_of(s);
    if v.len() <= max {
        assert(v@.subrange(0, v@.len() as int) =~= s@);
        string_of_range(&v, 0, v.len())
    } else {
        let keep = if max >= 1 {
            max - 1
        } else {
            0
        };
        let mut out = string_of_range(&v, 0, keep);
        push_char(&mut out, '…');
        assert(out@ =~= truncated(s@, max as nat));
        out
    }
}

/// `category/name-version`.
pub open spec fn full_name_text(category: Seq<char>, name: Seq<char>, version: Seq<char>) -> Seq<char> {
    category + seq!['/'] + name + seq!['-'] + version
}

/// A package's full name, `category/name-version`.
pub fn full_name(category: &str, name: &str, version: &str) -> (r: String)
    ensures
        r@ == full_name_text(category@, name@, version@),
{
    let mut out = String::new();
    push_str(&mut out, category);
    push_char(&mut out, '/');
    push_str(&mut out, name);
    push_char(&mut out, '-');
    push_str(&mut out, version);
    assert(out@ =~= full_name_text(category@, name@, version@));
    out
}

// ---------------------------------------------------------------------------
// Build systems
// ---------------------------------------------------------------------------

/// The colour family a build system is drawn in.
#[derive(Debug, Clone, Copy, PartialEq, Eq, Structural)]
pub enum Tone {
    Blue,
    Green,
    Magenta,
    Dim,
}

/// The icon, the name and the colour family that stand for a build system.
pub fn build_system_meta(bs: BuildSystem) -> (r: (char, &'static str, Tone))
    ensures
        bs == BuildSystem::Ninja ==> r == ('▲', "ninja", Tone::Blue),
        bs == BuildSystem::Make ==> r == ('■', "make", Tone::Green),
        bs == BuildSystem::Cargo ==> r == ('●', "cargo", Tone::Magenta),
        bs == BuildSystem::Unknown ==> r == ('○', "build", Tone::Dim),
{
    match bs {
        BuildSystem::Ninja => ('▲', "ninja", Tone::Blue),
        BuildSystem::Make => ('■', "make", Tone::Green),
        BuildSystem::Cargo => ('●', "cargo", Tone::Magenta),
        BuildSystem::Unknown => ('○', "build", Tone::Dim),
    }
}

// ---------------------------------------------------------------------------
// Panel titles and process summaries
// ---------------------------------------------------------------------------

/// The package list's title: the position of the selection among the `n`
/// packages and, when the merge queue is known, the job's position in it.
pub open spec fn sidebar_title_text(n: nat, selected: nat, current_job: nat, total_jobs: nat) -> Seq<char> {
    if n > 0 && total_jobs > 0 {
        "packages · "@ + decimal(selected + 1) + seq!['/'] + decimal(n) + " · job "@ + decimal(
            current_job,
        ) + seq!['/'] + decimal(total_jobs)
    } else if n > 0 {
        "packages · "@ + decimal(selected + 1) + seq!['/'] + decimal(n)
    } else {
        "packages"@
    }
}

/// The package list's title (see [`sidebar_title_text`]).
pub fn sidebar_title(n: usize, selected: usize, current_job: usize, total_jobs: usize) -> (r: String)
    requires
        n > 0 ==> selected < usize::MAX,
    ensures
        r@ == sidebar_title_text(n as nat, selected as nat, current_job as nat, total_jobs as nat),
{
    let mut out = String::new();
    if n > 0 {
        push_str(&mut out, "packages · ");
        push_decimal(&mut out, (selected + 1) as u64);
        push_char(&mut out, '/');
        push_decimal(&mut out, n as u64);
        if total_jobs > 0 {
            push_str(&mut out, " · job ");
            push_decimal(&mut out, current_job as u64);
            push_char(&mut out, '/');
            push_decimal(&mut out, total_jobs as u64);
        }
    } else {
        push_str(&mut out, "packages");
    }
    assert(out@ =~= sidebar_title_text(n as nat, selected as nat, current_job as nat, total_jobs as nat));
    out
}

/// The pid of a build's busiest process and how many more processes it
/// runs, as the build view shows them: `pid (+more)`, `pid`, or a dash.
pub open spec fn pid_summary_text(pid: Option<u32>, count: nat) -> Seq<char> {
    match pid {
        Some(p) => if count > 1 {
            decimal(p as nat) + " (+"@ + decimal((count - 1) as nat) + seq![')']
        } else {
            decimal(p as nat)
        },
        None => "—"@,
    }
}

/// The build view's process summary (see [`pid_summary_text`]).
pub fn pid_summary(pid: Option<u32>, count: usize) -> (r: String)
    ensures
        r@ == pid_summary_text(pid, count as nat),
{
    let mut out = String::new();
    match pid {
        Some(p) => {
            push_decimal(&mut out, p as u64);
            if count > 1 {
                push_str(&mut out, " (+");
                push_decimal(&mut out, (count - 1) as u64);
                push_char(&mut out, ')');
            }
        },
        None => push_str(&mut out, "—"),
    }
    assert(out@ =~= pid_summary_text(pid, count as nat));
    out
}

/// The same summary as the resources table shows it: `pid+more`, `pid`, or a
/// dash.
pub open spec fn pid_summary_compact_text(pid: Option<u32>, count: nat) -> Seq<char> {
    match pid {
        Some(p) => if count > 1 {
            decimal(p as nat) + seq!['+'] + decimal((count - 1) as nat)
        } else {
            decimal(p as nat)
        },
        None => "—"@,
    }
}

/// The resources table's process summary (see [`pid_summary_compact_text`]).
pub fn pid_summary_compact(pid: Option<u32>, count: usize) -> (r: String)
    ensures
        r@ == pid_summary_compact_text(pid, count as nat),
{
    let mut out = String::new();
    match pid {
        Some(p) => {
            push_decimal(&mut out, p as u64);
            if count > 1 {
                push_char(&mut out, '+');
                push_decimal(&mut out, (count - 1) as u64);
            }
        },
        None => push_str(&mut out, "—"),
    }
    assert(out@ =~= pid_summary_compact_text(pid, count as nat));
    out
}

/// The blank lines to put above `count` lines so that they stand in the
/// middle of an area `height` lines high.
pub fn vertical_padding(height: u16, count: usize) -> (r: usize)
    ensures
        r == if (height as int) > count {
            ((height as int - count) / 2) as usize
        } else {
            0
        },
{
    let h = height as usize;
    if h > count {
        (h - count) / 2
    } else {
        0
    }
}

/// How a line of the log view is drawn.
#[derive(Debug, Clone, Copy, PartialEq, Eq, Structural)]
pub enum Emphasis {
    /// The newest line, marked and bold.
    Current,
    /// One of the two lines before it.
    Recent,
    /// Older lines.
    Older,
}

/// The emphasis of line `i` of a log view whose last line is `last`.
pub fn log_line_emphasis(i: usize, last: usize) -> (r: Emphasis)
    requires
        i <= last,
    ensures
        r == if i == last {
            Emphasis::Current
        } else if last - i <= 2 {
            Emphasis::Recent
        } else {
            Emphasis::Older
        },
{
    if i == last {
        Emphasis::Current
    } else if last - i <= 2 {
        Emphasis::Recent
    } else {
        Emphasis::Older
    }
}

} // verus!
