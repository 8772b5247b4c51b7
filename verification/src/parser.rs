//! What the tail of a build log says about the build (its build system, how
//! far it has come, the step it is on and its latest lines), and what the tail
//! of Portage's log says about the position in the merge queue.

use vstd::prelude::*;
use vstd::utf8::{valid_utf8, decode_utf8};
use crate::model::BuildSystem;
use crate::text::{
    chars_of, push_range, string_of_range, trim, trim_span, text_lines, line_spans, span_of,
    spans_in, recent_lines, recent_line_spans, take_at_most, single_line, lemma_newest_line,
    is_space, trim_start, trim_end, meaningful, lemma_trim_keeps_first,
};
use crate::pattern::{CharClass, in_class, has_literal, lemma_run_end_at, all_ascii_digits, digits_value, all_ascii_digits_exec, parse_usize, numeral_nonzero, copy_span};
use crate::grammar::{
    ninja_at, make_at, count_at, emerge_at, word_prompt, word_emerge, word_of, word_compiling,
    ninja_search, make_search, cargo_match, count_search, emerge_search, ninja_find, make_find,
    cargo_find, count_find, emerge_find,
};

verus! {

/// How many bytes at the end of a build log are read.
pub const TAIL_BYTES: u64 = 4096;

/// How many bytes at the end of Portage's log are read.
pub const EMERGE_LOG_TAIL_BYTES: u64 = 16384;

/// How many of the newest non-blank lines of a build log are examined.
pub const SCAN_LINES: usize = 25;

/// How many of the newest non-blank lines of a build log are kept for display.
pub const KEPT_LINES: usize = 8;

/// Where reading starts so as to read the last `tail_bytes` bytes of a file of
/// `len` bytes (all of it when it is shorter).
pub fn tail_start(len: u64, tail_bytes: u64) -> (start: u64)
    ensures
        start == len - (if tail_bytes < len { tail_bytes } else { len }),
{
    if tail_bytes < len {
        len - tail_bytes
    } else {
        0
    }
}

/// The text that `String::from_utf8_lossy` makes of `bytes`: their UTF-8
/// decoding, each invalid sequence replaced by U+FFFD.
pub uninterp spec fn lossy_utf8(bytes: Seq<u8>) -> Seq<char>;

/// Decodes bytes with `String::from_utf8_lossy`. What it makes of invalid
/// sequences is left to the name `lossy_utf8`; on valid UTF-8 it is stated to
/// be the decoding.
#[verifier::external_body]
fn decode_lossy(bytes: &[u8]) -> (s: String)
    ensures
        s@ == lossy_utf8(bytes@),
        valid_utf8(bytes@) ==> s@ == decode_utf8(bytes@),
{
    String::from_utf8_lossy(bytes).into_owned()
}

// ---------------------------------------------------------------------------
// Progress of one build
// ---------------------------------------------------------------------------

/// How far a build has come, as its log shows it.
#[derive(Debug, Clone)]
pub enum Progress {
    /// Nothing in the log gives the progress.
    Unknown,
    /// `done` out of `total` steps: two ASCII numerals, `total` not zero.
    /// The percentage is `done / total * 100`.
    Fraction { done: String, total: String },
    /// A percentage, at most 100.
    Percent(u8),
}

pub enum ProgressSpec {
    Unknown,
    Fraction { done: Seq<char>, total: Seq<char> },
    Percent(u8),
}

impl View for Progress {
    type V = ProgressSpec;

    open spec fn view(&self) -> ProgressSpec {
        match self {
            Progress::Unknown => ProgressSpec::Unknown,
            Progress::Fraction { done, total } => ProgressSpec::Fraction {
                done: done@,
                total: total@,
            },
            Progress::Percent(p) => ProgressSpec::Percent(*p),
        }
    }
}

/// What the tail of a build log tells.
#[derive(Debug, Clone)]
pub struct ParsedProgress {
    pub build_system: BuildSystem,
    pub progress: Progress,
    pub current_step: Option<String>,
    /// The newest non-blank lines, trimmed, newest first.
    pub recent_lines: Vec<String>,
}

pub struct ParsedProgressSpec {
    pub build_system: BuildSystem,
    pub progress: ProgressSpec,
    pub current_step: Option<Seq<char>>,
    pub recent_lines: Seq<Seq<char>>,
}

impl View for ParsedProgress {
    type V = ParsedProgressSpec;

    open spec fn view(&self) -> ParsedProgressSpec {
        ParsedProgressSpec {
            build_system: self.build_system,
            progress: self.progress@,
            current_step: match self.current_step {
                Some(s) => Some(s@),
                None => None,
            },
            recent_lines: self.recent_lines@.map_values(|l: String| l@),
        }
    }
}

impl Default for ParsedProgress {
    /// Nothing known: unknown build system and progress, no step, no lines.
    fn default() -> (r: Self)
        ensures
            r.build_system == BuildSystem::Unknown,
            r.progress@ == ProgressSpec::Unknown,
            r.current_step is None,
            r.recent_lines@.len() == 0,
    {
        ParsedProgress {
            build_system: BuildSystem::Unknown,
            progress: Progress::Unknown,
            current_step: None,
            recent_lines: Vec::new(),
        }
    }
}

/// A ninja counter `[done/total]`: a numeral that does not parse counts as 0
/// steps done, a total that does not parse or is zero counts as 1.
pub open spec fn ninja_progress(done: Seq<char>, total: Seq<char>) -> ProgressSpec {
    ProgressSpec::Fraction {
        done: if all_ascii_digits(done) {
            done
        } else {
            seq!['0']
        },
        total: if all_ascii_digits(total) && digits_value(total) > 0 {
            total
        } else {
            seq!['1']
        },
    }
}

/// A make percentage `[ pct%]`, at most 100; one that does not parse is 0.
pub open spec fn make_percent(p: Seq<char>) -> u8 {
    if all_ascii_digits(p) {
        if digits_value(p) >= 100 {
            100
        } else {
            digits_value(p) as u8
        }
    } else {
        0
    }
}

/// A cargo counter `(done/total)` on the line, when both parse and the total
/// is not zero.
pub open spec fn cargo_progress(line: Seq<char>) -> ProgressSpec {
    match count_search(line, 0) {
        Some((d, t)) => if all_ascii_digits(d) && all_ascii_digits(t) && digits_value(t) > 0 {
            ProgressSpec::Fraction { done: d, total: t }
        } else {
            ProgressSpec::Unknown
        },
        None => ProgressSpec::Unknown,
    }
}

/// The step shown for a cargo line: the crate, and ` v` and its version when
/// there is one.
pub open spec fn cargo_step(name: Seq<char>, version: Seq<char>) -> Seq<char> {
    if version.len() == 0 {
        name
    } else {
        name + seq![' ', 'v'] + version
    }
}

/// What one log line tells, trying ninja's pattern, then make's, then
/// cargo's.
pub open spec fn line_reading(l: Seq<char>) -> Option<(BuildSystem, ProgressSpec, Seq<char>)> {
    match ninja_search(l, 0) {
        Some((d, t, step)) => Some((BuildSystem::Ninja, ninja_progress(d, t), trim(step))),
        None => match make_search(l, 0) {
            Some((p, step)) => Some((BuildSystem::Make, ProgressSpec::Percent(make_percent(p)), trim(step))),
            None => match cargo_match(l) {
                Some((name, version)) => Some(
                    (BuildSystem::Cargo, cargo_progress(l), cargo_step(name, version)),
                ),
                None => None,
            },
        },
    }
}

/// What the first line that tells anything tells.
pub open spec fn first_reading(lines: Seq<Seq<char>>) -> Option<
    (BuildSystem, ProgressSpec, Seq<char>),
>
    decreases lines.len(),
{
    if lines.len() == 0 {
        None
    } else if line_reading(lines[0]) is Some {
        line_reading(lines[0])
    } else {
        first_reading(lines.drop_first())
    }
}

/// What a build log's text tells: the newest of its last `SCAN_LINES`
/// non-blank lines that matches a pattern decides the build system, the
/// progress and the step; when none does, the build system and progress are
/// unknown and the step is the newest line. The newest `KEPT_LINES` lines are
/// kept.
pub open spec fn build_log_report(t: Seq<char>) -> ParsedProgressSpec {
    let lines = recent_lines(t, SCAN_LINES as nat);
    let kept = take_at_most(lines, KEPT_LINES as nat);
    match first_reading(lines) {
        Some((bs, p, step)) => ParsedProgressSpec {
            build_system: bs,
            progress: p,
            current_step: Some(step),
            recent_lines: kept,
        },
        None => ParsedProgressSpec {
            build_system: BuildSystem::Unknown,
            progress: ProgressSpec::Unknown,
            current_step: if lines.len() > 0 {
                Some(lines[0])
            } else {
                None
            },
            recent_lines: kept,
        },
    }
}

fn string_of_char(c: char) -> (s: String)
    ensures
        s@ == seq![c],
{
    let v = vec![c];
    string_of_range(&v, 0, 1)
}

fn ninja_progress_exec(line: &Vec<char>, done: (usize, usize), total: (usize, usize)) -> (r: Progress)
    requires
        done.0 <= done.1 <= line@.len(),
        total.0 <= total.1 <= line@.len(),
    ensures
        r@ == ninja_progress(span_of(line@, done), span_of(line@, total)),
{
    let d = copy_span(line, done.0, done.1);
    let t = copy_span(line, total.0, total.1);
    let done_text = if all_ascii_digits_exec(&d) {
        string_of_range(&d, 0, d.len())
    } else {
        string_of_char('0')
    };
    let total_text = if all_ascii_digits_exec(&t) && numeral_nonzero(&t) {
        string_of_range(&t, 0, t.len())
    } else {
        string_of_char('1')
    };
    assert(d@.subrange(0, d@.len() as int) =~= d@);
    assert(t@.subrange(0, t@.len() as int) =~= t@);
    Progress::Fraction { done: done_text, total: total_text }
}

fn make_percent_exec(line: &Vec<char>, pct: (usize, usize)) -> (r: u8)
    requires
        pct.0 <= pct.1 <= line@.len(),
    ensures
        r == make_percent(span_of(line@, pct)),
{
    let p = copy_span(line, pct.0, pct.1);
    if !all_ascii_digits_exec(&p) {
        return 0;
    }
    match parse_usize(&p) {
        Some(v) => if v >= 100 {
            100
        } else {
            v as u8
        },
        None => 100,
    }
}

fn cargo_progress_exec(line: &Vec<char>) -> (r: Progress)
    ensures
        r@ == cargo_progress(line@),
{
    match count_find(line) {
        Some((d, t)) => {
            let dv = copy_span(line, d.0, d.1);
            let tv = copy_span(line, t.0, t.1);
            if all_ascii_digits_exec(&dv) && all_ascii_digits_exec(&tv) && numeral_nonzero(&tv) {
                assert(dv@.subrange(0, dv@.len() as int) =~= dv@);
                assert(tv@.subrange(0, tv@.len() as int) =~= tv@);
                Progress::Fraction {
                    done: string_of_range(&dv, 0, dv.len()),
                    total: string_of_range(&tv, 0, tv.len()),
                }
            } else {
                Progress::Unknown
            }
        },
        None => Progress::Unknown,
    }
}

/// What one log line tells (see [`line_reading`]).
fn line_reading_exec(line: &Vec<char>) -> (r: Option<(BuildSystem, Progress, String)>)
    ensures
        match r {
            Some(x) => line_reading(line@) == Some((x.0, x.1@, x.2@)),
            None => line_reading(line@) is None,
        },
{
    if let Some(p) = ninja_find(line) {
        let progress = ninja_progress_exec(line, p.done, p.total);
        let (a, b) = trim_span(line, p.step.0, p.step.1);
        return Some((BuildSystem::Ninja, progress, string_of_range(line, a, b)));
    }
    if let Some((pct, step)) = make_find(line) {
        let percent = make_percent_exec(line, pct);
        let (a, b) = trim_span(line, step.0, step.1);
        return Some((BuildSystem::Make, Progress::Percent(percent), string_of_range(line, a, b)));
    }
    if let Some((name, version)) = cargo_find(line) {
        let mut step = string_of_range(line, name.0, name.1);
        if version.0 < version.1 {
            let sep = vec![' ', 'v'];
            push_range(&mut step, &sep, 0, 2);
            assert(sep@.subrange(0, 2) =~= seq![' ', 'v']);
            push_range(&mut step, line, version.0, version.1);
        }
        return Some((BuildSystem::Cargo, cargo_progress_exec(line), step));
    }
    None
}

/// A progress as the parser reports it: a percentage of at most 100, or a
/// fraction of two ASCII numerals whose total is not zero.
pub open spec fn progress_valid(p: ProgressSpec) -> bool {
    match p {
        ProgressSpec::Unknown => true,
        ProgressSpec::Percent(x) => x <= 100,
        ProgressSpec::Fraction { done, total } => all_ascii_digits(done) && all_ascii_digits(total)
            && digits_value(total) > 0,
    }
}

proof fn lemma_line_reading_valid(l: Seq<char>)
    ensures
        line_reading(l) matches Some(r) ==> progress_valid(r.1),
{
    assert(seq!['1'].drop_last() =~= Seq::<char>::empty());
    assert(digits_value(Seq::<char>::empty()) == 0);
    assert(digits_value(seq!['1']) == 1);
    assert(all_ascii_digits(seq!['0']));
    assert(all_ascii_digits(seq!['1']));
}

proof fn lemma_first_reading_valid(lines: Seq<Seq<char>>)
    ensures
        first_reading(lines) matches Some(r) ==> progress_valid(r.1),
    decreases lines.len(),
{
    if lines.len() > 0 {
        lemma_line_reading_valid(lines[0]);
        lemma_first_reading_valid(lines.drop_first());
    }
}

/// Whatever the log holds, the progress it reports is well formed (see
/// [`progress_valid`]), and it keeps at most `KEPT_LINES` lines, none blank.
pub proof fn lemma_report_well_formed(t: Seq<char>)
    ensures
        progress_valid(build_log_report(t).progress),
        build_log_report(t).recent_lines.len() <= KEPT_LINES,
        forall|i: int|
            0 <= i < build_log_report(t).recent_lines.len() ==> (#[trigger] build_log_report(t).recent_lines[i]).len() > 0,
        build_log_report(t).current_step is Some <==> (recent_lines(t, SCAN_LINES as nat).len() > 0 || first_reading(recent_lines(t, SCAN_LINES as nat)) is Some),
{
    let lines = recent_lines(t, SCAN_LINES as nat);
    lemma_first_reading_valid(lines);
    crate::text::lemma_recent_lines_trimmed(t, SCAN_LINES as nat);
    let kept = take_at_most(lines, KEPT_LINES as nat);
    assert forall|i: int| 0 <= i < kept.len() implies (#[trigger] kept[i]).len() > 0 by {
        assert(kept[i] == lines[i]);
    }
}

/// The lines a reading keeps are the newest `KEPT_LINES` meaningful lines of
/// the log, the same that `last_meaningful_lines` gives.
pub proof fn lemma_report_keeps_newest_lines(t: Seq<char>)
    ensures
        build_log_report(t).recent_lines == recent_lines(t, KEPT_LINES as nat),
{
    let m = crate::text::meaningful(text_lines(t));
    let scanned = recent_lines(t, SCAN_LINES as nat);
    assert(take_at_most(scanned, KEPT_LINES as nat) =~= take_at_most(m, KEPT_LINES as nat));
}


// ---------------------------------------------------------------------------
// What a reading gives for the lines build tools print
// ---------------------------------------------------------------------------

/// White space that stays within one line.
pub open spec fn blanks(w: Seq<char>) -> bool {
    forall|k: int| 0 <= k < w.len() ==> is_space(#[trigger] w[k]) && w[k] != '\n'
}

/// A numeral: one ASCII digit or more.
pub open spec fn numeral(d: Seq<char>) -> bool {
    d.len() > 0 && all_ascii_digits(d)
}

/// A step's text: one line, neither starting nor ending with white space.
pub open spec fn step_text(x: Seq<char>) -> bool {
    x.len() > 0 && single_line(x) && !is_space(x[0]) && !is_space(x.last())
}

/// The counter line ninja and meson print: `[`, blanks, `done/total`, `]`,
/// blanks, the step.
pub open spec fn ninja_line(w1: Seq<char>, done: Seq<char>, total: Seq<char>, w2: Seq<char>, step: Seq<char>) -> Seq<char> {
    seq!['['] + w1 + done + seq!['/'] + total + seq![']'] + w2 + step
}

proof fn lemma_step_text_trimmed(x: Seq<char>)
    requires
        step_text(x),
    ensures
        trim(x) == x,
{
    assert(trim_start(x) == x);
    assert(trim_end(x) == x);
}

/// When a line is the newest of a log (the text before it is empty or ends a
/// line) and it is trimmed and tells something, the reading of the log is
/// what that line tells, and the line is the first of the kept lines.
proof fn lemma_newest_line_decides(p: Seq<char>, l: Seq<char>)
    requires
        p.len() == 0 || p.last() == '\n',
        single_line(l),
        l.len() > 0,
        trim(l) == l,
        line_reading(l) is Some,
    ensures
        first_reading(recent_lines(p + l, SCAN_LINES as nat)) == line_reading(l),
        build_log_report(p + l).recent_lines.len() > 0,
        build_log_report(p + l).recent_lines[0] == l,
{
    lemma_newest_line(p, l);
    let lines = recent_lines(p + l, SCAN_LINES as nat);
    let m = meaningful(text_lines(p + l));
    assert(m[0] == l);
    assert(lines[0] == l);
}

proof fn lemma_digits_are_decimal(c: char)
    requires
        '0' <= c && c <= '9',
    ensures
        in_class(c, CharClass::Decimal),
        !is_space(c),
{
}

proof fn lemma_ninja_line_layout(w1: Seq<char>, done: Seq<char>, total: Seq<char>, w2: Seq<char>, step: Seq<char>)
    requires
        blanks(w1),
        blanks(w2),
        numeral(done),
        numeral(total),
        step_text(step),
    ensures
        ({
            let l = ninja_line(w1, done, total, w2, step);
            let a = 1 + w1.len() as int;
            let b = a + done.len();
            let c = b + 1;
            let d = c + total.len();
            let e = d + 1;
            let f = e + w2.len();
            &&& l.len() == f + step.len()
            &&& l[0] == '['
            &&& l[b] == '/'
            &&& l[d] == ']'
            &&& forall|k: int| 1 <= k < a ==> #[trigger] l[k] == w1[k - 1]
            &&& forall|k: int| a <= k < b ==> #[trigger] l[k] == done[k - a]
            &&& forall|k: int| c <= k < d ==> #[trigger] l[k] == total[k - c]
            &&& forall|k: int| e <= k < f ==> #[trigger] l[k] == w2[k - e]
            &&& forall|k: int| f <= k < l.len() ==> #[trigger] l[k] == step[k - f]
            &&& l.subrange(a, b) == done
            &&& l.subrange(c, d) == total
            &&& l.subrange(f, l.len() as int) == step
            &&& single_line(l)
        }),
{
    let l = ninja_line(w1, done, total, w2, step);
    let a: int = 1 + w1.len() as int;
    let b: int = a + done.len();
    let c: int = b + 1;
    let d: int = c + total.len();
    let e: int = d + 1;
    let f: int = e + w2.len();
    assert(l.subrange(a, b) =~= done);
    assert(l.subrange(c, d) =~= total);
    assert(l.subrange(f, l.len() as int) =~= step);
    assert forall|k: int| 0 <= k < l.len() implies l[k] != '\n' by {
        if a <= k < b {
            assert(crate::text::is_ascii_digit(done[k - a]));
        } else if c <= k < d {
            assert(crate::text::is_ascii_digit(total[k - c]));
        } else if 1 <= k < a {
            assert(w1[k - 1] != '\n');
        } else if e <= k < f {
            assert(w2[k - e] != '\n');
        } else if f <= k {
            assert(step[k - f] != '\n');
        }
    }
}

proof fn lemma_ninja_line_reading(w1: Seq<char>, done: Seq<char>, total: Seq<char>, w2: Seq<char>, step: Seq<char>)
    requires
        blanks(w1),
        blanks(w2),
        numeral(done),
        numeral(total),
        step_text(step),
    ensures
        single_line(ninja_line(w1, done, total, w2, step)),
        trim(ninja_line(w1, done, total, w2, step)) == ninja_line(w1, done, total, w2, step),
        line_reading(ninja_line(w1, done, total, w2, step)) == Some(
            (BuildSystem::Ninja, ninja_progress(done, total), step),
        ),
{
    let l = ninja_line(w1, done, total, w2, step);
    lemma_ninja_line_layout(w1, done, total, w2, step);
    let a: int = 1 + w1.len() as int;
    let b: int = a + done.len();
    let c: int = b + 1;
    let d: int = c + total.len();
    let e: int = d + 1;
    let f: int = e + w2.len();
    assert(crate::text::is_ascii_digit(done[0]));
    lemma_digits_are_decimal(done[0]);
    assert(l[a] == done[0]);
    assert forall|k: int| 1 <= k < a implies in_class(#[trigger] l[k], CharClass::Space) by {
        assert(is_space(w1[k - 1]));
    }
    lemma_run_end_at(l, 1, a, CharClass::Space);
    assert forall|k: int| a <= k < b implies in_class(#[trigger] l[k], CharClass::Decimal) by {
        assert(crate::text::is_ascii_digit(done[k - a]));
        lemma_digits_are_decimal(done[k - a]);
    }
    lemma_run_end_at(l, a, b, CharClass::Decimal);
    assert forall|k: int| c <= k < d implies in_class(#[trigger] l[k], CharClass::Decimal) by {
        assert(crate::text::is_ascii_digit(total[k - c]));
        lemma_digits_are_decimal(total[k - c]);
    }
    lemma_run_end_at(l, c, d, CharClass::Decimal);
    assert forall|k: int| e <= k < f implies in_class(#[trigger] l[k], CharClass::Space) by {
        assert(is_space(w2[k - e]));
    }
    assert(l[f] == step[0]);
    lemma_run_end_at(l, e, f, CharClass::Space);
    assert(ninja_at(l, 0) == Some((done, total, step)));
    assert(ninja_search(l, 0) == ninja_at(l, 0));
    lemma_step_text_trimmed(step);
    assert(line_reading(l) == Some((BuildSystem::Ninja, ninja_progress(done, total), step)));
    assert(l.last() == step.last());
    assert(trim_start(l) == l);
    assert(trim_end(l) == l);
}

/// Whatever the number of digits of its counter, the newest line
/// `[done/total] step` of a build log makes the reading ninja's, with
/// `done` of `total` steps (of one step when `total` is zero) and that step.
pub proof fn lemma_ninja_counter_read(
    p: Seq<char>,
    w1: Seq<char>,
    done: Seq<char>,
    total: Seq<char>,
    w2: Seq<char>,
    step: Seq<char>,
)
    requires
        p.len() == 0 || p.last() == '\n',
        blanks(w1),
        blanks(w2),
        numeral(done),
        numeral(total),
        step_text(step),
    ensures
        build_log_report(p + ninja_line(w1, done, total, w2, step)).build_system == BuildSystem::Ninja,
        build_log_report(p + ninja_line(w1, done, total, w2, step)).progress == (ProgressSpec::Fraction {
            done: done,
            total: if digits_value(total) > 0 {
                total
            } else {
                seq!['1']
            },
        }),
        build_log_report(p + ninja_line(w1, done, total, w2, step)).current_step == Some(step),
        build_log_report(p + ninja_line(w1, done, total, w2, step)).recent_lines[0] == ninja_line(w1, done, total, w2, step),
{
    let l = ninja_line(w1, done, total, w2, step);
    lemma_ninja_line_reading(w1, done, total, w2, step);
    lemma_newest_line_decides(p, l);
}

/// The percentage line make and cmake print: `[`, blanks, the percentage,
/// `%]`, blanks, the step.
pub open spec fn make_line(w1: Seq<char>, pct: Seq<char>, w2: Seq<char>, step: Seq<char>) -> Seq<char> {
    seq!['['] + w1 + pct + seq!['%', ']'] + w2 + step
}

/// Where no `[` stands from `i` on, no ninja counter starts there.
proof fn lemma_no_ninja_from(s: Seq<char>, i: int)
    requires
        0 <= i,
        forall|k: int| i <= k < s.len() ==> s[k] != '[',
    ensures
        ninja_search(s, i) is None,
    decreases s.len() - i,
{
    if i < s.len() {
        lemma_no_ninja_from(s, i + 1);
    }
}

proof fn lemma_make_line_layout(w1: Seq<char>, pct: Seq<char>, w2: Seq<char>, step: Seq<char>)
    requires
        blanks(w1),
        blanks(w2),
        numeral(pct),
        step_text(step),
    ensures
        ({
            let l = make_line(w1, pct, w2, step);
            let a = 1 + w1.len() as int;
            let b = a + pct.len();
            let f = b + 2 + w2.len();
            &&& l.len() == f + step.len()
            &&& l[0] == '['
            &&& l[b] == '%'
            &&& l[b + 1] == ']'
            &&& forall|k: int| 1 <= k < a ==> #[trigger] l[k] == w1[k - 1]
            &&& forall|k: int| a <= k < b ==> #[trigger] l[k] == pct[k - a]
            &&& forall|k: int| b + 2 <= k < f ==> #[trigger] l[k] == w2[k - b - 2]
            &&& forall|k: int| f <= k < l.len() ==> #[trigger] l[k] == step[k - f]
            &&& l.subrange(a, b) == pct
            &&& l.subrange(f, l.len() as int) == step
            &&& single_line(l)
        }),
{
    let l = make_line(w1, pct, w2, step);
    let a: int = 1 + w1.len() as int;
    let b: int = a + pct.len();
    let f: int = b + 2 + w2.len();
    assert(l.subrange(a, b) =~= pct);
    assert(l.subrange(f, l.len() as int) =~= step);
    assert forall|k: int| 0 <= k < l.len() implies l[k] != '\n' by {
        if 1 <= k < a {
            assert(w1[k - 1] != '\n');
        } else if a <= k < b {
            assert(crate::text::is_ascii_digit(pct[k - a]));
        } else if b + 2 <= k < f {
            assert(w2[k - b - 2] != '\n');
        } else if f <= k {
            assert(step[k - f] != '\n');
        }
    }
}

proof fn lemma_make_line_reading(w1: Seq<char>, pct: Seq<char>, w2: Seq<char>, step: Seq<char>)
    requires
        blanks(w1),
        blanks(w2),
        numeral(pct),
        pct.len() <= 3,
        step_text(step),
        forall|k: int| 0 <= k < step.len() ==> step[k] != '[',
    ensures
        single_line(make_line(w1, pct, w2, step)),
        trim(make_line(w1, pct, w2, step)) == make_line(w1, pct, w2, step),
        line_reading(make_line(w1, pct, w2, step)) == Some(
            (BuildSystem::Make, ProgressSpec::Percent(make_percent(pct)), step),
        ),
{
    let l = make_line(w1, pct, w2, step);
    lemma_make_line_layout(w1, pct, w2, step);
    let a: int = 1 + w1.len() as int;
    let b: int = a + pct.len();
    let f: int = b + 2 + w2.len();
    assert(crate::text::is_ascii_digit(pct[0]));
    lemma_digits_are_decimal(pct[0]);
    assert(l[a] == pct[0]);
    assert forall|k: int| 1 <= k < a implies in_class(#[trigger] l[k], CharClass::Space) by {
        assert(is_space(w1[k - 1]));
    }
    lemma_run_end_at(l, 1, a, CharClass::Space);
    assert forall|k: int| a <= k < b implies in_class(#[trigger] l[k], CharClass::Decimal) by {
        assert(crate::text::is_ascii_digit(pct[k - a]));
        lemma_digits_are_decimal(pct[k - a]);
    }
    lemma_run_end_at(l, a, b, CharClass::Decimal);
    assert forall|k: int| b + 2 <= k < f implies in_class(#[trigger] l[k], CharClass::Space) by {
        assert(is_space(w2[k - b - 2]));
    }
    assert(l[f] == step[0]);
    lemma_run_end_at(l, b + 2, f, CharClass::Space);
    assert(ninja_at(l, 0) is None);
    assert forall|k: int| 1 <= k < l.len() implies l[k] != '[' by {
        if 1 <= k < a {
            assert(is_space(w1[k - 1]));
        } else if a <= k < b {
            assert(crate::text::is_ascii_digit(pct[k - a]));
        } else if b + 2 <= k < f {
            assert(is_space(w2[k - b - 2]));
        } else if f <= k {
            assert(step[k - f] != '[');
        }
    }
    lemma_no_ninja_from(l, 1);
    assert(ninja_search(l, 0) is None);
    assert(make_at(l, 0) == Some((pct, step)));
    assert(make_search(l, 0) == make_at(l, 0));
    lemma_step_text_trimmed(step);
    assert(l.last() == step.last());
    assert(trim_start(l) == l);
    assert(trim_end(l) == l);
}

/// The newest line `[ pct%] step` of a build log, with a percentage of one
/// to three digits and a step with no `[` in it, makes the reading make's,
/// with that percentage (100 at most) and that step.
pub proof fn lemma_make_percentage_read(
    p: Seq<char>,
    w1: Seq<char>,
    pct: Seq<char>,
    w2: Seq<char>,
    step: Seq<char>,
)
    requires
        p.len() == 0 || p.last() == '\n',
        blanks(w1),
        blanks(w2),
        numeral(pct),
        pct.len() <= 3,
        step_text(step),
        forall|k: int| 0 <= k < step.len() ==> step[k] != '[',
    ensures
        build_log_report(p + make_line(w1, pct, w2, step)).build_system == BuildSystem::Make,
        build_log_report(p + make_line(w1, pct, w2, step)).progress matches ProgressSpec::Percent(v)
            && v as nat == if digits_value(pct) >= 100 {
            100
        } else {
            digits_value(pct)
        },
        build_log_report(p + make_line(w1, pct, w2, step)).current_step == Some(step),
        build_log_report(p + make_line(w1, pct, w2, step)).recent_lines[0] == make_line(w1, pct, w2, step),
{
    let l = make_line(w1, pct, w2, step);
    lemma_make_line_reading(w1, pct, w2, step);
    lemma_newest_line_decides(p, l);
}

/// A word of a cargo line: one character or more, none of them white space,
/// `[` or `(`.
pub open spec fn plain_word(t: Seq<char>) -> bool {
    &&& t.len() > 0
    &&& forall|k: int| 0 <= k < t.len() ==> !is_space(#[trigger] t[k]) && t[k] != '[' && t[k] != '('
}

/// The line cargo prints as it starts on a crate: `Compiling`, blanks, the
/// crate, blanks, `v` and the version.
pub open spec fn cargo_line(w1: Seq<char>, name: Seq<char>, w2: Seq<char>, version: Seq<char>) -> Seq<char> {
    word_compiling() + w1 + name + w2 + seq!['v'] + version
}

/// Where no `[` stands from `i` on, no make percentage starts there.
proof fn lemma_no_make_from(s: Seq<char>, i: int)
    requires
        0 <= i,
        forall|k: int| i <= k < s.len() ==> s[k] != '[',
    ensures
        make_search(s, i) is None,
    decreases s.len() - i,
{
    if i < s.len() {
        lemma_no_make_from(s, i + 1);
    }
}

/// Where no `(` stands from `i` on, no cargo counter starts there.
proof fn lemma_no_count_from(s: Seq<char>, i: int)
    requires
        0 <= i,
        forall|k: int| i <= k < s.len() ==> s[k] != '(',
    ensures
        count_search(s, i) is None,
    decreases s.len() - i,
{
    if i < s.len() {
        lemma_no_count_from(s, i + 1);
    }
}

proof fn lemma_cargo_line_layout(w1: Seq<char>, name: Seq<char>, w2: Seq<char>, version: Seq<char>)
    requires
        blanks(w1),
        blanks(w2),
        plain_word(name),
        plain_word(version),
    ensures
        ({
            let l = cargo_line(w1, name, w2, version);
            let c = 9 + w1.len() as int;
            let d = c + name.len();
            let e = d + w2.len();
            &&& l.len() == e + 1 + version.len()
            &&& l.subrange(0, 9) == word_compiling()
            &&& l[0] == 'C'
            &&& forall|k: int| 9 <= k < c ==> #[trigger] l[k] == w1[k - 9]
            &&& forall|k: int| c <= k < d ==> #[trigger] l[k] == name[k - c]
            &&& forall|k: int| d <= k < e ==> #[trigger] l[k] == w2[k - d]
            &&& l[e] == 'v'
            &&& forall|k: int| e + 1 <= k < l.len() ==> #[trigger] l[k] == version[k - e - 1]
            &&& l.subrange(c, d) == name
            &&& l.subrange(e + 1, l.len() as int) == version
            &&& forall|k: int| 0 <= k < l.len() ==> l[k] != '[' && l[k] != '(' && l[k] != '\n'
        }),
{
    let l = cargo_line(w1, name, w2, version);
    let c: int = 9 + w1.len() as int;
    let d: int = c + name.len();
    let e: int = d + w2.len();
    assert(l.subrange(0, 9) =~= word_compiling());
    assert(l.subrange(c, d) =~= name);
    assert(l.subrange(e + 1, l.len() as int) =~= version);
    assert forall|k: int| 0 <= k < l.len() implies l[k] != '[' && l[k] != '(' && l[k] != '\n' by {
        if k < 9 {
            assert(l[k] == word_compiling()[k]);
        } else if k < c {
            assert(is_space(w1[k - 9]) && w1[k - 9] != '\n');
        } else if k < d {
            assert(!is_space(name[k - c]));
        } else if k < e {
            assert(is_space(w2[k - d]) && w2[k - d] != '\n');
        } else if k > e {
            assert(!is_space(version[k - e - 1]));
        }
    }
}

#[verifier::rlimit(30)]
proof fn lemma_cargo_line_reading(w1: Seq<char>, name: Seq<char>, w2: Seq<char>, version: Seq<char>)
    requires
        blanks(w1),
        w1.len() > 0,
        blanks(w2),
        w2.len() > 0,
        plain_word(name),
        plain_word(version),
    ensures
        single_line(cargo_line(w1, name, w2, version)),
        trim(cargo_line(w1, name, w2, version)) == cargo_line(w1, name, w2, version),
        line_reading(cargo_line(w1, name, w2, version)) == Some(
            (BuildSystem::Cargo, ProgressSpec::Unknown, name + seq![' ', 'v'] + version),
        ),
{
    let l = cargo_line(w1, name, w2, version);
    lemma_cargo_line_layout(w1, name, w2, version);
    let c: int = 9 + w1.len() as int;
    let d: int = c + name.len();
    let e: int = d + w2.len();
    lemma_no_ninja_from(l, 0);
    lemma_no_make_from(l, 0);
    lemma_no_count_from(l, 0);
    lemma_run_end_at(l, 0, 0, CharClass::Space);
    assert(has_literal(l, 0, word_compiling()));
    assert forall|k: int| 9 <= k < c implies in_class(#[trigger] l[k], CharClass::Space) by {
        assert(is_space(w1[k - 9]));
    }
    assert(l[c] == name[0]);
    lemma_run_end_at(l, 9, c, CharClass::Space);
    assert forall|k: int| c <= k < d implies in_class(#[trigger] l[k], CharClass::NonSpace) by {
        assert(!is_space(name[k - c]));
    }
    assert(l[d] == w2[0]);
    lemma_run_end_at(l, c, d, CharClass::NonSpace);
    assert forall|k: int| d <= k < e implies in_class(#[trigger] l[k], CharClass::Space) by {
        assert(is_space(w2[k - d]));
    }
    lemma_run_end_at(l, d, e, CharClass::Space);
    assert forall|k: int| e + 1 <= k < l.len() implies in_class(#[trigger] l[k], CharClass::NonSpace) by {
        assert(!is_space(version[k - e - 1]));
    }
    lemma_run_end_at(l, e + 1, l.len() as int, CharClass::NonSpace);
    assert(cargo_match(l) == Some((name, version)));
    assert(l.last() == version.last());
    assert(!is_space(version.last()));
    assert(trim_start(l) == l);
    assert(trim_end(l) == l);
}

/// The newest line `Compiling name vversion` of a build log, whose words
/// hold no `[` or `(`, makes the reading cargo's, with no counter to tell
/// the progress and the step `name vversion`.
pub proof fn lemma_cargo_crate_read(
    p: Seq<char>,
    w1: Seq<char>,
    name: Seq<char>,
    w2: Seq<char>,
    version: Seq<char>,
)
    requires
        p.len() == 0 || p.last() == '\n',
        blanks(w1),
        w1.len() > 0,
        blanks(w2),
        w2.len() > 0,
        plain_word(name),
        plain_word(version),
    ensures
        build_log_report(p + cargo_line(w1, name, w2, version)).build_system == BuildSystem::Cargo,
        build_log_report(p + cargo_line(w1, name, w2, version)).progress == ProgressSpec::Unknown,
        build_log_report(p + cargo_line(w1, name, w2, version)).current_step == Some(
            name + seq![' ', 'v'] + version,
        ),
        build_log_report(p + cargo_line(w1, name, w2, version)).recent_lines[0] == cargo_line(
            w1,
            name,
            w2,
            version,
        ),
{
    let l = cargo_line(w1, name, w2, version);
    lemma_cargo_line_reading(w1, name, w2, version);
    lemma_newest_line_decides(p, l);
}

/// A cargo line followed by blanks and a counter `(done/total)`.
pub open spec fn cargo_count_line(
    w1: Seq<char>,
    name: Seq<char>,
    w2: Seq<char>,
    version: Seq<char>,
    w3: Seq<char>,
    done: Seq<char>,
    total: Seq<char>,
) -> Seq<char> {
    cargo_line(w1, name, w2, version) + w3 + seq!['('] + done + seq!['/'] + total + seq![')']
}

/// Where no `(` stands in `[i, j)`, the counter search goes on from `j`.
proof fn lemma_count_search_skips(s: Seq<char>, i: int, j: int)
    requires
        0 <= i <= j <= s.len(),
        forall|k: int| i <= k < j ==> s[k] != '(',
    ensures
        count_search(s, i) == count_search(s, j),
    decreases j - i,
{
    if i < j {
        lemma_count_search_skips(s, i + 1, j);
    }
}

#[verifier::rlimit(40)]
proof fn lemma_cargo_count_line_layout(
    w1: Seq<char>,
    name: Seq<char>,
    w2: Seq<char>,
    version: Seq<char>,
    w3: Seq<char>,
    done: Seq<char>,
    total: Seq<char>,
)
    requires
        blanks(w1),
        blanks(w2),
        plain_word(name),
        plain_word(version),
        blanks(w3),
        numeral(done),
        numeral(total),
    ensures
        ({
            let c = cargo_line(w1, name, w2, version);
            let l = cargo_count_line(w1, name, w2, version, w3, done, total);
            let o = c.len() as int + w3.len();
            let q = o + 1 + done.len();
            let r = q + 1 + total.len();
            &&& l.len() == r + 1
            &&& forall|k: int| 0 <= k < c.len() ==> #[trigger] l[k] == c[k]
            &&& forall|k: int| c.len() <= k < o ==> #[trigger] l[k] == w3[k - c.len()]
            &&& l[o] == '('
            &&& forall|k: int| o + 1 <= k < q ==> #[trigger] l[k] == done[k - o - 1]
            &&& l[q] == '/'
            &&& forall|k: int| q + 1 <= k < r ==> #[trigger] l[k] == total[k - q - 1]
            &&& l[r] == ')'
            &&& l.subrange(o + 1, q) == done
            &&& l.subrange(q + 1, r) == total
        }),
{
    let c = cargo_line(w1, name, w2, version);
    let l = cargo_count_line(w1, name, w2, version, w3, done, total);
    let o: int = c.len() as int + w3.len();
    let q: int = o + 1 + done.len();
    let r: int = q + 1 + total.len();
    assert(l.subrange(o + 1, q) =~= done);
    assert(l.subrange(q + 1, r) =~= total);
}

#[verifier::rlimit(60)]
proof fn lemma_cargo_count_line_reading(
    w1: Seq<char>,
    name: Seq<char>,
    w2: Seq<char>,
    version: Seq<char>,
    w3: Seq<char>,
    done: Seq<char>,
    total: Seq<char>,
)
    requires
        blanks(w1),
        w1.len() > 0,
        blanks(w2),
        w2.len() > 0,
        plain_word(name),
        plain_word(version),
        blanks(w3),
        w3.len() > 0,
        numeral(done),
        numeral(total),
    ensures
        single_line(cargo_count_line(w1, name, w2, version, w3, done, total)),
        trim(cargo_count_line(w1, name, w2, version, w3, done, total)) == cargo_count_line(
            w1,
            name,
            w2,
            version,
            w3,
            done,
            total,
        ),
        line_reading(cargo_count_line(w1, name, w2, version, w3, done, total)) == Some(
            (
                BuildSystem::Cargo,
                cargo_progress(cargo_count_line(w1, name, w2, version, w3, done, total)),
                name + seq![' ', 'v'] + version,
            ),
        ),
        count_search(cargo_count_line(w1, name, w2, version, w3, done, total), 0) == Some(
            (done, total),
        ),
{
    let c = cargo_line(w1, name, w2, version);
    let l = cargo_count_line(w1, name, w2, version, w3, done, total);
    lemma_cargo_line_layout(w1, name, w2, version);
    lemma_cargo_count_line_layout(w1, name, w2, version, w3, done, total);
    let n0: int = c.len() as int;
    let o: int = n0 + w3.len();
    let q: int = o + 1 + done.len();
    let r: int = q + 1 + total.len();
    let cc: int = 9 + w1.len() as int;
    let d: int = cc + name.len();
    let e: int = d + w2.len();
    assert forall|k: int| 0 <= k < l.len() implies l[k] != '[' && l[k] != '\n' by {
        if k < n0 {
            assert(c[k] != '[' && c[k] != '\n');
        } else if k < o {
            assert(is_space(w3[k - n0]) && w3[k - n0] != '\n');
        } else if o + 1 <= k < q {
            assert(crate::text::is_ascii_digit(done[k - o - 1]));
        } else if q + 1 <= k < r {
            assert(crate::text::is_ascii_digit(total[k - q - 1]));
        }
    }
    lemma_no_ninja_from(l, 0);
    lemma_no_make_from(l, 0);
    assert forall|k: int| 0 <= k < o implies l[k] != '(' by {
        if k < n0 {
            assert(c[k] != '(');
        } else {
            assert(is_space(w3[k - n0]));
        }
    }
    lemma_count_search_skips(l, 0, o);
    assert forall|k: int| o + 1 <= k < q implies in_class(#[trigger] l[k], CharClass::Decimal) by {
        assert(crate::text::is_ascii_digit(done[k - o - 1]));
        lemma_digits_are_decimal(done[k - o - 1]);
    }
    lemma_run_end_at(l, o + 1, q, CharClass::Decimal);
    assert forall|k: int| q + 1 <= k < r implies in_class(#[trigger] l[k], CharClass::Decimal) by {
        assert(crate::text::is_ascii_digit(total[k - q - 1]));
        lemma_digits_are_decimal(total[k - q - 1]);
    }
    lemma_run_end_at(l, q + 1, r, CharClass::Decimal);
    assert(count_at(l, o) == Some((done, total)));
    assert(count_search(l, o) == count_at(l, o));
    lemma_run_end_at(l, 0, 0, CharClass::Space);
    assert(l.subrange(0, 9) =~= c.subrange(0, 9));
    assert(has_literal(l, 0, word_compiling()));
    assert forall|k: int| 9 <= k < cc implies in_class(#[trigger] l[k], CharClass::Space) by {
        assert(l[k] == c[k]);
        assert(is_space(w1[k - 9]));
    }
    assert(l[cc] == name[0]);
    lemma_run_end_at(l, 9, cc, CharClass::Space);
    assert forall|k: int| cc <= k < d implies in_class(#[trigger] l[k], CharClass::NonSpace) by {
        assert(l[k] == c[k]);
        assert(!is_space(name[k - cc]));
    }
    assert(l[d] == w2[0]);
    lemma_run_end_at(l, cc, d, CharClass::NonSpace);
    assert forall|k: int| d <= k < e implies in_class(#[trigger] l[k], CharClass::Space) by {
        assert(l[k] == c[k]);
        assert(is_space(w2[k - d]));
    }
    assert(l[e] == 'v');
    lemma_run_end_at(l, d, e, CharClass::Space);
    assert forall|k: int| e + 1 <= k < n0 implies in_class(#[trigger] l[k], CharClass::NonSpace) by {
        assert(l[k] == c[k]);
        assert(!is_space(version[k - e - 1]));
    }
    assert(l[n0] == w3[0]);
    assert(is_space(w3[0]));
    lemma_run_end_at(l, e + 1, n0, CharClass::NonSpace);
    assert(l.subrange(cc, d) =~= name);
    assert(l.subrange(e + 1, n0) =~= version);
    assert(cargo_match(l) == Some((name, version)));
    assert(trim_start(l) == l);
    assert(trim_end(l) == l);
}

/// The newest line `Compiling name vversion (done/total)` of a build log,
/// whose words hold no `[` or `(`, makes the reading cargo's, with `done` of
/// `total` crates (no progress when `total` is zero) and the step
/// `name vversion`.
pub proof fn lemma_cargo_counter_read(
    p: Seq<char>,
    w1: Seq<char>,
    name: Seq<char>,
    w2: Seq<char>,
    version: Seq<char>,
    w3: Seq<char>,
    done: Seq<char>,
    total: Seq<char>,
)
    requires
        p.len() == 0 || p.last() == '\n',
        blanks(w1),
        w1.len() > 0,
        blanks(w2),
        w2.len() > 0,
        plain_word(name),
        plain_word(version),
        blanks(w3),
        w3.len() > 0,
        numeral(done),
        numeral(total),
    ensures
        build_log_report(p + cargo_count_line(w1, name, w2, version, w3, done, total)).build_system
            == BuildSystem::Cargo,
        build_log_report(p + cargo_count_line(w1, name, w2, version, w3, done, total)).progress == if digits_value(total) > 0 {
            ProgressSpec::Fraction { done: done, total: total }
        } else {
            ProgressSpec::Unknown
        },
        build_log_report(p + cargo_count_line(w1, name, w2, version, w3, done, total)).current_step
            == Some(name + seq![' ', 'v'] + version),
{
    let l = cargo_count_line(w1, name, w2, version, w3, done, total);
    lemma_cargo_count_line_reading(w1, name, w2, version, w3, done, total);
    lemma_newest_line_decides(p, l);
}

/// What the text of a build log tells (see [`build_log_report`]).
pub fn parse_build_text(text: &str) -> (r: ParsedProgress)
    ensures
        r@ == build_log_report(text@),
{
    let v = chars_of(text);
    let spans = recent_line_spans(&v, SCAN_LINES);
    let ghost lines = recent_lines(v@, SCAN_LINES as nat);
    assert(spans@.map_values(|r: (usize, usize)| span_of(v@, r)) == lines);
    assert forall|k: int| 0 <= k < spans@.len() implies span_of(v@, #[trigger] spans@[k]) == lines[k] by {
        assert(spans@.map_values(|r: (usize, usize)| span_of(v@, r))[k] == span_of(v@, spans@[k]));
    }
    let mut kept: Vec<String> = Vec::new();
    let mut k: usize = 0;
    while k < spans.len() && k < KEPT_LINES
        invariant
            k <= spans@.len(),
            k <= KEPT_LINES,
            spans_in(v@, spans@),
            spans@.len() == lines.len(),
            forall|m: int| 0 <= m < spans@.len() ==> span_of(v@, #[trigger] spans@[m]) == lines[m],
            kept@.len() == k,
            forall|m: int| 0 <= m < k ==> (#[trigger] kept@[m])@ == lines[m],
        decreases spans@.len() - k,
    {
        let (a, b) = spans[k];
        kept.push(string_of_range(&v, a, b));
        k = k + 1;
    }
    assert(kept@.map_values(|l: String| l@) =~= take_at_most(lines, KEPT_LINES as nat));
    assert(lines.subrange(0, lines.len() as int) =~= lines);
    let mut i: usize = 0;
    while i < spans.len()
        invariant
            i <= spans@.len(),
            spans_in(v@, spans@),
            spans@.len() == lines.len(),
            forall|m: int| 0 <= m < spans@.len() ==> span_of(v@, #[trigger] spans@[m]) == lines[m],
            first_reading(lines.subrange(i as int, lines.len() as int)) == first_reading(lines),
            kept@.map_values(|l: String| l@) == take_at_most(lines, KEPT_LINES as nat),
            lines == recent_lines(text@, SCAN_LINES as nat),
        decreases spans@.len() - i,
    {
        let (a, b) = spans[i];
        let line = copy_span(&v, a, b);
        let ghost rest = lines.subrange(i as int, lines.len() as int);
        proof {
            assert(rest[0] == lines[i as int]);
            assert(rest.drop_first() =~= lines.subrange(i + 1, lines.len() as int));
        }
        if let Some((bs, progress, step)) = line_reading_exec(&line) {
            return ParsedProgress {
                build_system: bs,
                progress,
                current_step: Some(step),
                recent_lines: kept,
            };
        }
        i = i + 1;
    }
    let current_step = if spans.len() > 0 {
        let (a, b) = spans[0];
        Some(string_of_range(&v, a, b))
    } else {
        None
    };
    ParsedProgress {
        build_system: BuildSystem::Unknown,
        progress: Progress::Unknown,
        current_step,
        recent_lines: kept,
    }
}

/// What the tail of a build log tells, its bytes decoded as
/// `String::from_utf8_lossy` decodes them.
pub fn parse_build_log(tail: &[u8]) -> (r: ParsedProgress)
    ensures
        r@ == build_log_report(lossy_utf8(tail@)),
{
    let text = decode_lossy(tail);
    parse_build_text(text.as_str())
}

// ---------------------------------------------------------------------------
// Position in the merge queue
// ---------------------------------------------------------------------------

/// The position `(n, m)` that a line of Portage's log gives: the leftmost
/// `>>> emerge (n of m)` in it, when both numbers parse as `usize`.
pub open spec fn job_of_line(l: Seq<char>) -> Option<(nat, nat)> {
    match emerge_search(l, 0) {
        Some((c, t)) => if all_ascii_digits(c) && all_ascii_digits(t) && digits_value(c)
            <= usize::MAX && digits_value(t) <= usize::MAX {
            Some((digits_value(c), digits_value(t)))
        } else {
            None
        },
        None => None,
    }
}

/// The position given by the last line that gives one.
pub open spec fn last_job(lines: Seq<Seq<char>>) -> Option<(nat, nat)>
    decreases lines.len(),
{
    if lines.len() == 0 {
        None
    } else if job_of_line(lines.last()) is Some {
        job_of_line(lines.last())
    } else {
        last_job(lines.drop_last())
    }
}

/// The position in the merge queue that Portage's log shows last.
pub open spec fn emerge_job_report(t: Seq<char>) -> Option<(nat, nat)> {
    last_job(text_lines(t))
}

fn job_of_line_exec(line: &Vec<char>) -> (r: Option<(usize, usize)>)
    ensures
        match r {
            Some((c, t)) => job_of_line(line@) == Some((c as nat, t as nat)),
            None => job_of_line(line@) is None,
        },
{
    match emerge_find(line) {
        Some((c, t)) => {
            let cv = copy_span(line, c.0, c.1);
            let tv = copy_span(line, t.0, t.1);
            if !(all_ascii_digits_exec(&cv) && all_ascii_digits_exec(&tv)) {
                return None;
            }
            match (parse_usize(&cv), parse_usize(&tv)) {
                (Some(x), Some(y)) => Some((x, y)),
                _ => None,
            }
        },
        None => None,
    }
}

/// The position in the merge queue that the text of Portage's log shows last
/// (see [`emerge_job_report`]).
pub fn parse_emerge_job_text(text: &str) -> (r: Option<(usize, usize)>)
    ensures
        match r {
            Some((c, t)) => emerge_job_report(text@) == Some((c as nat, t as nat)),
            None => emerge_job_report(text@) is None,
        },
{
    let v = chars_of(text);
    let spans = line_spans(&v);
    let ghost lines = text_lines(v@);
    let mut j = spans.len();
    assert(lines.take(j as int) =~= lines);
    while j > 0
        invariant
            j <= spans@.len() == lines.len(),
            lines == text_lines(v@),
            v@ == text@,
            spans_in(v@, spans@),
            forall|m: int| 0 <= m < spans@.len() ==> span_of(v@, #[trigger] spans@[m]) == lines[m],
            last_job(lines.take(j as int)) == last_job(lines),
        decreases j,
    {
        let ghost pre = lines.take(j as int);
        proof {
            assert(pre.drop_last() =~= lines.take(j - 1));
            assert(pre.last() == lines[j - 1]);
        }
        j = j - 1;
        let (a, b) = spans[j];
        let line = copy_span(&v, a, b);
        assert(line@ == lines[j as int]);
        if let Some(job) = job_of_line_exec(&line) {
            return Some(job);
        }
    }
    None
}

/// The position in the merge queue that the tail of Portage's log shows last,
/// its bytes decoded as `String::from_utf8_lossy` decodes them.
pub fn parse_emerge_job_progress(tail: &[u8]) -> (r: Option<(usize, usize)>)
    ensures
        match r {
            Some((c, t)) => emerge_job_report(lossy_utf8(tail@)) == Some((c as nat, t as nat)),
            None => emerge_job_report(lossy_utf8(tail@)) is None,
        },
{
    let text = decode_lossy(tail);
    parse_emerge_job_text(text.as_str())
}

// ---------------------------------------------------------------------------
// What a reading gives for the line Portage prints as it starts a package
// ---------------------------------------------------------------------------

/// The line Portage's log holds as it starts on a package: `>>>`, blanks,
/// `emerge`, blanks, `(`, the position, blanks, `of`, blanks, the count of
/// packages, `)`, and the rest of the line.
pub open spec fn emerge_line(
    w1: Seq<char>,
    w2: Seq<char>,
    n: Seq<char>,
    w3: Seq<char>,
    w4: Seq<char>,
    m: Seq<char>,
    x: Seq<char>,
) -> Seq<char> {
    word_prompt() + w1 + word_emerge() + w2 + seq!['('] + n + w3 + word_of() + w4 + m + seq![')'] + x
}

proof fn lemma_space_not_decimal(c: char)
    requires
        is_space(c),
    ensures
        !in_class(c, CharClass::Decimal),
{
}

#[verifier::rlimit(40)]
proof fn lemma_emerge_line_layout(
    w1: Seq<char>,
    w2: Seq<char>,
    n: Seq<char>,
    w3: Seq<char>,
    w4: Seq<char>,
    m: Seq<char>,
    x: Seq<char>,
)
    requires
        blanks(w1),
        blanks(w2),
        numeral(n),
        blanks(w3),
        blanks(w4),
        numeral(m),
        single_line(x),
    ensures
        ({
            let l = emerge_line(w1, w2, n, w3, w4, m, x);
            let a = 3 + w1.len() as int;
            let b = a + 6 + w2.len();
            let c = b + 1 + n.len();
            let d = c + w3.len();
            let e = d + 2 + w4.len();
            let f = e + m.len();
            &&& l.len() == f + 1 + x.len()
            &&& l[0] == '>'
            &&& l.subrange(0, 3) == word_prompt()
            &&& forall|k: int| 3 <= k < a ==> #[trigger] l[k] == w1[k - 3]
            &&& l.subrange(a, a + 6) == word_emerge()
            &&& l[a] == 'e'
            &&& forall|k: int| a + 6 <= k < b ==> #[trigger] l[k] == w2[k - a - 6]
            &&& l[b] == '('
            &&& forall|k: int| b + 1 <= k < c ==> #[trigger] l[k] == n[k - b - 1]
            &&& forall|k: int| c <= k < d ==> #[trigger] l[k] == w3[k - c]
            &&& l.subrange(d, d + 2) == word_of()
            &&& l[d] == 'o'
            &&& forall|k: int| d + 2 <= k < e ==> #[trigger] l[k] == w4[k - d - 2]
            &&& forall|k: int| e <= k < f ==> #[trigger] l[k] == m[k - e]
            &&& l[f] == ')'
            &&& l.subrange(b + 1, c) == n
            &&& l.subrange(e, f) == m
            &&& single_line(l)
        }),
{
    let l = emerge_line(w1, w2, n, w3, w4, m, x);
    let a: int = 3 + w1.len() as int;
    let b: int = a + 6 + w2.len();
    let c: int = b + 1 + n.len();
    let d: int = c + w3.len();
    let e: int = d + 2 + w4.len();
    let f: int = e + m.len();
    assert(l.subrange(0, 3) =~= word_prompt());
    assert(l.subrange(a, a + 6) =~= word_emerge());
    assert(l.subrange(d, d + 2) =~= word_of());
    assert(l.subrange(b + 1, c) =~= n);
    assert(l.subrange(e, f) =~= m);
    assert forall|k: int| 0 <= k < l.len() implies l[k] != '\n' by {
        if 3 <= k < a {
            assert(w1[k - 3] != '\n');
        } else if a + 6 <= k < b {
            assert(w2[k - a - 6] != '\n');
        } else if b + 1 <= k < c {
            assert(crate::text::is_ascii_digit(n[k - b - 1]));
        } else if c <= k < d {
            assert(w3[k - c] != '\n');
        } else if d + 2 <= k < e {
            assert(w4[k - d - 2] != '\n');
        } else if e <= k < f {
            assert(crate::text::is_ascii_digit(m[k - e]));
        } else if f < k {
            assert(x[k - f - 1] != '\n');
        }
    }
}

proof fn lemma_emerge_line_match(
    w1: Seq<char>,
    w2: Seq<char>,
    n: Seq<char>,
    w3: Seq<char>,
    w4: Seq<char>,
    m: Seq<char>,
    x: Seq<char>,
)
    requires
        blanks(w1),
        blanks(w2),
        numeral(n),
        blanks(w3),
        w3.len() > 0,
        blanks(w4),
        w4.len() > 0,
        numeral(m),
        single_line(x),
    ensures
        emerge_search(emerge_line(w1, w2, n, w3, w4, m, x), 0) == Some((n, m)),
{
    let l = emerge_line(w1, w2, n, w3, w4, m, x);
    lemma_emerge_line_layout(w1, w2, n, w3, w4, m, x);
    let a: int = 3 + w1.len() as int;
    let b: int = a + 6 + w2.len();
    let c: int = b + 1 + n.len();
    let d: int = c + w3.len();
    let e: int = d + 2 + w4.len();
    let f: int = e + m.len();
    assert(has_literal(l, 0, word_prompt()));
    assert forall|k: int| 3 <= k < a implies in_class(#[trigger] l[k], CharClass::Space) by {
        assert(is_space(w1[k - 3]));
    }
    lemma_run_end_at(l, 3, a, CharClass::Space);
    assert(has_literal(l, a, word_emerge()));
    assert forall|k: int| a + 6 <= k < b implies in_class(#[trigger] l[k], CharClass::Space) by {
        assert(is_space(w2[k - a - 6]));
    }
    lemma_run_end_at(l, a + 6, b, CharClass::Space);
    assert forall|k: int| b + 1 <= k < c implies in_class(#[trigger] l[k], CharClass::Decimal) by {
        assert(crate::text::is_ascii_digit(n[k - b - 1]));
        lemma_digits_are_decimal(n[k - b - 1]);
    }
    assert(l[c] == w3[0]);
    assert(is_space(w3[0]));
    lemma_space_not_decimal(w3[0]);
    lemma_run_end_at(l, b + 1, c, CharClass::Decimal);
    assert forall|k: int| c <= k < d implies in_class(#[trigger] l[k], CharClass::Space) by {
        assert(is_space(w3[k - c]));
    }
    lemma_run_end_at(l, c, d, CharClass::Space);
    assert(has_literal(l, d, word_of()));
    assert forall|k: int| d + 2 <= k < e implies in_class(#[trigger] l[k], CharClass::Space) by {
        assert(is_space(w4[k - d - 2]));
    }
    assert(l[e] == m[0]);
    assert(crate::text::is_ascii_digit(m[0]));
    lemma_digits_are_decimal(m[0]);
    lemma_run_end_at(l, d + 2, e, CharClass::Space);
    assert forall|k: int| e <= k < f implies in_class(#[trigger] l[k], CharClass::Decimal) by {
        assert(crate::text::is_ascii_digit(m[k - e]));
        lemma_digits_are_decimal(m[k - e]);
    }
    lemma_run_end_at(l, e, f, CharClass::Decimal);
    assert(emerge_at(l, 0) == Some((n, m)));
}

/// Whatever the number of digits of its numbers, the newest line
/// `>>> emerge (n of m)` of Portage's log, with whatever follows on it,
/// gives the position `n` of `m` in the merge queue.
pub proof fn lemma_emerge_position_read(
    p: Seq<char>,
    w1: Seq<char>,
    w2: Seq<char>,
    n: Seq<char>,
    w3: Seq<char>,
    w4: Seq<char>,
    m: Seq<char>,
    x: Seq<char>,
)
    requires
        p.len() == 0 || p.last() == '\n',
        blanks(w1),
        blanks(w2),
        numeral(n),
        blanks(w3),
        w3.len() > 0,
        blanks(w4),
        w4.len() > 0,
        numeral(m),
        single_line(x),
        digits_value(n) <= usize::MAX,
        digits_value(m) <= usize::MAX,
    ensures
        emerge_job_report(p + emerge_line(w1, w2, n, w3, w4, m, x)) == Some(
            (digits_value(n), digits_value(m)),
        ),
{
    let l = emerge_line(w1, w2, n, w3, w4, m, x);
    lemma_emerge_line_layout(w1, w2, n, w3, w4, m, x);
    lemma_emerge_line_match(w1, w2, n, w3, w4, m, x);
    lemma_trim_keeps_first(l);
    lemma_newest_line(p, l);
    assert(job_of_line(l) == Some((digits_value(n), digits_value(m))));
    assert(text_lines(p + l).last() == l);
}

/// Where no `>` stands from `i` on, no `>>> emerge` line starts there.
proof fn lemma_no_emerge_from(s: Seq<char>, i: int)
    requires
        0 <= i,
        forall|k: int| i <= k < s.len() ==> s[k] != '>',
    ensures
        emerge_search(s, i) is None,
    decreases s.len() - i,
{
    if i < s.len() {
        if has_literal(s, i, word_prompt()) {
            assert(s.subrange(i, i + 3)[0] == s[i]);
        }
        lemma_no_emerge_from(s, i + 1);
    }
}

/// A newest line with no `>` in it leaves the position in the merge queue
/// where the lines before it put it.
pub proof fn lemma_emerge_other_line(p: Seq<char>, l: Seq<char>)
    requires
        p.len() == 0 || p.last() == '\n',
        single_line(l),
        trim(l).len() > 0,
        forall|k: int| 0 <= k < l.len() ==> l[k] != '>',
    ensures
        emerge_job_report(p + l) == emerge_job_report(p),
{
    lemma_newest_line(p, l);
    lemma_no_emerge_from(l, 0);
    assert(job_of_line(l) is None);
    let lines = text_lines(p).push(l);
    assert(lines.last() == l);
    assert(lines.drop_last() =~= text_lines(p));
}

} // verus!
