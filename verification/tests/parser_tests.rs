use gentooplz::model::BuildSystem;
use gentooplz::parser::{
    parse_build_log, parse_build_text, parse_emerge_job_progress, parse_emerge_job_text, tail_start,
    ParsedProgress, Progress,
};
use gentooplz::text::last_meaningful_lines;
use regex::Regex;

fn percent(p: &Progress) -> Option<f32> {
    match p {
        Progress::Unknown => None,
        Progress::Percent(x) => Some(*x as f32),
        Progress::Fraction { done, total } => {
            let d: f32 = done.parse().unwrap_or(0.0);
            let t: f32 = total.parse().unwrap_or(1.0);
            Some((d / t) * 100.0)
        }
    }
}

/// The build-log reading stated with regular expressions, to compare
/// against.
struct Patterns {
    ninja: Regex,
    make: Regex,
    cargo: Regex,
    count: Regex,
    job: Regex,
}

fn patterns() -> &'static Patterns {
    static P: std::sync::OnceLock<Patterns> = std::sync::OnceLock::new();
    P.get_or_init(|| Patterns {
        ninja: Regex::new(r"\[\s*(\d+)/(\d+)\]\s*(.*)").unwrap(),
        make: Regex::new(r"\[\s*(\d{1,3})%\]\s*(.*)").unwrap(),
        cargo: Regex::new(r"^\s*Compiling\s+(\S+)\s+v?(\S*)").unwrap(),
        count: Regex::new(r"\((\d+)/(\d+)\)").unwrap(),
        job: Regex::new(r">>>\s*emerge\s*\((\d+)\s+of\s+(\d+)\)").unwrap(),
    })
}

fn regex_reading(text: &str) -> (BuildSystem, Option<f32>, Option<String>, Vec<String>) {
    let p = patterns();
    let (ninja, make, cargo, count) = (&p.ninja, &p.make, &p.cargo, &p.count);
    let lines: Vec<&str> = text.lines().rev().map(str::trim).filter(|l| !l.is_empty()).take(25).collect();
    let recent: Vec<String> = lines.iter().take(8).map(|s| s.to_string()).collect();
    for line in &lines {
        if let Some(caps) = ninja.captures(line) {
            let done: f32 = caps[1].parse().unwrap_or(0.0);
            let total: f32 = caps[2].parse::<f32>().unwrap_or(1.0).max(1.0);
            return (BuildSystem::Ninja, Some((done / total) * 100.0), Some(caps[3].trim().to_string()), recent);
        }
        if let Some(caps) = make.captures(line) {
            let pct: f32 = caps[1].parse().unwrap_or(0.0);
            return (BuildSystem::Make, Some(pct.clamp(0.0, 100.0)), Some(caps[2].trim().to_string()), recent);
        }
        if let Some(caps) = cargo.captures(line) {
            let crate_name = caps[1].to_string();
            let version = caps.get(2).map(|m| m.as_str()).unwrap_or("");
            let step = if version.is_empty() { crate_name } else { format!("{crate_name} v{version}") };
            let pct = count.captures(line).and_then(|c| {
                let done: f32 = c[1].parse().ok()?;
                let total: f32 = c[2].parse().ok()?;
                if total > 0.0 { Some((done / total) * 100.0) } else { None }
            });
            return (BuildSystem::Cargo, pct, Some(step), recent);
        }
    }
    (BuildSystem::Unknown, None, lines.first().map(|s| s.to_string()), recent)
}

fn regex_job(text: &str) -> Option<(usize, usize)> {
    let re = &patterns().job;
    text.lines().rev().find_map(|line| {
        let caps = re.captures(line)?;
        let current: usize = caps[1].parse().ok()?;
        let total: usize = caps[2].parse().ok()?;
        Some((current, total))
    })
}

fn same_float(a: Option<f32>, b: Option<f32>) -> bool {
    match (a, b) {
        (None, None) => true,
        (Some(x), Some(y)) => x == y || (x.is_nan() && y.is_nan()),
        _ => false,
    }
}

fn check_against_regex(text: &str) {
    let got: ParsedProgress = parse_build_text(text);
    let (bs, pct, step, recent) = regex_reading(text);
    assert_eq!(got.build_system, bs, "build system of {text:?}");
    assert!(same_float(percent(&got.progress), pct), "progress of {text:?}: {:?} vs {:?}", got.progress, pct);
    assert_eq!(got.current_step, step, "step of {text:?}");
    assert_eq!(got.recent_lines, recent, "recent lines of {text:?}");
    assert_eq!(parse_emerge_job_text(text), regex_job(text), "job of {text:?}");
}

#[test]
fn ninja_line() {
    let p = parse_build_text("configuring\n[12/345] Compiling C object foo.c.o  \n");
    assert_eq!(p.build_system, BuildSystem::Ninja);
    match &p.progress {
        Progress::Fraction { done, total } => {
            assert_eq!(done, "12");
            assert_eq!(total, "345");
        }
        other => panic!("unexpected {other:?}"),
    }
    assert_eq!(p.current_step.as_deref(), Some("Compiling C object foo.c.o"));
    assert_eq!(p.recent_lines, vec!["[12/345] Compiling C object foo.c.o", "configuring"]);
}

#[test]
fn make_line_and_clamp() {
    let p = parse_build_text("[ 45%] Building CXX object x.o\n");
    assert_eq!(p.build_system, BuildSystem::Make);
    assert!(matches!(p.progress, Progress::Percent(45)));
    assert_eq!(p.current_step.as_deref(), Some("Building CXX object x.o"));
    let q = parse_build_text("[999%] done");
    assert!(matches!(q.progress, Progress::Percent(100)));
    let r = parse_build_text("[1000%] done");
    assert_eq!(r.build_system, BuildSystem::Unknown);
}

#[test]
fn cargo_lines() {
    let p = parse_build_text("   Compiling serde v1.0.197\n");
    assert_eq!(p.build_system, BuildSystem::Cargo);
    assert!(matches!(p.progress, Progress::Unknown));
    assert_eq!(p.current_step.as_deref(), Some("serde v1.0.197"));
    let q = parse_build_text("Compiling libc v0.2.1 (12/40)");
    match &q.progress {
        Progress::Fraction { done, total } => assert_eq!((done.as_str(), total.as_str()), ("12", "40")),
        other => panic!("unexpected {other:?}"),
    }
    let zero = parse_build_text("Compiling a b (1/0)");
    assert!(matches!(zero.progress, Progress::Unknown));
    assert_eq!(zero.current_step.as_deref(), Some("a vb"));
    // A crate name at the end of the line is not a match.
    let none = parse_build_text("Compiling foo");
    assert_eq!(none.build_system, BuildSystem::Unknown);
    assert_eq!(none.current_step.as_deref(), Some("Compiling foo"));
}

#[test]
fn newest_line_decides() {
    let p = parse_build_text("[1/2] first\n[ 50%] second\n\n   \n");
    assert_eq!(p.build_system, BuildSystem::Make);
    let q = parse_build_text("[ 50%] second [3/4] inner\n");
    assert_eq!(q.build_system, BuildSystem::Ninja);
    assert_eq!(q.current_step.as_deref(), Some("inner"));
}

#[test]
fn empty_and_plain_text() {
    let p = parse_build_text("");
    assert_eq!(p.build_system, BuildSystem::Unknown);
    assert!(p.current_step.is_none());
    assert!(p.recent_lines.is_empty());
    let q = parse_build_text("checking for gcc... yes\n  \n");
    assert_eq!(q.current_step.as_deref(), Some("checking for gcc... yes"));
}

#[test]
fn keeps_eight_lines() {
    let text: String = (0..30).map(|i| format!("line {i}\n")).collect();
    let p = parse_build_text(&text);
    assert_eq!(p.recent_lines.len(), 8);
    assert_eq!(p.recent_lines[0], "line 29");
    assert_eq!(p.recent_lines[7], "line 22");
}

#[test]
fn scans_only_twenty_five_lines() {
    let mut text = String::from("[1/2] old\n");
    for i in 0..25 {
        text.push_str(&format!("plain {i}\n"));
    }
    assert_eq!(parse_build_text(&text).build_system, BuildSystem::Unknown);
    let mut text2 = String::from("[1/2] old\n");
    for i in 0..24 {
        text2.push_str(&format!("plain {i}\n"));
    }
    assert_eq!(parse_build_text(&text2).build_system, BuildSystem::Ninja);
}

#[test]
fn unicode_digits_count_as_digits() {
    let p = parse_build_text("[٣/٤] step");
    assert_eq!(p.build_system, BuildSystem::Ninja);
    match &p.progress {
        Progress::Fraction { done, total } => assert_eq!((done.as_str(), total.as_str()), ("0", "1")),
        other => panic!("unexpected {other:?}"),
    }
    check_against_regex("[٣/٤] step");
    check_against_regex("[ ٣%] step");
}

#[test]
fn ninja_zero_total() {
    let p = parse_build_text("[5/0] x");
    assert_eq!(percent(&p.progress), Some(500.0));
    check_against_regex("[5/0] x");
}

#[test]
fn emerge_positions() {
    let log = "1700000000:  >>> emerge (1 of 15) dev-libs/a\n1700000100:  >>> emerge (3 of 15) sys-devel/gcc-13\nunrelated\n";
    assert_eq!(parse_emerge_job_text(log), Some((3, 15)));
    assert_eq!(parse_emerge_job_text("no jobs here"), None);
    assert_eq!(parse_emerge_job_text(">>>emerge(2 of 3)"), Some((2, 3)));
    assert_eq!(parse_emerge_job_text(">>> emerge (2of 3)"), None);
    assert_eq!(parse_emerge_job_text(">>>emerge(2  of\t3)"), Some((2, 3)));
    let huge = ">>> emerge (1 of 2)\n>>> emerge (99999999999999999999999 of 3)\n";
    assert_eq!(parse_emerge_job_text(huge), Some((1, 2)));
}

#[test]
fn bytes_are_decoded_lossily() {
    let mut bytes = b"[7/8] ok\n".to_vec();
    bytes.extend_from_slice(&[0xff, 0xfe, b'\n']);
    let p = parse_build_log(&bytes);
    assert_eq!(p.build_system, BuildSystem::Ninja);
    assert_eq!(p.recent_lines[0], "\u{fffd}\u{fffd}");
    assert_eq!(parse_emerge_job_progress(b">>> emerge (4 of 9)\r\n"), Some((4, 9)));
}

#[test]
fn tail_offsets() {
    assert_eq!(tail_start(10_000, 4096), 10_000 - 4096);
    assert_eq!(tail_start(100, 4096), 0);
    assert_eq!(tail_start(4096, 4096), 0);
    assert_eq!(tail_start(0, 4096), 0);
}

#[test]
fn meaningful_lines_match_std() {
    let samples = [
        "a\r\nb\r\n\r\n  c  \n",
        "x\ry\r",
        "\n\n\n",
        "one",
        "\u{a0}padded\u{2003}\nlast\n",
        "a\nb\nc\nd\n",
    ];
    for s in samples {
        for n in 0..6 {
            let want: Vec<String> = s.lines().rev().map(str::trim).filter(|l| !l.is_empty()).take(n).map(String::from).collect();
            assert_eq!(last_meaningful_lines(s, n), want, "{s:?} {n}");
        }
    }
}

/// A small deterministic generator of awkward log text.
struct Gen(u64);

impl Gen {
    fn next(&mut self) -> u64 {
        self.0 = self.0.wrapping_mul(6364136223846793005).wrapping_add(1442695040888963407);
        self.0 >> 33
    }

    fn text(&mut self) -> String {
        const PIECES: &[&str] = &[
            "[", "]", "/", "%", "(", ")", " ", "  ", "\t", "\n", "\r\n", "\r", "0", "1", "7", "12",
            "999", "1000", "٣", "٤", "\u{a0}", "\u{2003}", "Compiling", "Compiling ", " v", "v", "x",
            "foo", ">>>", ">>> ", "emerge", " emerge ", "of", " of ", "é", "…", "-", "99999999999999999999999",
        ];
        let len = self.next() % 14;
        let mut s = String::new();
        for _ in 0..len {
            s.push_str(PIECES[(self.next() as usize) % PIECES.len()]);
        }
        s
    }
}

#[test]
fn agrees_with_regular_expressions() {
    let mut g = Gen(12345);
    for _ in 0..1500 {
        let t = g.text();
        check_against_regex(&t);
    }
    for t in [
        "[ 12/13]  step  ",
        "xx [1/2]",
        "[ 7%]",
        "[12%] [1/x]",
        "Compiling  a  vv1 rest",
        "Compiling a\tb",
        "Compiling a v",
        ">>> emerge ( 1 of 2)",
        ">>>>>> emerge (1 of 2)",
        "(1/2) Compiling a b",
    ] {
        check_against_regex(t);
    }
}

#[test]
fn readings_are_well_formed() {
    let mut g = Gen(777);
    for _ in 0..800 {
        let t = g.text();
        let p = parse_build_text(&t);
        match &p.progress {
            Progress::Unknown => {}
            Progress::Percent(x) => assert!(*x <= 100),
            Progress::Fraction { done, total } => {
                assert!(!done.is_empty() && done.chars().all(|c| c.is_ascii_digit()));
                assert!(total.chars().all(|c| c.is_ascii_digit()) && total.chars().any(|c| c != '0'));
            }
        }
        assert!(p.recent_lines.len() <= 8);
        assert!(p.recent_lines.iter().all(|l| !l.is_empty() && l.trim() == l));
        assert_eq!(p.recent_lines, last_meaningful_lines(&t, 8));
    }
}
