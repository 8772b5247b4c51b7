use gentooplz::format::{
    build_system_meta, decimal_string, fmt_duration, full_name, log_line_emphasis, pad,
    pid_summary, pid_summary_compact, sidebar_title, truncate, vertical_padding, Emphasis, Tone,
};
use gentooplz::cli::{command_line, root_advice, RootAdvice};
use gentooplz::model::BuildSystem;
use gentooplz::names::split_name_version;
use gentooplz::pattern::parse_usize;
use gentooplz::text::{chars_of, trimmed};

#[test]
fn durations() {
    assert_eq!(fmt_duration(0), "0:00");
    assert_eq!(fmt_duration(59), "0:59");
    assert_eq!(fmt_duration(61), "1:01");
    assert_eq!(fmt_duration(3599), "59:59");
    assert_eq!(fmt_duration(3600), "1:00:00");
    assert_eq!(fmt_duration(3725), "1:02:05");
    assert_eq!(fmt_duration(100 * 3600 + 7), "100:00:07");
}

#[test]
fn decimals_round_trip() {
    for n in [0u64, 7, 10, 99, 100, 12345, u64::MAX] {
        let s = decimal_string(n);
        assert_eq!(s, n.to_string());
        assert_eq!(parse_usize(&chars_of(&s)), usize::try_from(n).ok());
    }
}

#[test]
fn padding() {
    assert_eq!(pad("cpu", 6), "cpu   ");
    assert_eq!(pad("toolong", 3), "toolong");
    assert_eq!(pad("ü", 3), "ü  ");
    assert_eq!(pad("", 0), "");
}

#[test]
fn truncation() {
    assert_eq!(truncate("short", 17), "short");
    assert_eq!(truncate("exactly", 7), "exactly");
    assert_eq!(truncate("a-very-long-package-name", 8), "a-very-…");
    assert_eq!(truncate("abc", 1), "…");
    assert_eq!(truncate("abc", 0), "…");
    assert_eq!(truncate("", 0), "");
    assert_eq!(truncate("ééééé", 3), "éé…");
}

#[test]
fn names() {
    assert_eq!(full_name("sys-devel", "gcc", "13.2.1"), "sys-devel/gcc-13.2.1");
    let (n, v) = split_name_version("gcc-13.2.1");
    assert_eq!(full_name("sys-devel", &n, &v), "sys-devel/gcc-13.2.1");
}

#[test]
fn metas() {
    assert_eq!(build_system_meta(BuildSystem::Ninja), ('▲', "ninja", Tone::Blue));
    assert_eq!(build_system_meta(BuildSystem::Make), ('■', "make", Tone::Green));
    assert_eq!(build_system_meta(BuildSystem::Cargo), ('●', "cargo", Tone::Magenta));
    assert_eq!(build_system_meta(BuildSystem::Unknown), ('○', "build", Tone::Dim));
    assert_eq!(BuildSystem::default(), BuildSystem::Unknown);
}

#[test]
fn titles_and_summaries() {
    assert_eq!(sidebar_title(3, 0, 2, 15), "packages · 1/3 · job 2/15");
    assert_eq!(sidebar_title(3, 2, 0, 0), "packages · 3/3");
    assert_eq!(sidebar_title(0, 0, 4, 9), "packages");
    assert_eq!(pid_summary(Some(123), 5), "123 (+4)");
    assert_eq!(pid_summary(Some(123), 1), "123");
    assert_eq!(pid_summary(Some(123), 0), "123");
    assert_eq!(pid_summary(None, 5), "—");
    assert_eq!(pid_summary_compact(Some(9), 3), "9+2");
    assert_eq!(pid_summary_compact(Some(9), 1), "9");
    assert_eq!(pid_summary_compact(None, 0), "—");
}

#[test]
fn emphasis() {
    assert_eq!(log_line_emphasis(7, 7), Emphasis::Current);
    assert_eq!(log_line_emphasis(6, 7), Emphasis::Recent);
    assert_eq!(log_line_emphasis(5, 7), Emphasis::Recent);
    assert_eq!(log_line_emphasis(4, 7), Emphasis::Older);
    assert_eq!(log_line_emphasis(0, 0), Emphasis::Current);
}

#[test]
fn command_lines() {
    assert_eq!(command_line(&vec![]), "gentooplz");
    assert_eq!(command_line(&vec!["./gentooplz".into()]), "./gentooplz");
    assert_eq!(
        command_line(&vec!["gentooplz".into(), "-i".into(), "500".into(), "-p".into(), "/tmp/my dir".into()]),
        "gentooplz -i 500 -p '/tmp/my dir'"
    );
    assert_eq!(command_line(&vec!["g".into(), "a\tb".into()]), "g 'a\tb'");
    assert_eq!(command_line(&vec!["/opt/my tools/gentooplz".into()]), "'/opt/my tools/gentooplz'");
    assert_eq!(
        command_line(&vec!["/opt/my tools/gentooplz".into(), "-i".into(), "5 0".into()]),
        "'/opt/my tools/gentooplz' -i '5 0'"
    );
}

#[test]
fn trimming() {
    assert_eq!(trimmed("  a b \u{3000}"), "a b");
    assert_eq!(trimmed("\t\n"), "");
}

#[test]
fn advice_and_padding() {
    assert_eq!(root_advice(true, false), RootAdvice::Doas);
    assert_eq!(root_advice(false, true), RootAdvice::Sudo);
    assert_eq!(root_advice(true, true), RootAdvice::Either);
    assert_eq!(root_advice(false, false), RootAdvice::Su);
    assert_eq!(vertical_padding(10, 2), 4);
    assert_eq!(vertical_padding(3, 2), 0);
    assert_eq!(vertical_padding(1, 5), 0);
    assert_eq!(vertical_padding(0, 0), 0);
}

#[test]
fn default_reading() {
    let p = gentooplz::parser::ParsedProgress::default();
    assert_eq!(p.build_system, BuildSystem::Unknown);
    assert!(p.current_step.is_none());
    assert!(p.recent_lines.is_empty());
}

#[test]
fn trimming_twice_changes_nothing() {
    for s in ["  a  ", "\u{2028}x\u{85}", "", "   ", "b"] {
        let once = trimmed(s);
        assert_eq!(trimmed(&once), once);
    }
}

#[test]
fn shortened_text_fits() {
    for s in ["", "a", "abcdef", "ééééééé"] {
        for max in 1..10 {
            let t = truncate(s, max);
            assert!(t.chars().count() <= max);
            if s.chars().count() <= max {
                assert_eq!(t, s);
            } else {
                assert!(t.ends_with('…'));
            }
            let p = pad(s, max);
            assert_eq!(p.chars().count(), s.chars().count().max(max));
            assert!(p.starts_with(s));
        }
    }
}

#[test]
fn full_name_of_a_split_directory() {
    for d in ["gcc-13.2.1", "llvm-core-18.1.8-r2", "x-1_rc2"] {
        let (n, v) = split_name_version(d);
        assert!(!v.is_empty());
        assert_eq!(full_name("cat", &n, &v), format!("cat/{d}"));
    }
}
