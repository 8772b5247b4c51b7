use gentooplz::names::split_name_version;
use regex::Regex;

fn regex_split(dirname: &str) -> (String, String) {
    static RE: std::sync::OnceLock<Regex> = std::sync::OnceLock::new();
    let re = RE.get_or_init(|| {
        Regex::new(
            r"^(?P<name>.+)-(?P<version>[0-9]+(?:\.[0-9]+)*[a-z]?(?:_(?:alpha|beta|pre|rc|p)[0-9]*)*(?:-r[0-9]+)?)$",
        )
        .unwrap()
    });
    if let Some(caps) = re.captures(dirname) {
        return (caps["name"].to_string(), caps["version"].to_string());
    }
    (dirname.to_string(), String::new())
}

fn split(s: &str) -> (String, String) {
    split_name_version(s)
}

#[test]
fn plain_versions() {
    assert_eq!(split("gcc-13.2.1"), ("gcc".into(), "13.2.1".into()));
    assert_eq!(split("openssl-3.0.13-r1"), ("openssl".into(), "3.0.13-r1".into()));
    assert_eq!(split("python-3.12.2_p1"), ("python".into(), "3.12.2_p1".into()));
    assert_eq!(split("foo-1.0_alpha2_pre3"), ("foo".into(), "1.0_alpha2_pre3".into()));
    assert_eq!(split("bar-2b"), ("bar".into(), "2b".into()));
    assert_eq!(split("llvm-core-18.1.8"), ("llvm-core".into(), "18.1.8".into()));
}

#[test]
fn names_that_do_not_split() {
    assert_eq!(split("no-version-here"), ("no-version-here".into(), String::new()));
    assert_eq!(split("-1.0"), ("-1.0".into(), String::new()));
    assert_eq!(split(""), (String::new(), String::new()));
    assert_eq!(split("a-1.0_foo"), ("a-1.0_foo".into(), String::new()));
    assert_eq!(split("a\nb-1"), ("a\nb-1".into(), String::new()));
}

#[test]
fn longest_name_wins() {
    assert_eq!(split("a-1-2"), ("a-1".into(), "2".into()));
    assert_eq!(split("a-1-r2"), ("a".into(), "1-r2".into()));
}

#[test]
fn split_rejoins() {
    for s in ["gcc-13.2.1", "x-y-1_rc1-r3", "pkg-10a_beta"] {
        let (n, v) = split(s);
        assert_eq!(format!("{n}-{v}"), s);
    }
}

#[test]
fn agrees_with_regular_expression() {
    const PIECES: &[&str] = &["a", "b", "-", "1", "23", ".", "_", "p", "pre", "rc", "alpha", "beta", "r", "-r", "z", "\n", "é", "Z"];
    let mut state: u64 = 99;
    for _ in 0..5000 {
        state = state.wrapping_mul(6364136223846793005).wrapping_add(1442695040888963407);
        let len = (state >> 40) % 9;
        let mut s = String::new();
        for _ in 0..len {
            state = state.wrapping_mul(6364136223846793005).wrapping_add(1442695040888963407);
            s.push_str(PIECES[((state >> 33) as usize) % PIECES.len()]);
        }
        assert_eq!(split(&s), regex_split(&s), "{s:?}");
    }
}
