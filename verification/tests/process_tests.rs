use gentooplz::process::{sum_usage, ProcessInfo};
use gentooplz::process::process_matches;

fn p(pid: u32, parent: Option<u32>, memory: u64, cpu_rank: u32) -> ProcessInfo {
    ProcessInfo { pid, parent, memory, cpu_rank }
}

const MIB: u64 = 1024 * 1024;

#[test]
fn walks_the_whole_tree() {
    let table = vec![
        p(1, None, 10 * MIB, 5),
        p(2, Some(1), 20 * MIB, 7),
        p(3, Some(1), 30 * MIB, 1),
        p(4, Some(3), 40 * MIB, 9),
        p(5, None, 50 * MIB, 100),
    ];
    let r = sum_usage(&vec![1], &table);
    assert_eq!(r.visited, vec![1, 3, 4, 2]);
    assert_eq!(r.process_count, 4);
    assert_eq!(r.memory_mb(), Some(100));
    assert_eq!(r.memory_bytes, 100 * MIB as u128);
    assert_eq!(r.top_pid, Some(4));
}

#[test]
fn ties_go_to_the_first_visited() {
    let table = vec![p(1, None, 0, 3), p(2, Some(1), 0, 3), p(3, Some(1), 0, 3)];
    let r = sum_usage(&vec![1], &table);
    assert_eq!(r.visited, vec![1, 3, 2]);
    assert_eq!(r.top_pid, Some(1));
}

#[test]
fn cycles_and_missing_roots() {
    let table = vec![p(1, Some(2), MIB, 1), p(2, Some(1), MIB, 2)];
    let r = sum_usage(&vec![1, 1, 77], &table);
    assert_eq!(r.process_count, 3);
    let mut v = r.visited.clone();
    v.sort();
    assert_eq!(v, vec![1, 2, 77]);
    assert_eq!(r.memory_mb(), Some(2));
    assert_eq!(r.top_pid, Some(2));
}

#[test]
fn no_roots_no_tree() {
    let table = vec![p(1, None, MIB, 1)];
    let r = sum_usage(&vec![], &table);
    assert!(r.visited.is_empty());
    assert_eq!(r.process_count, 0);
    assert_eq!(r.memory_mb(), Some(0));
    assert_eq!(r.top_pid, None);
}

#[test]
fn only_unlisted_roots() {
    let r = sum_usage(&vec![9], &vec![]);
    assert_eq!(r.visited, vec![9]);
    assert_eq!(r.top_pid, None);
    assert_eq!(r.memory_mb(), Some(0));
}

#[test]
fn memory_rounds_down_to_mib() {
    let table = vec![p(1, None, MIB - 1, 0), p(2, Some(1), MIB - 1, 0)];
    assert_eq!(sum_usage(&vec![1], &table).memory_mb(), Some(1));
}

#[test]
fn matching_processes() {
    let dir = "/var/tmp/portage/dev-libs/foo-1.0";
    assert!(process_matches(true, &vec![], dir));
    assert!(process_matches(false, &vec!["make".into(), format!("-C{dir}/work")], dir));
    assert!(!process_matches(false, &vec!["make".into(), "/var/tmp/portage/dev-libs".into()], dir));
    assert!(process_matches(false, &vec![dir.into()], dir));
    assert!(process_matches(false, &vec![format!("{dir}/work/a.c")], dir));
    assert!(!process_matches(false, &vec![format!("{dir}0/work/a.c")], dir));
    assert!(!process_matches(false, &vec!["cc".into(), "-c".into(), "/var/tmp/portage/dev-libs/foo-10/work/a.c".into()], "/var/tmp/portage/dev-libs/foo-1"));
    assert!(process_matches(false, &vec![format!("--prefix={dir}0"), format!("-I{dir}/include")], dir));
    assert!(process_matches(false, &vec!["/a/b/c".into()], "/a/b/"));
    assert!(!process_matches(false, &vec![], dir));
}

#[test]
fn memory_that_overflows_a_u64() {
    let table = vec![p(1, None, u64::MAX, 0), p(2, Some(1), 2, 0), p(3, None, u64::MAX, 0)];
    let r = sum_usage(&vec![1], &table);
    assert_eq!(r.memory_bytes, u64::MAX as u128 + 2);
    assert_eq!(r.memory_mb(), None);
    let alone = sum_usage(&vec![3], &table);
    assert_eq!(alone.memory_mb(), Some(u64::MAX / 1024 / 1024));
}
