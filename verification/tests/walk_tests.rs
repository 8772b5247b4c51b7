use gentooplz::model::BuildSystem;
use gentooplz::order::sort_order;
use gentooplz::walk::{
    build_system_marker, detect_build_system_hint, ext_matches, EntryKind, ExtSet, FileCount, MarkerSearch,
    MarkerStep, Walk,
};

#[test]
fn extensions() {
    for e in ["c", "CC", "cpp", "Cxx", "m", "mm", "rs", "go", "F90", "f", "java", "swift", "d"] {
        assert!(ext_matches(ExtSet::Sources, e), "{e}");
    }
    for e in ["o", "OBJ", "lo", "rlib", "rmeta", "class"] {
        assert!(ext_matches(ExtSet::Objects, e), "{e}");
    }
    for e in ["h", "", "cppp", "o", "txt"] {
        assert!(!ext_matches(ExtSet::Sources, e), "{e}");
    }
    assert!(!ext_matches(ExtSet::Objects, "c"));
}

#[test]
fn counting_files() {
    let mut c = FileCount::new(ExtSet::Sources, 5);
    assert_eq!(c.visit(EntryKind::File, Some("c")), Walk::Skip);
    assert_eq!(c.visit(EntryKind::Dir, Some("c")), Walk::Descend);
    assert_eq!(c.visit(EntryKind::Symlink, Some("c")), Walk::Skip);
    assert_eq!(c.visit(EntryKind::File, None), Walk::Skip);
    assert_eq!(c.visit(EntryKind::File, Some("RS")), Walk::Skip);
    assert_eq!(c.count, 2);
    assert_eq!(c.visit(EntryKind::File, Some("c")), Walk::Stop);
    assert_eq!(c.count, 2);
}

#[test]
fn markers() {
    assert_eq!(build_system_marker("Cargo.toml"), Some(BuildSystem::Cargo));
    assert_eq!(build_system_marker("build.ninja"), Some(BuildSystem::Ninja));
    assert_eq!(build_system_marker("Makefile"), Some(BuildSystem::Make));
    assert_eq!(build_system_marker("GNUmakefile"), Some(BuildSystem::Make));
    assert_eq!(build_system_marker("makefile"), None);
    assert_eq!(build_system_marker("Cargo.lock"), None);
    let mut m = MarkerSearch::new(4);
    assert_eq!(m.visit(EntryKind::Dir, Some("temp")), MarkerStep::Skip);
    assert_eq!(m.visit(EntryKind::Dir, Some("work")), MarkerStep::Descend);
    assert_eq!(m.visit(EntryKind::File, None), MarkerStep::Skip);
    assert_eq!(m.visit(EntryKind::Symlink, Some("Makefile")), MarkerStep::Skip);
    assert_eq!(m.visit(EntryKind::File, Some("Makefile")), MarkerStep::Stop(None));
    let mut m2 = MarkerSearch::new(4);
    assert_eq!(m2.visit(EntryKind::File, Some("build.ninja")), MarkerStep::Stop(Some(BuildSystem::Ninja)));
    assert_eq!(detect_build_system_hint(None), BuildSystem::Unknown);
    assert_eq!(detect_build_system_hint(Some(BuildSystem::Cargo)), BuildSystem::Cargo);
}

#[test]
fn package_order() {
    let names: Vec<String> = vec!["sys-devel/gcc-13".into(), "dev-libs/b-1".into(), "dev-libs/a-2".into(), "dev-libs/b-1".into(), "Z/upper-1".into()];
    let order = sort_order(&names);
    assert_eq!(order, vec![4, 2, 1, 3, 0]);
    let mut want = names.clone();
    want.sort();
    let got: Vec<String> = order.iter().map(|&i| names[i].clone()).collect();
    assert_eq!(got, want);
    assert!(sort_order(&vec![]).is_empty());
    let u: Vec<String> = vec!["é".into(), "z".into(), "ab".into(), "a".into()];
    let got: Vec<String> = sort_order(&u).iter().map(|&i| u[i].clone()).collect();
    let mut want = u.clone();
    want.sort();
    assert_eq!(got, want);
}
