use tree_copy::walker::{Action, EntryKind, Walker};

fn names(v: &[&str]) -> Vec<String> {
    v.iter().map(|s| s.to_string()).collect()
}

fn transfer_path(a: Action) -> Vec<String> {
    match a {
        Action::Transfer(p) => p,
        other => panic!("expected a transfer, got {:?}", other),
    }
}

fn descend_path(a: Action) -> Vec<String> {
    match a {
        Action::Descend(p) => p,
        other => panic!("expected a descent, got {:?}", other),
    }
}

#[test]
fn mirrors_file_and_subdirectory() {
    let mut w = Walker::new(vec![], 2);
    assert_eq!(transfer_path(w.on_entry("a.txt".to_string(), EntryKind::File)), names(&["a.txt"]));
    assert_eq!(descend_path(w.on_entry("sub".to_string(), EntryKind::Directory)), names(&["sub"]));
    assert_eq!(w.depth, 2);
    assert_eq!(w.path, names(&["sub"]));
    assert_eq!(
        transfer_path(w.on_entry("b.txt".to_string(), EntryKind::File)),
        names(&["sub", "b.txt"])
    );
    assert!(matches!(w.on_exhausted(), Action::Ascend(true)));
    assert_eq!(w.depth, 1);
    assert!(w.path.is_empty());
    assert!(matches!(w.on_exhausted(), Action::Finished));
    assert_eq!(w.depth, 0);
    assert_eq!(w.how_much_completed, 2);
}

#[test]
fn excluded_directory_is_skipped() {
    let mut w = Walker::new(names(&["sub"]), 2);
    assert_eq!(transfer_path(w.on_entry("a.txt".to_string(), EntryKind::File)), names(&["a.txt"]));
    assert!(matches!(w.on_entry("sub".to_string(), EntryKind::Directory), Action::Excluded));
    assert_eq!(w.depth, 1);
    assert!(matches!(w.on_exhausted(), Action::Finished));
    assert_eq!(w.how_much_completed, 2);
}

#[test]
fn excluded_name_matches_at_any_depth() {
    let mut w = Walker::new(names(&["node_modules"]), 1);
    descend_path(w.on_entry("app".to_string(), EntryKind::Directory));
    descend_path(w.on_entry("lib".to_string(), EntryKind::Directory));
    assert!(matches!(
        w.on_entry("node_modules".to_string(), EntryKind::Directory),
        Action::Excluded
    ));
    assert!(matches!(w.on_entry("node_modules".to_string(), EntryKind::File), Action::Excluded));
    assert_eq!(
        transfer_path(w.on_entry("x.rs".to_string(), EntryKind::File)),
        names(&["app", "lib", "x.rs"])
    );
    assert!(matches!(w.on_exhausted(), Action::Ascend(false)));
    assert!(matches!(w.on_exhausted(), Action::Ascend(true)));
    assert!(matches!(w.on_exhausted(), Action::Finished));
    assert_eq!(w.how_much_completed, 1);
}

#[test]
fn empty_directory_is_created() {
    let mut w = Walker::new(vec![], 1);
    assert_eq!(descend_path(w.on_entry("empty".to_string(), EntryKind::Directory)), names(&["empty"]));
    assert!(matches!(w.on_exhausted(), Action::Ascend(true)));
    assert!(matches!(w.on_exhausted(), Action::Finished));
}

#[test]
fn other_entries_are_ignored() {
    let mut w = Walker::new(vec![], 1);
    assert!(matches!(w.on_entry("link".to_string(), EntryKind::Other), Action::Ignored));
    assert!(w.path.is_empty());
    assert_eq!(w.how_much_completed, 1);
}

#[test]
fn only_root_entries_are_counted() {
    let mut w = Walker::new(vec![], 2);
    descend_path(w.on_entry("d".to_string(), EntryKind::Directory));
    for i in 0..5 {
        transfer_path(w.on_entry(format!("f{}", i), EntryKind::File));
    }
    assert_eq!(w.how_much_completed, 1);
    w.on_exhausted();
    transfer_path(w.on_entry("g".to_string(), EntryKind::File));
    assert_eq!(w.how_much_completed, 2);
}

#[test]
fn exclusion_lookup() {
    let w = Walker::new(names(&["a", "target"]), 0);
    assert!(w.is_excluded(&"target".to_string()));
    assert!(w.is_excluded(&"a".to_string()));
    assert!(!w.is_excluded(&"targe".to_string()));
    assert!(!w.is_excluded(&"".to_string()));
}
