use node_cleaner::walker::{walk_directories, EntryAction, EntryKind, FsEntry, WalkState};

fn dir(p: &str) -> FsEntry {
    FsEntry { path: String::from(p), kind: EntryKind::Dir }
}

fn file(p: &str) -> FsEntry {
    FsEntry { path: String::from(p), kind: EntryKind::File }
}

#[test]
fn walk_counts_and_registers_hits() {
    let entries = vec![
        dir("/a"),
        dir("/a/node_modules"),
        file("/a/node_modules/x.js"),
        file("/a/b.txt"),
    ];
    let s = walk_directories(&entries, false);
    assert_eq!(s.dirs_scanned(), 2);
    assert_eq!(s.node_modules_found(), 1);
    // the interior file was visited before the pending batch flushed
    assert_eq!(s.files_scanned(), 2);
    assert_eq!(s.ignored_count(), 0);
    assert_eq!(s.locations(), &vec![String::from("/a/node_modules")]);
}

#[test]
fn no_node_modules_means_empty_locations() {
    let entries = vec![
        dir("/a"),
        dir("/a/src"),
        file("/a/src/main.c"),
        file("/a/Makefile"),
    ];
    let s = walk_directories(&entries, false);
    assert!(s.locations().is_empty());
    assert_eq!(s.node_modules_found(), 0);
    assert_eq!(s.dirs_scanned(), 2);
    assert_eq!(s.files_scanned(), 2);
}

#[test]
fn walking_twice_gives_the_same_locations() {
    let entries = vec![
        dir("/a"),
        dir("/a/node_modules"),
        dir("/b"),
        dir("/b/node_modules"),
    ];
    let s1 = walk_directories(&entries, false);
    let s2 = walk_directories(&entries, false);
    let mut l1 = s1.locations().clone();
    let mut l2 = s2.locations().clone();
    l1.sort();
    l2.sort();
    assert_eq!(l1, l2);
    assert_eq!(l1.len(), 2);
}

#[test]
fn flushed_hit_prunes_its_interior() {
    let mut s = WalkState::new();
    let a = s.process_entry("/a/node_modules", true, false);
    assert_eq!(a, EntryAction::Counted);
    s.finish();
    // after the flush, nothing under the hit is counted again
    let a2 = s.process_entry("/a/node_modules/pkg/file.js", false, false);
    assert_eq!(a2, EntryAction::Skipped);
    assert_eq!(s.files_scanned(), 0);
    assert_eq!(s.dirs_scanned(), 1);
    let a3 = s.process_entry("/a/node_modules/pkg", true, false);
    assert_eq!(a3, EntryAction::Skipped);
    assert_eq!(s.dirs_scanned(), 1);
}

#[test]
fn batch_flush_happens_at_threshold() {
    let mut s = WalkState::new();
    for i in 0..20 {
        let p = format!("/d{}/node_modules", i);
        s.process_entry(&p, true, false);
    }
    // twenty hits flush without finish(); the first hit's interior is pruned
    let a = s.process_entry("/d0/node_modules/inner.js", false, false);
    assert_eq!(a, EntryAction::Skipped);
    assert_eq!(s.files_scanned(), 0);
    assert_eq!(s.locations().len(), 20);
}

#[test]
fn ignored_entries_are_pruned_not_counted() {
    let mut s = WalkState::new();
    let a = s.process_entry("/proc/1/status", false, true);
    assert_eq!(a, EntryAction::Pruned);
    let b = s.process_entry("/home/u/Projects/x", true, false);
    assert_eq!(b, EntryAction::Pruned);
    assert_eq!(s.ignored_count(), 2);
    assert_eq!(s.files_scanned(), 0);
    assert_eq!(s.dirs_scanned(), 0);
}

#[test]
fn ignoring_comes_before_skip_pruning() {
    let mut s = WalkState::new();
    s.process_entry("/data/node_modules", true, false);
    s.finish();
    // inside a registered hit AND under an excluded component: the ignore
    // tier decides first
    let a = s.process_entry("/data/node_modules/Projects/x", true, false);
    assert_eq!(a, EntryAction::Pruned);
    assert_eq!(s.ignored_count(), 1);
}

#[test]
fn full_scan_keeps_convenience_paths() {
    let mut s = WalkState::new();
    let a = s.process_entry("/home/u/Projects/x", true, true);
    assert_eq!(a, EntryAction::Counted);
    assert_eq!(s.dirs_scanned(), 1);
}
