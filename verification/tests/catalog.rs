//! Tests of the entry catalog: recomputation, rankings, extension groups,
//! and the deletion synchronizer.

use birdseye::filter::Filter;
use birdseye::model::AggregateSnapshot;
use birdseye::model::File;
use birdseye::scan::ScanState;

fn mb(n: u64) -> u64 {
    n * 1048576
}

fn mkfile(path: &str, size: u64, modified: Option<u64>) -> File {
    File { path: path.to_string(), size, modified }
}

fn scan_of(root: &str, entries: &[(&str, u64)]) -> AggregateSnapshot {
    let mut scan = ScanState::new(root.to_string());
    for (p, sz) in entries {
        let _ = scan.add_entry(p.to_string(), *sz, Some(0));
    }
    scan.finish()
}

fn dir_of<'a>(snap: &'a AggregateSnapshot, path: &str) -> &'a birdseye::model::Directory {
    snap.tree.iter().find(|d| d.path == path).expect("directory present")
}

#[test]
fn tree_sums_on_depth_three_tree() {
    let snap = scan_of(
        "/r",
        &[
            ("/r/top.txt", 1),
            ("/r/a/one.txt", 10),
            ("/r/a/b/two.txt", 100),
            ("/r/a/b/c/three.txt", 1000),
            ("/r/x/four.txt", 10000),
        ],
    );
    // Tree-sum invariant: the snapshot total is the sum of own sizes.
    let own_total: u64 = snap.tree.iter().map(|d| d.own_size).sum();
    assert_eq!(snap.combined_size, 11111);
    assert_eq!(own_total, 11111);
    // Recursive invariant at every node of a depth-three tree.
    for d in &snap.tree {
        let child_sum: u64 = d
            .subdirectories
            .iter()
            .map(|c| dir_of(&snap, c).combined_size)
            .sum();
        assert_eq!(d.combined_size, d.own_size + child_sum);
    }
    assert_eq!(dir_of(&snap, "/r").combined_size, 11111);
    assert_eq!(dir_of(&snap, "/r").own_size, 1);
    assert_eq!(dir_of(&snap, "/r/a").combined_size, 1110);
    assert_eq!(dir_of(&snap, "/r/a/b").combined_size, 1100);
    assert_eq!(dir_of(&snap, "/r/a/b/c").combined_size, 1000);
    assert_eq!(dir_of(&snap, "/r/x").combined_size, 10000);
}

#[test]
fn recompute_is_idempotent() {
    let mut snap = scan_of("/r", &[("/r/a/one.txt", 7), ("/r/two.log", 9), ("/r/a/three.txt", 9)]);
    let mut again = scan_of("/r", &[("/r/a/one.txt", 7), ("/r/two.log", 9), ("/r/a/three.txt", 9)]);
    snap.recompute();
    again.recompute();
    again.recompute();
    assert_eq!(snap, again);
}

#[test]
fn files_by_size_sorted_descending_and_stable() {
    let snap = scan_of(
        "/r",
        &[("/r/a.bin", 5), ("/r/b.bin", 9), ("/r/c.bin", 5), ("/r/d.bin", 1), ("/r/e.bin", 9)],
    );
    let order: Vec<(&str, u64)> =
        snap.files_by_size.iter().map(|f| (f.path.as_str(), f.size)).collect();
    assert_eq!(
        order,
        vec![
            ("/r/b.bin", 9),
            ("/r/e.bin", 9),
            ("/r/a.bin", 5),
            ("/r/c.bin", 5),
            ("/r/d.bin", 1),
        ]
    );
}

#[test]
fn dirs_by_size_sorted_descending() {
    let snap = scan_of(
        "/r",
        &[("/r/a/one", 10), ("/r/b/two", 200), ("/r/c/three", 30)],
    );
    let sizes: Vec<u64> = snap.dirs_by_size.iter().map(|d| d.combined_size).collect();
    assert_eq!(sizes, vec![240, 200, 30, 10]);
    assert_eq!(snap.dirs_by_size[0].path, "/r");
    assert_eq!(snap.dirs_by_size[1].path, "/r/b");
}

#[test]
fn types_by_size_groups_and_ranks_extensions() {
    let snap = scan_of(
        "/r",
        &[
            ("/r/a.txt", 5),
            ("/r/c.rs", 10),
            ("/r/sub/b.txt", 3),
            ("/r/noext", 2),
            ("/r/sub/d.txt", 1),
        ],
    );
    let summary: Vec<(&str, u64, usize)> = snap
        .types_by_size
        .iter()
        .map(|t| (t.ext.as_str(), t.size, t.files.len()))
        .collect();
    assert_eq!(summary, vec![("rs", 10, 1), ("txt", 9, 3), ("", 2, 1)]);
    // Files inside a group keep enumeration order.
    let txt: Vec<&str> = snap.types_by_size[1].files.iter().map(|f| f.path.as_str()).collect();
    assert_eq!(txt, vec!["/r/a.txt", "/r/sub/b.txt", "/r/sub/d.txt"]);
}

#[test]
fn type_ties_keep_first_occurrence_order() {
    let snap = scan_of("/r", &[("/r/a.aa", 4), ("/r/b.bb", 4), ("/r/c.cc", 4)]);
    let exts: Vec<&str> = snap.types_by_size.iter().map(|t| t.ext.as_str()).collect();
    assert_eq!(exts, vec!["aa", "bb", "cc"]);
}

#[test]
fn scan_then_delete_removes_file_and_size() {
    let mut snap = scan_of("/d", &[("/d/a", mb(10)), ("/d/b", mb(20))]);
    assert_eq!(snap.combined_size, mb(30));
    let total_before = snap.combined_size;
    snap.apply_deletion(&"/d/a".to_string());
    let names: Vec<&str> = snap.files_by_size.iter().map(|f| f.path.as_str()).collect();
    assert_eq!(names, vec!["/d/b"]);
    assert_eq!(snap.combined_size, total_before - mb(10));
    assert_eq!(snap.files.len(), 1);
}

#[test]
fn deleting_absent_path_is_a_no_op() {
    let mut snap = scan_of("/d", &[("/d/a", 10), ("/d/sub/b", 20)]);
    let before = scan_of("/d", &[("/d/a", 10), ("/d/sub/b", 20)]);
    snap.apply_deletion(&"/d/not-there".to_string());
    assert_eq!(snap, before);
}

#[test]
fn deleting_directory_removes_only_its_tree_entry() {
    let mut snap = scan_of("/d", &[("/d/a/one", 10), ("/d/a/b/two", 20), ("/d/c/three", 5)]);
    snap.apply_deletion(&"/d/a".to_string());
    // The entry at the deleted path is gone; descendants stay as orphans,
    // and no file named exactly "/d/a" existed, so sizes are unchanged.
    assert!(snap.tree.iter().all(|d| d.path != "/d/a"));
    assert!(snap.tree.iter().any(|d| d.path == "/d/a/b"));
    assert_eq!(snap.files.len(), 3);
    assert_eq!(snap.combined_size, 35);
}

#[test]
fn empty_snapshot_recomputes_to_empty() {
    let mut snap = AggregateSnapshot::new();
    snap.recompute();
    assert_eq!(snap.combined_size, 0);
    assert!(snap.files_by_size.is_empty());
    assert!(snap.dirs_by_size.is_empty());
    assert!(snap.types_by_size.is_empty());
}

#[test]
fn sorted_files_and_subdirs_of_a_directory() {
    let snap = scan_of(
        "/r",
        &[("/r/a/big", 50), ("/r/a/small", 2), ("/r/a/mid", 7), ("/r/z/one", 100), ("/r/a/b/x", 1)],
    );
    let a = dir_of(&snap, "/r/a");
    let sorted = a.sorted_files();
    let files: Vec<&str> = sorted.iter().map(|f| f.path.as_str()).collect();
    assert_eq!(files, vec!["/r/a/big", "/r/a/mid", "/r/a/small"]);
    let root = dir_of(&snap, "/r");
    let subs: Vec<(String, u64)> = root
        .sorted_subdirs(&snap)
        .iter()
        .map(|d| (d.path.clone(), d.combined_size))
        .collect();
    assert_eq!(subs, vec![("/r/z".to_string(), 100), ("/r/a".to_string(), 60)]);
}

#[test]
fn evaluate_respects_snapshot_ranking_order() {
    let snap = scan_of("/r", &[("/r/small", mb(1)), ("/r/large", mb(50)), ("/r/mid", mb(10))]);
    let chain = vec![Filter::MinSize(5)];
    let out = birdseye::filter::evaluate(&snap.files_by_size, &chain, 0);
    let names: Vec<&str> = out.iter().map(|f| f.path.as_str()).collect();
    assert_eq!(names, vec!["/r/large", "/r/mid"]);
}

#[test]
fn duplicate_preserves_files() {
    let f = mkfile("/r/x.txt", 3, Some(11));
    let g = f.duplicate();
    assert_eq!(f, g);
}
