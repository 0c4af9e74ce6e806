//! Tests of the incremental scan builder and its publication cadence.

use birdseye::model::AggregateSnapshot;
use birdseye::scan::ScanState;
use birdseye::scan::CADENCE;

#[test]
fn cadence_publishes_during_long_scans() {
    assert_eq!(CADENCE, 2000);
    let mut scan = ScanState::new("/big".to_string());
    let mut published: Vec<AggregateSnapshot> = Vec::new();
    for i in 0..5000u64 {
        let path = format!("/big/f{:05}", i);
        if let Some(snap) = scan.add_entry(path, 1, Some(i)) {
            published.push(snap);
        }
    }
    let fin = scan.finish();
    // 5000 entries at cadence 2000: at least two intermediate snapshots,
    // plus exactly one final snapshot.
    assert_eq!(published.len(), 2);
    assert_eq!(published[0].files.len(), 2000);
    assert_eq!(published[1].files.len(), 4000);
    assert_eq!(fin.files.len(), 5000);
    // Each later snapshot is a superset of the previous one.
    let mut previous: Option<&AggregateSnapshot> = None;
    for snap in published.iter().chain(std::iter::once(&fin)) {
        if let Some(prev) = previous {
            assert!(prev.files.len() <= snap.files.len());
            for (a, b) in prev.files.iter().zip(snap.files.iter()) {
                assert_eq!(a, b);
            }
        }
        previous = Some(snap);
    }
    assert_eq!(fin.combined_size, 5000);
    assert_eq!(fin.files_by_size.len(), 5000);
}

#[test]
fn no_snapshot_before_the_cadence_point() {
    let mut scan = ScanState::new("/s".to_string());
    for i in 0..100u64 {
        let r = scan.add_entry(format!("/s/f{}", i), 1, None);
        assert!(r.is_none());
    }
    assert_eq!(scan.entry_count(), 100);
    assert_eq!(scan.total_bytes(), 100);
    assert_eq!(scan.root_path(), "/s");
}

#[test]
fn fresh_scan_is_empty() {
    let scan = ScanState::new("/s".to_string());
    assert_eq!(scan.entry_count(), 0);
    assert_eq!(scan.total_bytes(), 0);
    let snap = scan.finish();
    assert_eq!(snap.combined_size, 0);
    assert!(snap.files.is_empty());
    assert_eq!(snap.tree.len(), 1);
    assert_eq!(snap.tree[0].path, "/s");
    assert_eq!(snap.tree[0].combined_size, 0);
}

#[test]
fn ancestors_are_created_once_and_linked() {
    let mut scan = ScanState::new("/r".to_string());
    let _ = scan.add_entry("/r/a/b/one".to_string(), 5, None);
    let _ = scan.add_entry("/r/a/b/two".to_string(), 6, None);
    let _ = scan.add_entry("/r/a/three".to_string(), 7, None);
    let snap = scan.finish();
    let paths: Vec<&str> = snap.tree.iter().map(|d| d.path.as_str()).collect();
    assert_eq!(paths, vec!["/r", "/r/a", "/r/a/b"]);
    let a = snap.tree.iter().find(|d| d.path == "/r/a").unwrap();
    assert_eq!(a.subdirectories, vec!["/r/a/b".to_string()]);
    assert_eq!(a.own_size, 7);
    assert_eq!(a.combined_size, 18);
    let b = snap.tree.iter().find(|d| d.path == "/r/a/b").unwrap();
    assert_eq!(b.own_size, 11);
    assert_eq!(b.files.len(), 2);
}

#[test]
fn intermediate_snapshots_are_fully_aggregated() {
    let mut scan = ScanState::new("/c".to_string());
    let mut snap: Option<AggregateSnapshot> = None;
    for i in 0..2000u64 {
        if let Some(s) = scan.add_entry(format!("/c/sub/f{:04}", i), 2, Some(i)) {
            snap = Some(s);
        }
    }
    let snap = snap.expect("a snapshot at the cadence point");
    assert_eq!(snap.combined_size, 4000);
    assert_eq!(snap.files_by_size.len(), 2000);
    assert_eq!(snap.types_by_size.len(), 1);
    assert_eq!(snap.types_by_size[0].size, 4000);
    let sub = snap.tree.iter().find(|d| d.path == "/c/sub").unwrap();
    assert_eq!(sub.combined_size, 4000);
    // The builder goes on after a publication.
    let fin = scan.finish();
    assert_eq!(fin.files.len(), 2000);
}
