//! Tests of the filter chain evaluator.

use birdseye::filter::evaluate;
use birdseye::filter::Filter;
use birdseye::model::File;

const DAY: u64 = 86400;

fn mb(n: u64) -> u64 {
    n * 1048576
}

fn mkfile(path: &str, size: u64, modified: Option<u64>) -> File {
    File { path: path.to_string(), size, modified }
}

fn names(v: &[File]) -> Vec<&str> {
    v.iter().map(|f| f.path.as_str()).collect()
}

#[test]
fn min_size_keeps_exactly_the_large_files() {
    // Candidates in size-descending scan order, as the snapshot hands them out.
    let files = vec![
        mkfile("/f/c", mb(50), Some(0)),
        mkfile("/f/b", mb(10), Some(0)),
        mkfile("/f/a", mb(1), Some(0)),
    ];
    let out = evaluate(&files, &vec![Filter::MinSize(5)], 0);
    assert_eq!(names(&out), vec!["/f/c", "/f/b"]);
}

#[test]
fn max_results_one_yields_the_first_accepted() {
    let files = vec![
        mkfile("/f/one", mb(9), Some(0)),
        mkfile("/f/two", mb(8), Some(0)),
        mkfile("/f/three", mb(7), Some(0)),
    ];
    let out = evaluate(&files, &vec![Filter::MaxResults(1)], 0);
    assert_eq!(names(&out), vec!["/f/one"]);
}

#[test]
fn min_age_passes_files_of_unknown_age() {
    let now = 1000 * DAY;
    let files = vec![mkfile("/f/unknown", mb(1), None)];
    let out = evaluate(&files, &vec![Filter::MinAge(30)], now);
    assert_eq!(names(&out), vec!["/f/unknown"]);
    // Regardless of the other filters in the chain.
    let chain = vec![Filter::MaxAge(10000), Filter::MinAge(30), Filter::MaxResults(5)];
    let out = evaluate(&files, &chain, now);
    assert_eq!(names(&out), vec!["/f/unknown"]);
}

#[test]
fn min_age_hides_newer_files_only() {
    let now = 100 * DAY;
    let files = vec![
        mkfile("/f/old", 10, Some(now - 40 * DAY)),
        mkfile("/f/new", 9, Some(now - 10 * DAY)),
        mkfile("/f/boundary", 8, Some(now - 30 * DAY)),
    ];
    let out = evaluate(&files, &vec![Filter::MinAge(30)], now);
    assert_eq!(names(&out), vec!["/f/old", "/f/boundary"]);
}

#[test]
fn max_age_hides_older_files_only() {
    let now = 100 * DAY;
    let files = vec![
        mkfile("/f/old", 10, Some(now - 40 * DAY)),
        mkfile("/f/new", 9, Some(now - 10 * DAY)),
    ];
    let out = evaluate(&files, &vec![Filter::MaxAge(30)], now);
    assert_eq!(names(&out), vec!["/f/new"]);
}

#[test]
fn future_modification_time_counts_as_unknown_age() {
    let now = 10 * DAY;
    let files = vec![mkfile("/f/future", 10, Some(now + DAY))];
    let out = evaluate(&files, &vec![Filter::MinAge(30)], now);
    assert_eq!(names(&out), vec!["/f/future"]);
    let out = evaluate(&files, &vec![Filter::MaxAge(1)], now);
    assert_eq!(names(&out), vec!["/f/future"]);
}

#[test]
fn chain_combines_with_and_semantics() {
    let now = 100 * DAY;
    let files = vec![
        mkfile("/f/big-old", mb(20), Some(now - 50 * DAY)),
        mkfile("/f/big-new", mb(20), Some(now - 1 * DAY)),
        mkfile("/f/small-old", mb(1), Some(now - 50 * DAY)),
    ];
    let chain = vec![Filter::MinSize(5), Filter::MinAge(30)];
    let out = evaluate(&files, &chain, now);
    assert_eq!(names(&out), vec!["/f/big-old"]);
}

#[test]
fn result_cap_counts_accepted_not_scanned() {
    let files = vec![
        mkfile("/f/small", mb(1), Some(0)),
        mkfile("/f/a", mb(10), Some(0)),
        mkfile("/f/b", mb(10), Some(0)),
        mkfile("/f/c", mb(10), Some(0)),
    ];
    // The cap sits first in the chain and still counts accepted files only.
    let chain = vec![Filter::MaxResults(2), Filter::MinSize(5)];
    let out = evaluate(&files, &chain, 0);
    assert_eq!(names(&out), vec!["/f/a", "/f/b"]);
}

#[test]
fn smallest_of_several_caps_wins() {
    let files = vec![
        mkfile("/f/a", 9, Some(0)),
        mkfile("/f/b", 8, Some(0)),
        mkfile("/f/c", 7, Some(0)),
    ];
    let chain = vec![Filter::MaxResults(3), Filter::MaxResults(1)];
    let out = evaluate(&files, &chain, 0);
    assert_eq!(names(&out), vec!["/f/a"]);
}

#[test]
fn cap_of_zero_yields_nothing() {
    let files = vec![mkfile("/f/a", 9, Some(0))];
    let out = evaluate(&files, &vec![Filter::MaxResults(0)], 0);
    assert!(out.is_empty());
}

#[test]
fn empty_chain_yields_everything_in_order() {
    let files = vec![
        mkfile("/f/a", 9, Some(0)),
        mkfile("/f/b", 8, Some(0)),
    ];
    let out = evaluate(&files, &vec![], 0);
    assert_eq!(names(&out), vec!["/f/a", "/f/b"]);
}
