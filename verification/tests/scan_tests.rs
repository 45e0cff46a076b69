use dutop::aggregate::{Aggregator, Entry};
use dutop::report::build_report;
use dutop::MIN_FILE_SIZE;

fn file(path: &str, size: u64) -> Entry {
    Entry { path: path.to_string(), size, is_file: true, is_symlink: false }
}

fn dir(path: &str) -> Entry {
    Entry { path: path.to_string(), size: 4096, is_file: false, is_symlink: false }
}

fn symlink(path: &str, size: u64) -> Entry {
    Entry { path: path.to_string(), size, is_file: true, is_symlink: true }
}

#[test]
fn total_sums_regular_files_only() {
    let entries = vec![file("a", 100), dir("d"), file("b", 200), symlink("s", 999)];
    let agg = Aggregator::scan(&entries);
    let (total, index) = agg.finalize();
    assert_eq!(total, 300);
    assert!(index.is_empty());
}

#[test]
fn total_independent_of_order() {
    let forward = vec![file("a", 10), file("b", 20), file("c", 30)];
    let backward = vec![file("c", 30), file("b", 20), file("a", 10)];
    let (t1, _) = Aggregator::scan(&forward).finalize();
    let (t2, _) = Aggregator::scan(&backward).finalize();
    assert_eq!(t1, t2);
    assert_eq!(t1, 60);
}

#[test]
fn scenario_mixed_sizes_top_two() {
    let entries = vec![
        file("small", 500 * 1024),
        file("two", 2 * 1024 * 1024),
        file("three", 3 * 1024 * 1024),
        file("five", 5 * 1024 * 1024),
    ];
    let agg = Aggregator::scan(&entries);
    let (total, index) = agg.finalize();
    assert_eq!(total, 500 * 1024 + 2 * 1024 * 1024 + 3 * 1024 * 1024 + 5 * 1024 * 1024);
    let report = build_report(total, index, 2);
    assert_eq!(report.indexed, 3);
    assert_eq!(
        report.top,
        vec![("five".to_string(), 5 * 1024 * 1024), ("three".to_string(), 3 * 1024 * 1024)]
    );
}

#[test]
fn threshold_is_strict() {
    let entries = vec![file("at", MIN_FILE_SIZE), file("above", MIN_FILE_SIZE + 1)];
    let agg = Aggregator::scan(&entries);
    let (total, index) = agg.finalize();
    assert_eq!(total, 2 * MIN_FILE_SIZE + 1);
    assert_eq!(index.len(), 1);
    assert_eq!(index[0], ("above".to_string(), MIN_FILE_SIZE + 1));
}

#[test]
fn no_small_file_in_top_list() {
    let entries = vec![file("tiny", 10), file("big", 9 * 1024 * 1024), file("mid", 1024)];
    let (total, index) = Aggregator::scan(&entries).finalize();
    let report = build_report(total, index, 10);
    for (_, size) in report.top.iter() {
        assert!(*size > MIN_FILE_SIZE);
    }
    assert_eq!(report.top.len(), 1);
}

#[test]
fn top_len_is_min_of_k_and_indexed() {
    let entries = vec![
        file("a", 2 * 1024 * 1024),
        file("b", 3 * 1024 * 1024),
        file("c", 4 * 1024 * 1024),
    ];
    let (total, index) = Aggregator::scan(&entries).finalize();
    let report = build_report(total, index, 10);
    assert_eq!(report.top.len(), 3);
    let entries2 = vec![
        file("a", 2 * 1024 * 1024),
        file("b", 3 * 1024 * 1024),
        file("c", 4 * 1024 * 1024),
    ];
    let (total2, index2) = Aggregator::scan(&entries2).finalize();
    let report2 = build_report(total2, index2, 2);
    assert_eq!(report2.top.len(), 2);
}

#[test]
fn top_list_sorted_descending() {
    let entries = vec![
        file("a", 2 * 1024 * 1024),
        file("b", 7 * 1024 * 1024),
        file("c", 4 * 1024 * 1024),
        file("d", 3 * 1024 * 1024),
    ];
    let (total, index) = Aggregator::scan(&entries).finalize();
    let report = build_report(total, index, 10);
    for pair in report.top.windows(2) {
        assert!(pair[0].1 >= pair[1].1);
    }
    assert_eq!(report.top[0].0, "b");
}

#[test]
fn scan_twice_same_result() {
    let forward = vec![
        file("a", 2 * 1024 * 1024),
        file("b", 7 * 1024 * 1024),
        file("small", 100),
        file("c", 4 * 1024 * 1024),
    ];
    let backward = vec![
        file("c", 4 * 1024 * 1024),
        file("small", 100),
        file("b", 7 * 1024 * 1024),
        file("a", 2 * 1024 * 1024),
    ];
    let (t1, i1) = Aggregator::scan(&forward).finalize();
    let (t2, i2) = Aggregator::scan(&backward).finalize();
    assert_eq!(t1, t2);
    let r1 = build_report(t1, i1, 2);
    let r2 = build_report(t2, i2, 2);
    let sizes1: Vec<u64> = r1.top.iter().map(|p| p.1).collect();
    let sizes2: Vec<u64> = r2.top.iter().map(|p| p.1).collect();
    assert_eq!(sizes1, sizes2);
    let mut paths1: Vec<String> = r1.top.iter().map(|p| p.0.clone()).collect();
    let mut paths2: Vec<String> = r2.top.iter().map(|p| p.0.clone()).collect();
    paths1.sort();
    paths2.sort();
    assert_eq!(paths1, paths2);
}

#[test]
fn empty_tree() {
    let entries: Vec<Entry> = vec![];
    let (total, index) = Aggregator::scan(&entries).finalize();
    assert_eq!(total, 0);
    let report = build_report(total, index, 10);
    assert_eq!(report.total, 0);
    assert!(report.top.is_empty());
    assert_eq!(report.indexed, 0);
}

#[test]
fn k_zero_keeps_total() {
    let entries = vec![file("a", 123), file("b", 5 * 1024 * 1024)];
    let (total, index) = Aggregator::scan(&entries).finalize();
    let report = build_report(total, index, 0);
    assert!(report.top.is_empty());
    assert_eq!(report.total, 123 + 5 * 1024 * 1024);
    assert_eq!(report.indexed, 1);
}

#[test]
fn unreadable_subtree_only_readable_counted() {
    let readable = vec![file("root/a", 50), file("root/b", 70)];
    let (total, _) = Aggregator::scan(&readable).finalize();
    assert_eq!(total, 120);
}

#[test]
fn last_write_wins_for_same_path() {
    let mut agg = Aggregator::new();
    agg.record("p".to_string(), 2 * 1024 * 1024);
    agg.record("p".to_string(), 3 * 1024 * 1024);
    let (total, index) = agg.finalize();
    assert_eq!(total, 5 * 1024 * 1024);
    assert_eq!(index, vec![("p".to_string(), 3 * 1024 * 1024)]);
}

#[test]
fn record_small_files_total_only() {
    let mut agg = Aggregator::new();
    agg.record("x".to_string(), 100);
    agg.record("y".to_string(), 1);
    assert_eq!(agg.total(), 101);
    let (total, index) = agg.finalize();
    assert_eq!(total, 101);
    assert!(index.is_empty());
}

#[test]
fn visit_skips_directories_and_symlinks() {
    let mut agg = Aggregator::new();
    agg.visit(&dir("d"));
    agg.visit(&symlink("s", 8 * 1024 * 1024));
    assert_eq!(agg.total(), 0);
    agg.visit(&file("f", 42));
    let (total, index) = agg.finalize();
    assert_eq!(total, 42);
    assert!(index.is_empty());
}
