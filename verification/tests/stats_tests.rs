use dupfinder::collect_statistics;
use dupfinder::stats::SizedFile;

fn sized(path: &str, size: Option<u64>) -> SizedFile {
    SizedFile { path: path.to_string(), size_bytes: size }
}

#[test]
fn full_report_marks_duplicates() {
    let files = vec![sized("a.txt", Some(5)), sized("b.txt", Some(5)), sized("c.txt", Some(5))];
    let duplicates = vec![vec!["a.txt".to_string(), "b.txt".to_string()]];
    let report = collect_statistics(files, duplicates);
    assert_eq!(report.file_rows.len(), 3);
    assert_eq!(report.file_rows[0].path, "a.txt");
    assert!(report.file_rows[0].is_duplicate);
    assert_eq!(report.file_rows[0].size_bytes, 5);
    assert_eq!(report.file_rows[1].path, "b.txt");
    assert!(report.file_rows[1].is_duplicate);
    assert_eq!(report.file_rows[2].path, "c.txt");
    assert!(!report.file_rows[2].is_duplicate);
    assert_eq!(report.group_rows.len(), 1);
    assert_eq!(report.group_rows[0].occurrence_count, 2);
    assert_eq!(report.group_rows[0].total_size_bytes, 10);
    assert_eq!(report.group_rows[0].potential_save_bytes, 5);
    assert!(report.stat_failures.is_empty());
}

#[test]
fn empty_report() {
    let report = collect_statistics(Vec::new(), Vec::new());
    assert!(report.file_rows.is_empty());
    assert!(report.group_rows.is_empty());
    assert!(report.stat_failures.is_empty());
}

#[test]
fn zero_byte_group_stats() {
    let files = vec![sized("x", Some(0)), sized("y", Some(0))];
    let duplicates = vec![vec!["x".to_string(), "y".to_string()]];
    let report = collect_statistics(files, duplicates);
    assert_eq!(report.group_rows.len(), 1);
    assert_eq!(report.group_rows[0].occurrence_count, 2);
    assert_eq!(report.group_rows[0].total_size_bytes, 0);
    assert_eq!(report.group_rows[0].potential_save_bytes, 0);
}

#[test]
fn savings_formula_three_members() {
    let files = vec![sized("a", Some(7)), sized("b", Some(7)), sized("c", Some(7))];
    let duplicates = vec![vec!["a".to_string(), "b".to_string(), "c".to_string()]];
    let report = collect_statistics(files, duplicates);
    assert_eq!(report.group_rows[0].occurrence_count, 3);
    assert_eq!(report.group_rows[0].total_size_bytes, 21);
    assert_eq!(report.group_rows[0].potential_save_bytes, 14);
}

#[test]
fn stat_failure_surfaced() {
    let files = vec![sized("a", Some(3)), sized("gone", None), sized("b", Some(4))];
    let report = collect_statistics(files, Vec::new());
    assert_eq!(report.file_rows.len(), 2);
    assert_eq!(report.file_rows[0].path, "a");
    assert_eq!(report.file_rows[1].path, "b");
    assert_eq!(report.stat_failures, vec!["gone".to_string()]);
    assert!(report.group_rows.is_empty());
}
