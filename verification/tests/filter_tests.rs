use dupfinder::{contains_pattern, find};

#[test]
fn find_keeps_matching_paths() {
    let files = vec![
        "src/a.rs".to_string(),
        "doc/b.md".to_string(),
        "src/c.rs".to_string(),
    ];
    let matches = find(files, ".rs");
    assert_eq!(matches, vec!["src/a.rs".to_string(), "src/c.rs".to_string()]);
}

#[test]
fn find_empty_pattern_keeps_all() {
    let files = vec!["a".to_string(), "b".to_string()];
    let matches = find(files.clone(), "");
    assert_eq!(matches, files);
}

#[test]
fn find_no_match_keeps_none() {
    let files = vec!["a.txt".to_string(), "b.txt".to_string()];
    let matches = find(files, "zzz");
    assert!(matches.is_empty());
}

#[test]
fn contains_pattern_cases() {
    assert!(contains_pattern("hello world", "lo w"));
    assert!(contains_pattern("hello", "hello"));
    assert!(contains_pattern("abc", ""));
    assert!(!contains_pattern("hello", "world"));
    assert!(!contains_pattern("ab", "abc"));
    assert!(contains_pattern("ababc", "abc"));
}
