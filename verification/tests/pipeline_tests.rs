use dupfinder::pipeline::{FileEntry, PathDigest};
use dupfinder::{build_index, checksum, find_duplicates};

fn entry(path: &str, content: Option<&[u8]>) -> FileEntry {
    FileEntry { path: path.to_string(), content: content.map(|c| c.to_vec()) }
}

#[test]
fn identical_contents_grouped() {
    let entries = vec![
        entry("a.txt", Some(b"hello")),
        entry("b.txt", Some(b"hello")),
        entry("c.txt", Some(b"world")),
    ];
    let (index, failures) = checksum(entries);
    assert!(failures.is_empty());
    assert_eq!(index.groups.len(), 2);
    let duplicates = find_duplicates(index);
    assert_eq!(duplicates.len(), 1);
    let group = &duplicates[0];
    assert_eq!(group.len(), 2);
    assert!(group.contains(&"a.txt".to_string()));
    assert!(group.contains(&"b.txt".to_string()));
    assert!(!group.contains(&"c.txt".to_string()));
}

#[test]
fn digest_matches_md5() {
    let entries = vec![entry("a.txt", Some(b"hello"))];
    let (index, failures) = checksum(entries);
    assert!(failures.is_empty());
    assert_eq!(index.groups.len(), 1);
    assert_eq!(index.groups[0].digest, md5::compute(b"hello").0.to_vec());
    assert_eq!(index.groups[0].paths, vec!["a.txt".to_string()]);
}

#[test]
fn empty_input_empty_index() {
    let (index, failures) = checksum(Vec::new());
    assert!(index.groups.is_empty());
    assert!(failures.is_empty());
    let duplicates = find_duplicates(index);
    assert!(duplicates.is_empty());
}

#[test]
fn zero_byte_files_group() {
    let entries = vec![entry("x", Some(b"")), entry("y", Some(b""))];
    let (index, failures) = checksum(entries);
    assert!(failures.is_empty());
    let duplicates = find_duplicates(index);
    assert_eq!(duplicates.len(), 1);
    assert_eq!(duplicates[0].len(), 2);
    assert!(duplicates[0].contains(&"x".to_string()));
    assert!(duplicates[0].contains(&"y".to_string()));
}

#[test]
fn unreadable_file_surfaced() {
    let entries = vec![
        entry("a.txt", Some(b"same")),
        entry("gone.txt", None),
        entry("b.txt", Some(b"same")),
    ];
    let (index, failures) = checksum(entries);
    assert_eq!(failures, vec!["gone.txt".to_string()]);
    let duplicates = find_duplicates(index);
    assert_eq!(duplicates.len(), 1);
    assert!(duplicates[0].contains(&"a.txt".to_string()));
    assert!(duplicates[0].contains(&"b.txt".to_string()));
    assert!(!duplicates[0].contains(&"gone.txt".to_string()));
}

#[test]
fn order_does_not_change_membership() {
    let forward = vec![
        entry("a", Some(b"dup")),
        entry("b", Some(b"dup")),
        entry("c", Some(b"one")),
    ];
    let backward = vec![
        entry("c", Some(b"one")),
        entry("b", Some(b"dup")),
        entry("a", Some(b"dup")),
    ];
    let (i1, _) = checksum(forward);
    let (i2, _) = checksum(backward);
    let d1 = find_duplicates(i1);
    let d2 = find_duplicates(i2);
    assert_eq!(d1.len(), 1);
    assert_eq!(d2.len(), 1);
    let mut g1 = d1[0].clone();
    g1.sort();
    let mut g2 = d2[0].clone();
    g2.sort();
    assert_eq!(g1, g2);
}

#[test]
fn build_index_merges_by_digest() {
    let readings = vec![
        PathDigest { path: "a".to_string(), digest: Some(vec![1, 2]) },
        PathDigest { path: "b".to_string(), digest: None },
        PathDigest { path: "c".to_string(), digest: Some(vec![1, 2]) },
        PathDigest { path: "d".to_string(), digest: Some(vec![3]) },
    ];
    let (index, failures) = build_index(readings);
    assert_eq!(failures, vec!["b".to_string()]);
    assert_eq!(index.groups.len(), 2);
    let duplicates = find_duplicates(index);
    assert_eq!(duplicates.len(), 1);
    assert!(duplicates[0].contains(&"a".to_string()));
    assert!(duplicates[0].contains(&"c".to_string()));
}

#[test]
fn different_contents_not_grouped() {
    let entries = vec![entry("a", Some(b"alpha")), entry("b", Some(b"beta"))];
    let (index, failures) = checksum(entries);
    assert!(failures.is_empty());
    assert_eq!(index.groups.len(), 2);
    let duplicates = find_duplicates(index);
    assert!(duplicates.is_empty());
}

#[test]
fn checksum_and_parallel_merge_agree() {
    let contents: Vec<(&str, &[u8])> =
        vec![("a", b"one"), ("b", b"two"), ("c", b"one"), ("d", b"two"), ("e", b"three")];
    let entries: Vec<FileEntry> = contents.iter().map(|(p, c)| entry(p, Some(c))).collect();
    let readings: Vec<PathDigest> = contents
        .iter()
        .rev()
        .map(|(p, c)| PathDigest {
            path: p.to_string(),
            digest: Some(md5::compute(c).0.to_vec()),
        })
        .collect();
    let (i1, _) = checksum(entries);
    let (i2, _) = build_index(readings);
    let mut d1: Vec<Vec<String>> = find_duplicates(i1)
        .into_iter()
        .map(|mut g| {
            g.sort();
            g
        })
        .collect();
    let mut d2: Vec<Vec<String>> = find_duplicates(i2)
        .into_iter()
        .map(|mut g| {
            g.sort();
            g
        })
        .collect();
    d1.sort();
    d2.sort();
    assert_eq!(d1, d2);
}
