use rust_cli::cluster::{find_duplicates, group_by_key, Cluster};
use rust_cli::error::{IoFailure, Probe, ScanError};
use rust_cli::filter::{filter_session_matched, find};
use rust_cli::fingerprint::checksum;

fn read(path: &str, bytes: &[u8]) -> Probe<Vec<u8>> {
    Probe { path: path.to_string(), outcome: Ok(bytes.to_vec()) }
}

fn members(c: &Cluster<u128>) -> Vec<String> {
    let mut v = c.files.clone();
    v.sort();
    v
}

#[test]
fn three_identical_files_and_one_other() {
    let scan = checksum(vec![
        read("a.txt", b"abc"),
        read("b.txt", b"abc"),
        read("c.txt", b"xyz"),
        read("d.txt", b"abc"),
    ]);
    assert!(scan.skipped.is_empty());
    let dups = find_duplicates(scan.clusters);
    assert_eq!(dups.len(), 1);
    assert_eq!(dups[0], vec!["a.txt".to_string(), "b.txt".to_string(), "d.txt".to_string()]);
}

#[test]
fn digest_is_md5_of_contents() {
    let scan = checksum(vec![read("a", b"abc"), read("b", b"")]);
    assert_eq!(scan.clusters.len(), 2);
    assert_eq!(scan.clusters[0].key, 0x900150983cd24fb0d6963f7d28e17f72u128);
    assert_eq!(scan.clusters[1].key, 0xd41d8cd98f00b204e9800998ecf8427eu128);
}

#[test]
fn every_path_in_exactly_one_cluster() {
    let files = vec![
        read("1", b"one"),
        read("2", b"two"),
        read("3", b"one"),
        read("4", b"three"),
        read("5", b"two"),
    ];
    let scan = checksum(files);
    let mut all: Vec<String> = scan.clusters.iter().flat_map(|c| c.files.clone()).collect();
    all.sort();
    assert_eq!(all, vec!["1", "2", "3", "4", "5"]);
    assert_eq!(scan.clusters.len(), 3);
}

#[test]
fn scanning_in_another_order_gives_same_membership() {
    let forward = checksum(vec![read("1", b"x"), read("2", b"y"), read("3", b"x")]);
    let backward = checksum(vec![read("3", b"x"), read("2", b"y"), read("1", b"x")]);
    assert_eq!(forward.clusters.len(), backward.clusters.len());
    for c in &forward.clusters {
        let other = backward.clusters.iter().find(|o| o.key == c.key).unwrap();
        assert_eq!(members(c), members(other));
    }
}

#[test]
fn same_bytes_share_a_cluster_and_different_bytes_do_not() {
    let scan = checksum(vec![read("p", b"hello"), read("q", b"hellp"), read("r", b"hello")]);
    assert_eq!(scan.clusters.len(), 2);
    assert_eq!(members(&scan.clusters[0]), vec!["p", "r"]);
    assert_eq!(members(&scan.clusters[1]), vec!["q"]);
}

#[test]
fn singletons_are_not_duplicates() {
    let scan = checksum(vec![read("a", b"1"), read("b", b"2"), read("c", b"3")]);
    assert_eq!(scan.clusters.len(), 3);
    assert!(find_duplicates(scan.clusters).is_empty());
}

#[test]
fn empty_file_set_gives_no_clusters() {
    let scan = checksum(Vec::new());
    assert!(scan.clusters.is_empty());
    assert!(scan.skipped.is_empty());
    assert!(find_duplicates(scan.clusters).is_empty());
}

#[test]
fn unreadable_file_is_skipped_and_listed() {
    let scan = checksum(vec![
        read("a", b"same"),
        Probe { path: "gone".to_string(), outcome: Err(IoFailure::NotFound) },
        read("b", b"same"),
        Probe { path: "locked".to_string(), outcome: Err(IoFailure::PermissionDenied) },
    ]);
    assert_eq!(
        scan.skipped,
        vec![
            ScanError::FileUnreadable("gone".to_string(), IoFailure::NotFound),
            ScanError::FileUnreadable("locked".to_string(), IoFailure::PermissionDenied),
        ]
    );
    let dups = find_duplicates(scan.clusters);
    assert_eq!(dups, vec![vec!["a".to_string(), "b".to_string()]]);
}

#[test]
fn grouping_keeps_first_occurrence_order() {
    let entries: Vec<(String, u128)> =
        vec![("x".to_string(), 7), ("y".to_string(), 3), ("z".to_string(), 7)];
    let clusters = group_by_key(&entries);
    assert_eq!(clusters.len(), 2);
    assert_eq!(clusters[0].key, 7);
    assert_eq!(clusters[0].files, vec!["x".to_string(), "z".to_string()]);
    assert_eq!(clusters[1].key, 3);
    assert_eq!(clusters[1].files, vec!["y".to_string()]);
}

#[test]
fn find_keeps_paths_with_the_pattern() {
    let files = vec!["a/notes.txt".to_string(), "b/image.png".to_string(), "c/t.txt".to_string()];
    assert_eq!(find(files.clone(), ".txt"), vec!["a/notes.txt".to_string(), "c/t.txt".to_string()]);
    assert_eq!(find(files.clone(), ""), files);
    assert!(find(files, "zzz").is_empty());
}

#[test]
fn session_matches_pass_through() {
    let v = vec!["a".to_string(), "b".to_string()];
    assert_eq!(filter_session_matched(v.clone()), v);
}

#[test]
fn many_distinct_digests_each_get_a_cluster() {
    let entries: Vec<(String, u128)> =
        (0..2000u128).map(|i| (format!("f{}", i), i % 500)).collect();
    let clusters = group_by_key(&entries);
    assert_eq!(clusters.len(), 500);
    for (j, c) in clusters.iter().enumerate() {
        assert_eq!(c.key, j as u128);
        assert_eq!(c.files.len(), 4);
    }
}

#[test]
fn repeated_path_is_counted_each_time() {
    let scan = checksum(vec![read("a", b"1"), read("a", b"1"), read("b", b"2")]);
    let total: usize = scan.clusters.iter().map(|c| c.files.len()).sum();
    assert_eq!(total, 3);
    assert_eq!(scan.clusters[0].files, vec!["a".to_string(), "a".to_string()]);
}
