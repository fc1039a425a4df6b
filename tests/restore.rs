use minebak::manifest::Manifest;
use minebak::naming::{archive_name, parse_archive_name};
use minebak::restore::versions_to_restore;
use minebak::tree::{snapshot, FileEntry};
use minebak::version::capture;

fn file(path: &str, content: &[u8]) -> FileEntry {
    FileEntry { path: path.to_string(), content: content.to_vec() }
}

#[test]
fn archive_name_is_timestamp_with_suffix() {
    assert_eq!(archive_name(1700000000000), "1700000000000.tar.zst");
    assert_eq!(archive_name(0), "0.tar.zst");
    assert_eq!(archive_name(9), "9.tar.zst");
    assert_eq!(archive_name(10), "10.tar.zst");
    assert_eq!(archive_name(u64::MAX), "18446744073709551615.tar.zst");
}

#[test]
fn parse_archive_name_reads_canonical_names_only() {
    assert_eq!(parse_archive_name("1700000000000.tar.zst"), Some(1700000000000));
    assert_eq!(parse_archive_name("0.tar.zst"), Some(0));
    assert_eq!(parse_archive_name("18446744073709551615.tar.zst"), Some(u64::MAX));
    assert_eq!(parse_archive_name("18446744073709551616.tar.zst"), None);
    assert_eq!(parse_archive_name("0123.tar.zst"), None);
    assert_eq!(parse_archive_name("12a.tar.zst"), None);
    assert_eq!(parse_archive_name(".tar.zst"), None);
    assert_eq!(parse_archive_name("12.tar"), None);
    assert_eq!(parse_archive_name("12.tar.gz"), None);
    assert_eq!(parse_archive_name("last_hash.ron"), None);
}

#[test]
fn versions_to_restore_sorts_and_stops_at_target_inclusive() {
    let names: Vec<String> = ["300.tar.zst", "last_hash.ron", "1000.tar.zst", "20.tar.zst", "999.tar.zst", "x.tar.zst"]
        .iter()
        .map(|s| s.to_string())
        .collect();
    assert_eq!(versions_to_restore(&names, 999), vec![20, 300, 999]);
    assert_eq!(versions_to_restore(&names, 998), vec![20, 300]);
    assert_eq!(versions_to_restore(&names, u64::MAX), vec![20, 300, 999, 1000]);
    assert_eq!(versions_to_restore(&names, 5), Vec::<u64>::new());
}

#[test]
fn versions_to_restore_lists_a_timestamp_once() {
    let names = vec!["5.tar.zst".to_string(), "5.tar.zst".to_string(), "3.tar.zst".to_string()];
    assert_eq!(versions_to_restore(&names, 10), vec![3, 5]);
}

#[test]
fn replaying_captured_versions_reconstructs_the_tree() {
    let t1 = vec![file("a", b"1"), file("b", b"2")];
    let t2 = vec![file("a", b"1"), file("b", b"22"), file("c", b"3")];
    let t3 = vec![file("a", b"111"), file("b", b"22"), file("c", b"3")];
    let c1 = capture(None, "1.tar.zst".to_string(), "w".to_string(), &t1);
    let c2 = capture(Some(&c1.manifest), "2.tar.zst".to_string(), "w".to_string(), &t2);
    let c3 = capture(Some(&c2.manifest), "3.tar.zst".to_string(), "w".to_string(), &t3);
    let mut state = Manifest::new();
    for v in [&c1.version, &c2.version, &c3.version] {
        state = v.restore(&state);
    }
    let expected = snapshot(&t3);
    assert_eq!(state.len(), expected.len());
    for f in &t3 {
        assert_eq!(state.get(&f.path), expected.get(&f.path));
    }
    let mut partial = Manifest::new();
    for v in [&c1.version, &c2.version] {
        partial = v.restore(&partial);
    }
    let expected2 = snapshot(&t2);
    for f in &t2 {
        assert_eq!(partial.get(&f.path), expected2.get(&f.path));
    }
}
