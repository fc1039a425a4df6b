use minebak::digest::hash;
use minebak::manifest::Manifest;
use minebak::tree::{diff, snapshot, FileEntry};

fn file(path: &str, content: &[u8]) -> FileEntry {
    FileEntry { path: path.to_string(), content: content.to_vec() }
}

#[test]
fn hash_of_abc_is_sha256_hex() {
    assert_eq!(
        hash(b"abc"),
        "ba7816bf8f01cfea414140de5dae2223b00361a396177a9cb410ff61f20015ad"
    );
}

#[test]
fn hash_of_empty_input() {
    assert_eq!(
        hash(b""),
        "e3b0c44298fc1c149afbf4c8996fb92427ae41e4649b934ca495991b7852b855"
    );
}

#[test]
fn manifest_insert_replaces_and_counts() {
    let mut m = Manifest::new();
    assert_eq!(m.len(), 0);
    m.insert("a".to_string(), "h1".to_string());
    m.insert("b".to_string(), "h2".to_string());
    m.insert("a".to_string(), "h3".to_string());
    assert_eq!(m.len(), 2);
    assert_eq!(m.get(&"a".to_string()), Some("h3".to_string()));
    assert_eq!(m.get(&"b".to_string()), Some("h2".to_string()));
    assert_eq!(m.get(&"c".to_string()), None);
    assert!(m.contains_hash(&"h2".to_string()));
    assert!(!m.contains_hash(&"h1".to_string()));
    let d = m.duplicate();
    assert_eq!(d.len(), 2);
    assert_eq!(d.get(&"a".to_string()), Some("h3".to_string()));
}

#[test]
fn snapshot_maps_each_path_to_its_hash() {
    let files = vec![file("level.dat", b"abc"), file("region/r.0.0.mca", b"")];
    let m = snapshot(&files);
    assert_eq!(m.len(), 2);
    assert_eq!(m.get(&"level.dat".to_string()), Some(hash(b"abc")));
    assert_eq!(m.get(&"region/r.0.0.mca".to_string()), Some(hash(b"")));
}

#[test]
fn diff_reports_new_and_changed_files_only() {
    let mut m = Manifest::new();
    m.insert("same".to_string(), hash(b"1"));
    m.insert("changed".to_string(), hash(b"old"));
    m.insert("gone".to_string(), hash(b"x"));
    let files = vec![file("changed", b"new"), file("fresh", b"f"), file("same", b"1")];
    let d = diff(&files, &m);
    assert_eq!(d.len(), 2);
    assert_eq!(d[0].path, "changed");
    assert!(d[0].conflict);
    assert_eq!(d[0].old_hash, Some(hash(b"old")));
    assert_eq!(d[0].new_hash, hash(b"new"));
    assert_eq!(d[1].path, "fresh");
    assert!(!d[1].conflict);
    assert_eq!(d[1].old_hash, None);
    assert_eq!(d[1].new_hash, hash(b"f"));
}

#[test]
fn diff_against_empty_manifest_lists_every_file() {
    let files = vec![file("a", b"1"), file("b", b"2")];
    let d = diff(&files, &Manifest::new());
    assert_eq!(d.len(), 2);
    assert!(d.iter().all(|e| !e.conflict && e.old_hash.is_none()));
}

#[test]
fn content_hash_is_64_lowercase_hex_digits() {
    for data in [&b""[..], &b"abc"[..], &[0u8; 1000][..]] {
        let h = hash(data);
        assert_eq!(h.len(), 64);
        assert!(h.chars().all(|c| c.is_ascii_digit() || ('a'..='f').contains(&c)));
    }
}
