use minebak::digest::hash;
use minebak::manifest::Manifest;
use minebak::sync::{plan_pull, plan_push, SyncError};
use minebak::tree::FileEntry;

fn file(path: &str, content: &[u8]) -> FileEntry {
    FileEntry { path: path.to_string(), content: content.to_vec() }
}

fn manifest(entries: &[(&str, String)]) -> Manifest {
    let mut m = Manifest::new();
    for (p, h) in entries {
        m.insert(p.to_string(), h.clone());
    }
    m
}

#[test]
fn pull_stops_on_conflict_without_force() {
    let local = vec![file("a", b"local")];
    let remote = manifest(&[("a", hash(b"remote"))]);
    match plan_pull(&local, &remote, false, false) {
        Err(SyncError::Conflict(p)) => assert_eq!(p, "a"),
        Ok(_) => panic!("a conflict was expected"),
    }
}

#[test]
fn forced_pull_removes_conflicting_file_and_fetches_remote() {
    let local = vec![file("a", b"local")];
    let remote = manifest(&[("a", hash(b"remote"))]);
    let plan = plan_pull(&local, &remote, true, false).unwrap();
    assert_eq!(plan.remove, vec!["a".to_string()]);
    assert_eq!(plan.fetch.len(), 1);
    assert_eq!(plan.fetch[0].path, "a");
    assert_eq!(plan.fetch[0].hash, hash(b"remote"));
}

#[test]
fn pull_skipping_conflicts_keeps_local_file() {
    let local = vec![file("a", b"local")];
    let remote = manifest(&[("a", hash(b"remote")), ("b", hash(b"bee"))]);
    let plan = plan_pull(&local, &remote, false, true).unwrap();
    assert!(plan.remove.is_empty());
    assert_eq!(plan.fetch.len(), 1);
    assert_eq!(plan.fetch[0].path, "b");
}

#[test]
fn pull_fetches_only_missing_paths() {
    let local = vec![file("a", b"same"), file("new_local", b"n")];
    let remote = manifest(&[("a", hash(b"same")), ("b", hash(b"bee")), ("c/d", hash(b"dee"))]);
    let plan = plan_pull(&local, &remote, false, false).unwrap();
    assert!(plan.remove.is_empty());
    let fetched: Vec<&str> = plan.fetch.iter().map(|e| e.path.as_str()).collect();
    assert_eq!(fetched, vec!["b", "c/d"]);
}

#[test]
fn push_stops_on_first_conflict_without_force() {
    let local = vec![file("a", b"one"), file("b", b"two")];
    let remote = manifest(&[("a", hash(b"uno")), ("b", hash(b"dos"))]);
    match plan_push(&local, &remote, false, false) {
        Err(SyncError::Conflict(p)) => assert_eq!(p, "a"),
        Ok(_) => panic!("a conflict was expected"),
    }
}

#[test]
fn push_of_identical_content_uploads_once() {
    let local = vec![file("x/one", b"same bytes"), file("y/two", b"same bytes")];
    let remote = Manifest::new();
    let plan = plan_push(&local, &remote, false, false).unwrap();
    assert_eq!(plan.upload.len(), 1);
    assert_eq!(plan.upload[0].hash, hash(b"same bytes"));
    assert_eq!(plan.manifest.get(&"x/one".to_string()), Some(hash(b"same bytes")));
    assert_eq!(plan.manifest.get(&"y/two".to_string()), Some(hash(b"same bytes")));
    assert!(plan.delete.is_empty());
}

#[test]
fn forced_push_replaces_and_deletes_stale_object() {
    let local = vec![file("a", b"new")];
    let remote = manifest(&[("a", hash(b"old")), ("b", hash(b"bee"))]);
    let plan = plan_push(&local, &remote, true, false).unwrap();
    assert_eq!(plan.delete, vec![hash(b"old")]);
    assert_eq!(plan.upload.len(), 1);
    assert_eq!(plan.upload[0].path, "a");
    assert_eq!(plan.upload[0].hash, hash(b"new"));
    assert_eq!(plan.manifest.len(), 2);
    assert_eq!(plan.manifest.get(&"a".to_string()), Some(hash(b"new")));
    assert_eq!(plan.manifest.get(&"b".to_string()), Some(hash(b"bee")));
}

#[test]
fn push_keeps_object_still_referenced() {
    let local = vec![file("a", b"new"), file("b", b"old")];
    let remote = manifest(&[("a", hash(b"old")), ("b", hash(b"old"))]);
    let plan = plan_push(&local, &remote, true, false).unwrap();
    assert!(plan.delete.is_empty());
    assert_eq!(plan.upload.len(), 1);
}

#[test]
fn push_does_not_upload_content_the_remote_holds() {
    let local = vec![file("copy", b"bee")];
    let remote = manifest(&[("b", hash(b"bee"))]);
    let plan = plan_push(&local, &remote, false, false).unwrap();
    assert!(plan.upload.is_empty());
    assert_eq!(plan.manifest.get(&"copy".to_string()), Some(hash(b"bee")));
}

#[test]
fn push_skipping_conflicts_publishes_new_files_only() {
    let local = vec![file("a", b"changed"), file("n", b"new")];
    let remote = manifest(&[("a", hash(b"orig"))]);
    let plan = plan_push(&local, &remote, false, true).unwrap();
    assert_eq!(plan.upload.len(), 1);
    assert_eq!(plan.upload[0].path, "n");
    assert_eq!(plan.manifest.get(&"a".to_string()), Some(hash(b"orig")));
    assert_eq!(plan.manifest.get(&"n".to_string()), Some(hash(b"new")));
}

#[test]
fn push_of_unchanged_tree_changes_nothing() {
    let local = vec![file("a", b"x")];
    let remote = manifest(&[("a", hash(b"x"))]);
    let plan = plan_push(&local, &remote, false, false).unwrap();
    assert!(plan.upload.is_empty());
    assert!(plan.delete.is_empty());
    assert_eq!(plan.manifest.len(), 1);
}
