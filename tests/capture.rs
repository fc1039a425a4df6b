use minebak::digest::hash;
use minebak::manifest::Manifest;
use minebak::save::MinecraftSave;
use minebak::tree::FileEntry;
use minebak::version::{capture, BackupOutcome, BackupType, Version};

fn file(path: &str, content: &[u8]) -> FileEntry {
    FileEntry { path: path.to_string(), content: content.to_vec() }
}

fn world() -> Vec<FileEntry> {
    vec![
        file("level.dat", b"level"),
        file("region/r.0.0.mca", b"region"),
        file("stats/player.json", b"{}"),
    ]
}

#[test]
fn first_capture_archives_every_file() {
    let files = world();
    let plan = capture(None, "1.tar.zst".to_string(), "/saves/w".to_string(), &files);
    assert_eq!(plan.outcome, BackupOutcome::Created);
    assert_eq!(plan.archived, vec![0, 1, 2]);
    assert_eq!(plan.version.backup_type, BackupType::Full);
    assert_eq!(plan.manifest.len(), 3);
    for f in &files {
        assert_eq!(plan.manifest.get(&f.path), Some(hash(&f.content)));
        assert_eq!(plan.version.file_hash.get(&f.path), Some(hash(&f.content)));
    }
}

#[test]
fn second_capture_without_changes_is_unchanged() {
    let files = world();
    let first = capture(None, "1.tar.zst".to_string(), "w".to_string(), &files);
    let second = capture(Some(&first.manifest), "2.tar.zst".to_string(), "w".to_string(), &files);
    assert_eq!(second.outcome, BackupOutcome::Unchanged);
    assert!(second.archived.is_empty());
    assert_eq!(second.version.file_hash.len(), 0);
    assert_eq!(second.manifest.len(), first.manifest.len());
    for f in &files {
        assert_eq!(second.manifest.get(&f.path), first.manifest.get(&f.path));
    }
}

#[test]
fn recapture_after_one_change_archives_that_file() {
    let mut files = world();
    let first = capture(None, "1.tar.zst".to_string(), "w".to_string(), &files);
    files[1].content = b"region, edited".to_vec();
    let second = capture(Some(&first.manifest), "2.tar.zst".to_string(), "w".to_string(), &files);
    assert_eq!(second.outcome, BackupOutcome::Created);
    assert_eq!(second.archived, vec![1]);
    assert_eq!(second.version.backup_type, BackupType::FileDelta);
    assert_eq!(second.version.file_hash.len(), 1);
    assert_eq!(second.manifest.len(), 3);
    assert_eq!(second.manifest.get(&"region/r.0.0.mca".to_string()), Some(hash(b"region, edited")));
    assert_eq!(second.manifest.get(&"level.dat".to_string()), first.manifest.get(&"level.dat".to_string()));
    assert_eq!(
        second.manifest.get(&"stats/player.json".to_string()),
        first.manifest.get(&"stats/player.json".to_string())
    );
}

#[test]
fn capture_of_new_file_adds_an_entry() {
    let mut files = world();
    let first = capture(None, "1.tar.zst".to_string(), "w".to_string(), &files);
    files.push(file("zz/new.dat", b"n"));
    let second = capture(Some(&first.manifest), "2.tar.zst".to_string(), "w".to_string(), &files);
    assert_eq!(second.outcome, BackupOutcome::Created);
    assert_eq!(second.archived, vec![3]);
    assert_eq!(second.manifest.len(), 4);
}

#[test]
fn first_capture_of_empty_tree_is_created() {
    let plan = capture(None, "1.tar.zst".to_string(), "w".to_string(), &Vec::new());
    assert_eq!(plan.outcome, BackupOutcome::Created);
    assert!(plan.archived.is_empty());
    assert_eq!(plan.manifest.len(), 0);
}

#[test]
fn save_backup_names_version_by_timestamp() {
    let save = MinecraftSave::new("inst".to_string(), "world".to_string(), "/mc/saves/world".to_string(), None);
    let plan = save.backup(None, 1700000000123, &world());
    assert_eq!(plan.version.name, "1700000000123.tar.zst");
    assert_eq!(plan.version.target, "/mc/saves/world");
}

#[test]
fn create_full_and_version_split_full_and_delta() {
    let files = world();
    let full = Version::create_full("1.tar.zst".to_string(), "w".to_string(), &files);
    assert_eq!(full.backup_type, BackupType::Full);
    assert_eq!(full.file_hash.len(), 3);
    let mut changed = world();
    changed[0].content = b"level 2".to_vec();
    let delta = Version::create_version(&full.file_hash, "2.tar.zst".to_string(), "w".to_string(), &changed);
    assert_eq!(delta.backup_type, BackupType::FileDelta);
    assert_eq!(delta.file_hash.len(), 1);
    assert_eq!(delta.file_hash.get(&"level.dat".to_string()), Some(hash(b"level 2")));
    let merged = delta.merge(&full);
    assert_eq!(merged.name, "2.tar.zst");
    assert_eq!(merged.backup_type, BackupType::Full);
    assert_eq!(merged.file_hash.len(), 3);
    assert_eq!(merged.file_hash.get(&"level.dat".to_string()), Some(hash(b"level 2")));
}

#[test]
fn manifest_from_empty_state_is_unaffected_by_restore_of_empty_version() {
    let v = Version::create_full("1.tar.zst".to_string(), "w".to_string(), &Vec::new());
    let mut state = Manifest::new();
    state.insert("a".to_string(), "h".to_string());
    let r = v.restore(&state);
    assert_eq!(r.len(), 1);
    assert_eq!(r.get(&"a".to_string()), Some("h".to_string()));
}
