use minebak::config::default_duration;
use minebak::lock::{lock_action, LockAction};
use minebak::sync::{manifest_key, object_key};
use minebak::save::{file_name, instance_cfg_name, MinecraftInstance, MinecraftInstanceRoot, MinecraftInstanceType, MinecraftSave, SaveDir, ScanError};

#[test]
fn backup_dir_joins_root_instance_and_save() {
    let s = MinecraftSave::new("Fabric 1.20".to_string(), "world".to_string(), "/mc/saves/world".to_string(), None);
    assert_eq!(s.backup_dir("/home/u/.minebak/backup"), "/home/u/.minebak/backup/Fabric 1.20/world");
    assert_eq!(s.description, "");
}

#[test]
fn recovery_dir_sits_beside_the_save() {
    let s = MinecraftSave::new("i".to_string(), "world".to_string(), "/mc/saves/world".to_string(), None);
    assert_eq!(s.recovery_dir(1700000000000), "/mc/saves/world-recover-1700000000000");
    let bare = MinecraftSave::new("i".to_string(), "w".to_string(), "w".to_string(), None);
    assert_eq!(bare.recovery_dir(7), "w-recover-7");
}

#[test]
fn file_name_is_last_component() {
    assert_eq!(file_name("/mc/saves/world"), "world");
    assert_eq!(file_name("world"), "world");
    assert_eq!(file_name("/mc/saves/"), "");
}

#[test]
fn search_normal_names_saves_by_directory() {
    let dirs = vec![
        SaveDir { path: "/mc/saves/alpha".to_string(), has_icon: true },
        SaveDir { path: "/mc/saves/beta".to_string(), has_icon: false },
    ];
    let inst = MinecraftInstance::search_normal("/mc".to_string(), "Vanilla".to_string(), &dirs).unwrap();
    assert_eq!(inst.name, "Vanilla");
    assert_eq!(inst.dot_minecraft, "/mc");
    assert_eq!(inst.saves.len(), 2);
    assert_eq!(inst.saves[0].name, "alpha");
    assert_eq!(inst.saves[0].instance_name, "Vanilla");
    assert_eq!(inst.saves[0].image, Some("/mc/saves/alpha/icon.png".to_string()));
    assert_eq!(inst.saves[1].name, "beta");
    assert_eq!(inst.saves[1].path, "/mc/saves/beta");
    assert_eq!(inst.saves[1].image, None);
    assert!(inst.saves.iter().all(|s| s.description.is_empty()));
}

#[test]
fn search_normal_rejects_unnamed_save_dir() {
    let dirs = vec![SaveDir { path: "/mc/saves/".to_string(), has_icon: false }];
    match MinecraftInstance::search_normal("/mc".to_string(), "V".to_string(), &dirs) {
        Err(ScanError::NoSaveName(p)) => assert_eq!(p, "/mc/saves/"),
        Ok(_) => panic!("an error was expected"),
    }
}

#[test]
fn root_layout_follows_flags() {
    let none: Vec<SaveDir> = Vec::new();
    let r = MinecraftInstanceRoot::new("m".to_string(), "/m".to_string(), true, true, &none, Vec::new()).unwrap();
    assert_eq!(r.layout(), MinecraftInstanceType::MultiMC);
    assert!(r.instances.is_empty());
    let r = MinecraftInstanceRoot::new("v".to_string(), "/v".to_string(), false, true, &none, Vec::new()).unwrap();
    assert_eq!(r.layout(), MinecraftInstanceType::VersionIsolated);
}

#[test]
fn plain_root_holds_one_instance_named_after_it() {
    let dirs = vec![SaveDir { path: "/n/saves/w".to_string(), has_icon: false }];
    let r = MinecraftInstanceRoot::new("Vanilla".to_string(), "/n".to_string(), false, false, &dirs, Vec::new()).unwrap();
    assert_eq!(r.layout(), MinecraftInstanceType::Normal);
    assert_eq!(r.instances.len(), 1);
    assert_eq!(r.instances[0].name, "Vanilla");
    assert_eq!(r.instances[0].dot_minecraft, "/n");
    assert_eq!(r.instances[0].saves.len(), 1);
    assert_eq!(r.instances[0].saves[0].name, "w");
    assert_eq!(r.instances[0].saves[0].instance_name, "Vanilla");
}

#[test]
fn plain_root_rejects_unnamed_save_dir() {
    let dirs = vec![SaveDir { path: "/n/saves/".to_string(), has_icon: false }];
    match MinecraftInstanceRoot::new("n".to_string(), "/n".to_string(), false, false, &dirs, Vec::new()) {
        Err(ScanError::NoSaveName(p)) => assert_eq!(p, "/n/saves/"),
        Ok(_) => panic!("an error was expected"),
    }
}

#[test]
fn rescan_replaces_instances() {
    let none: Vec<SaveDir> = Vec::new();
    let mut r = MinecraftInstanceRoot::new("n".to_string(), "/n".to_string(), false, false, &none, Vec::new()).unwrap();
    assert_eq!(r.instances[0].saves.len(), 0);
    let dirs = vec![
        SaveDir { path: "/n/saves/a".to_string(), has_icon: false },
        SaveDir { path: "/n/saves/b".to_string(), has_icon: true },
    ];
    r.rescan(&dirs, Vec::new()).unwrap();
    assert_eq!(r.instances.len(), 1);
    assert_eq!(r.instances[0].saves.len(), 2);
    assert!(!r.multimc && !r.version_isolated);
    let bad = vec![SaveDir { path: "/".to_string(), has_icon: false }];
    assert!(r.rescan(&bad, Vec::new()).is_err());
    assert_eq!(r.instances[0].saves.len(), 2);

    let mut m = MinecraftInstanceRoot::new("m".to_string(), "/m".to_string(), true, false, &none, Vec::new()).unwrap();
    let inst = MinecraftInstance::search_normal("/m/a/.minecraft".to_string(), "a".to_string(), &none).unwrap();
    m.rescan(&none, vec![inst]).unwrap();
    assert_eq!(m.instances.len(), 1);
    assert_eq!(m.instances[0].name, "a");
    assert!(m.multimc);
}

#[test]
fn object_and_manifest_keys() {
    assert_eq!(object_key("minebak/backup", "ab12"), "minebak/backup/ab12");
    assert_eq!(manifest_key("minebak/backup"), "minebak/backup/hash.ron");
}

#[test]
fn default_duration_is_one_hour() {
    assert_eq!(default_duration(), 3600);
}

#[test]
fn lock_actions() {
    assert_eq!(lock_action(true, 0, None), LockAction::Enter);
    assert_eq!(lock_action(true, 100, Some(10)), LockAction::Enter);
    assert_eq!(lock_action(false, 0, None), LockAction::Wait);
    assert_eq!(lock_action(false, 5, Some(10)), LockAction::Wait);
    assert_eq!(lock_action(false, 10, Some(10)), LockAction::GiveUp);
}

#[test]
fn instance_cfg_name_takes_last_name_setting() {
    let lines: Vec<String> = ["InstanceType=OneSix", "name=Old", "iconKey=default", "name=Fabric Pack", "notes=a name"]
        .iter()
        .map(|s| s.to_string())
        .collect();
    assert_eq!(instance_cfg_name(&lines), "Fabric Pack");
    let none: Vec<String> = vec!["InstanceType=OneSix".to_string(), "nam".to_string()];
    assert_eq!(instance_cfg_name(&none), "");
    assert_eq!(instance_cfg_name(&vec!["name=".to_string()]), "");
}
