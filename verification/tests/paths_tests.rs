use pvz_manager::paths::{
    backup_file_name, backup_file_path_in, game_file_name, get_backup_file_path, get_game_file_path,
    get_manager_file_path, get_save_path, manager_file_path_in, save_path_in, USERDATA_PATH,
};
use std::path::PathBuf;

#[test]
fn file_names_follow_the_pattern() {
    assert_eq!(game_file_name(1, 2), "game1_2.dat");
    assert_eq!(game_file_name(0, 13), "game0_13.dat");
    assert_eq!(backup_file_name(1, 2, 3), "game1_2backup3.dat");
    assert_eq!(backup_file_name(12, 0, 4294967295), "game12_0backup4294967295.dat");
}

#[test]
fn game_file_path_is_in_the_game_directory() {
    let p = get_game_file_path(1, 2);
    assert_eq!(p, PathBuf::from(USERDATA_PATH).join("game1_2.dat"));
    assert_eq!(p.file_name().unwrap(), "game1_2.dat");
}

#[test]
fn save_path_falls_back_to_the_current_directory() {
    assert_eq!(save_path_in(None), PathBuf::from(".").join("PVZ-manager"));
    assert_eq!(save_path_in(Some(PathBuf::from("/data"))), PathBuf::from("/data/PVZ-manager"));
}

#[test]
fn save_path_ends_with_the_manager_directory() {
    let p = get_save_path();
    assert_eq!(p.file_name().unwrap(), "PVZ-manager");
}

#[test]
fn backup_paths_are_in_the_manager_directory() {
    let dir = PathBuf::from("/data/PVZ-manager");
    assert_eq!(backup_file_path_in(&dir, 1, 2, 3), PathBuf::from("/data/PVZ-manager/game1_2backup3.dat"));
    let p = get_backup_file_path(1, 2, 3);
    assert_eq!(p, get_save_path().join("game1_2backup3.dat"));
    assert_ne!(get_backup_file_path(1, 2, 3), get_backup_file_path(1, 2, 4));
}

#[test]
fn manager_file_is_manager_json() {
    let dir = PathBuf::from("/data/PVZ-manager");
    assert_eq!(manager_file_path_in(&dir), PathBuf::from("/data/PVZ-manager/manager.json"));
    assert_eq!(get_manager_file_path(), get_save_path().join("manager.json"));
}

#[test]
fn different_saves_have_different_files() {
    assert_ne!(game_file_name(1, 23), game_file_name(12, 3));
    assert_ne!(backup_file_name(1, 2, 34), backup_file_name(1, 23, 4));
    assert_ne!(get_game_file_path(1, 2), get_game_file_path(2, 1));
}

#[test]
fn a_save_file_is_never_named_like_a_backup() {
    assert_ne!(game_file_name(1, 2), backup_file_name(1, 2, 0));
    assert_ne!(game_file_name(1, 20), backup_file_name(1, 2, 0));
    assert!(!game_file_name(7, 8).contains("backup"));
    assert!(backup_file_name(7, 8, 9).starts_with("game7_8backup"));
}
