//! The program's configuration.
use linkmm::config::{default_active_profile_id_vec, AppConfig, GameSettings, Profile};
use linkmm::games::{Game, GameKind};

fn with_dir(dir: &str) -> GameSettings {
    GameSettings { app_data_dir: Some(dir.to_string()), ..GameSettings::default() }
}

#[test]
fn downloads_dir_appends_managed_game_subdirectory() {
    let mut cfg = AppConfig::default();
    cfg.game_settings.insert("skyrim_se", with_dir("/tmp/linkmm"));
    assert_eq!(cfg.downloads_dir(Some("skyrim_se")), "/tmp/linkmm/downloads/skyrim_se");
}

#[test]
fn downloads_dir_without_game_returns_base_downloads_path() {
    let mut cfg = AppConfig::default();
    cfg.game_settings.insert("skyrim_se", with_dir("/tmp/linkmm"));
    let base = dirs::data_local_dir()
        .unwrap_or_else(|| std::path::PathBuf::from("."))
        .join("linkmm")
        .join("downloads");
    let base = base.to_str().unwrap();
    assert_eq!(cfg.downloads_dir(None), base);
    assert_eq!(cfg.downloads_dir(Some("   ")), base);
}

#[test]
fn migrate_legacy_global_settings_populates_per_game() {
    let mut cfg = AppConfig {
        games: vec![Game::new(GameKind::SkyrimSE, "/games/skyrim".to_string())],
        app_data_dir: Some("/data/linkmm".to_string()),
        installed_archives: vec!["mod.zip".to_string()],
        profiles: vec![Profile::default_profile()],
        active_profile_id: "default".to_string(),
        ..AppConfig::default()
    };
    cfg.migrate_legacy_global_settings();
    let gs = cfg.game_settings.get("skyrim_se").unwrap();
    assert_eq!(gs.app_data_dir, Some("/data/linkmm".to_string()));
    assert_eq!(gs.installed_archives, vec!["mod.zip"]);
}

#[test]
fn migrate_legacy_does_not_overwrite_existing_game_settings() {
    let mut cfg = AppConfig {
        games: vec![Game::new(GameKind::SkyrimSE, "/games/skyrim".to_string())],
        app_data_dir: Some("/old/data".to_string()),
        ..AppConfig::default()
    };
    cfg.game_settings.insert("skyrim_se", with_dir("/new/data"));
    cfg.migrate_legacy_global_settings();
    assert_eq!(
        cfg.game_settings.get("skyrim_se").unwrap().app_data_dir,
        Some("/new/data".to_string())
    );
}

#[test]
fn migration_gives_every_game_the_shared_settings() {
    let mut cfg = AppConfig {
        games: vec![
            Game::new(GameKind::SkyrimSE, "/a".to_string()),
            Game::new(GameKind::Fallout4, "/b".to_string()),
        ],
        app_data_dir: Some("/data".to_string()),
        ..AppConfig::default()
    };
    cfg.migrate_legacy_global_settings();
    for id in ["skyrim_se", "fallout4"] {
        assert_eq!(
            cfg.game_settings_ref(id).unwrap().app_data_dir.as_deref(),
            Some("/data")
        );
    }
    assert!(cfg.game_settings_ref("oblivion").is_none());
}

#[test]
fn a_missing_configuration_is_the_default_one() {
    let cfg = AppConfig::load_or_default(None);
    assert_eq!(cfg.version, 1);
    assert!(cfg.first_run);
    assert!(cfg.games.is_empty());
    assert!(cfg.current_game().is_none());
    assert_eq!(cfg.active_profile_id, "default");
}

#[test]
fn settings_are_made_where_they_are_missing() {
    let mut cfg = AppConfig::default();
    cfg.game_settings_mut("g").steam_redirect_exe = Some("x.exe".to_string());
    assert_eq!(
        cfg.game_settings_ref("g").unwrap().steam_redirect_exe.as_deref(),
        Some("x.exe")
    );
    assert_eq!(cfg.game_settings_ref("g").unwrap().active_profile_id, "default");
}

#[test]
fn the_current_game_and_its_directories() {
    let mut cfg = AppConfig {
        games: vec![
            Game::new(GameKind::SkyrimSE, "/a".to_string()),
            Game::new(GameKind::Fallout4, "/b".to_string()),
        ],
        current_game_id: Some("fallout4".to_string()),
        ..AppConfig::default()
    };
    assert_eq!(cfg.current_game().unwrap().root_path, "/b");
    cfg.game_settings.insert("fallout4", with_dir("/mods"));
    cfg.apply_mods_base_dirs();
    assert_eq!(cfg.games[0].mods_base_dir, None);
    assert_eq!(cfg.games[1].mods_base_dir.as_deref(), Some("/mods"));
    cfg.current_game_id = Some("none".to_string());
    assert!(cfg.current_game().is_none());
}

#[test]
fn the_configuration_lies_below_the_configuration_directory() {
    assert_eq!(AppConfig::config_path_in(Some("/c".to_string())), "/c/linkmm/config.json");
    assert_eq!(AppConfig::config_path_in(None), "./linkmm/config.json");
    let expected = dirs::config_dir()
        .unwrap_or_else(|| std::path::PathBuf::from("."))
        .join("linkmm")
        .join("config.json");
    assert_eq!(AppConfig::config_path(), expected.to_str().unwrap());
}

#[test]
fn profiles_are_named_by_slug_and_time() {
    let p = Profile::new("My Profile!", 1234);
    assert_eq!(p.name, "My Profile!");
    assert!(p.id.starts_with("my"));
    assert!(p.id.ends_with("1234"));
    assert_eq!(Profile::default_profile().id, "default");
}

#[test]
fn the_first_profiles_are_the_default_one() {
    let profiles = default_active_profile_id_vec();
    assert_eq!(profiles.len(), 1);
    assert_eq!(profiles[0].id, "default");
}
