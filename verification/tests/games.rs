//! Games and their instances.
use linkmm::games::{Game, GameKind, GameLauncherSource, NxmEntry, UmuGameConfig};
use linkmm::table::Table;

fn umu(exe: &str, prefix: Option<&str>) -> UmuGameConfig {
    UmuGameConfig {
        exe_path: exe.to_string(),
        prefix_path: prefix.map(|p| p.to_string()),
        proton_path: None,
    }
}

fn texts(list: &[&str]) -> Vec<String> {
    list.iter().map(|s| s.to_string()).collect()
}

#[test]
fn steam_and_non_steam_instances_of_same_kind_get_distinct_ids() {
    let steam = Game::new_steam(GameKind::SkyrimSE, "/tmp/steam_skyrim".to_string());
    let nonsteam = Game::new_non_steam_umu(
        GameKind::SkyrimSE,
        "/tmp/nonsteam_skyrim".to_string(),
        umu("/tmp/nonsteam_skyrim/SkyrimSE.exe", None),
    );
    assert_ne!(steam.id, nonsteam.id);
    assert_eq!(steam.launcher_source, GameLauncherSource::Steam);
    assert_eq!(nonsteam.launcher_source, GameLauncherSource::NonSteamUmu);
}

#[test]
fn non_steam_plugins_resolution_uses_configured_prefix() {
    let target = format!(
        "/tmp/t/prefix/pfx/drive_c/users/steamuser/AppData/Local/{}",
        GameKind::SkyrimSE.local_app_data_folder()
    );
    let game = Game::new_non_steam_umu(
        GameKind::SkyrimSE,
        "/tmp/t/root".to_string(),
        umu("/tmp/t/SkyrimSE.exe", Some("/tmp/t/prefix")),
    );
    let found = game.plugins_txt_dir("/home/u/default", None, &vec![target.clone()]);
    assert_eq!(found, Some(target));
}

#[test]
fn non_steam_plugins_resolution_prefers_native_umu_layout_over_pfx() {
    let folder = GameKind::SkyrimSE.local_app_data_folder();
    let native = format!("/tmp/t/prefix/drive_c/users/steamuser/AppData/Local/{folder}");
    let pfx = format!("/tmp/t/prefix/pfx/drive_c/users/steamuser/AppData/Local/{folder}");
    let game = Game::new_non_steam_umu(
        GameKind::SkyrimSE,
        "/tmp/t/root".to_string(),
        umu("/tmp/t/SkyrimSE.exe", Some("/tmp/t/prefix")),
    );
    let found = game.plugins_txt_dir("/home/u/default", None, &vec![pfx, native.clone()]);
    assert_eq!(found, Some(native));
}

#[test]
fn plugins_txt_dir_returns_expected_path_even_when_not_yet_initialised() {
    let game = Game::new_non_steam_umu(
        GameKind::SkyrimSE,
        "/tmp/t/root".to_string(),
        umu("/tmp/t/SkyrimSE.exe", Some("/tmp/t/prefix")),
    );
    let expected = format!(
        "/tmp/t/prefix/drive_c/users/steamuser/AppData/Local/{}",
        GameKind::SkyrimSE.local_app_data_folder()
    );
    let found = game.plugins_txt_dir("/home/u/default", None, &Vec::new());
    assert_eq!(found, Some(expected.clone()));
    let path = game.plugins_txt_path("/home/u/default", None, &Vec::new());
    assert_eq!(path, Some(format!("{expected}/plugins.txt")));
}

#[test]
fn morrowind_has_no_plugins_txt() {
    assert!(!GameKind::Morrowind.has_plugins_txt());
    let game = Game::new_non_steam_umu(
        GameKind::Morrowind,
        "/tmp/morrowind".to_string(),
        umu("/tmp/morrowind/Morrowind.exe", None),
    );
    assert!(game.plugins_txt_dir("/p", None, &Vec::new()).is_none());
    assert!(game.plugins_txt_path("/p", None, &Vec::new()).is_none());
}

#[test]
fn expected_executable_names_include_script_extender_loaders() {
    let skyrim = GameKind::SkyrimSE.expected_executable_names();
    assert!(skyrim.contains(&"SkyrimSE.exe"));
    assert!(skyrim.contains(&"skse64_loader.exe"));

    let fallout4 = GameKind::Fallout4.expected_executable_names();
    assert!(fallout4.contains(&"Fallout4.exe"));
    assert!(fallout4.contains(&"f4se_loader.exe"));
}

#[test]
fn fallout_nv_alias_app_id_maps_to_same_game_kind() {
    assert_eq!(GameKind::from_steam_app_id(22380), Some(GameKind::FalloutNV));
    assert_eq!(GameKind::from_steam_app_id(22490), Some(GameKind::FalloutNV));
}

#[test]
fn primary_steam_app_id_remains_canonical_for_fallout_nv() {
    assert_eq!(GameKind::FalloutNV.primary_steam_app_id(), Some(22380));
    assert_eq!(GameKind::FalloutNV.steam_app_ids(), &[22380, 22490]);
}

#[test]
fn steam_instance_app_id_tracks_detected_instance_id() {
    let pcr = Game::new_steam_with_app_id(GameKind::FalloutNV, "/tmp/pcr".to_string(), 22490);
    assert_eq!(pcr.steam_instance_app_id(), Some(22490));
    assert_eq!(pcr.kind.primary_steam_app_id(), Some(22380));
}

#[test]
fn legacy_steam_instance_without_saved_app_id_falls_back_to_primary() {
    let mut game = Game::new_steam(GameKind::FalloutNV, "/tmp/fnv".to_string());
    game.steam_app_id = None;
    assert_eq!(game.steam_instance_app_id(), Some(22380));
}

#[test]
fn steam_app_id_is_instance_specific() {
    let steam = Game::new_steam_with_app_id(GameKind::FalloutNV, "/tmp/pcr".to_string(), 22490);
    assert_eq!(steam.steam_app_id, Some(22490));
    let other = Game::new_non_steam_umu(
        GameKind::SkyrimSE,
        "/tmp/nonsteam".to_string(),
        umu("/tmp/nonsteam/SkyrimSE.exe", None),
    );
    assert_eq!(other.steam_app_id, None);
    assert_eq!(other.steam_instance_app_id(), None);
}

#[test]
fn fallout_nv_and_pcr_instances_share_family_metadata() {
    let base = Game::new_steam_with_app_id(GameKind::FalloutNV, "/tmp/fnv".to_string(), 22380);
    let pcr = Game::new_steam_with_app_id(GameKind::FalloutNV, "/tmp/fnv_pcr".to_string(), 22490);

    assert_eq!(base.steam_instance_app_id(), Some(22380));
    assert_eq!(pcr.steam_instance_app_id(), Some(22490));
    assert_eq!(base.kind.nexus_game_id(), "newvegas");
    assert_eq!(pcr.kind.nexus_game_id(), "newvegas");
    assert_eq!(base.kind.vanilla_masters(), pcr.kind.vanilla_masters());
    assert_eq!(base.kind.expected_executable_names(), pcr.kind.expected_executable_names());
}

#[test]
fn random_ids_have_the_form_of_a_uuid() {
    let a = Game::new_steam(GameKind::SkyrimSE, "/a".to_string());
    let b = Game::new_steam(GameKind::SkyrimSE, "/a".to_string());
    assert_ne!(a.id, b.id);
    let id = a.id.strip_prefix("skyrim_se_").unwrap_or(&a.id);
    let groups: Vec<usize> = id.split('-').map(|g| g.len()).collect();
    assert_eq!(groups, vec![8, 4, 4, 4, 12]);
    assert_eq!(id.as_bytes()[14], b'4');
    assert!("89ab".contains(id.as_bytes()[19] as char));
}

#[test]
fn directories_follow_the_base_or_the_machine() {
    let mut game = Game::new(GameKind::SkyrimSE, "/games/skyrim".to_string());
    assert_eq!(game.id, "skyrim_se");
    assert_eq!(game.data_path, "/games/skyrim/Data");
    assert_eq!(
        game.mods_dir_in(Some("/home/u/.local/share".to_string())),
        "/home/u/.local/share/linkmm/mods/skyrim_se"
    );
    assert_eq!(game.mods_dir_in(None), "./linkmm/mods/skyrim_se");
    assert!(game.mods_dir().ends_with("linkmm/mods/skyrim_se"));
    game.mods_base_dir = Some("/base".to_string());
    assert_eq!(game.mods_dir_in(None), "/base/mods/skyrim_se");
    assert_eq!(game.mods_dir(), "/base/mods/skyrim_se");
    assert!(game.config_dir().contains("linkmm"));
    assert_ne!(game.config_dir_in(Some("/c".to_string())), game.config_dir_in(None));
}

#[test]
fn umu_setup_is_checked_in_order() {
    let mut game = Game::new_non_steam_umu(
        GameKind::SkyrimSE,
        "/g".to_string(),
        UmuGameConfig {
            exe_path: "/g/SkyrimSE.exe".to_string(),
            prefix_path: Some("/p".to_string()),
            proton_path: Some("/q".to_string()),
        },
    );
    let none = Vec::new();
    let files = texts(&["/g/SkyrimSE.exe"]);
    let both = texts(&["/p", "/q"]);
    let error = |r: Result<&UmuGameConfig, String>| r.map(|c| c.exe_path.clone()).unwrap_err();
    assert_eq!(
        error(game.validate_umu_setup(&none, &none, true)),
        "UMU game executable does not exist: /g/SkyrimSE.exe"
    );
    assert_eq!(
        error(game.validate_umu_setup(&files, &none, true)),
        "UMU Wine prefix path does not exist: /p"
    );
    assert_eq!(
        error(game.validate_umu_setup(&files, &texts(&["/p"]), true)),
        "UMU Proton path does not exist: /q"
    );
    assert_eq!(
        error(game.validate_umu_setup(&files, &both, false)),
        "umu-run is not installed. Install/update it in Preferences first."
    );
    assert_eq!(
        game.validate_umu_setup(&files, &both, true).unwrap().exe_path,
        "/g/SkyrimSE.exe"
    );
    game.umu_config = None;
    assert_eq!(
        error(game.validate_umu_setup(&files, &both, true)),
        "Missing UMU configuration for non-Steam game"
    );
    let steam = Game::new(GameKind::SkyrimSE, "/g".to_string());
    assert_eq!(
        error(steam.validate_umu_setup(&files, &both, true)),
        "UMU setup validation is only valid for non-Steam UMU games"
    );
}

#[test]
fn every_kind_is_listed_and_found_by_its_numbers_and_executables() {
    let all = GameKind::all();
    assert_eq!(all.len(), 10);
    for kind in &all {
        let ids = kind.steam_app_ids();
        assert_eq!(Some(ids[0]), kind.primary_steam_app_id());
        assert_eq!(kind.steam_app_id(), kind.primary_steam_app_id());
        for id in ids {
            assert_eq!(GameKind::from_steam_app_id(id), Some(*kind));
        }
        for exe in kind.expected_executable_names() {
            assert_eq!(GameKind::from_executable(exe), Some(*kind));
        }
    }
    assert_eq!(GameKind::from_steam_app_id(1), None);
    assert_eq!(GameKind::from_executable("notepad.exe"), None);
    assert_eq!(GameKind::from_executable("SKYRIMSE.EXE"), None);
}

#[test]
fn a_recorded_mod_number_is_read_back_for_its_game_only() {
    let skyrim = Game::new(GameKind::SkyrimSE, "/g".to_string());
    let fallout = Game::new(GameKind::Fallout4, "/f".to_string());
    let mut table: Table<NxmEntry> = Table::new();
    Game::write_nxm_mod_id(&mut table, "mod.zip", "skyrimspecialedition", 266);
    assert_eq!(skyrim.read_nxm_mod_id(&table, "mod.zip"), Some(266));
    assert_eq!(fallout.read_nxm_mod_id(&table, "mod.zip"), None);
    assert_eq!(skyrim.read_nxm_mod_id(&table, "other.zip"), None);
    assert!(Game::remove_nxm_mod_id(&mut table, "mod.zip"));
    assert!(!Game::remove_nxm_mod_id(&mut table, "mod.zip"));
    assert_eq!(skyrim.read_nxm_mod_id(&table, "mod.zip"), None);
}

#[test]
fn redirect_targets_have_labels() {
    let kind = GameKind::SkyrimSE;
    assert!(kind.is_phase1_steam_redirector_target());
    assert!(!GameKind::Fallout4.is_phase1_steam_redirector_target());
    let labels: Vec<&str> = kind
        .phase1_steam_launch_candidates()
        .into_iter()
        .map(|e| kind.phase1_steam_target_label(e))
        .collect();
    assert_eq!(labels, vec!["Skyrim launcher", "SkyrimSE.exe", "SKSE"]);
    assert_eq!(kind.phase1_steam_target_label("other.exe"), "Custom target");
    assert!(GameKind::Oblivion.phase1_steam_launch_candidates().is_empty());
}

#[test]
fn instances_are_labelled_by_their_launcher() {
    let steam = Game::new_steam(GameKind::SkyrimSE, "/g".to_string());
    assert_eq!(
        steam.instance_label(),
        "The Elder Scrolls V: Skyrim Special Edition (Steam)"
    );
    let other = Game::new_non_steam_umu(GameKind::Oblivion, "/g".to_string(), umu("/g/o.exe", None));
    assert!(other.instance_label().ends_with(" (Non-Steam / UMU)"));
    assert_eq!(GameKind::SkyrimSE.umu_game_id(), "umu-489830");
}
