//! Steam, Proton, and the commands that launch games and tools.
use linkmm::games::{Game, GameKind};
use linkmm::launch::{
    build_flatpak_tool_command, build_native_tool_command, launch_game,
    launch_game_managed_command, launch_game_managed_flatpak_command,
    launch_game_managed_native_command, select_managed_steam_backend, shell_quote_value,
    split_launch_arguments, ManagedSteamBackend, ToolLaunch,
};
use linkmm::steam::{
    build_tool_command, collect_app_ids, detect_games, find_proton_directories,
    find_proton_directories_in, find_compatdata_path, find_game_path, find_proton_by_name,
    find_proton_for_game, find_steam_libraries, find_steam_root, find_steam_root_in, is_path_in_flatpak,
    is_steam_flatpak, normalize_proton_name, parse_per_game_proton_config,
    steam_config_candidates, steam_config_candidates_in, steam_root_candidates,
    steam_root_candidates_in, tools_match_version, ProtonFacts,
    ToolDirectory, ToolEntry, ToolRequest,
};
use linkmm::vdf::{
    parse_acf_install_dir, parse_compat_tool_mapping, parse_library_folders_vdf,
    parse_vdf_key_value,
};

fn texts(list: &[&str]) -> Vec<String> {
    list.iter().map(|s| s.to_string()).collect()
}

#[test]
fn launch_game_fails_without_steam_app_id() {
    let game = Game::new_steam(GameKind::SkyrimSE, "/fake".to_string());
    let command = launch_game(&game).unwrap();
    assert_eq!(command.program, "xdg-open");
    assert_eq!(command.args, vec!["steam://run/489830"]);
}

#[test]
fn is_steam_flatpak_detects_flatpak_path() {
    assert!(is_steam_flatpak(Some("/home/u/.var/app/com.valvesoftware.Steam/.steam/steam")));
    assert!(!is_steam_flatpak(Some("/home/u/.local/share/Steam")));
    assert!(!is_steam_flatpak(None));
}

#[test]
fn is_path_in_flatpak_detects_flatpak_paths() {
    assert!(is_path_in_flatpak(
        "/home/user/.var/app/com.valvesoftware.Steam/.steam/steam/compatibilitytools.d/GE-Proton10-34"
    ));
    assert!(is_path_in_flatpak(
        "/home/user/.var/app/com.valvesoftware.Steam/data/steamapps/compatdata/489830"
    ));
    assert!(!is_path_in_flatpak(
        "/home/user/.local/share/Steam/steamapps/common/Proton 8.0"
    ));
    assert!(!is_path_in_flatpak("/mnt/data0/.steamlib/steamapps/compatdata/489830"));
}

#[test]
fn managed_backend_selection_prefers_flatpak_when_detected() {
    assert_eq!(select_managed_steam_backend(true, true), ManagedSteamBackend::Flatpak);
    assert_eq!(select_managed_steam_backend(true, false), ManagedSteamBackend::Flatpak);
}

#[test]
fn managed_backend_selection_uses_native_when_available() {
    assert_eq!(select_managed_steam_backend(false, true), ManagedSteamBackend::Native);
}

#[test]
fn managed_backend_selection_uses_xdg_open_only_as_last_resort() {
    assert_eq!(
        select_managed_steam_backend(false, false),
        ManagedSteamBackend::XdgOpenFallback
    );
}

#[test]
fn flatpak_managed_game_command_uses_flatpak_run_applaunch() {
    let command = launch_game_managed_flatpak_command(489830);
    assert_eq!(command.program, "flatpak");
    assert_eq!(
        command.args,
        vec!["run", "com.valvesoftware.Steam", "-applaunch", "489830"]
    );
}

#[test]
fn native_managed_game_command_uses_steam_applaunch() {
    let command = launch_game_managed_native_command(489830);
    assert_eq!(command.program, "steam");
    assert_eq!(command.args, vec!["-applaunch", "489830"]);
}

#[test]
fn the_backend_decides_the_managed_command() {
    let game = Game::new_steam(GameKind::Fallout4, "/f".to_string());
    let program = |flatpak: bool, on_path: bool| {
        launch_game_managed_command(&game, flatpak, on_path).unwrap().program
    };
    assert_eq!(program(true, true), "flatpak");
    assert_eq!(program(false, true), "steam");
    assert_eq!(program(false, false), "xdg-open");
}

#[test]
fn split_launch_arguments_preserves_quoted_spaces() {
    let args = split_launch_arguments(r#"-flag "value one" --path '/tmp/tool dir'"#).unwrap();
    assert_eq!(args, vec!["-flag", "value one", "--path", "/tmp/tool dir"]);
}

#[test]
fn unmatched_quotes_are_refused() {
    assert_eq!(
        split_launch_arguments("a \"b").unwrap_err(),
        "Tool arguments contain an unmatched quote"
    );
    assert_eq!(split_launch_arguments("").unwrap(), Vec::<String>::new());
    assert_eq!(split_launch_arguments(r"a\ b c\").unwrap(), vec!["a b", r"c\"]);
}

#[test]
fn a_quoted_value_is_one_argument() {
    for value in ["plain", "with space", "say \"hi\"", "tab\tin", "it's"] {
        let quoted = shell_quote_value(value);
        assert_eq!(split_launch_arguments(&quoted).unwrap(), vec![value]);
    }
    assert_eq!(shell_quote_value("a b"), "\"a b\"");
}

fn launch(arguments: &str) -> ToolLaunch<'_> {
    ToolLaunch {
        proton_script: "/flatpak/proton/proton",
        exe_path: "/games/My Tool.exe",
        arguments,
        steam_root: "/flatpak/steam/root",
        compatdata_path: "/flatpak/compatdata/489830",
        app_id: 489830,
    }
}

#[test]
fn build_flatpak_tool_command_handles_spaces_without_shell_concat() {
    let cmd =
        build_flatpak_tool_command(&launch(r#"--profile "Default Profile" --output "out dir""#))
            .unwrap();
    assert!(cmd.args.iter().any(|a| a == "--profile"));
    assert!(cmd.args.iter().any(|a| a == "Default Profile"));
    assert!(cmd.args.iter().any(|a| a == "out dir"));
    assert!(cmd.args.iter().any(|a| a.starts_with("--env=SteamAppId=489830")));
    assert!(cmd.args.iter().any(|a| a.starts_with("--env=SteamGameId=489830")));
}

#[test]
fn a_native_tool_command_runs_the_proton_script() {
    let cmd = build_native_tool_command(&launch("-x")).unwrap();
    assert_eq!(cmd.program, "/flatpak/proton/proton");
    assert_eq!(cmd.args.last().unwrap(), "-x");
    assert!(cmd.env.iter().any(|(k, v)| k == "SteamAppId" && v == "489830"));
    assert!(build_native_tool_command(&launch("'")).is_err());
}

const CONFIG_VDF: &str = r#"
"InstallConfigStore"
{
    "Software"
    {
        "Valve"
        {
            "Steam"
            {
                "CompatToolMapping"
                {
                    "489830"
                    {
                        "name"        "proton_8"
                        "config"      ""
                        "Priority"    "250"
                    }
                    "377160"
                    {
                        "name"        "GE-Proton9-2"
                        "config"      ""
                        "Priority"    "250"
                    }
                }
            }
        }
    }
}
"#;

#[test]
fn parse_compat_tool_mapping_finds_app_config() {
    assert_eq!(parse_compat_tool_mapping(CONFIG_VDF, 489830), Some("proton_8".to_string()));
    assert_eq!(parse_compat_tool_mapping(CONFIG_VDF, 377160), Some("GE-Proton9-2".to_string()));
    assert_eq!(parse_compat_tool_mapping(CONFIG_VDF, 999999), None);
}

#[test]
fn a_mapping_gives_the_name_of_the_tool() {
    let config = r#"
"Software"
{
    "apps"
    {
        "489830"
        {
            "name"        "not a tool"
        }
    }
    "CompatToolMapping"
    {
        "489830"
        {
            "Priority"    "250"
            "name"        "proton_9"
        }
        "377160"
        {
            "Priority"    "250"
        }
        "22380"
        {
            "name"        "proton_7"
        }
    }
    "later"
    {
        "611670"
        {
            "name"        "not a tool either"
        }
    }
}
"#;
    assert_eq!(parse_compat_tool_mapping(config, 489830), Some("proton_9".to_string()));
    assert_eq!(parse_compat_tool_mapping(config, 377160), None);
    assert_eq!(parse_compat_tool_mapping(config, 22380), Some("proton_7".to_string()));
    assert_eq!(parse_compat_tool_mapping(config, 611670), None);
}

#[test]
fn the_first_configuration_that_maps_the_application_counts() {
    let other = CONFIG_VDF.replace("proton_8", "proton_9").replace("377160", "1");
    let read = vec![None, Some(other), Some(CONFIG_VDF.to_string())];
    assert_eq!(parse_per_game_proton_config(&read, 489830), Some("proton_9".to_string()));
    assert_eq!(parse_per_game_proton_config(&read, 377160), Some("GE-Proton9-2".to_string()));
    assert_eq!(parse_per_game_proton_config(&read, 7), None);
    let candidates = steam_config_candidates_in("/home/u");
    assert_eq!(candidates.len(), steam_root_candidates_in("/home/u").len());
    assert!(candidates.iter().all(|c| c.ends_with("/config/config.vdf")));
}

#[test]
fn normalize_proton_name_removes_separators() {
    assert_eq!(normalize_proton_name("Proton-8.0"), "proton80");
    assert_eq!(normalize_proton_name("GE-Proton9-2"), "geproton92");
    assert_eq!(normalize_proton_name("proton_experimental"), "protonexperimental");
}

#[test]
fn tools_match_version_compares_numbers() {
    assert!(tools_match_version("proton_8", "Proton 8.0"));
    assert!(tools_match_version("GE-Proton9-2", "geproton9"));
    assert!(!tools_match_version("proton_8", "proton_9"));
}

#[test]
fn vdf_lines_are_read() {
    assert_eq!(
        parse_vdf_key_value("\t\"path\"\t\t\"/mnt/games\""),
        Some(("path".to_string(), "/mnt/games".to_string()))
    );
    assert_eq!(parse_vdf_key_value("{"), None);
    assert_eq!(parse_vdf_key_value("\"only\""), None);
    let acf = "\"AppState\"\n{\n\t\"appid\"\t\"489830\"\n\t\"installdir\"\t\"Skyrim Special Edition\"\n}\n";
    assert_eq!(parse_acf_install_dir(acf), Some("Skyrim Special Edition".to_string()));
    assert_eq!(parse_acf_install_dir("\"AppState\"\n{\n}\n"), None);
    let folders = "\"libraryfolders\"\n{\n\t\"0\"\n\t{\n\t\t\"path\"\t\"/a\"\n\t}\n\t\"1\"\n\t{\n\t\t\"path\"\t\"/b\"\n\t}\n}\n";
    assert_eq!(parse_library_folders_vdf(folders), texts(&["/a", "/b"]));
}

#[test]
fn steam_is_found_in_the_first_directory_that_exists() {
    let candidates = steam_root_candidates_in("/home/u");
    let last = candidates.last().unwrap().clone();
    assert_eq!(find_steam_root_in(Some("/home/u"), &vec![last.clone()]), Some(last));
    assert_eq!(find_steam_root_in(Some("/home/u"), &candidates), Some(candidates[0].clone()));
    assert_eq!(find_steam_root_in(Some("/home/u"), &Vec::new()), None);
    assert_eq!(find_steam_root_in(None, &candidates), None);
}

#[test]
fn games_are_found_in_their_libraries() {
    let libraries = find_steam_libraries("/s", None, &texts(&["/s/steamapps"]));
    assert_eq!(libraries, texts(&["/s/steamapps"]));
    let manifests = vec![Some("\"installdir\"\t\"Skyrim\"".to_string())];
    let dir = "/s/steamapps/common/Skyrim".to_string();
    assert_eq!(find_game_path(&libraries, &manifests, &vec![dir.clone()]), Some(dir));
    assert_eq!(find_game_path(&libraries, &vec![None], &Vec::new()), None);
    let data = "/s/steamapps/compatdata/489830".to_string();
    assert_eq!(
        find_compatdata_path(&libraries, 489830, &Vec::new(), &vec![data.clone()]),
        Some(data)
    );
}

fn tool_dirs() -> Vec<ToolDirectory> {
    let entry = |name: &str| ToolEntry { name: name.to_string(), directory: true, has_script: true };
    vec![ToolDirectory {
        path: "/s/common".to_string(),
        entries: vec![entry("Proton 8.0"), entry("GE-Proton9-2")],
    }]
}

#[test]
fn the_configured_proton_wins() {
    let dirs = tool_dirs();
    assert_eq!(
        find_proton_by_name(&dirs, "GE-Proton9-2"),
        Some("/s/common/GE-Proton9-2".to_string())
    );
    let facts = ProtonFacts {
        compatdata: Some("/c"),
        configured: Some("proton_8"),
        version_file: Some("GE-Proton9-2"),
        dirs: &dirs,
    };
    assert_eq!(
        find_proton_for_game(489830, &facts).unwrap(),
        ("/s/common/Proton 8.0".to_string(), "/c".to_string())
    );
    let missing = ProtonFacts { compatdata: None, configured: None, version_file: None, dirs: &dirs };
    assert_eq!(
        find_proton_for_game(489830, &missing).unwrap_err(),
        "Could not find compatdata for App ID 489830"
    );
}

#[test]
fn a_tool_needs_its_script_and_its_executable() {
    let request = |script_exists: bool, exe_exists: bool| ToolRequest {
        exe_path: "/t/tool.exe",
        arguments: "",
        app_id: 489830,
        proton_path: "/s/common/Proton 8.0",
        compatdata_path: "/c",
        steam_root: Some("/s"),
        script_exists,
        exe_exists,
    };
    assert!(build_tool_command(&request(false, true)).is_err());
    assert!(build_tool_command(&request(true, false)).is_err());
    let command = build_tool_command(&request(true, true)).unwrap();
    assert!(command.args.iter().any(|a| a == "/t/tool.exe"));
}

#[test]
fn manifests_name_the_applications_of_a_library() {
    let names = texts(&["appmanifest_489830.acf", "appmanifest_x.acf", "appmanifest_22380.acf", "common"]);
    assert_eq!(collect_app_ids(&names), vec![489830, 22380]);
}

#[test]
fn detected_games_come_in_the_order_of_all_games() {
    let kinds = GameKind::all();
    let mut paths: Vec<Option<String>> = kinds.iter().map(|_| None).collect();
    paths[0] = Some("/games/a".to_string());
    paths[5] = Some("/games/b".to_string());
    let found = detect_games(&paths);
    assert_eq!(found.len(), 2);
    assert!(found[0].kind == kinds[0] && found[0].path == "/games/a");
    assert!(found[1].kind == kinds[5] && found[1].path == "/games/b");
}

#[test]
fn proton_may_lie_in_a_library_or_beside_it() {
    let libraries = texts(&["/home/u/.steam/steam/steamapps", "/big/steamapps"]);
    let directories = texts(&[
        "/home/u/.steam/steam/steamapps/common",
        "/home/u/.steam/steam/compatibilitytools.d",
        "/home/u/.local/share/Steam/compatibilitytools.d",
        "/big/common",
        "/big/steamapps/common",
    ]);
    assert_eq!(
        find_proton_directories_in(&libraries, Some("/home/u"), &directories),
        vec![
            "/home/u/.steam/steam/steamapps/common",
            "/home/u/.steam/steam/compatibilitytools.d",
            "/big/steamapps/common",
            "/home/u/.local/share/Steam/compatibilitytools.d",
        ]
    );
    assert_eq!(
        find_proton_directories_in(&libraries, None, &directories).len(),
        3
    );
}

#[test]
fn the_home_directory_of_the_user_is_looked_below() {
    let roots = steam_root_candidates();
    let configs = steam_config_candidates();
    assert_eq!(roots.len(), configs.len());
    for (root, config) in roots.iter().zip(configs.iter()) {
        assert_eq!(config, &format!("{root}/config/config.vdf"));
    }
    match dirs::home_dir() {
        Some(home) => {
            let home = home.to_string_lossy().into_owned();
            assert_eq!(roots, steam_root_candidates_in(&home));
            assert_eq!(find_steam_root(&roots), Some(roots[0].clone()));
            let tools = vec![format!("{}/compatibilitytools.d", roots[1])];
            assert_eq!(find_proton_directories(&Vec::new(), &tools), tools);
        }
        None => {
            assert!(roots.is_empty());
            assert_eq!(find_steam_root(&roots), None);
        }
    }
}
