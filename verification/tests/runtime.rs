//! Sessions of games and tools.
use linkmm::config::{AppConfig, ToolConfig};
use linkmm::games::{Game, GameKind, GameLauncherSource, UmuGameConfig};
use linkmm::runtime::{
    acquire_steam_session_lock, build_phase1_steam_launch_option, kill_is_due, lock_holder,
    lock_is_stale, resolve_phase1_steam_exe_path, resolve_phase1_steam_game,
    run_phase1_steam_session, session_lock_held, session_registry_path, session_registry_path_in,
    steam_session_lock_path_in, tool_result, GameLaunch, MachineFacts, ProcessEnd,
    RuntimeSessionManager, SessionKind, SessionStart, SessionStatus, SessionStream,
};

fn texts(list: &[&str]) -> Vec<String> {
    list.iter().map(|s| s.to_string()).collect()
}

fn start(kind: SessionKind, game_id: &str, tool_id: Option<&str>) -> SessionStart {
    SessionStart {
        kind,
        game_id: game_id.to_string(),
        tool_id: tool_id.map(|t| t.to_string()),
        launcher_source: GameLauncherSource::NonSteamUmu,
        pid: Some(77),
        started_at: 5,
        scratch_dir: None,
    }
}

const SUCCESS: ProcessEnd = ProcessEnd { code: Some(0), success: true };
const SIGNALLED: ProcessEnd = ProcessEnd { code: None, success: false };

fn status(manager: &RuntimeSessionManager, id: u64) -> SessionStatus {
    manager.sessions().into_iter().find(|s| s.id == id).unwrap().status
}

#[test]
fn starting_and_stopping_session_updates_state() {
    let mut manager = RuntimeSessionManager::new();
    let id = manager.spawn_managed_session(start(SessionKind::Tool, "g", Some("t")));
    assert_eq!(id, 1);
    assert!(manager.any_active());
    assert_eq!(manager.active_sessions().len(), 1);
    assert_eq!(manager.stop_session(id).unwrap(), Some(77));
    assert!(manager.stop_requested(id));
    manager.finish_session(id, Ok(SIGNALLED), false, manager.stop_requested(id), 6);
    assert_eq!(status(&manager, id), SessionStatus::Killed);
    assert_eq!(manager.stop_session(id).unwrap(), None);
    assert!(!manager.any_active());
    assert!(manager.active_sessions().is_empty());
    assert_eq!(manager.stop_session(9).unwrap_err(), "Session 9 was not found");
}

#[test]
fn logs_are_captured() {
    let mut manager = RuntimeSessionManager::new();
    let id = manager.spawn_managed_session(start(SessionKind::Game, "g", None));
    manager.push_log(id, SessionStream::Stdout, "out".to_string(), 1);
    manager.push_log(id, SessionStream::Stderr, "err".to_string(), 2);
    let logs = manager.session_logs(id);
    assert!(logs.iter().any(|l| l.message.contains("out")));
    assert!(logs.iter().any(|l| l.message.contains("err")));
    assert!(manager.session_logs(id + 1).is_empty());
    for n in 0..700u64 {
        manager.push_log(id, SessionStream::Stdout, format!("{n}"), n);
    }
    let logs = manager.session_logs(id);
    assert_eq!(logs.len(), 600);
    assert_eq!(logs[0].message, "100");
    assert_eq!(logs[599].message, "699");
}

#[test]
fn session_waits_for_process_group_descendants() {
    let mut manager = RuntimeSessionManager::new();
    let id = manager.spawn_managed_session(start(SessionKind::Game, "g", None));
    assert_eq!(status(&manager, id), SessionStatus::Running);
    assert!(!kill_is_due(false, false, 60_000));
    assert!(!kill_is_due(true, false, 4_999));
    assert!(kill_is_due(true, false, 5_000));
    assert!(!kill_is_due(true, true, 9_000));
    manager.finish_session(id, Ok(SUCCESS), false, false, 6);
    assert_eq!(status(&manager, id), SessionStatus::Exited);
}

#[test]
fn the_end_of_a_session_decides_its_status() {
    let mut manager = RuntimeSessionManager::new();
    let ids: Vec<u64> = (0..4)
        .map(|_| manager.spawn_managed_session(start(SessionKind::Tool, "g", Some("t"))))
        .collect();
    let failed = ProcessEnd { code: Some(3), success: false };
    manager.finish_session(ids[0], Ok(failed), false, false, 1);
    manager.finish_session(ids[1], Ok(SUCCESS), true, true, 1);
    manager.finish_session(ids[2], Err("lost".to_string()), false, true, 1);
    manager.finish_session(ids[3], Ok(SUCCESS), false, true, 1);
    let all: Vec<SessionStatus> = ids.iter().map(|id| status(&manager, *id)).collect();
    assert_eq!(
        all,
        vec![
            SessionStatus::Failed,
            SessionStatus::Failed,
            SessionStatus::Failed,
            SessionStatus::Killed
        ]
    );
    assert_eq!(manager.session_logs(ids[2])[0].message, "lost");
    let outcome = |id: u64| run_phase1_steam_session(&manager, id);
    assert_eq!(
        outcome(ids[0]).unwrap().unwrap_err(),
        "Steam session failed with exit code 3"
    );
    assert_eq!(outcome(ids[2]).unwrap().unwrap_err(), "Steam session failed");
    assert_eq!(outcome(ids[3]).unwrap().unwrap(), 0);
    assert_eq!(
        outcome(99).unwrap().unwrap_err(),
        "Managed session 99 disappeared unexpectedly"
    );
}

#[test]
fn a_running_session_has_no_outcome_and_a_killed_one_a_default_code() {
    let mut manager = RuntimeSessionManager::new();
    let id = manager.spawn_managed_session(start(SessionKind::Game, "g", None));
    assert!(run_phase1_steam_session(&manager, id).is_none());
    manager.finish_session(id, Ok(SIGNALLED), false, true, 1);
    assert_eq!(run_phase1_steam_session(&manager, id).unwrap().unwrap(), 130);
    let negative = ProcessEnd { code: Some(-5), success: false };
    manager.finish_session(id, Ok(negative), false, false, 1);
    assert_eq!(
        run_phase1_steam_session(&manager, id).unwrap().unwrap_err(),
        "Steam session failed with exit code -5"
    );
}

fn facts<'a>(files: &'a Vec<String>, dirs: &'a Vec<String>, umu: bool) -> MachineFacts<'a> {
    MachineFacts { files, directories: dirs, umu_available: umu }
}

#[test]
fn steam_phase1_blocks_unlisted_games() {
    let manager = RuntimeSessionManager::new();
    let game = Game::new_steam(GameKind::Fallout4, "/tmp/game".to_string());
    let none = Vec::new();
    let err =
        manager.start_game_session(&game, None, None, &facts(&none, &none, true)).unwrap_err();
    assert!(err.contains("Phase 1 Steam session support"));
    assert_eq!(err, manager.may_start_game(&game).unwrap_err());
}

#[test]
fn one_session_per_game() {
    let mut manager = RuntimeSessionManager::new();
    let game = Game::new(GameKind::SkyrimSE, "/s".to_string());
    let files = texts(&["/s/SkyrimSE.exe"]);
    let none = Vec::new();
    let on = facts(&files, &none, false);
    match manager.start_game_session(&game, None, None, &on).unwrap() {
        GameLaunch::Steam(exe, app_id) => {
            assert_eq!(exe, "/s/SkyrimSE.exe");
            assert_eq!(app_id, 489830);
        }
        GameLaunch::Umu(_) => panic!("not a Steam launch"),
    }
    assert_eq!(
        manager.start_game_session(&game, Some("no fuse"), None, &on).unwrap_err(),
        "Failed to mount mod VFS: no fuse"
    );
    let id = manager.spawn_managed_session(start(SessionKind::Game, "skyrim_se", None));
    assert_eq!(manager.current_game_session("skyrim_se").unwrap().id, id);
    assert!(manager.current_game_session("fallout4").is_none());
    assert_eq!(
        manager.start_game_session(&game, None, None, &on).unwrap_err(),
        "A game session is already active for this game instance"
    );
    manager.finish_session(id, Ok(SUCCESS), false, false, 1);
    assert!(manager.may_start_game(&game).is_ok());
}

#[test]
fn umu_games_and_tools_are_launched_by_umu() {
    let mut manager = RuntimeSessionManager::new();
    let game = Game::new_non_steam_umu(
        GameKind::SkyrimSE,
        "/s".to_string(),
        UmuGameConfig {
            exe_path: "/s/SkyrimSE.exe".to_string(),
            prefix_path: None,
            proton_path: None,
        },
    );
    let files = texts(&["/s/SkyrimSE.exe"]);
    let none = Vec::new();
    assert_eq!(
        manager.start_game_session(&game, None, None, &facts(&files, &none, false)).unwrap_err(),
        "umu-launcher is not installed. Please try again or check settings."
    );
    let on = facts(&files, &none, true);
    match manager.start_game_session(&game, None, None, &on).unwrap() {
        GameLaunch::Umu(l) => {
            assert_eq!(l.exe_path, "/s/SkyrimSE.exe");
            assert_eq!(l.app_id, 489830);
            assert_eq!(l.store, "none");
        }
        GameLaunch::Steam(..) => panic!("not a umu launch"),
    }
    let tool = ToolConfig {
        id: "bs".to_string(),
        name: "BodySlide".to_string(),
        exe_path: "/t/bs.exe".to_string(),
        arguments: "-x".to_string(),
        app_id: 1,
    };
    let unused = || Err("unused".to_string());
    let l = manager.start_tool_session(&game, &tool, &on, unused(), None).unwrap();
    assert_eq!((l.exe_path.as_str(), l.arguments.as_str(), l.app_id), ("/t/bs.exe", "-x", 489830));

    let steam = Game::new(GameKind::SkyrimSE, "/s".to_string());
    let proton = Ok(("/proton".to_string(), "/compat".to_string()));
    let l = manager
        .start_tool_session(&steam, &tool, &on, proton, Some("/steam".to_string()))
        .unwrap();
    assert_eq!(l.prefix_path.as_deref(), Some("/compat/pfx"));
    assert_eq!(l.proton_path.as_deref(), Some("/proton"));
    assert_eq!(l.store, "steam");
    assert_eq!(l.steam_root.as_deref(), Some("/steam"));
    assert_eq!(
        manager.start_tool_session(&steam, &tool, &on, unused(), None).unwrap_err(),
        "unused"
    );
    manager.spawn_managed_session(start(SessionKind::Tool, "skyrim_se", Some("bs")));
    assert!(manager.current_tool_session("skyrim_se", "bs").is_some());
    assert!(manager.current_tool_session("skyrim_se", "other").is_none());
    assert_eq!(
        manager.start_tool_session(&steam, &tool, &on, unused(), None).unwrap_err(),
        "Tool BodySlide is already running"
    );
    assert_eq!(
        tool_result(false, "exit status: 2").unwrap_err(),
        "Tool exited with non-zero status: exit status: 2"
    );
    assert!(tool_result(true, "").is_ok());
}

#[test]
fn resolve_phase1_steam_game_prefers_current_game() {
    let game = Game::new_steam(GameKind::SkyrimSE, "/tmp/skyrim".to_string());
    let config = AppConfig {
        current_game_id: Some(game.id.clone()),
        games: vec![game.clone()],
        ..AppConfig::default()
    };
    let resolved = resolve_phase1_steam_game(&config, 489830, None, None).unwrap();
    assert_eq!(resolved.id, game.id);
}

#[test]
fn resolve_phase1_steam_exe_path_prefers_saved_target_when_present() {
    let existing = texts(&["/tmp/t/SkyrimSE.exe", "/tmp/t/skse64_loader.exe"]);
    let game = Game::new_steam(GameKind::SkyrimSE, "/tmp/t".to_string());
    let resolved =
        resolve_phase1_steam_exe_path(&game, Some("skse64_loader.exe"), &existing).unwrap();
    assert_eq!(resolved, "/tmp/t/skse64_loader.exe");
    let resolved = resolve_phase1_steam_exe_path(&game, Some("gone.exe"), &existing).unwrap();
    assert_eq!(resolved, "/tmp/t/SkyrimSE.exe");
    assert_eq!(
        resolve_phase1_steam_exe_path(&game, None, &Vec::new()).unwrap_err(),
        "Could not find game executable in root path"
    );
}

#[test]
fn resolve_phase1_steam_game_honors_requested_game_id() {
    let game_a = Game::new_steam(GameKind::SkyrimSE, "/tmp/skyrim_a".to_string());
    let requested_id = game_a.id.clone();
    let game_b = Game::new_steam(GameKind::SkyrimSE, "/tmp/skyrim_b".to_string());
    let config = AppConfig { games: vec![game_a.clone(), game_b], ..AppConfig::default() };
    let resolved =
        resolve_phase1_steam_game(&config, 489830, Some(&requested_id), None).unwrap();
    assert_eq!(resolved.id, requested_id);
    let here = resolve_phase1_steam_game(&config, 489830, None, Some("/tmp/skyrim_b/")).unwrap();
    assert_eq!(here.root_path, "/tmp/skyrim_b");
    assert_eq!(
        resolve_phase1_steam_game(&config, 489830, None, None).unwrap_err(),
        "Multiple configured phase-1 Steam game instances match app id 489830. Use a launch option generated for one exact configured game instance."
    );
    assert_eq!(
        resolve_phase1_steam_game(&config, 489830, Some("x"), None).unwrap_err(),
        "Configured game id x does not match any phase-1 Steam game instance for app id 489830."
    );
    assert_eq!(
        resolve_phase1_steam_game(&config, 7, None, None).unwrap_err(),
        "No configured phase-1 Steam game instance found for app id 7."
    );
}

#[test]
fn build_phase1_steam_launch_option_includes_game_id() {
    let option = build_phase1_steam_launch_option("/usr/bin/linkmm", 489830, "game-123");
    assert!(option.contains("--steam-session 489830"));
    assert!(option.contains("--game-id game-123"));
    assert_eq!(
        build_phase1_steam_launch_option("/my apps/linkmm", 1, "g"),
        "\"/my apps/linkmm\" --steam-session 1 --game-id g"
    );
}

#[test]
fn locks_name_their_holder() {
    assert_eq!(lock_holder(" 4242\n"), Some(4242));
    assert_eq!(lock_holder("x"), None);
    assert!(lock_is_stale("x", true));
    assert!(lock_is_stale("4242", false));
    assert!(!lock_is_stale("4242", true));
    assert_eq!(
        session_lock_held(5),
        "Steam session for app 5 is already running. Stop the existing session before launching again."
    );
    let path = |r: Option<&str>, d: Option<&str>| {
        steam_session_lock_path_in(r.map(|s| s.to_string()), d.map(|s| s.to_string()), 5)
    };
    assert_eq!(path(Some("/run"), Some("/data")).unwrap(), "/run/linkmm/steam-session-5.pid");
    assert_eq!(path(None, Some("/data")).unwrap(), "/data/linkmm/steam-session-5.pid");
    assert_eq!(
        path(None, None).unwrap_err(),
        "Could not determine runtime directory for session lock"
    );
    let expected = dirs::runtime_dir().or_else(dirs::data_local_dir);
    match acquire_steam_session_lock(5) {
        Ok(p) => {
            let dir = expected.unwrap();
            assert_eq!(p, format!("{}/linkmm/steam-session-5.pid", dir.display()));
        }
        Err(_) => assert!(expected.is_none()),
    }
}

#[test]
fn running_sessions_are_saved_below_the_configuration() {
    assert_eq!(session_registry_path_in(Some("/c".to_string())), "/c/linkmm/sessions.toml");
    assert_eq!(session_registry_path_in(None), "./linkmm/sessions.toml");
    assert!(session_registry_path().ends_with("linkmm/sessions.toml"));
}

#[test]
fn session_numbers_count_up() {
    let mut manager = RuntimeSessionManager::new();
    assert_eq!(manager.next_session_id(), 1);
    manager.spawn_managed_session(start(SessionKind::Game, "g", None));
    assert_eq!(manager.next_session_id(), 2);
}
