//! Mods, plugins and links.
use std::collections::{BTreeMap, HashSet};

use linkmm::deployment::{
    link_directory_contents, link_items_alongside_data, link_mod_data, unlink_directory_contents,
    Destination, LinkStep, ModManager, PlannedLink,
};
use linkmm::games::{Game, GameKind};
use linkmm::mods::{
    generate_mod_uuid, Mod, ModDatabase, PluginFile, PluginKind, UuidSeed,
};
use linkmm::plugins::plugins_txt;
use linkmm::table::NameSet;

fn seed(seq: u32) -> UuidSeed {
    UuidSeed { secs: 1_700_000_000, nanos: 123_456_789, pid: 4242, seq }
}

fn texts(list: &[&str]) -> Vec<String> {
    list.iter().map(|s| s.to_string()).collect()
}

fn test_game() -> Game {
    Game::new(GameKind::SkyrimSE, "/game".to_string())
}

#[test]
fn uuid_generation_is_unique() {
    let mut ids = HashSet::new();
    for i in 0..100 {
        let id = generate_mod_uuid(seed(i));
        assert!(!ids.contains(&id), "duplicate UUID: {id}");
        ids.insert(id);
    }
}

#[test]
fn uuid_format_looks_like_uuid() {
    let id = generate_mod_uuid(seed(7));
    let parts: Vec<&str> = id.split('-').collect();
    assert_eq!(parts.len(), 5);
    assert_eq!(parts[0].len(), 8);
    assert_eq!(parts[1].len(), 4);
    assert_eq!(parts[2].len(), 4);
    assert_eq!(parts[3].len(), 4);
    assert_eq!(parts[4].len(), 12);
    assert!(id.chars().all(|c| c.is_ascii_hexdigit() || c == '-'));
}

#[test]
fn mod_new_generates_uuid_id() {
    let m1 = Mod::new("Test Mod", "/tmp/test1".to_string(), seed(1));
    let m2 = Mod::new("Test Mod", "/tmp/test2".to_string(), seed(2));
    assert_ne!(m1.id, m2.id);
    assert_eq!(m1.name, "Test Mod");
    assert_eq!(m2.name, "Test Mod");
}

/// What stands below a game, by path: the source of a link, or a file of its
/// own.
type Disk = BTreeMap<String, Option<String>>;

fn at(disk: &Disk, path: &str) -> Destination {
    match disk.get(path) {
        None => Destination::Missing,
        Some(Some(source)) => Destination::Link { leads_to: source.clone(), alive: true },
        Some(None) => Destination::Other,
    }
}

fn make_links(disk: &mut Disk, links: &[PlannedLink]) {
    for l in links {
        match link_directory_contents(&at(disk, &l.target)) {
            LinkStep::Create | LinkStep::Replace => {
                disk.insert(l.target.clone(), Some(l.source.clone()));
            }
            LinkStep::Skip => {}
        }
    }
}

fn take_links(disk: &mut Disk, links: &[PlannedLink]) {
    for l in links {
        if unlink_directory_contents(&at(disk, &l.target), &l.source) {
            disk.remove(&l.target);
        }
    }
}

fn is_link(disk: &Disk, path: &str) -> bool {
    matches!(disk.get(path), Some(Some(_)))
}

fn mod_at(dir: &str) -> Mod {
    Mod::new("Test", dir.to_string(), seed(1))
}

#[test]
fn link_directory_contents_creates_symlinks_for_files_and_dirs() {
    let files = texts(&["Data/textures/sky.dds", "Data/plugin.esp"]);
    let links = ModManager::enable_mod(&test_game(), &mod_at("/src"), &files);
    let mut disk = Disk::new();
    make_links(&mut disk, &links);
    assert!(is_link(&disk, "/game/Data/textures/sky.dds"));
    assert!(is_link(&disk, "/game/Data/plugin.esp"));
}

#[test]
fn unlink_removes_symlinks_and_cleans_empty_dirs() {
    let files = texts(&["Data/textures/sky.dds"]);
    let m = mod_at("/src");
    let mut disk = Disk::new();
    make_links(&mut disk, &ModManager::enable_mod(&test_game(), &m, &files));
    assert!(is_link(&disk, "/game/Data/textures/sky.dds"));
    take_links(&mut disk, &ModManager::disable_mod(&test_game(), &m, &files).links);
    assert!(disk.is_empty());
}

#[test]
fn unlink_preserves_dirs_that_contain_non_mod_files() {
    let files = texts(&["Data/textures/sky.dds", "Data/textures/vanilla.dds"]);
    let m = mod_at("/src");
    let mut disk = Disk::new();
    disk.insert("/game/Data/textures/vanilla.dds".to_string(), None);
    make_links(&mut disk, &ModManager::enable_mod(&test_game(), &m, &files));
    assert!(!is_link(&disk, "/game/Data/textures/vanilla.dds"));
    take_links(&mut disk, &ModManager::disable_mod(&test_game(), &m, &files).links);
    assert!(!disk.contains_key("/game/Data/textures/sky.dds"));
    assert!(disk.contains_key("/game/Data/textures/vanilla.dds"));
}

#[test]
fn link_items_alongside_data_links_root_files_but_not_data_dir() {
    assert!(link_items_alongside_data("d3dx9_42.dll"));
    assert!(!link_items_alongside_data("Data/textures/sky.dds"));
    assert!(!link_items_alongside_data("dATA/textures/sky.dds"));
    let files = texts(&["Data/textures/sky.dds", "d3dx9_42.dll"]);
    let mut disk = Disk::new();
    make_links(&mut disk, &ModManager::enable_mod(&test_game(), &mod_at("/mod"), &files));
    assert!(is_link(&disk, "/game/d3dx9_42.dll"));
    assert!(is_link(&disk, "/game/Data/textures/sky.dds"));
    assert_eq!(disk.len(), 2);
}

#[test]
fn link_items_alongside_data_links_sibling_directories() {
    let files = texts(&["Data/a.esp", "enbseries/enbseries.ini"]);
    let mut disk = Disk::new();
    make_links(&mut disk, &ModManager::enable_mod(&test_game(), &mod_at("/mod"), &files));
    assert!(is_link(&disk, "/game/enbseries/enbseries.ini"));
}

#[test]
fn unlink_items_alongside_data_removes_root_symlinks() {
    let files = texts(&["Data/a.esp", "d3dx9_42.dll"]);
    let m = mod_at("/mod");
    let mut disk = Disk::new();
    make_links(&mut disk, &ModManager::enable_mod(&test_game(), &m, &files));
    assert!(is_link(&disk, "/game/d3dx9_42.dll"));
    let undone = ModManager::disable_mod_without_legacy_cleanup(&test_game(), &m, &files);
    assert!(undone.nested_data_dir.is_none());
    take_links(&mut disk, &undone.links);
    assert!(!disk.contains_key("/game/d3dx9_42.dll"));
}

#[test]
fn disable_cleans_up_legacy_nested_data_dir() {
    let files = texts(&["Data/textures/sky.dds"]);
    let undone = ModManager::disable_mod(&test_game(), &mod_at("/mod"), &files);
    assert_eq!(undone.nested_data_dir.as_deref(), Some("/game/Data/Data"));
    assert_eq!(ModManager::purge_legacy_nested_data_dir(&test_game()), "/game/Data/Data");
}

#[test]
fn link_mod_data_flattens_nested_data_subdir() {
    assert_eq!(link_mod_data("Data/textures/sky.dds"), "textures/sky.dds");
    assert_eq!(link_mod_data("DATA/data/textures/sky.dds"), "textures/sky.dds");
    assert_eq!(link_mod_data("plugin.esp"), "plugin.esp");
    let files = texts(&["Data/Data/textures/sky.dds", "Data/plugin.esp"]);
    let mut disk = Disk::new();
    make_links(&mut disk, &ModManager::enable_mod(&test_game(), &mod_at("/mod"), &files));
    assert!(is_link(&disk, "/game/Data/textures/sky.dds"));
    assert!(is_link(&disk, "/game/Data/plugin.esp"));
    assert!(!disk.keys().any(|k| k.starts_with("/game/Data/Data/")));
}

#[test]
fn only_dead_links_make_room() {
    let dead = Destination::Link { leads_to: "/gone".to_string(), alive: false };
    let alive = Destination::Link { leads_to: "/there".to_string(), alive: true };
    assert_eq!(link_directory_contents(&Destination::Missing), LinkStep::Create);
    assert_eq!(link_directory_contents(&dead), LinkStep::Replace);
    assert_eq!(link_directory_contents(&alive), LinkStep::Skip);
    assert_eq!(link_directory_contents(&Destination::Other), LinkStep::Skip);
    assert!(unlink_directory_contents(&alive, "/there"));
    assert!(!unlink_directory_contents(&alive, "/elsewhere"));
    assert!(!unlink_directory_contents(&Destination::Other, "/there"));
}

#[test]
fn get_ordered_plugins_respects_saved_order_and_sorts_untracked() {
    let mut disabled = NameSet::new();
    disabled.insert("z.esp");
    let db = ModDatabase {
        plugin_load_order: texts(&["z.esp", "a.esm"]),
        plugin_disabled: disabled,
        ..ModDatabase::default()
    };
    let files = texts(&["a.esm", "b.esl", "c.esp", "z.esp"]);
    let ordered = db.get_ordered_plugins(GameKind::SkyrimSE, &files);
    let names: Vec<&str> = ordered.iter().map(|p| p.name.as_str()).collect();
    assert_eq!(names, vec!["z.esp", "a.esm", "b.esl", "c.esp"]);
    assert!(!ordered[0].enabled);
    assert!(ordered[1].enabled);
}

#[test]
fn plugin_disabled_deserialize_deduplicates_entries() {
    let mut disabled = NameSet::new();
    for name in ["A.esp", "A.esp", "B.esm"] {
        disabled.insert(name);
    }
    let db = ModDatabase { plugin_disabled: disabled, ..ModDatabase::default() };
    assert_eq!(db.plugin_disabled.len(), 2);
    assert!(db.plugin_disabled.contains("A.esp"));
    assert!(db.plugin_disabled.contains("B.esm"));
    let written = db.plugin_disabled.names();
    assert_eq!(written.iter().filter(|n| *n == "A.esp").count(), 1);
    assert_eq!(written.iter().filter(|n| *n == "B.esm").count(), 1);
}

#[test]
fn sort_plugins_by_type_falls_back_when_libloot_cannot_parse_plugins() {
    let mut db = ModDatabase {
        plugin_load_order: texts(&["z.esp", "a.esm"]),
        ..ModDatabase::default()
    };
    let files = texts(&["z.esp", "a.esm", "b.esl", "c.esp"]);
    db.sort_plugins_by_type(GameKind::SkyrimSE, &files, Err("cannot parse".to_string()));
    assert_eq!(db.plugin_load_order, texts(&["a.esm", "b.esl", "c.esp", "z.esp"]));
}

#[test]
fn a_sorted_order_is_taken_over() {
    let mut db = ModDatabase::default();
    let files = texts(&["z.esp", "a.esm", "b.esl"]);
    let loot = Ok(texts(&["a.esm", "z.esp", "b.esl"]));
    db.sort_plugins_by_type(GameKind::SkyrimSE, &files, loot);
    assert_eq!(db.plugin_load_order, texts(&["a.esm", "z.esp", "b.esl"]));
}

#[test]
fn uninstall_mod_removes_source_directory_and_database_entry() {
    let mut db = ModDatabase::default();
    let entry = Mod::new("TestMod", "/mods/test-mod-uuid".to_string(), seed(3));
    db.register_mod(entry.clone());
    assert!(ModManager::uninstall_mod(&mut db, &entry, Ok(())).is_ok());
    assert!(db.mods.iter().all(|m| m.id != entry.id));

    db.register_mod(entry.clone());
    let failed = ModManager::uninstall_mod(&mut db, &entry, Err("busy".to_string()));
    assert!(failed.unwrap_err().contains("busy"));
    assert_eq!(db.mods.len(), 1);
}

#[test]
fn registering_replaces_the_mod_of_the_same_name() {
    let mut db = ModDatabase::default();
    db.register_mod(Mod::new("A", "/1".to_string(), seed(1)));
    db.register_mod(Mod::new("B", "/2".to_string(), seed(2)));
    db.register_mod(Mod::new("A", "/3".to_string(), seed(3)));
    let sources: Vec<&str> = db.mods.iter().map(|m| m.source_path.as_str()).collect();
    assert_eq!(sources, vec!["/2", "/3"]);
    let id = db.mods[1].id.clone();
    db.remove_mod(&id);
    assert_eq!(db.mods.len(), 1);
}

#[test]
fn mods_without_a_directory_are_dropped() {
    let mut db = ModDatabase::default();
    db.register_mod(Mod::new("A", "/m/1".to_string(), seed(1)));
    db.register_mod(Mod::new("B", "/m/2".to_string(), seed(2)));
    db.scan_mods_dir(true, &texts(&["/m/2"]));
    let names: Vec<&str> = db.mods.iter().map(|m| m.name.as_str()).collect();
    assert_eq!(names, vec!["B"]);
}

#[test]
fn a_mod_directory_is_named_by_its_identifier() {
    let dir = ModManager::create_mod_directory("/m", seed(9));
    assert_eq!(dir, format!("/m/{}", generate_mod_uuid(seed(9))));
}

#[test]
fn plugins_txt_is_read_back_as_it_was_written() {
    let plugin = |name: &str, kind: PluginKind, enabled: bool| PluginFile {
        name: name.to_string(),
        kind,
        enabled,
        is_vanilla: false,
    };
    let plugins = vec![
        plugin("a.esm", PluginKind::Master, true),
        plugin("b.esp", PluginKind::Plugin, false),
        plugin("c.esl", PluginKind::Light, true),
    ];
    let text = plugins_txt(&plugins);
    assert!(text.contains("*a.esm"));
    assert!(!text.contains("*b.esp"));
    let mut db = ModDatabase::default();
    db.sync_from_plugins_txt(&text);
    assert_eq!(db.plugin_load_order, texts(&["a.esm", "b.esp", "c.esl"]));
    assert!(db.plugin_disabled.contains("b.esp"));
    assert_eq!(db.plugin_disabled.len(), 1);
}

#[test]
fn an_order_that_is_set_keeps_every_plugin() {
    let mut db = ModDatabase::default();
    let files = texts(&["x.esp", "Skyrim.esm", "y.esl", "notes.txt"]);
    let mut plugins = db.scan_plugins(GameKind::SkyrimSE, &files);
    assert_eq!(plugins.len(), 3);
    plugins.reverse();
    db.set_plugin_order(&plugins);
    let ordered = db.get_ordered_plugins(GameKind::SkyrimSE, &files);
    assert_eq!(ordered.len(), 3);
    let mut names: Vec<String> = ordered.into_iter().map(|p| p.name).collect();
    names.sort();
    assert_eq!(names, texts(&["Skyrim.esm", "x.esp", "y.esl"]));
    let labels: Vec<&str> = [PluginKind::Master, PluginKind::Light, PluginKind::Plugin]
        .iter()
        .map(|k| k.label())
        .collect();
    assert_eq!(labels.len(), 3);
    assert!(PluginKind::Master.sort_priority() < PluginKind::Plugin.sort_priority());
}

#[test]
fn the_database_lies_with_the_game_s_configuration() {
    assert_eq!(ModDatabase::db_path("/c/linkmm/skyrim_se"), "/c/linkmm/skyrim_se/mods.toml");
}

#[test]
fn loot_is_given_the_plugins_and_where_they_are() {
    let game = Game::new_steam(GameKind::SkyrimSE, "/games/skyrim".to_string());
    let db = ModDatabase::default();
    let files = texts(&["Skyrim.esm", "B.esp", "A.esm"]);
    let others = db.plugins_to_sort(GameKind::SkyrimSE, &files);
    let asked = ModDatabase::try_sort_with_loot(&others, &game, None);
    assert_eq!(asked.plugin_names, vec!["A.esm", "B.esp"]);
    assert_eq!(asked.plugin_paths, vec!["/games/skyrim/Data/A.esm", "/games/skyrim/Data/B.esp"]);
    assert_eq!(asked.local_path, "/games/skyrim");
    let asked = ModDatabase::try_sort_with_loot(&others, &game, Some("/local".to_string()));
    assert_eq!((asked.game_path.as_str(), asked.local_path.as_str()), ("/games/skyrim", "/local"));
}

#[test]
fn plugins_without_a_saved_order_come_by_kind_and_name() {
    let mut db = ModDatabase::default();
    db.plugin_load_order = texts(&["late.esp", "early.esm"]);
    let files = texts(&["zz.esm", "b.esp", "a.esl", "early.esm", "late.esp", "Update.esm", "Skyrim.esm", "note.txt"]);
    let names: Vec<String> =
        db.get_ordered_plugins(GameKind::SkyrimSE, &files).into_iter().map(|p| p.name).collect();
    assert_eq!(
        names,
        vec!["Skyrim.esm", "Update.esm", "late.esp", "early.esm", "zz.esm", "a.esl", "b.esp"]
    );
}
