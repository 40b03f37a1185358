//! What holds of the library as a whole, on values.
use linkmm::installer::heuristics::{
    build_data_archive_plan, detect_data_root, find_data_root_in_paths, is_bain_archive,
};
use linkmm::installer::install::install_fomod;
use linkmm::installer::paths::{
    is_safe_relative_path, normalize_path, normalize_path_lowercase,
};
use linkmm::installer::scored;
use linkmm::installer::types::{DataArchivePlan, FomodFile};
use linkmm::mods::{generate_mod_uuid, UuidSeed};
use linkmm::number::{decimal_string, hex_string, parse_i32, parse_u32, parse_u64};
use linkmm::nxm::NxmUrl;
use linkmm::paths::{extension, file_name, file_stem, join, parent, path_less, with_extension};
use linkmm::text::{lines, split, trim};

fn texts(list: &[&str]) -> Vec<String> {
    list.iter().map(|s| s.to_string()).collect()
}

fn file(source: &str, destination: &str) -> FomodFile {
    FomodFile { source: source.to_string(), destination: destination.to_string(), priority: 0 }
}

#[test]
fn numbers_are_read_back_from_their_digits() {
    for n in [0u64, 7, 10, 4096, u64::MAX] {
        assert_eq!(decimal_string(n as u128), n.to_string());
        assert_eq!(parse_u64(&decimal_string(n as u128)), Some(n));
    }
    assert_eq!(parse_u64("18446744073709551616"), None);
    assert_eq!(parse_u32("4294967296"), None);
    assert_eq!(parse_u32("+12"), Some(12));
    assert_eq!(parse_u32(""), None);
    assert_eq!(parse_i32("-2147483648"), Some(i32::MIN));
    assert_eq!(parse_i32("2147483648"), None);
    assert_ne!(hex_string(0x1f, 4), hex_string(0x1e, 4));
    assert_eq!(hex_string(0x1f, 4), "001f");
}

#[test]
fn identifiers_of_one_process_differ() {
    let a = generate_mod_uuid(UuidSeed { secs: 1, nanos: 2, pid: 3, seq: 4 });
    let b = generate_mod_uuid(UuidSeed { secs: 1, nanos: 2, pid: 3, seq: 5 });
    assert_ne!(a, b);
    let later = generate_mod_uuid(UuidSeed { secs: 9, nanos: 8, pid: 3, seq: 5 });
    assert_ne!(a, later);
    assert_ne!(b, later);
    let round = generate_mod_uuid(UuidSeed { secs: 1, nanos: 3, pid: 3, seq: 4 + 0x1_0000 });
    assert_ne!(a, round);
}

#[test]
fn normalizing_twice_changes_nothing() {
    for path in ["\\Data\\Meshes\\", "///a//b///", "a", "", "/"] {
        let once = normalize_path(path);
        assert_eq!(normalize_path(&once), once);
        assert!(!once.starts_with('/') && !once.ends_with('/') && !once.contains('\\'));
    }
}

#[test]
fn lowercase_forms_agree() {
    let form = normalize_path_lowercase("/Textures\\Armor/Helmet.DDS\\");
    assert_eq!(form, "/textures/armor/helmet.dds/");
    assert_eq!(normalize_path_lowercase(&form), form);
    assert_eq!(normalize_path_lowercase("/TEXTURES/armor\\helmet.dds/"), form);
}

#[test]
fn detected_roots_are_the_best() {
    assert_eq!(detect_data_root(&[]), None);
    assert_eq!(detect_data_root(&texts(&["docs/readme.txt"])), None);
    let indicated = texts(&["Data/textures/a.dds", "Data/b.esp", "meshes/c.nif"]);
    assert_eq!(detect_data_root(&indicated), Some(String::new()));
    let several = texts(&["one/textures/a.dds", "Data/b.esp", "two/meshes/c.nif"]);
    assert_eq!(detect_data_root(&several), Some("data".to_string()));
    let lone = texts(&["/textures/a.dds", "/meshes/b.nif", "Mod/textures/c.dds"]);
    assert_eq!(detect_data_root(&lone), Some("mod".to_string()));
}

#[test]
fn nothing_is_installed_outside() {
    let entries = texts(&["a/b.txt", "../c.txt", "a/../../d.txt"]);
    let files = vec![file("a", ""), file("..", "x"), file("a/b.txt", "../../e.txt")];
    for planned in install_fomod(&entries, &files) {
        assert!(is_safe_relative_path(&planned.destination), "{}", planned.destination);
    }
    let plan = install_fomod(&entries, &[file("a/b.txt", "Data/meshes/b.txt")].to_vec());
    assert_eq!(plan.len(), 1);
    assert_eq!((plan[0].index, plan[0].destination.as_str()), (0, "meshes/b.txt"));
}

#[test]
fn a_prefix_that_is_stripped_ends_in_a_slash() {
    let root = find_data_root_in_paths(&["Mod/textures/a.dds", "Mod/b.esp"]);
    assert_eq!(root, "mod/");
    let root = scored::find_data_root_in_paths(&["Mod/Data/textures/a.dds", "Mod/readme.txt"]);
    assert_eq!(root, "Mod/Data/");
    assert_eq!(find_data_root_in_paths(&["a.esp", "textures/a.dds"]), "");
    assert_eq!(detect_data_root(&texts(&["Mod/textures/a.dds"])).as_deref(), Some("mod"));
    assert_eq!(detect_data_root(&[]), None);
}

#[test]
fn the_fomod_directory_decides_the_prefix() {
    let paths = ["W/fomod/ModuleConfig.xml", "W/variant/textures/a.dds"];
    assert_eq!(find_data_root_in_paths(&paths), "W/");
}

#[test]
fn packages_are_recognised_by_two_numbered_directories() {
    let one = ["00 Core/a.esp", "docs/readme.txt"];
    assert!(!is_bain_archive(&one));
    let two = ["01 Extra/b.esp", "00_Core/a.esp"];
    assert!(is_bain_archive(&two));
    match build_data_archive_plan(&two) {
        DataArchivePlan::Bain { top_dirs } => assert_eq!(top_dirs, vec!["00_Core", "01 Extra"]),
        _ => panic!("not recognised"),
    }
}

#[test]
fn a_link_is_read_back() {
    let link = "nxm://skyrimspecialedition/mods/266/files/1000?key=k&expires=99&user_id=7";
    let parsed = NxmUrl::parse(link).unwrap();
    assert_eq!(parsed.game_domain, "skyrimspecialedition");
    assert_eq!((parsed.mod_id, parsed.file_id), (266, 1000));
    assert_eq!(parsed.key.as_deref(), Some("k"));
}

#[test]
fn paths_are_taken_apart_and_joined() {
    assert_eq!(join("/a/", "b"), "/a/b");
    assert_eq!(join("/a", "/b"), "/b");
    assert_eq!(join("", "b"), "b");
    assert_eq!(file_name("/a/b.tar.gz/").as_deref(), Some("b.tar.gz"));
    assert_eq!(file_name("/a/.."), None);
    assert_eq!(parent("/a/b").as_deref(), Some("/a"));
    assert_eq!(parent("/"), None);
    assert_eq!(file_stem("/a/b.tar.gz").as_deref(), Some("b.tar"));
    assert_eq!(extension("/a/.hidden"), None);
    assert_eq!(with_extension("/a/b.zip", "part"), "/a/b.part");
    assert!(path_less("a/b", "a.txt"));
}

#[test]
fn text_is_taken_apart() {
    assert_eq!(lines("a\r\nb\n\nc"), vec!["a", "b", "", "c"]);
    assert_eq!(split("a//b", '/'), vec!["a", "", "b"]);
    assert_eq!(trim("\u{2003} x\t\n"), "x");
}

#[test]
fn higher_priorities_are_written_later() {
    let entries = texts(&["a/x.dds", "b/x.dds", "c/x.dds"]);
    let mut files = vec![file("a", ""), file("b", ""), file("c", "")];
    files[0].priority = 1;
    let plan = install_fomod(&entries, &files);
    let last = plan.iter().rev().find(|p| p.destination == "x.dds").unwrap();
    assert_eq!(entries[last.index], "a/x.dds");
    files[0].priority = 0;
    let plan = install_fomod(&entries, &files);
    let last = plan.iter().rev().find(|p| p.destination == "x.dds").unwrap();
    assert_eq!(entries[last.index], "c/x.dds");
}
