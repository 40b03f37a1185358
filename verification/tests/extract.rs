//! Extracting archives, finding configurations in them, and decoding them.
use linkmm::installer::archive::{
    extract_single_7z_file, extract_single_rar_file, read_archive_files_bytes, ReadRequest,
};
use linkmm::installer::decode::decode_fomod_xml;
use linkmm::installer::extract::{
    archive_kind, extract_7z_archive_to, extract_zip_to, hidden_extract_dir_name,
    merge_directory_into, move_from_extracted_to, normalize_paths_to_lowercase, prefix_directory,
    progress_is_due, rar_move_source, seven_zip_failure, temp_extract_dir_name, ArchiveEntry,
    ArchiveKind, ExtractedArchive, LowercaseStep, MergeStep, Placement,
};
use linkmm::installer::fomod::{
    find_extracted_config, find_fomod_config_in_dir, parse_fomod_from_extracted,
};
use linkmm::installer::types::{
    ActiveFlags, DependencyOperator, FlagDependency, PluginDependencies,
};

fn texts(list: &[&str]) -> Vec<String> {
    list.iter().map(|s| s.to_string()).collect()
}

fn entry(name: &str, size: u64) -> ArchiveEntry {
    ArchiveEntry { name: name.to_string(), directory: name.ends_with('/'), size }
}

fn put(placement: &Placement) -> Option<&str> {
    match placement {
        Placement::Put(rel) => Some(rel.as_str()),
        _ => None,
    }
}

#[test]
fn seven_zip_entries_are_placed_without_regard_to_case() {
    let entries = vec![
        entry("Wrapper\\Data\\Textures\\Sky.dds", 10),
        entry("WRAPPER/data/plugin.esp", 5),
        entry("elsewhere/readme.txt", 7),
        entry("wrapper/data/../../../etc/passwd", 3),
        entry("wrapper/Data/", 0),
    ];
    let extraction = extract_7z_archive_to(&entries, "wrapper/data/");
    assert_eq!(extraction.total_bytes, 25);
    let steps = &extraction.steps;
    assert_eq!(put(&steps[0].placement), Some("Textures/Sky.dds"));
    assert_eq!(put(&steps[1].placement), Some("plugin.esp"));
    assert!(matches!(steps[2].placement, Placement::Skip));
    assert!(matches!(steps[3].placement, Placement::Unsafe(_)));
    assert!(matches!(steps[4].placement, Placement::Skip));
    assert!(steps[4].directory && !steps[0].directory);
    let done: Vec<u64> = steps.iter().map(|s| s.bytes_done).collect();
    assert_eq!(done, vec![0, 10, 15, 22, 25]);
}

#[test]
fn zip_entries_outside_the_prefix_are_left_out() {
    let entries = vec![entry("Mod/", 0), entry("Mod/a.esp", 4), entry("../b.esp", 4)];
    let extraction = extract_zip_to(&entries, "Mod/");
    assert!(matches!(extraction.steps[0].placement, Placement::Skip));
    assert_eq!(put(&extraction.steps[1].placement), Some("a.esp"));
    assert!(put(&extraction.steps[2].placement).is_none());
    let whole = extract_zip_to(&entries, "");
    assert!(matches!(whole.steps[2].placement, Placement::Unsafe(_)));
    assert_eq!(whole.total_bytes, 8);
}

#[test]
fn extracted_files_are_moved_behind_their_prefix() {
    let moved = move_from_extracted_to(
        &texts(&["MyMod/Meshes/a.nif", "mymod/b.esp", "other/c.esp", "MyMod/../../d"]),
        "MyMod/",
    );
    assert_eq!(put(&moved[0]), Some("Meshes/a.nif"));
    assert_eq!(put(&moved[1]), Some("b.esp"));
    assert!(matches!(moved[2], Placement::Skip));
    assert!(matches!(moved[3], Placement::Unsafe(_)));
}

#[test]
fn progress_is_reported_every_so_often() {
    assert!(!progress_is_due(49));
    assert!(progress_is_due(50));
}

#[test]
fn a_cancelled_extraction_is_reported_as_such() {
    assert_eq!(seven_zip_failure("/a.7z", "io: Cancelled by user"), "Cancelled by user");
    assert_eq!(
        seven_zip_failure("/a.7z", "bad header"),
        "Failed to extract 7z archive /a.7z: bad header"
    );
}

#[test]
fn the_name_decides_how_an_archive_is_read() {
    assert!(archive_kind("/d/a.ZIP") == ArchiveKind::Zip);
    assert!(archive_kind("/d/a.Rar") == ArchiveKind::Rar);
    assert!(archive_kind("/d/a.7z") == ArchiveKind::SevenZip);
    assert!(archive_kind("/d/a") == ArchiveKind::SevenZip);
}

#[test]
fn a_rar_prefix_counts_where_it_exists() {
    assert_eq!(prefix_directory("/tmp/x", "a//b/"), "/tmp/x/a/b");
    assert_eq!(rar_move_source("/tmp/x", "a/b/", true), "/tmp/x/a/b");
    assert_eq!(rar_move_source("/tmp/x", "a/b/", false), "/tmp/x");
    assert_eq!(rar_move_source("/tmp/x", "", true), "/tmp/x");
}

#[test]
fn temporary_directories_differ_by_attempt() {
    assert_eq!(temp_extract_dir_name(7, 123, 0), "linkmm_extract_7_123_0");
    assert_eq!(hidden_extract_dir_name(7, 123, 4), ".linkmm_tmp_7_123_4");
    assert_ne!(temp_extract_dir_name(7, 123, 1), temp_extract_dir_name(7, 123, 11));
}

#[test]
fn an_extracted_archive_is_cleaned_up_once() {
    let paths = texts(&["__MACOSX/x", "Data\\a.esp", "readme.txt"]);
    let mut archive =
        ExtractedArchive::from_archive_in("/mods", ".linkmm_tmp_1_2_0", Ok(()), &paths).unwrap();
    assert_eq!(archive.dir(), "/mods/.linkmm_tmp_1_2_0");
    assert_eq!(archive.entries(), &texts(&["Data/a.esp", "readme.txt"]));
    assert_eq!(archive.cleanup().as_deref(), Some("/mods/.linkmm_tmp_1_2_0"));
    assert_eq!(archive.cleanup(), None);
    assert_eq!(archive.dir(), "/mods/.linkmm_tmp_1_2_0");

    let failed = ExtractedArchive::from_archive("/tmp/x".to_string(), Err("broken".into()), &paths);
    assert_eq!(failed.err().as_deref(), Some("broken"));
}

#[test]
fn names_become_lowercase_without_overwriting() {
    let step = |n, d, e, t| normalize_paths_to_lowercase(n, d, e, t);
    assert!(matches!(step("meshes", true, true, true), LowercaseStep::Keep));
    assert!(matches!(step("MESHES", true, false, false), LowercaseStep::Rename(n) if n == "meshes"));
    assert!(matches!(step("Meshes", true, true, true), LowercaseStep::Merge(n) if n == "meshes"));
    assert!(matches!(step("A.ESP", false, true, false), LowercaseStep::Keep));
    assert!(matches!(step("ÄRGER.DDS", false, false, false), LowercaseStep::Rename(n) if n == "ärger.dds"));
    assert!(matches!(merge_directory_into("B.esp", false, false, false), MergeStep::Move(n) if n == "b.esp"));
    assert!(matches!(merge_directory_into("Sub", true, true, true), MergeStep::Descend(n) if n == "sub"));
    assert!(matches!(merge_directory_into("Sub", true, true, false), MergeStep::Skip));
}

#[test]
fn single_files_are_found_by_their_names() {
    let names = texts(&["fomod/Info.xml", "FOMOD\\ModuleConfig.xml"]);
    assert_eq!(extract_single_rar_file("/a.rar", &names, "fomod/moduleconfig.XML"), Ok(1));
    assert_eq!(
        extract_single_rar_file("/a.rar", &names, "x.txt"),
        Err("File 'x.txt' not found in RAR archive /a.rar".to_string())
    );
    assert!(extract_single_7z_file("FOMOD\\Image.PNG", false, "fomod/image.png"));
    assert!(!extract_single_7z_file("fomod/image.png", true, "fomod/image.png"));
    assert!(!extract_single_7z_file("fomod/other.png", false, "fomod/image.png"));
}

#[test]
fn several_requests_are_answered_each_by_its_entry() {
    let entries = vec![entry("fomod/", 0), entry("Fomod/Images/A.png", 3), entry("b.png", 2)];
    let answers = read_archive_files_bytes(&entries, &["b.png", "missing.png", "fomod/images/a.png"]);
    let found: Vec<(usize, usize)> =
        answers.iter().map(|r: &ReadRequest| (r.request, r.entry)).collect();
    assert_eq!(found, vec![(0, 2), (2, 1)]);
}

#[test]
fn the_configuration_of_an_extracted_archive_is_found() {
    let entries = texts(&["Wrapper/readme.txt", "Wrapper/FOMOD/ModuleConfig.xml"]);
    assert_eq!(find_extracted_config(&entries), Ok("Wrapper/FOMOD/ModuleConfig.xml".to_string()));
    assert_eq!(
        find_extracted_config(&texts(&["a.esp"])),
        Err("No fomod/ModuleConfig.xml found in extracted archive".to_string())
    );
    let files = texts(&["x/readme.txt", "x/Fomod/moduleconfig.xml"]);
    assert_eq!(find_fomod_config_in_dir(&files).as_deref(), Some("x/Fomod/moduleconfig.xml"));
    assert_eq!(find_fomod_config_in_dir(&texts(&["x/readme.txt"])), None);
}

#[test]
fn a_configuration_without_a_name_takes_that_of_the_archive() {
    let config = parse_fomod_from_extracted("My Mod", b"<config></config>").unwrap();
    assert_eq!(config.mod_name.as_deref(), Some("My Mod"));
    let named = b"<config><moduleName>Own Name</moduleName></config>";
    let config = parse_fomod_from_extracted("My Mod", named).unwrap();
    assert_eq!(config.mod_name.as_deref(), Some("Own Name"));
    assert!(parse_fomod_from_extracted("My Mod", &[0xff, 0xfe, 0x41]).is_err());
}

#[test]
fn text_in_every_encoding_is_read_back() {
    let text = "<a>Grüße € \u{1F600} end</a>";
    let mut little = vec![0xff, 0xfe];
    let mut big = vec![0xfe, 0xff];
    for unit in text.encode_utf16() {
        little.extend_from_slice(&unit.to_le_bytes());
        big.extend_from_slice(&unit.to_be_bytes());
    }
    assert_eq!(decode_fomod_xml(&little).as_deref(), Ok(text));
    assert_eq!(decode_fomod_xml(&big).as_deref(), Ok(text));
    assert_eq!(decode_fomod_xml(text.as_bytes()).as_deref(), Ok(text));
    let mut marked = vec![0xef, 0xbb, 0xbf];
    marked.extend_from_slice(text.as_bytes());
    assert_eq!(decode_fomod_xml(&marked).as_deref(), Ok(text));
    // Not UTF-8, so each byte stands for itself in Windows-1252.
    assert_eq!(decode_fomod_xml(&[0x80, 0x41, 0x81]).as_deref(), Ok("\u{20AC}A\u{FFFD}"));
    // A surrogate that stands alone.
    assert_eq!(
        decode_fomod_xml(&[0xff, 0xfe, 0x00, 0xd8]),
        Err("UTF-16 LE decode error: invalid utf-16: lone surrogate found".to_string())
    );
}

#[test]
fn dependencies_hold_in_any_case() {
    let deps = PluginDependencies {
        operator: DependencyOperator::And,
        flags: vec![FlagDependency { flag: "Größe".to_string(), value: "On".to_string() }],
    };
    let mut flags = ActiveFlags::new();
    flags.insert("GRÖßE".to_string(), "ON".to_string());
    assert!(deps.evaluate(&flags));
    assert_eq!(flags.get("größe").map(|v| v.as_str()), Some("on"));
    flags.remove("Größe");
    assert!(!deps.evaluate(&flags));
    // No condition at all: every one of them holds, none of them does.
    let none = PluginDependencies { operator: DependencyOperator::And, flags: vec![] };
    assert!(none.evaluate(&flags));
    let none = PluginDependencies { operator: DependencyOperator::Or, flags: vec![] };
    assert!(!none.evaluate(&flags));
}
