//! Archives as trees, registration, logging, and the rules between them.
use std::io::{Cursor, Write};

use linkmm::archive::{detect_format, ArchiveFormat, ListingError, VirtualTree};
use linkmm::installer::registration::{
    check_selection, install_data_archive_non_zip, install_data_from_extracted,
    install_mod_from_archive, install_mod_from_archive_with_nexus, install_mod_from_extracted,
    install_zip_data_mod, InstallRequest,
};
use linkmm::installer::types::{FomodFile, InstallStrategy};
use linkmm::logger::{get_logs, span, Level, LogBuffer, LogEntry};
use linkmm::mods::{ModDatabase, UuidSeed};

fn texts(list: &[&str]) -> Vec<String> {
    list.iter().map(|s| s.to_string()).collect()
}

fn tree_of_zip(entries: &[(&str, &[u8])]) -> VirtualTree {
    let mut writer = zip::ZipWriter::new(Cursor::new(Vec::new()));
    let options = zip::write::SimpleFileOptions::default()
        .compression_method(zip::CompressionMethod::Stored);
    for &(name, content) in entries {
        writer.start_file(name, options).unwrap();
        writer.write_all(content).unwrap();
    }
    let archive = writer.finish().unwrap().into_inner();
    let zip = zip::ZipArchive::new(Cursor::new(archive)).unwrap();
    let names = zip.file_names().map(|s| s.to_string()).collect();
    VirtualTree::from_archive("/tmp/test.zip", Ok(names)).unwrap()
}

#[test]
fn virtual_tree_from_zip_lists_all_entries() {
    let tree = tree_of_zip(&[
        ("textures/sky.dds", b"dds"),
        ("meshes/rock.nif", b"nif"),
        ("plugin.esp", b"esp"),
    ]);
    assert_eq!(tree.len(), 3);
    assert_eq!(tree.format(), ArchiveFormat::Zip);
    assert!(!tree.is_empty());
    assert_eq!(tree.entry_refs(), tree.entries().iter().map(|s| s.as_str()).collect::<Vec<_>>());
}

#[test]
fn virtual_tree_detects_fomod_at_root() {
    let tree =
        tree_of_zip(&[("fomod/ModuleConfig.xml", b"<config/>"), ("textures/sky.dds", b"dds")]);
    assert!(tree.has_fomod_config());
    assert_eq!(tree.find_fomod_parent(), Some(String::new()));
}

#[test]
fn virtual_tree_detects_fomod_under_wrapper() {
    let tree = tree_of_zip(&[
        ("MyMod/fomod/ModuleConfig.xml", b"<config/>"),
        ("MyMod/textures/sky.dds", b"dds"),
    ]);
    assert!(tree.has_fomod_config());
    assert_eq!(tree.find_fomod_parent(), Some("MyMod".to_string()));
}

#[test]
fn virtual_tree_no_fomod() {
    let tree = tree_of_zip(&[("textures/sky.dds", b"dds")]);
    assert!(!tree.has_fomod_config());
    assert_eq!(tree.find_fomod_parent(), None);
}

#[test]
fn virtual_tree_from_7z_lists_entries() {
    let mut writer = sevenz_rust2::ArchiveWriter::new(Cursor::new(Vec::new())).unwrap();
    for name in ["textures/sky.dds", "plugin.esp"] {
        writer
            .push_archive_entry(
                sevenz_rust2::ArchiveEntry::new_file(name),
                Some(name.as_bytes()),
            )
            .unwrap();
    }
    let archive = writer.finish().unwrap().into_inner();
    let reader =
        sevenz_rust2::ArchiveReader::new(Cursor::new(archive), sevenz_rust2::Password::empty())
            .unwrap();
    let names = reader.archive().files.iter().map(|f| f.name().to_string()).collect();
    let tree = VirtualTree::from_archive("/tmp/test.7z", Ok(names)).unwrap();
    assert!(tree.len() >= 2);
    assert_eq!(tree.format(), ArchiveFormat::SevenZ);
}

#[test]
fn archive_format_display() {
    assert_eq!(ArchiveFormat::Zip.name(), "zip");
    assert_eq!(ArchiveFormat::SevenZ.name(), "7z");
    assert_eq!(ArchiveFormat::Rar.name(), "rar");
}

#[test]
fn formats_follow_the_extension() {
    assert_eq!(detect_format("/a/b.ZIP"), ArchiveFormat::Zip);
    assert_eq!(detect_format("b.rar"), ArchiveFormat::Rar);
    assert_eq!(detect_format("b.tar.gz"), ArchiveFormat::SevenZ);
    assert_eq!(detect_format("b"), ArchiveFormat::SevenZ);
    let error = |e: ListingError| VirtualTree::from_archive("b.rar", Err(e)).unwrap_err();
    assert_eq!(error(ListingError::Open("x".to_string())), "Cannot open rar archive b.rar: x");
    assert_eq!(error(ListingError::Read("x".to_string())), "Cannot read rar archive b.rar: x");
}

#[test]
fn a_configuration_is_found_exactly_where_its_directory_is() {
    for paths in [
        vec!["/FOMOD/moduleconfig.XML"],
        vec!["a\\fomod\\ModuleConfig.xml"],
        vec!["xfomod/ModuleConfig.xml"],
        vec!["fomod/ModuleConfig.xml.bak", "//fomod/ModuleConfig.xml"],
        vec![],
    ] {
        let tree = VirtualTree::from_archive("a.zip", Ok(texts(&paths))).unwrap();
        assert_eq!(tree.has_fomod_config(), tree.find_fomod_parent().is_some());
    }
    let deep = VirtualTree::from_archive("a.7z", Ok(texts(&["A/b/fomod/ModuleConfig.xml"]))).unwrap();
    assert_eq!(deep.find_fomod_parent().as_deref(), Some("A/b"));
}

#[test]
fn span_measures_elapsed_time() {
    let s = span("test_operation", "context=unit_test");
    assert!(!s.name.is_empty());
    assert_eq!(s.started(), "[Span] test_operation started | context=unit_test");
    assert_eq!(
        s.completed("0.125"),
        "[Span] test_operation completed in 0.125s | context=unit_test"
    );
    assert_eq!(span("a", "").completed("1.000"), "[Span] a completed in 1.000s");
}

fn entry(level: Level, secs: u64, message: &str) -> LogEntry {
    LogEntry { timestamp_secs: secs, level, message: message.to_string() }
}

#[test]
fn log_entry_level_str_covers_all_levels() {
    assert_eq!(entry(Level::Debug, 0, "test").level_str(), "DEBUG");
    assert_eq!(entry(Level::Trace, 0, "test").level_str(), "TRACE");
    assert_eq!(entry(Level::Error, 0, "test").level_str(), "ERROR");
    assert_eq!(entry(Level::Warn, 0, "test").level_str(), "WARN ");
    assert_eq!(entry(Level::Info, 0, "test").level_str(), "INFO ");
}

#[test]
fn times_are_written_in_utc() {
    assert_eq!(entry(Level::Info, 0, "").time_str(), "00:00:00 UTC");
    assert_eq!(entry(Level::Info, 86_399, "").time_str(), "23:59:59 UTC");
    assert_eq!(entry(Level::Info, 1_700_000_000, "").time_str(), "22:13:20 UTC");
}

#[test]
fn the_log_keeps_the_latest_messages() {
    let mut buffer = LogBuffer::new();
    for n in 0..10_002u64 {
        buffer.log(entry(Level::Debug, n, "m"));
        buffer.log(entry(Level::Trace, n, "t"));
    }
    let logs = get_logs(&buffer);
    assert_eq!(logs.len(), 10_000);
    assert_eq!(logs[0].timestamp_secs, 2);
    assert_eq!(logs[9_999].timestamp_secs, 10_001);
    assert!(logs.iter().all(|e| e.level == Level::Debug));
}

#[test]
fn archives_are_extracted_in_passes() {
    let bain = install_zip_data_mod(&["00 Core/textures/a.dds", "10 Optional/textures/b.dds"]);
    let passes: Vec<(&str, bool)> =
        bain.passes.iter().map(|p| (p.prefix.as_str(), p.into_data)).collect();
    assert_eq!(passes, vec![("00 Core/", true), ("10 Optional/", true)]);
    assert!(bain.lowercase_data);

    let root_level = ["Wrapper/d3d11.dll", "Wrapper/enbseries/effect.txt"];
    let root = install_zip_data_mod(&root_level);
    assert_eq!(root.passes.len(), 1);
    assert!(!root.passes[0].into_data);
    assert!(!root.lowercase_data);
    assert!(install_data_archive_non_zip(&root_level).lowercase_data);

    let data = install_data_from_extracted(&["MyMod/Data/textures/sky.dds", "MyMod/Data/m.esp"]);
    assert_eq!(data.passes.len(), 1);
    assert!(data.passes[0].into_data);
    assert_eq!(data.passes[0].prefix, "MyMod/");
}

fn request(nexus_id: Option<u32>) -> InstallRequest<'static> {
    InstallRequest {
        mod_name: "Mod",
        mod_dir: "/mods/x",
        seed: UuidSeed { secs: 1, nanos: 2, pid: 3, seq: 4 },
        nexus_id,
        archive_name: Some("given.zip"),
    }
}

fn fomod(sources: &[&str]) -> InstallStrategy {
    InstallStrategy::Fomod(
        sources
            .iter()
            .map(|s| FomodFile { source: s.to_string(), destination: String::new(), priority: 0 })
            .collect(),
    )
}

#[test]
fn installed_mods_are_registered_with_their_origin() {
    let mut db = ModDatabase::default();
    let path = "/downloads/Great Mod.7z";
    let m = install_mod_from_archive(
        &mut db,
        path,
        &InstallStrategy::Data,
        Ok(false),
        request(Some(5)),
    )
    .unwrap();
    assert_eq!(m.archive_name.as_deref(), Some("Great Mod.7z"));
    assert!(!m.installed_from_nexus);
    let m = install_mod_from_archive_with_nexus(
        &mut db,
        path,
        &fomod(&["a"]),
        Ok(true),
        request(Some(266)),
    )
    .unwrap();
    assert!(m.installed_from_nexus);
    assert_eq!(m.nexus_id, Some(266));
    assert_eq!(db.mods.len(), 1);
    assert_eq!(db.mods[0].source_path, "/mods/x");
    let m =
        install_mod_from_extracted(&mut db, &InstallStrategy::Data, Ok(true), request(None))
            .unwrap();
    assert_eq!(m.archive_name.as_deref(), Some("given.zip"));
}

#[test]
fn nothing_is_registered_where_nothing_is_installed() {
    let mut db = ModDatabase::default();
    let mut error = |strategy: InstallStrategy, extracted: Result<bool, String>| {
        install_mod_from_extracted(&mut db, &strategy, extracted, request(None)).unwrap_err()
    };
    assert_eq!(
        error(fomod(&[]), Ok(true)),
        "No files selected for installation. FOMOD configuration may be invalid or no options were selected."
    );
    assert_eq!(
        error(fomod(&["a"]), Ok(false)),
        "No files were installed. FOMOD file paths may not match archive contents."
    );
    assert_eq!(error(fomod(&["a"]), Err("full".to_string())), "full");
    assert_eq!(error(InstallStrategy::Data, Err("full".to_string())), "full");
    assert!(db.mods.is_empty());
    assert!(check_selection(&fomod(&[])).is_err());
    assert!(check_selection(&InstallStrategy::Data).is_ok());
}
