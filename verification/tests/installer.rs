//! Installing from archives.
use std::collections::BTreeMap;
use std::io::{Cursor, Read, Write};

use linkmm::installer::archive::{
    read_archive_file_bytes, read_archive_file_bytes_non_zip, read_archive_files_bytes_non_zip,
};
use linkmm::installer::decode::decode_fomod_xml;
use linkmm::installer::extract::{
    extract_zip_to, merge_directory_into, normalize_paths_to_lowercase, ArchiveEntry,
    LowercaseStep, MergeStep, Placement,
};
use linkmm::installer::fomod::{
    find_fomod_entry, parse_fomod_from_archive, parse_fomod_from_zip, parse_fomod_xml,
    resolve_file_conflicts,
};
use linkmm::installer::heuristics::{
    archive_has_data_folder, build_data_archive_plan, detect_data_root, detect_strategy,
    find_data_root_in_paths, find_fomod_parent_dir, score_as_data_root_owned, xml_entries,
};
use linkmm::installer::install::{files_to_extract, install_fomod, install_fomod_files_from_dir};
use linkmm::installer::parser::config_from_events;
use linkmm::installer::paths::{
    is_safe_relative_path, normalize_path_lowercase, strip_data_prefix,
};
use linkmm::installer::registration::{list_archive_entries_with_7z, Lister};
use linkmm::installer::types::{
    ActiveFlags, ConditionFlag, DataArchivePlan, DependencyOperator, FlagDependency, FomodFile,
    InstallStrategy, PluginDependencies,
};
use linkmm::installer::xml::{XmlElement, XmlEvent};

fn texts(list: &[&str]) -> Vec<String> {
    list.iter().map(|s| s.to_string()).collect()
}

/// A zip archive that holds the entries; names with a slash at their end are
/// directories.
fn create_test_zip(entries: &[(&str, &[u8])]) -> Vec<u8> {
    let mut writer = zip::ZipWriter::new(Cursor::new(Vec::new()));
    let options = zip::write::SimpleFileOptions::default()
        .compression_method(zip::CompressionMethod::Stored);
    for &(name, content) in entries {
        if name.ends_with('/') {
            writer.add_directory(name, options).unwrap();
        } else {
            writer.start_file(name, options).unwrap();
            writer.write_all(content).unwrap();
        }
    }
    writer.finish().unwrap().into_inner()
}

fn zip_names(archive: &[u8]) -> Vec<String> {
    let zip = zip::ZipArchive::new(Cursor::new(archive)).unwrap();
    zip.file_names().map(|s| s.to_string()).collect()
}

fn zip_listing(archive: &[u8]) -> Vec<ArchiveEntry> {
    let mut zip = zip::ZipArchive::new(Cursor::new(archive)).unwrap();
    (0..zip.len())
        .map(|i| {
            let entry = zip.by_index(i).unwrap();
            ArchiveEntry {
                name: entry.name().to_string(),
                directory: entry.is_dir(),
                size: entry.size(),
            }
        })
        .collect()
}

fn zip_bytes(archive: &[u8], name: &str) -> Vec<u8> {
    let mut zip = zip::ZipArchive::new(Cursor::new(archive)).unwrap();
    let mut entry = zip.by_name(name).unwrap();
    let mut bytes = Vec::new();
    entry.read_to_end(&mut bytes).unwrap();
    bytes
}

/// A 7z archive that holds the files.
fn create_7z(files: &[(&str, &[u8])]) -> Vec<u8> {
    let mut writer = sevenz_rust2::ArchiveWriter::new(Cursor::new(Vec::new())).unwrap();
    for &(name, content) in files {
        writer
            .push_archive_entry(sevenz_rust2::ArchiveEntry::new_file(name), Some(content))
            .unwrap();
    }
    writer.finish().unwrap().into_inner()
}

const SKY_CONFIG: &[u8] = br#"<config>
  <requiredInstallFiles>
    <file source="Data/textures/sky.dds" destination="Data/textures/sky.dds" />
  </requiredInstallFiles>
</config>"#;

fn create_test_7z() -> Vec<u8> {
    create_7z(&[
        ("fomod/ModuleConfig.xml", SKY_CONFIG),
        ("Data/textures/sky.dds", b"dds"),
    ])
}

fn create_test_7z_with_image() -> Vec<u8> {
    create_7z(&[
        ("fomod/images/preview.png", b"pngdata"),
        ("Data/textures/sky.dds", b"dds"),
    ])
}

fn names_in_7z(archive: &[u8]) -> Option<Vec<String>> {
    let reader =
        sevenz_rust2::ArchiveReader::new(Cursor::new(archive), sevenz_rust2::Password::empty())
            .ok()?;
    Some(reader.archive().files.iter().map(|f| f.name().to_string()).collect())
}

fn bytes_in_7z(archive: &[u8], name: &str) -> Vec<u8> {
    let mut reader =
        sevenz_rust2::ArchiveReader::new(Cursor::new(archive), sevenz_rust2::Password::empty())
            .unwrap();
    reader.read_file(name).unwrap()
}

/// What stands below a directory, by its path.
type Tree = BTreeMap<String, Vec<u8>>;

/// Extracts a zip archive below `dest`.
fn extract(archive: &[u8], dest: &str, strip_prefix: &str) -> Tree {
    let entries = zip_listing(archive);
    let plan = extract_zip_to(&entries, strip_prefix);
    let mut tree = Tree::new();
    for (entry, step) in entries.iter().zip(plan.steps.iter()) {
        if let Placement::Put(path) = &step.placement {
            if !step.directory {
                tree.insert(format!("{dest}/{path}"), zip_bytes(archive, &entry.name));
            }
        }
    }
    tree
}

fn file(source: &str, destination: &str, priority: i32) -> FomodFile {
    FomodFile { source: source.to_string(), destination: destination.to_string(), priority }
}

fn has_dir(tree: &Tree, dir: &str) -> bool {
    let prefix = format!("{dir}/");
    tree.keys().any(|k| k.starts_with(&prefix))
}

/// A directory tree whose names are turned into lowercase.
enum Node {
    File(Vec<u8>),
    Dir(BTreeMap<String, Node>),
}

fn to_nodes(tree: &Tree) -> BTreeMap<String, Node> {
    let mut root = BTreeMap::new();
    for (path, bytes) in tree {
        let mut dir = &mut root;
        let parts: Vec<&str> = path.split('/').collect();
        for part in &parts[..parts.len() - 1] {
            let next = dir.entry(part.to_string()).or_insert_with(|| Node::Dir(BTreeMap::new()));
            dir = match next {
                Node::Dir(d) => d,
                Node::File(_) => panic!("{path} lies below a file"),
            };
        }
        dir.insert(parts[parts.len() - 1].to_string(), Node::File(bytes.clone()));
    }
    root
}

fn from_nodes(dir: &BTreeMap<String, Node>, at: &str, tree: &mut Tree) {
    for (name, node) in dir {
        let path = if at.is_empty() { name.clone() } else { format!("{at}/{name}") };
        match node {
            Node::File(bytes) => {
                tree.insert(path, bytes.clone());
            }
            Node::Dir(d) => from_nodes(d, &path, tree),
        }
    }
}

fn is_dir(node: Option<&Node>) -> bool {
    matches!(node, Some(Node::Dir(_)))
}

fn merge_nodes(from: BTreeMap<String, Node>, into: &mut BTreeMap<String, Node>) {
    for (name, node) in from {
        let target = into.get(&name.to_lowercase());
        let step = merge_directory_into(
            &name,
            is_dir(Some(&node)),
            target.is_some(),
            is_dir(target),
        );
        match (step, node) {
            (MergeStep::Move(lower), node) => {
                into.insert(lower, node);
            }
            (MergeStep::Descend(lower), Node::Dir(d)) => {
                if let Some(Node::Dir(t)) = into.get_mut(&lower) {
                    merge_nodes(d, t);
                }
            }
            _ => {}
        }
    }
}

fn lowercase_nodes(dir: &mut BTreeMap<String, Node>) {
    let names: Vec<String> = dir.keys().cloned().collect();
    for name in names {
        let target = dir.get(&name.to_lowercase());
        let step = normalize_paths_to_lowercase(
            &name,
            is_dir(dir.get(&name)),
            target.is_some(),
            is_dir(target),
        );
        let last = match step {
            LowercaseStep::Keep => name,
            LowercaseStep::Rename(lower) => {
                let node = dir.remove(&name).unwrap();
                dir.insert(lower.clone(), node);
                lower
            }
            LowercaseStep::Merge(lower) => {
                if let Some(Node::Dir(from)) = dir.remove(&name) {
                    if let Some(Node::Dir(into)) = dir.get_mut(&lower) {
                        merge_nodes(from, into);
                    }
                }
                lower
            }
        };
        if let Some(Node::Dir(d)) = dir.get_mut(&last) {
            lowercase_nodes(d);
        }
    }
}

fn lowercased(tree: &Tree) -> Tree {
    let mut nodes = to_nodes(tree);
    lowercase_nodes(&mut nodes);
    let mut out = Tree::new();
    from_nodes(&nodes, "", &mut out);
    out
}

fn tree_of(files: &[(&str, &[u8])]) -> Tree {
    files.iter().map(|(p, b)| (p.to_string(), b.to_vec())).collect()
}

/// How the zip archive is installed.
fn zip_strategy(archive: &[u8]) -> InstallStrategy {
    let names = zip_names(archive);
    let contents = xml_entries(&names).iter().map(|n| zip_bytes(archive, n)).collect();
    detect_strategy(&names, &contents)
}

/// How the 7z archive is installed; one that cannot be read lists nothing.
fn strategy_of_7z(archive: &[u8]) -> InstallStrategy {
    let names = names_in_7z(archive).unwrap_or_default();
    let contents = xml_entries(&names).iter().map(|n| bytes_in_7z(archive, n)).collect();
    detect_strategy(&names, &contents)
}

/// What is installed of the zip archive for the files.
fn install(archive: &[u8], files: Vec<FomodFile>) -> Tree {
    let names = zip_names(archive);
    let mut tree = Tree::new();
    let directories: Vec<bool> = names.iter().map(|n| n.ends_with('/')).collect();
    let plan = install_fomod(&names, &files);
    for planned in files_to_extract(plan, &names, &directories, true) {
        tree.insert(planned.destination, zip_bytes(archive, &names[planned.index]));
    }
    tree
}

#[test]
fn tests_list_archive_entries_with_7z_returns_paths() {
    assert_eq!(list_archive_entries_with_7z("list_test.7z"), Lister::SevenZip);
    assert_eq!(list_archive_entries_with_7z("list_test.RAR"), Lister::Rar);
    let entries = names_in_7z(&create_test_7z()).unwrap();
    let lower: Vec<String> =
        entries.iter().map(|p| p.to_lowercase().replace('\\', "/")).collect();
    assert!(lower.iter().any(|p| p.ends_with("fomod/moduleconfig.xml")));
    assert!(lower.iter().any(|p| p.ends_with("data/textures/sky.dds")));
}

#[test]
fn tests_detect_strategy_data_for_loose_files() {
    let archive =
        create_test_zip(&[("textures/sky.dds", b"dds"), ("meshes/rock.nif", b"nif")]);
    assert!(matches!(zip_strategy(&archive), InstallStrategy::Data));
}

#[test]
fn tests_detect_strategy_data_for_archive_with_data_folder() {
    let archive = create_test_zip(&[
        ("Data/", b""),
        ("Data/textures/sky.dds", b"dds"),
        ("Data/meshes/rock.nif", b"nif"),
    ]);
    assert!(matches!(zip_strategy(&archive), InstallStrategy::Data));
}

#[test]
fn tests_detect_strategy_non_zip_defaults_to_data() {
    let archive = b"fake";
    assert!(names_in_7z(archive).is_none());
    assert!(matches!(strategy_of_7z(archive), InstallStrategy::Data));
}

#[test]
fn tests_detect_strategy_non_zip_with_fomod_uses_fomod_strategy() {
    assert!(matches!(strategy_of_7z(&create_test_7z()), InstallStrategy::Fomod(_)));
}

#[test]
fn tests_parse_fomod_from_archive_reads_non_zip_module_config() {
    let archive = create_test_7z();
    let name = find_fomod_entry(&names_in_7z(&archive).unwrap()).unwrap();
    let cfg = parse_fomod_from_archive("mod.7z", &bytes_in_7z(&archive, &name)).unwrap();
    assert!(!cfg.required_files.is_empty());
}

#[test]
fn tests_archive_has_data_folder_flat_content() {
    let archive = create_test_zip(&[("textures/sky.dds", b"dds"), ("plugin.esp", b"esp")]);
    assert!(!archive_has_data_folder(&zip_names(&archive)));
}

#[test]
fn tests_archive_has_data_folder_direct_data_prefix() {
    let archive = create_test_zip(&[
        ("Data/", b""),
        ("Data/textures/sky.dds", b"dds"),
        ("Data/meshes/rock.nif", b"nif"),
    ]);
    assert!(!archive_has_data_folder(&zip_names(&archive)));
}

#[test]
fn tests_archive_has_data_folder_wrapped_data() {
    let archive = create_test_zip(&[
        ("MyMod/", b""),
        ("MyMod/Data/", b""),
        ("MyMod/Data/textures/sky.dds", b"dds"),
    ]);
    assert!(archive_has_data_folder(&zip_names(&archive)));
}

#[test]
fn tests_install_flat_archive_places_files_under_data_subdir() {
    let archive =
        create_test_zip(&[("textures/sky.dds", b"dds_data"), ("plugin.esp", b"esp_data")]);
    let tree = extract(&archive, "Data", "");
    assert!(tree.contains_key("Data/textures/sky.dds"));
    assert_eq!(tree["Data/plugin.esp"], b"esp_data");
}

#[test]
fn tests_install_data_folder_archive_preserves_data_subdir() {
    let archive = create_test_zip(&[("Data/", b""), ("Data/textures/sky.dds", b"dds_data")]);
    assert!(!archive_has_data_folder(&zip_names(&archive)));
    let tree = extract(&archive, "Data", "Data/");
    assert!(tree.contains_key("Data/textures/sky.dds"));
}

#[test]
fn tests_install_wrapped_data_archive_preserves_data_subdir() {
    let archive = create_test_zip(&[
        ("MyMod/", b""),
        ("MyMod/Data/", b""),
        ("MyMod/Data/textures/sky.dds", b"dds_data"),
    ]);
    assert!(archive_has_data_folder(&zip_names(&archive)));
    let tree = extract(&archive, "mod_dir", "MyMod/");
    assert!(tree.contains_key("mod_dir/Data/textures/sky.dds"));
}

#[test]
fn tests_extract_zip_strips_common_prefix() {
    let archive = create_test_zip(&[
        ("MyMod/", b""),
        ("MyMod/textures/sky.dds", b"dds_data"),
        ("MyMod/plugin.esp", b"esp_data"),
    ]);
    let tree = extract(&archive, "extracted", "MyMod/");
    assert!(tree.contains_key("extracted/textures/sky.dds"));
    assert!(tree.contains_key("extracted/plugin.esp"));
}

#[test]
fn tests_is_safe_relative_path_rejects_traversal() {
    assert!(!is_safe_relative_path("../etc/passwd"));
    assert!(!is_safe_relative_path("foo/../../bar"));
    assert!(!is_safe_relative_path("/absolute/path"));
    assert!(is_safe_relative_path("foo/bar/baz"));
    assert!(is_safe_relative_path("textures/sky.dds"));
    assert!(is_safe_relative_path("a/../a/b"));
}

#[test]
fn tests_strip_data_prefix_removes_leading_data_segment() {
    assert_eq!(strip_data_prefix("Data"), "");
    assert_eq!(strip_data_prefix("data"), "");
    assert_eq!(strip_data_prefix("DATA"), "");
    assert_eq!(strip_data_prefix("Data/"), "");
    assert_eq!(strip_data_prefix("Data/textures"), "textures");
    assert_eq!(strip_data_prefix("data/Textures/sky"), "Textures/sky");
    assert_eq!(strip_data_prefix("DATA/meshes/rock.nif"), "meshes/rock.nif");
    assert_eq!(strip_data_prefix("textures/sky.dds"), "textures/sky.dds");
    assert_eq!(strip_data_prefix(""), "");
    assert_eq!(strip_data_prefix("SomeOtherFolder"), "SomeOtherFolder");
}

#[test]
fn tests_install_fomod_files_falls_back_when_source_uses_data_prefix() {
    let archive = create_test_zip(&[
        ("fomod/", b""),
        ("fomod/ModuleConfig.xml", b"<config/>"),
        ("textures/sky.dds", b"dds_data"),
    ]);
    let tree = install(&archive, vec![file("Data/textures", "Data/textures", 0)]);
    assert!(tree.contains_key("textures/sky.dds"));
}

#[test]
fn tests_install_fomod_files_handles_source_with_trailing_slash() {
    let archive = create_test_zip(&[
        ("meshes/", b""),
        ("meshes/armor.nif", b"nif_data"),
        ("fomod/", b""),
        ("fomod/ModuleConfig.xml", b"<config/>"),
    ]);
    let tree = install(&archive, vec![file("meshes/", "Data/meshes", 0)]);
    assert!(tree.contains_key("meshes/armor.nif"));
}

#[test]
fn tests_install_fomod_files_data_root_fallback_skips_fomod_config_dir() {
    let archive = create_test_zip(&[
        ("fomod/", b""),
        ("fomod/ModuleConfig.xml", b"<config/>"),
        ("plugin.esp", b"esp_data"),
    ]);
    let tree = install(&archive, vec![file("Data", "Data", 0)]);
    assert!(tree.contains_key("plugin.esp"));
    assert!(!has_dir(&tree, "fomod"));
}

#[test]
fn tests_install_fomod_files_skips_empty_directory_entries() {
    let archive = create_test_zip(&[
        ("textures/", b""),
        ("textures/armor.dds", b"dds_data"),
        ("textures/empty/", b""),
        ("fomod/", b""),
        ("fomod/ModuleConfig.xml", b"<config/>"),
    ]);
    let tree = install(&archive, vec![file("textures", "Data/textures", 0)]);
    assert!(tree.contains_key("textures/armor.dds"));
    assert_eq!(tree.len(), 1);
}

#[test]
fn tests_install_fomod_files_matches_sources_in_wrapped_archives() {
    let archive = create_test_zip(&[
        ("Aela Replacer/", b""),
        ("Aela Replacer/00 main/", b""),
        ("Aela Replacer/00 main/AelaStandalone.esp", b"esp_data"),
        (
            "Aela Replacer/00 main/textures/Actors/Character/Aela/Head/femalehead.dds",
            b"dds_data",
        ),
        ("Aela Replacer/fomod/", b""),
        ("Aela Replacer/fomod/ModuleConfig.xml", b"<config/>"),
    ]);
    let tree = install(&archive, vec![file("00 main", "Data", 0)]);
    assert!(tree.contains_key("AelaStandalone.esp"));
    assert!(tree.contains_key("textures/Actors/Character/Aela/Head/femalehead.dds"));
}

#[test]
fn tests_parse_fomod_xml_parses_plugin_dependencies_flags_and_image() {
    let xml = br#"
        <config>
          <moduleName>Example Mod</moduleName>
          <installSteps>
            <installStep name="Variants">
              <optionalFileGroups>
                <group name="Main" type="SelectAny">
                  <plugins>
                    <plugin name="Plus Variant">
                      <description>Use plus variant</description>
                      <image path="images/plus.png"/>
                      <conditionFlags>
                        <flag name="VariantSign">+</flag>
                      </conditionFlags>
                      <dependencies operator="And">
                        <flagDependency flag="FeaturePack" value="+"/>
                      </dependencies>
                      <files>
                        <file source="plus/file.txt" destination="Data/file.txt"/>
                      </files>
                    </plugin>
                  </plugins>
                </group>
              </optionalFileGroups>
            </installStep>
          </installSteps>
        </config>
    "#;

    let cfg = parse_fomod_xml(xml).unwrap();
    let plugin = &cfg.steps[0].groups[0].plugins[0];
    assert_eq!(plugin.image_path.as_deref(), Some("images/plus.png"));
    assert_eq!(
        plugin.condition_flags,
        vec![ConditionFlag { name: "VariantSign".to_string(), value: "+".to_string() }]
    );
    assert_eq!(
        plugin.dependencies,
        Some(PluginDependencies {
            operator: DependencyOperator::And,
            flags: vec![FlagDependency {
                flag: "FeaturePack".to_string(),
                value: "+".to_string(),
            }],
        })
    );
    assert!(cfg.steps[0].visible.is_none());
    assert!(cfg.conditional_file_installs.is_empty());
}

#[test]
fn tests_parse_fomod_xml_parses_step_visibility_and_conditional_files() {
    let xml = br#"
        <config>
          <moduleName>Example Mod</moduleName>
          <installSteps>
            <installStep name="Underwear Options">
              <visible>
                <flagDependency flag="bUnderwear" value="On" />
              </visible>
              <optionalFileGroups>
                <group name="Color" type="SelectExactlyOne">
                  <plugins>
                    <plugin name="Black">
                      <files>
                        <folder source="16 Underwear" destination="" priority="0"/>
                      </files>
                    </plugin>
                  </plugins>
                </group>
              </optionalFileGroups>
            </installStep>
          </installSteps>
          <conditionalFileInstalls>
            <patterns>
              <pattern>
                <dependencies>
                  <flagDependency flag="bUnderwear" value="On"/>
                </dependencies>
                <files>
                  <folder source="22 Underwear Dark Purple" destination=""/>
                </files>
              </pattern>
            </patterns>
          </conditionalFileInstalls>
        </config>
    "#;

    let cfg = parse_fomod_xml(xml).unwrap();
    assert_eq!(cfg.steps.len(), 1);
    assert_eq!(
        cfg.steps[0].visible,
        Some(PluginDependencies {
            operator: DependencyOperator::And,
            flags: vec![FlagDependency {
                flag: "bUnderwear".to_string(),
                value: "On".to_string(),
            }],
        })
    );
    assert_eq!(cfg.conditional_file_installs.len(), 1);
    assert_eq!(
        cfg.conditional_file_installs[0].dependencies,
        PluginDependencies {
            operator: DependencyOperator::And,
            flags: vec![FlagDependency {
                flag: "bUnderwear".to_string(),
                value: "On".to_string(),
            }],
        }
    );
    assert_eq!(cfg.conditional_file_installs[0].files.len(), 1);
    assert_eq!(cfg.conditional_file_installs[0].files[0].source, "22 Underwear Dark Purple");
}

#[test]
fn tests_read_archive_file_bytes_finds_fomod_relative_image_path() {
    let archive = create_test_zip(&[
        ("MyMod/", b""),
        ("MyMod/fomod/", b""),
        ("MyMod/fomod/images/preview.png", b"pngdata"),
    ]);
    let entries = zip_listing(&archive);
    let found = read_archive_file_bytes(&entries, "images/preview.png").unwrap();
    assert_eq!(zip_bytes(&archive, &entries[found].name), b"pngdata");
}

#[test]
fn tests_read_archive_file_bytes_non_zip_finds_image() {
    let archive = create_test_7z_with_image();
    let names = names_in_7z(&archive).unwrap();
    let found = read_archive_file_bytes_non_zip(&names, "images/preview.png").unwrap();
    assert_eq!(bytes_in_7z(&archive, &names[found]), b"pngdata");
}

#[test]
fn tests_install_fomod_files_non_zip_installs_selected_files() {
    let archive = create_test_7z();
    let names = names_in_7z(&archive).unwrap();
    let directories = vec![false; names.len()];
    let plan = install_fomod_files_from_dir(
        &names,
        &directories,
        &vec![file("textures", "Data/textures", 0)],
    );
    let sky = plan.iter().find(|p| p.destination == "textures/sky.dds").unwrap();
    assert_eq!(bytes_in_7z(&archive, &names[sky.index]), b"dds");
}

#[test]
fn tests_install_fomod_files_from_dir_same_result_as_zip() {
    let entries: &[(&str, &[u8])] = &[
        ("fomod/", b""),
        ("fomod/ModuleConfig.xml", b"<config/>"),
        ("textures/sky.dds", b"dds_data"),
    ];
    let archive = create_test_zip(entries);
    let files = || vec![file("textures", "Data/textures", 0)];
    let from_zip = install(&archive, files());

    let paths = texts(&["fomod", "fomod/ModuleConfig.xml", "textures", "textures/sky.dds"]);
    let directories = vec![true, false, true, false];
    let plan = install_fomod_files_from_dir(&paths, &directories, &files());
    let placed: Vec<&str> = plan.iter().map(|p| p.destination.as_str()).collect();
    assert_eq!(placed, vec!["textures/sky.dds"]);
    assert_eq!(paths[plan[0].index], "textures/sky.dds");
    assert_eq!(from_zip["textures/sky.dds"], b"dds_data");
}

#[test]
fn tests_install_fomod_files_normalizes_uppercase_dirs_to_lowercase() {
    let archive = create_test_zip(&[
        ("fomod/", b""),
        ("fomod/ModuleConfig.xml", b"<config/>"),
        ("CalienteTools/BodySlide/SliderSets/CBBE.osp", b"osp_data"),
        ("TEXTURES/actors/character/cbbe.dds", b"dds_data"),
    ]);
    let tree = install(
        &archive,
        vec![
            file("CalienteTools", "Data/CalienteTools", 0),
            file("TEXTURES", "Data/TEXTURES", 0),
        ],
    );
    let tree = lowercased(&tree);
    assert!(tree.contains_key("calientetools/bodyslide/slidersets/cbbe.osp"));
    assert!(!has_dir(&tree, "CalienteTools"));
    assert!(tree.contains_key("textures/actors/character/cbbe.dds"));
    assert!(!has_dir(&tree, "TEXTURES"));
}

#[test]
fn tests_normalize_paths_to_lowercase_renames_uppercase_dirs() {
    let tree = lowercased(&tree_of(&[("TEXTURES/sky.dds", b"dds")]));
    assert!(tree.contains_key("textures/sky.dds"));
    assert!(!has_dir(&tree, "TEXTURES"));
}

#[test]
fn tests_normalize_paths_to_lowercase_merges_duplicate_dirs() {
    let tree = lowercased(&tree_of(&[
        ("TEXTURES/sky.dds", b"upper"),
        ("textures/ground.dds", b"lower"),
    ]));
    assert!(tree.contains_key("textures/sky.dds"));
    assert!(tree.contains_key("textures/ground.dds"));
    assert!(!has_dir(&tree, "TEXTURES"));
}

#[test]
fn tests_normalize_paths_to_lowercase_recurses_into_subdirs() {
    let tree = lowercased(&tree_of(&[("meshes/ARMOR/helm.nif", b"nif")]));
    assert!(tree.contains_key("meshes/armor/helm.nif"));
    assert!(!has_dir(&tree, "meshes/ARMOR"));
}

#[test]
fn tests_install_flat_archive_normalizes_uppercase_folder_names() {
    let archive = create_test_zip(&[
        ("TEXTURES/", b""),
        ("TEXTURES/sky.dds", b"dds_data"),
        ("meshes/helm.nif", b"nif_data"),
    ]);
    let tree = lowercased(&extract(&archive, "Data", ""));
    assert!(tree.contains_key("data/textures/sky.dds"));
    assert!(!has_dir(&tree, "data/TEXTURES"));
}

#[test]
fn build_data_archive_plan_identifies_bain_layout() {
    let paths = vec!["00 Core/textures/a.dds", "10 Optional/textures/b.dds"];
    let plan = build_data_archive_plan(&paths);
    assert!(matches!(plan, DataArchivePlan::Bain { .. }));
}

#[test]
fn build_data_archive_plan_identifies_root_level_layout() {
    let paths = vec!["Wrapper/d3d11.dll", "Wrapper/enbseries/effect.txt"];
    let plan = build_data_archive_plan(&paths);
    assert!(matches!(plan, DataArchivePlan::ExtractToModRoot { .. }));
}

#[test]
fn build_data_archive_plan_identifies_data_layout() {
    let paths = vec!["MyMod/Data/textures/sky.dds", "MyMod/Data/meshes/rock.nif"];
    let plan = build_data_archive_plan(&paths);
    assert!(matches!(plan, DataArchivePlan::ExtractToData { .. }));
}

#[test]
fn parse_fomod_from_archive_reads_non_zip_mixed_case_fomod_path() {
    let archive = create_7z(&[
        ("FOMod/ModuleConfig.xml", SKY_CONFIG),
        ("Data/textures/sky.dds", b"dds"),
    ]);
    let name = find_fomod_entry(&names_in_7z(&archive).unwrap()).unwrap();
    let cfg = parse_fomod_from_archive("mod_case.7z", &bytes_in_7z(&archive, &name)).unwrap();
    assert!(!cfg.required_files.is_empty());
}

#[test]
fn install_fomod_preserves_case_with_data_root_fallback() {
    let archive = create_test_zip(&[
        ("fomod/", b""),
        ("fomod/ModuleConfig.xml", b"<config/>"),
        ("FileName.ESP", b"esp_data"),
    ]);
    let tree = install(&archive, vec![file("Data", "Data", 0)]);
    assert!(tree.contains_key("FileName.ESP"));
}

#[test]
fn read_archive_files_bytes_non_zip_batch_single_pass() {
    let archive = create_7z(&[
        ("fomod/images/a.png", b"aaa"),
        ("fomod/images/b.png", b"bbb"),
        ("Data/textures/sky.dds", b"dds"),
    ]);
    let names = names_in_7z(&archive).unwrap();
    let directories = vec![false; names.len()];
    let wanted = ["images/a.png", "images/b.png"];
    let answers = read_archive_files_bytes_non_zip(&names, &directories, &wanted);
    let mut result = BTreeMap::new();
    for a in &answers {
        result.insert(wanted[a.request], bytes_in_7z(&archive, &names[a.entry]));
    }
    assert_eq!(result.len(), 2);
    assert_eq!(result["images/a.png"], b"aaa");
    assert_eq!(result["images/b.png"], b"bbb");
}

#[test]
fn detect_strategy_zip_fomod_with_backslash_separator() {
    let archive = create_test_zip(&[
        ("fomod\\ModuleConfig.xml", b"<config/>"),
        ("Data\\textures\\sky.dds", b"dds"),
    ]);
    assert!(matches!(zip_strategy(&archive), InstallStrategy::Fomod(_)));
}

#[test]
fn detect_strategy_zip_fomod_wrapped_backslash() {
    let archive = create_test_zip(&[
        ("MyMod\\fomod\\ModuleConfig.xml", b"<config/>"),
        ("MyMod\\Data\\textures\\sky.dds", b"dds"),
    ]);
    assert!(matches!(zip_strategy(&archive), InstallStrategy::Fomod(_)));
}

#[test]
fn find_data_root_returns_fomod_wrapper_not_variant_subdir() {
    let paths = &[
        "MyMod/fomod/ModuleConfig.xml",
        "MyMod/Option A/textures/body.dds",
        "MyMod/Option B/textures/body_alt.dds",
    ];
    assert_eq!(find_data_root_in_paths(paths), "MyMod/");
}

#[test]
fn find_data_root_fomod_at_archive_root_returns_empty() {
    let paths = &["fomod/ModuleConfig.xml", "Option A/textures/body.dds"];
    assert_eq!(find_data_root_in_paths(paths), "");
}

fn create_diamond_skin_zip() -> Vec<u8> {
    let fomod_xml = r#"<?xml version="1.0" encoding="UTF-8"?>
<config xmlns:xsi="http://www.w3.org/2001/XMLSchema-instance"
    xsi:noNamespaceSchemaLocation="http://qconsulting.ca/fo3/ModConfig5.0.xsd">
    <moduleName>Diamond Skin</moduleName>
    <installSteps order="Explicit">
        <installStep name="Choose Body Type">
            <optionalFileGroups order="Explicit">
                <group name="Body Type" type="SelectExactlyOne">
                    <plugins order="Explicit">
                        <plugin name="CBBE">
                            <description>CBBE textures</description>
                            <conditionFlags>
                                <flag name="isCBBE">selected</flag>
                            </conditionFlags>
                            <typeDescriptor>
                                <type name="Recommended"/>
                            </typeDescriptor>
                        </plugin>
                        <plugin name="UNP">
                            <description>UNP textures</description>
                            <conditionFlags>
                                <flag name="isUNP">selected</flag>
                            </conditionFlags>
                            <typeDescriptor>
                                <type name="Optional"/>
                            </typeDescriptor>
                        </plugin>
                    </plugins>
                </group>
                <group name="Texture Resolution" type="SelectExactlyOne">
                    <plugins order="Explicit">
                        <plugin name="4K">
                            <description>4K resolution</description>
                            <conditionFlags>
                                <flag name="res">4k</flag>
                            </conditionFlags>
                            <typeDescriptor>
                                <type name="Recommended"/>
                            </typeDescriptor>
                        </plugin>
                        <plugin name="2K">
                            <description>2K resolution</description>
                            <conditionFlags>
                                <flag name="res">2k</flag>
                            </conditionFlags>
                            <typeDescriptor>
                                <type name="Optional"/>
                            </typeDescriptor>
                        </plugin>
                    </plugins>
                </group>
            </optionalFileGroups>
        </installStep>
    </installSteps>
    <conditionalFileInstalls>
        <patterns>
            <pattern>
                <dependencies operator="And">
                    <flagDependency flag="isCBBE" value="selected"/>
                    <flagDependency flag="res" value="4k"/>
                </dependencies>
                <files>
                    <folder source="CBBE 4K" destination=""/>
                </files>
            </pattern>
            <pattern>
                <dependencies operator="And">
                    <flagDependency flag="isCBBE" value="selected"/>
                    <flagDependency flag="res" value="2k"/>
                </dependencies>
                <files>
                    <folder source="CBBE 2K" destination=""/>
                </files>
            </pattern>
            <pattern>
                <dependencies operator="And">
                    <flagDependency flag="isUNP" value="selected"/>
                    <flagDependency flag="res" value="4k"/>
                </dependencies>
                <files>
                    <folder source="UNP 4K" destination=""/>
                </files>
            </pattern>
        </patterns>
    </conditionalFileInstalls>
</config>"#;
    create_test_zip(&[
            ("fomod/ModuleConfig.xml", fomod_xml.as_bytes()),
            ("fomod/images/cbbe.png", b"png"),
            (
                "CBBE 4K/textures/actors/character/female/femalebody_1.dds",
                b"cbbe4k",
            ),
            (
                "CBBE 2K/textures/actors/character/female/femalebody_1.dds",
                b"cbbe2k",
            ),
            (
                "UNP 4K/textures/actors/character/female/femalebody_1.dds",
                b"unp4k",
            ),
    ])
}

#[test]
fn detect_strategy_diamond_skin_style_zip_uses_fomod_strategy() {
    let archive = create_diamond_skin_zip();
    assert!(matches!(zip_strategy(&archive), InstallStrategy::Fomod(_)));
}

#[test]
fn parse_fomod_xml_diamond_skin_conditional_files_pattern() {
    let archive = create_diamond_skin_zip();
    let names = zip_names(&archive);
    let entry = find_fomod_entry(&names).unwrap();
    let config = parse_fomod_from_zip(&names, Ok(zip_bytes(&archive, &entry))).unwrap();

    assert_eq!(config.mod_name.as_deref(), Some("Diamond Skin"));
    assert!(config.required_files.is_empty());
    assert_eq!(config.steps.len(), 1);

    let step = &config.steps[0];
    assert_eq!(step.groups.len(), 2);

    let body_group = &step.groups[0];
    assert_eq!(body_group.plugins.len(), 2);

    let cbbe = &body_group.plugins[0];
    assert_eq!(cbbe.name, "CBBE");
    assert!(cbbe.files.is_empty());
    assert_eq!(cbbe.condition_flags.len(), 1);
    assert_eq!(cbbe.condition_flags[0].name, "isCBBE");
    assert_eq!(cbbe.condition_flags[0].value, "selected");

    assert!(config.conditional_file_installs.len() >= 3);

    let first = &config.conditional_file_installs[0];
    assert_eq!(first.dependencies.flags.len(), 2);
    assert_eq!(first.files.len(), 1);
    assert_eq!(first.files[0].source, "CBBE 4K");
    assert_eq!(first.files[0].destination, "");
}

#[test]
fn install_fomod_files_diamond_skin_conditional_pattern() {
    let archive = create_diamond_skin_zip();
    let tree = install(&archive, vec![file("CBBE 4K", "", 0)]);
    assert!(tree.contains_key("textures/actors/character/female/femalebody_1.dds"));
    assert!(!has_dir(&tree, "CBBE 4K"));
    assert!(!has_dir(&tree, "CBBE 2K"));
}

fn to_utf16_le_with_bom(s: &str) -> Vec<u8> {
    let mut out = vec![0xFF, 0xFE];
    for ch in s.encode_utf16() {
        out.extend_from_slice(&ch.to_le_bytes());
    }
    out
}

fn to_utf16_be_with_bom(s: &str) -> Vec<u8> {
    let mut out = vec![0xFE, 0xFF];
    for ch in s.encode_utf16() {
        out.extend_from_slice(&ch.to_be_bytes());
    }
    out
}

#[test]
fn decode_fomod_xml_handles_utf16_le_bom() {
    let xml = r#"<?xml version="1.0" encoding="UTF-16"?>
<config>
  <moduleName>My Mod</moduleName>
</config>"#;
    let encoded = to_utf16_le_with_bom(xml);
    let result = decode_fomod_xml(&encoded).unwrap();
    assert!(result.contains("My Mod"));
}

#[test]
fn decode_fomod_xml_handles_utf16_be_bom() {
    let xml = r#"<?xml version="1.0" encoding="UTF-16"?>
<config>
  <moduleName>My Mod BE</moduleName>
</config>"#;
    let encoded = to_utf16_be_with_bom(xml);
    let result = decode_fomod_xml(&encoded).unwrap();
    assert!(result.contains("My Mod BE"));
}

#[test]
fn decode_fomod_xml_strips_utf8_bom() {
    let xml = "<config><moduleName>Plain</moduleName></config>";
    let mut bytes = vec![0xEF, 0xBB, 0xBF];
    bytes.extend_from_slice(xml.as_bytes());
    let result = decode_fomod_xml(&bytes).unwrap();
    assert!(result.contains("Plain"));
    assert!(!result.starts_with('\u{FEFF}'));
}

#[test]
fn decode_fomod_xml_handles_plain_utf8() {
    let xml = "<config><moduleName>Plain UTF-8</moduleName></config>";
    let result = decode_fomod_xml(xml.as_bytes()).unwrap();
    assert_eq!(result, xml);
}

#[test]
fn parse_fomod_xml_accepts_utf16_le_encoded_bytes() {
    let xml = r#"<config xmlns:xsi="http://www.w3.org/2001/XMLSchema-instance">
  <moduleName>Diamond Mod</moduleName>
  <installSteps>
    <installStep name="Step1">
      <optionalFileGroups>
        <group name="Options" type="SelectAll">
          <plugins>
            <plugin name="Option A">
              <description>Option A description</description>
              <files>
                <file source="optionA/file.esp" destination="Data/file.esp"/>
              </files>
            </plugin>
          </plugins>
        </group>
      </optionalFileGroups>
    </installStep>
  </installSteps>
</config>"#;
    let encoded = to_utf16_le_with_bom(xml);
    let config = parse_fomod_xml(&encoded).unwrap();
    assert_eq!(config.mod_name.as_deref(), Some("Diamond Mod"));
    assert_eq!(config.steps.len(), 1);
    assert_eq!(config.steps[0].groups[0].plugins.len(), 1);
}

#[test]
fn decode_fomod_xml_rejects_odd_length_utf16_le() {
    let bad: Vec<u8> = vec![0xFF, 0xFE, 0x41, 0x00, 0x42];
    let result = decode_fomod_xml(&bad);
    assert!(result.is_err());
}

#[test]
fn decode_fomod_xml_rejects_odd_length_utf16_be() {
    let bad: Vec<u8> = vec![0xFE, 0xFF, 0x00, 0x41, 0x00];
    let result = decode_fomod_xml(&bad);
    assert!(result.is_err());
}

#[test]
fn decode_fomod_xml_handles_windows_1252_encoding() {
    // "Möd Nàme" in Windows-1252: ö = 0xF6, à = 0xE0
    let bytes: &[u8] = b"<?xml version=\"1.0\"?>\n<config>M\xF6d N\xE0me</config>";
    let decoded = decode_fomod_xml(bytes).unwrap();
    assert!(
        decoded.contains("Möd Nàme"),
        "Windows-1252 characters should be decoded correctly, got: {decoded}"
    );
}

#[test]
fn parse_fomod_from_archive_uses_archive_name_as_fallback_for_empty_mod_name() {
    let xml = br#"<config>
  <moduleName></moduleName>
  <installSteps>
    <installStep name="Step1">
      <optionalFileGroups>
        <group name="G" type="SelectAny">
          <plugins>
            <plugin name="P">
              <description>D</description>
              <files><file source="f.esp" destination=""/></files>
            </plugin>
          </plugins>
        </group>
      </optionalFileGroups>
    </installStep>
  </installSteps>
</config>"#;
    let archive = create_test_zip(&[("fomod/ModuleConfig.xml", xml)]);
    let bytes = zip_bytes(&archive, "fomod/ModuleConfig.xml");
    let config = parse_fomod_from_archive("MyGreatMod.zip", &bytes).unwrap();
    assert_eq!(config.mod_name.as_deref(), Some("MyGreatMod"));
}

#[test]
fn install_fomod_succeeds_when_zip_contains_macosx_entries() {
    let archive = create_test_zip(&[
        ("__MACOSX/", b""),
        ("__MACOSX/Diamond mod/textures/._femalebody_1_msn.dds", b"junk"),
        ("Diamond mod/", b""),
        ("Diamond mod/fomod/", b""),
        ("Diamond mod/fomod/ModuleConfig.xml", b"<config/>"),
        ("Diamond mod/00main/", b""),
        ("Diamond mod/00main/textures/", b""),
        ("Diamond mod/00main/textures/femalebody_1_msn.dds", b"dds_data"),
    ]);
    let tree = install(&archive, vec![file("00main/textures", "textures", 0)]);
    assert!(tree.contains_key("textures/femalebody_1_msn.dds"));
}

#[test]
fn install_fomod_diamond_style_wrapper_dir() {
    let archive = create_test_zip(&[
        ("Diamond 3BA Puffy Pussy normal maps/", b""),
        ("Diamond 3BA Puffy Pussy normal maps/fomod/", b""),
        ("Diamond 3BA Puffy Pussy normal maps/fomod/ModuleConfig.xml", b"<config/>"),
        ("Diamond 3BA Puffy Pussy normal maps/00main/textures/femalebody_1_msn.dds", b"dds1"),
        (
            "Diamond 3BA Puffy Pussy normal maps/body_n/smooth map/textures/body_smooth.dds",
            b"dds2",
        ),
    ]);
    let tree = install(
        &archive,
        vec![
            file("00main\\textures", "textures", 0),
            file("body_n\\smooth map\\textures", "textures", 1),
        ],
    );
    assert!(tree.contains_key("textures/femalebody_1_msn.dds"));
    assert!(tree.contains_key("textures/body_smooth.dds"));
}

#[test]
fn install_fomod_two_level_wrapper_dir() {
    let outer = "Diamond 3BA puffy pussy-45718/";
    let inner = "Diamond 3BA puffy pussy-45718/Diamond 3BA Puffy Pussy normal maps/";
    let config = format!("{inner}fomod/ModuleConfig.xml");
    let body = format!("{inner}00main/textures/body.dds");
    let smooth = format!("{inner}body_n/smooth map/textures/body_smooth.dds");
    let archive = create_test_zip(&[
        (outer, b""),
        (inner, b""),
        (&config, b"<config/>"),
        (&body, b"dds1"),
        (&smooth, b"dds2"),
    ]);
    let tree = install(
        &archive,
        vec![
            file("00main\\textures", "textures", 0),
            file("body_n\\smooth map\\textures", "textures", 1),
        ],
    );
    assert!(tree.contains_key("textures/body.dds"));
    assert!(tree.contains_key("textures/body_smooth.dds"));
}

#[test]
fn find_fomod_parent_dir_two_level_returns_full_path() {
    let paths = &["outer/inner/fomod/ModuleConfig.xml", "outer/inner/00main/textures/body.dds"];
    assert_eq!(find_fomod_parent_dir(paths).unwrap(), "outer/inner");
}

#[test]
fn find_fomod_parent_dir_single_level_still_works() {
    let paths = &["MyMod/fomod/ModuleConfig.xml", "MyMod/00main/textures/body.dds"];
    assert_eq!(find_fomod_parent_dir(paths).unwrap(), "MyMod");
}

#[test]
fn find_fomod_parent_dir_at_root_returns_empty() {
    let paths = &["fomod/ModuleConfig.xml", "00main/textures/body.dds"];
    assert_eq!(find_fomod_parent_dir(paths).unwrap(), "");
}

#[test]
fn install_fomod_files_from_dir_two_level_wrapper() {
    let inner = "Diamond 3BA puffy pussy-45718/Diamond 3BA Puffy Pussy normal maps";
    let mut paths: Vec<String> = vec!["Diamond 3BA puffy pussy-45718".to_string()];
    let mut directories = vec![true];
    for (rest, directory) in [
        ("", true),
        ("/fomod", true),
        ("/fomod/ModuleConfig.xml", false),
        ("/00main", true),
        ("/00main/textures", true),
        ("/00main/textures/body.dds", false),
        ("/body_n", true),
        ("/body_n/smooth map", true),
        ("/body_n/smooth map/textures", true),
        ("/body_n/smooth map/textures/body_smooth.dds", false),
    ] {
        paths.push(format!("{inner}{rest}"));
        directories.push(directory);
    }
    let plan = install_fomod_files_from_dir(
        &paths,
        &directories,
        &vec![
            file("00main\\textures", "textures", 0),
            file("body_n\\smooth map\\textures", "textures", 1),
        ],
    );
    let placed: Vec<&str> = plan.iter().map(|p| p.destination.as_str()).collect();
    assert!(placed.contains(&"textures/body.dds"));
    assert!(placed.contains(&"textures/body_smooth.dds"));
}

#[test]
fn tests_test_normalize_path_lowercase() {
    assert_eq!(
        normalize_path_lowercase("Textures\\Armor\\Helmet.DDS"),
        "textures/armor/helmet.dds"
    );
    assert_eq!(
        normalize_path_lowercase("Data/meshes/MyMod.NIF"),
        "data/meshes/mymod.nif"
    );
}

#[test]
fn tests_test_strip_data_prefix() {
    assert_eq!(strip_data_prefix("Data/meshes/file.nif"), "meshes/file.nif");
    assert_eq!(
        strip_data_prefix("data/textures/tex.dds"),
        "textures/tex.dds"
    );
    assert_eq!(strip_data_prefix("meshes/file.nif"), "meshes/file.nif");
    assert_eq!(strip_data_prefix("Data"), "");
    assert_eq!(strip_data_prefix("data"), "");
}

#[test]
fn tests_test_is_safe_relative_path() {
    assert!(is_safe_relative_path("meshes/armor/helmet.nif"));
    assert!(is_safe_relative_path("./meshes/file.nif"));
    assert!(!is_safe_relative_path("../../../etc/passwd"));
    assert!(!is_safe_relative_path("/etc/passwd"));
    assert!(is_safe_relative_path("folder/../other/file.txt"));
}

#[test]
fn tests_test_score_as_data_root_empty_prefix() {
    let paths = vec![
        "meshes/armor/helmet.nif".to_string(),
        "textures/armor/helmet.dds".to_string(),
        "MyMod.esp".to_string(),
    ];

    let score = score_as_data_root_owned("", &paths);
    assert_eq!(score, 35);
}

#[test]
fn tests_test_score_as_data_root_with_prefix() {
    let paths = vec![
        "MyMod/meshes/file.nif".to_string(),
        "MyMod/textures/file.dds".to_string(),
        "MyMod/MyMod.esp".to_string(),
    ];

    let score = score_as_data_root_owned("MyMod", &paths);
    assert_eq!(score, 35);
}

#[test]
fn tests_test_score_as_data_root_data_named_dir() {
    let paths = vec![
        "Data/meshes/file.nif".to_string(),
        "Data/MyMod.esp".to_string(),
    ];

    let score = score_as_data_root_owned("Data", &paths);
    assert_eq!(score, 45);
}

#[test]
fn tests_test_detect_data_root_simple() {
    let paths = vec![
        "meshes/armor/helmet.nif".to_string(),
        "textures/armor/helmet.dds".to_string(),
        "MyMod.esp".to_string(),
    ];

    let root = detect_data_root(&paths);
    assert_eq!(root, Some(String::new()));
}

#[test]
fn tests_test_detect_data_root_single_wrapper() {
    let paths = vec![
        "MyMod/meshes/file.nif".to_string(),
        "MyMod/textures/file.dds".to_string(),
        "MyMod/MyMod.esp".to_string(),
    ];

    let root = detect_data_root(&paths);
    assert_eq!(root, Some("mymod".to_string()));
}

#[test]
fn tests_test_detect_data_root_explicit_data_dir() {
    let paths = vec![
        "Data/meshes/file.nif".to_string(),
        "Data/MyMod.esp".to_string(),
    ];

    let root = detect_data_root(&paths);
    assert_eq!(root, Some("data".to_string()));
}

#[test]
fn tests_test_resolve_file_conflicts() {
    let files = vec![
        FomodFile {
            source: "a.txt".to_string(),
            destination: "file.txt".to_string(),
            priority: 0,
        },
        FomodFile {
            source: "b.txt".to_string(),
            destination: "file.txt".to_string(),
            priority: 10,
        },
        FomodFile {
            source: "c.txt".to_string(),
            destination: "other.txt".to_string(),
            priority: 0,
        },
    ];

    let resolved = resolve_file_conflicts(files);
    assert_eq!(resolved.len(), 2);

    let file_txt = resolved
        .iter()
        .find(|f| f.destination == "file.txt")
        .unwrap();
    assert_eq!(file_txt.source, "b.txt");

    let other_txt = resolved
        .iter()
        .find(|f| f.destination == "other.txt")
        .unwrap();
    assert_eq!(other_txt.source, "c.txt");
}

#[test]
fn test_resolve_file_conflicts_position_tiebreak() {
    let files = vec![
        FomodFile {
            source: "a.txt".to_string(),
            destination: "file.txt".to_string(),
            priority: 5,
        },
        FomodFile {
            source: "b.txt".to_string(),
            destination: "file.txt".to_string(),
            priority: 5,
        },
    ];

    let resolved = resolve_file_conflicts(files);
    assert_eq!(resolved.len(), 1);

    // Later position wins on tie
    assert_eq!(resolved[0].source, "b.txt");
}

#[test]
fn tests_test_dependency_evaluate_and() {
    let deps = PluginDependencies {
        operator: DependencyOperator::And,
        flags: vec![
            FlagDependency {
                flag: "TEX_QUALITY".to_string(),
                value: "4K".to_string(),
            },
            FlagDependency {
                flag: "BODY_TYPE".to_string(),
                value: "CBBE".to_string(),
            },
        ],
    };

    let mut active = ActiveFlags::new();
    active.insert("tex_quality".to_string(), "4k".to_string());
    active.insert("body_type".to_string(), "cbbe".to_string());

    assert!(deps.evaluate(&active));

    active.remove("body_type");
    assert!(!deps.evaluate(&active));
}

#[test]
fn tests_test_dependency_evaluate_or() {
    let deps = PluginDependencies {
        operator: DependencyOperator::Or,
        flags: vec![
            FlagDependency {
                flag: "OPTION_A".to_string(),
                value: "YES".to_string(),
            },
            FlagDependency {
                flag: "OPTION_B".to_string(),
                value: "YES".to_string(),
            },
        ],
    };

    let mut active = ActiveFlags::new();
    active.insert("option_a".to_string(), "yes".to_string());

    assert!(deps.evaluate(&active));

    active = ActiveFlags::new();
    assert!(!deps.evaluate(&active));
}

fn element(name: &str, attributes: &[(&str, &str)]) -> XmlElement {
    XmlElement {
        name: name.to_string(),
        attributes: attributes.iter().map(|(k, v)| (k.to_string(), v.to_string())).collect(),
    }
}

#[test]
fn config_from_events_reads_name_and_required_files() {
    let events = vec![
        XmlEvent::Start(element("config", &[])),
        XmlEvent::Start(element("moduleName", &[])),
        XmlEvent::Text("Textures".to_string()),
        XmlEvent::End("moduleName".to_string()),
        XmlEvent::Start(element("requiredInstallFiles", &[])),
        XmlEvent::Empty(element(
            "file",
            &[("source", "a\\b.esp"), ("destination", "b.esp"), ("priority", "3")],
        )),
        XmlEvent::End("requiredInstallFiles".to_string()),
        XmlEvent::End("config".to_string()),
        XmlEvent::Eof,
        XmlEvent::Failed("behind the end".to_string()),
    ];
    let config = config_from_events(&events).unwrap();
    assert_eq!(config.mod_name.as_deref(), Some("Textures"));
    assert_eq!(config.required_files.len(), 1);
    assert_eq!(config.required_files[0].source, "a\\b.esp");
    assert_eq!(config.required_files[0].destination, "b.esp");
    assert_eq!(config.required_files[0].priority, 3);
    assert!(config.steps.is_empty());
    assert!(config.conditional_file_installs.is_empty());
}

#[test]
fn config_from_events_reports_a_broken_document() {
    let events = vec![
        XmlEvent::Start(element("config", &[])),
        XmlEvent::Failed("no end tag".to_string()),
    ];
    assert_eq!(config_from_events(&events).unwrap_err(), "XML parse error: no end tag");
}
