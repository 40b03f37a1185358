//! Installing from archives by the score of their directories.
use std::collections::BTreeMap;
use std::io::{Cursor, Read, Write};

use linkmm::installer::archive::{read_archive_file_bytes, read_archive_file_bytes_non_zip};
use linkmm::installer::extract::{extract_zip_to, ArchiveEntry, Placement};
use linkmm::installer::fomod::{find_fomod_entry, parse_fomod_from_archive, parse_fomod_xml};
use linkmm::installer::paths::{is_safe_relative_path, strip_data_prefix};
use linkmm::installer::registration::{list_archive_entries_with_7z, Lister};
use linkmm::installer::scored::{
    archive_has_data_folder, detect_strategy, install_fomod_files, install_fomod_files_from_dir,
    moves_on_merge, normalize_paths_to_lowercase, NameStep,
};
use linkmm::installer::types::{
    ConditionFlag, DependencyOperator, FlagDependency, FomodFile, InstallStrategy,
    PluginDependencies,
};

fn texts(list: &[&str]) -> Vec<String> {
    list.iter().map(|s| s.to_string()).collect()
}

/// A zip archive that holds the entries; names with a slash at their end are
/// directories.
fn create_test_zip(entries: &[(&str, &[u8])]) -> Vec<u8> {
    let mut writer = zip::ZipWriter::new(Cursor::new(Vec::new()));
    let options = zip::write::SimpleFileOptions::default()
        .compression_method(zip::CompressionMethod::Stored);
    for &(name, content) in entries {
        if name.ends_with('/') {
            writer.add_directory(name, options).unwrap();
        } else {
            writer.start_file(name, options).unwrap();
            writer.write_all(content).unwrap();
        }
    }
    writer.finish().unwrap().into_inner()
}

fn zip_names(archive: &[u8]) -> Vec<String> {
    let zip = zip::ZipArchive::new(Cursor::new(archive)).unwrap();
    zip.file_names().map(|s| s.to_string()).collect()
}

fn zip_listing(archive: &[u8]) -> Vec<ArchiveEntry> {
    let mut zip = zip::ZipArchive::new(Cursor::new(archive)).unwrap();
    (0..zip.len())
        .map(|i| {
            let entry = zip.by_index(i).unwrap();
            ArchiveEntry {
                name: entry.name().to_string(),
                directory: entry.is_dir(),
                size: entry.size(),
            }
        })
        .collect()
}

fn zip_bytes(archive: &[u8], name: &str) -> Vec<u8> {
    let mut zip = zip::ZipArchive::new(Cursor::new(archive)).unwrap();
    let mut entry = zip.by_name(name).unwrap();
    let mut bytes = Vec::new();
    entry.read_to_end(&mut bytes).unwrap();
    bytes
}

/// A 7z archive that holds the files.
fn create_7z(files: &[(&str, &[u8])]) -> Vec<u8> {
    let mut writer = sevenz_rust2::ArchiveWriter::new(Cursor::new(Vec::new())).unwrap();
    for &(name, content) in files {
        writer
            .push_archive_entry(sevenz_rust2::ArchiveEntry::new_file(name), Some(content))
            .unwrap();
    }
    writer.finish().unwrap().into_inner()
}

const SKY_CONFIG: &[u8] = br#"<config>
  <requiredInstallFiles>
    <file source="Data/textures/sky.dds" destination="Data/textures/sky.dds" />
  </requiredInstallFiles>
</config>"#;

fn create_test_7z() -> Vec<u8> {
    create_7z(&[
        ("fomod/ModuleConfig.xml", SKY_CONFIG),
        ("Data/textures/sky.dds", b"dds"),
    ])
}

fn create_test_7z_with_image() -> Vec<u8> {
    create_7z(&[
        ("fomod/images/preview.png", b"pngdata"),
        ("Data/textures/sky.dds", b"dds"),
    ])
}

fn names_in_7z(archive: &[u8]) -> Option<Vec<String>> {
    let reader =
        sevenz_rust2::ArchiveReader::new(Cursor::new(archive), sevenz_rust2::Password::empty())
            .ok()?;
    Some(reader.archive().files.iter().map(|f| f.name().to_string()).collect())
}

fn bytes_in_7z(archive: &[u8], name: &str) -> Vec<u8> {
    let mut reader =
        sevenz_rust2::ArchiveReader::new(Cursor::new(archive), sevenz_rust2::Password::empty())
            .unwrap();
    reader.read_file(name).unwrap()
}

/// What stands below a directory, by its path.
type Tree = BTreeMap<String, Vec<u8>>;

/// Extracts a zip archive below `dest`.
fn extract(archive: &[u8], dest: &str, strip_prefix: &str) -> Tree {
    let entries = zip_listing(archive);
    let plan = extract_zip_to(&entries, strip_prefix);
    let mut tree = Tree::new();
    for (entry, step) in entries.iter().zip(plan.steps.iter()) {
        if let Placement::Put(path) = &step.placement {
            if !step.directory {
                tree.insert(format!("{dest}/{path}"), zip_bytes(archive, &entry.name));
            }
        }
    }
    tree
}

fn file(source: &str, destination: &str, priority: i32) -> FomodFile {
    FomodFile { source: source.to_string(), destination: destination.to_string(), priority }
}

fn has_dir(tree: &Tree, dir: &str) -> bool {
    let prefix = format!("{dir}/");
    tree.keys().any(|k| k.starts_with(&prefix))
}

/// A directory tree whose names are turned into lowercase.
enum Node {
    File(Vec<u8>),
    Dir(BTreeMap<String, Node>),
}

fn to_nodes(tree: &Tree) -> BTreeMap<String, Node> {
    let mut root = BTreeMap::new();
    for (path, bytes) in tree {
        let mut dir = &mut root;
        let parts: Vec<&str> = path.split('/').collect();
        for part in &parts[..parts.len() - 1] {
            let next = dir.entry(part.to_string()).or_insert_with(|| Node::Dir(BTreeMap::new()));
            dir = match next {
                Node::Dir(d) => d,
                Node::File(_) => panic!("{path} lies below a file"),
            };
        }
        dir.insert(parts[parts.len() - 1].to_string(), Node::File(bytes.clone()));
    }
    root
}

fn from_nodes(dir: &BTreeMap<String, Node>, at: &str, tree: &mut Tree) {
    for (name, node) in dir {
        let path = if at.is_empty() { name.clone() } else { format!("{at}/{name}") };
        match node {
            Node::File(bytes) => {
                tree.insert(path, bytes.clone());
            }
            Node::Dir(d) => from_nodes(d, &path, tree),
        }
    }
}

fn is_dir(node: Option<&Node>) -> bool {
    matches!(node, Some(Node::Dir(_)))
}

/// Moves what can move, and gives back what stays.
fn merge_nodes(
    from: BTreeMap<String, Node>,
    into: &mut BTreeMap<String, Node>,
) -> BTreeMap<String, Node> {
    let mut left = BTreeMap::new();
    for (name, node) in from {
        let target = into.get(&name);
        let empty = matches!(target, Some(Node::Dir(d)) if d.is_empty());
        if moves_on_merge(is_dir(Some(&node)), target.is_some(), is_dir(target), empty) {
            into.insert(name, node);
        } else {
            left.insert(name, node);
        }
    }
    left
}

fn lowercase_nodes(dir: &mut BTreeMap<String, Node>) {
    let names: Vec<String> = dir.keys().cloned().collect();
    for name in names {
        let target = dir.get(&name.to_lowercase());
        let step = normalize_paths_to_lowercase(
            &name,
            is_dir(dir.get(&name)),
            target.is_some(),
            is_dir(target),
        );
        let entered = match step {
            NameStep::Keep => Some(name),
            NameStep::Rename(lower) => {
                let node = dir.remove(&name).unwrap();
                dir.insert(lower.clone(), node);
                Some(lower)
            }
            NameStep::Merge(lower) => {
                if let Some(Node::Dir(from)) = dir.remove(&name) {
                    if let Some(Node::Dir(into)) = dir.get_mut(&lower) {
                        let left = merge_nodes(from, into);
                        if !left.is_empty() {
                            dir.insert(name, Node::Dir(left));
                        }
                    }
                }
                Some(lower)
            }
            NameStep::Discard => {
                dir.remove(&name);
                None
            }
            NameStep::Leave => None,
        };
        if let Some(Node::Dir(d)) = entered.and_then(|name| dir.get_mut(&name)) {
            lowercase_nodes(d);
        }
    }
}

fn lowercased(tree: &Tree) -> Tree {
    let mut nodes = to_nodes(tree);
    lowercase_nodes(&mut nodes);
    let mut out = Tree::new();
    from_nodes(&nodes, "", &mut out);
    out
}

fn tree_of(files: &[(&str, &[u8])]) -> Tree {
    files.iter().map(|(p, b)| (p.to_string(), b.to_vec())).collect()
}

/// How the zip archive is installed.
fn zip_strategy(archive: &[u8]) -> InstallStrategy {
    detect_strategy("test_mod.zip", true, &zip_names(archive)).unwrap()
}

/// How the 7z archive is installed; one that cannot be read lists nothing.
fn strategy_of_7z(archive: &[u8]) -> InstallStrategy {
    let names = names_in_7z(archive).unwrap_or_default();
    detect_strategy("mod.7z", true, &names).unwrap()
}

/// What is installed of the zip archive for the files.
fn install(archive: &[u8], files: Vec<FomodFile>) -> Tree {
    let names = zip_names(archive);
    let directories: Vec<bool> = names.iter().map(|n| n.ends_with('/')).collect();
    let mut tree = Tree::new();
    for planned in install_fomod_files(&names, &directories, &files) {
        tree.insert(planned.destination, zip_bytes(archive, &names[planned.index]));
    }
    tree
}

#[test]
fn installer_list_archive_entries_with_7z_returns_paths() {
    assert_eq!(list_archive_entries_with_7z("list_test.7z"), Lister::SevenZip);
    assert_eq!(list_archive_entries_with_7z("list_test.RAR"), Lister::Rar);
    let entries = names_in_7z(&create_test_7z()).unwrap();
    let lower: Vec<String> =
        entries.iter().map(|p| p.to_lowercase().replace('\\', "/")).collect();
    assert!(lower.iter().any(|p| p.ends_with("fomod/moduleconfig.xml")));
    assert!(lower.iter().any(|p| p.ends_with("data/textures/sky.dds")));
}

#[test]
fn installer_detect_strategy_data_for_loose_files() {
    let archive =
        create_test_zip(&[("textures/sky.dds", b"dds"), ("meshes/rock.nif", b"nif")]);
    assert!(matches!(zip_strategy(&archive), InstallStrategy::Data));
}

#[test]
fn installer_detect_strategy_data_for_archive_with_data_folder() {
    let archive = create_test_zip(&[
        ("Data/", b""),
        ("Data/textures/sky.dds", b"dds"),
        ("Data/meshes/rock.nif", b"nif"),
    ]);
    assert!(matches!(zip_strategy(&archive), InstallStrategy::Data));
}

#[test]
fn installer_detect_strategy_non_zip_defaults_to_data() {
    let archive = b"fake";
    assert!(names_in_7z(archive).is_none());
    assert!(matches!(strategy_of_7z(archive), InstallStrategy::Data));
}

#[test]
fn installer_detect_strategy_non_zip_with_fomod_uses_fomod_strategy() {
    assert!(matches!(strategy_of_7z(&create_test_7z()), InstallStrategy::Fomod(_)));
}

#[test]
fn fomod_strategy_starts_with_no_files() {
    for name in ["fomod\\ModuleConfig.xml", "Mod/FOMOD/ModuleConfig.xml"] {
        let names = vec!["readme.txt".to_string(), name.to_string()];
        for archive in ["mod.zip", "mod.7z"] {
            match detect_strategy(archive, true, &names).unwrap() {
                InstallStrategy::Fomod(files) => assert!(files.is_empty()),
                InstallStrategy::Data => panic!("configuration missed"),
            }
        }
    }
    let none: Vec<String> = Vec::new();
    assert_eq!(detect_strategy("a.zip", false, &none).unwrap_err(), "Cannot open archive: a.zip");
}

#[test]
fn installer_parse_fomod_from_archive_reads_non_zip_module_config() {
    let archive = create_test_7z();
    let name = find_fomod_entry(&names_in_7z(&archive).unwrap()).unwrap();
    let cfg = parse_fomod_from_archive("mod.7z", &bytes_in_7z(&archive, &name)).unwrap();
    assert!(!cfg.required_files.is_empty());
}

#[test]
fn installer_archive_has_data_folder_flat_content() {
    let archive = create_test_zip(&[("textures/sky.dds", b"dds"), ("plugin.esp", b"esp")]);
    assert!(!archive_has_data_folder(&zip_names(&archive)));
}

#[test]
fn installer_archive_has_data_folder_direct_data_prefix() {
    let archive = create_test_zip(&[
        ("Data/", b""),
        ("Data/textures/sky.dds", b"dds"),
        ("Data/meshes/rock.nif", b"nif"),
    ]);
    assert!(!archive_has_data_folder(&zip_names(&archive)));
}

#[test]
fn installer_archive_has_data_folder_wrapped_data() {
    let archive = create_test_zip(&[
        ("MyMod/", b""),
        ("MyMod/Data/", b""),
        ("MyMod/Data/textures/sky.dds", b"dds"),
    ]);
    assert!(archive_has_data_folder(&zip_names(&archive)));
}

#[test]
fn installer_install_flat_archive_places_files_under_data_subdir() {
    let archive =
        create_test_zip(&[("textures/sky.dds", b"dds_data"), ("plugin.esp", b"esp_data")]);
    let tree = extract(&archive, "Data", "");
    assert!(tree.contains_key("Data/textures/sky.dds"));
    assert_eq!(tree["Data/plugin.esp"], b"esp_data");
}

#[test]
fn installer_install_data_folder_archive_preserves_data_subdir() {
    let archive = create_test_zip(&[("Data/", b""), ("Data/textures/sky.dds", b"dds_data")]);
    assert!(!archive_has_data_folder(&zip_names(&archive)));
    let tree = extract(&archive, "Data", "Data/");
    assert!(tree.contains_key("Data/textures/sky.dds"));
}

#[test]
fn installer_install_wrapped_data_archive_preserves_data_subdir() {
    let archive = create_test_zip(&[
        ("MyMod/", b""),
        ("MyMod/Data/", b""),
        ("MyMod/Data/textures/sky.dds", b"dds_data"),
    ]);
    assert!(archive_has_data_folder(&zip_names(&archive)));
    let tree = extract(&archive, "mod_dir", "MyMod/");
    assert!(tree.contains_key("mod_dir/Data/textures/sky.dds"));
}

#[test]
fn installer_extract_zip_strips_common_prefix() {
    let archive = create_test_zip(&[
        ("MyMod/", b""),
        ("MyMod/textures/sky.dds", b"dds_data"),
        ("MyMod/plugin.esp", b"esp_data"),
    ]);
    let tree = extract(&archive, "extracted", "MyMod/");
    assert!(tree.contains_key("extracted/textures/sky.dds"));
    assert!(tree.contains_key("extracted/plugin.esp"));
}

#[test]
fn installer_is_safe_relative_path_rejects_traversal() {
    assert!(!is_safe_relative_path("../etc/passwd"));
    assert!(!is_safe_relative_path("foo/../../bar"));
    assert!(!is_safe_relative_path("/absolute/path"));
    assert!(is_safe_relative_path("foo/bar/baz"));
    assert!(is_safe_relative_path("textures/sky.dds"));
    assert!(is_safe_relative_path("a/../a/b"));
}

#[test]
fn installer_strip_data_prefix_removes_leading_data_segment() {
    assert_eq!(strip_data_prefix("Data"), "");
    assert_eq!(strip_data_prefix("data"), "");
    assert_eq!(strip_data_prefix("DATA"), "");
    assert_eq!(strip_data_prefix("Data/"), "");
    assert_eq!(strip_data_prefix("Data/textures"), "textures");
    assert_eq!(strip_data_prefix("data/Textures/sky"), "Textures/sky");
    assert_eq!(strip_data_prefix("DATA/meshes/rock.nif"), "meshes/rock.nif");
    assert_eq!(strip_data_prefix("textures/sky.dds"), "textures/sky.dds");
    assert_eq!(strip_data_prefix(""), "");
    assert_eq!(strip_data_prefix("SomeOtherFolder"), "SomeOtherFolder");
}

#[test]
fn installer_install_fomod_files_falls_back_when_source_uses_data_prefix() {
    let archive = create_test_zip(&[
        ("fomod/", b""),
        ("fomod/ModuleConfig.xml", b"<config/>"),
        ("textures/sky.dds", b"dds_data"),
    ]);
    let tree = install(&archive, vec![file("Data/textures", "Data/textures", 0)]);
    assert!(tree.contains_key("textures/sky.dds"));
}

#[test]
fn installer_install_fomod_files_handles_source_with_trailing_slash() {
    let archive = create_test_zip(&[
        ("meshes/", b""),
        ("meshes/armor.nif", b"nif_data"),
        ("fomod/", b""),
        ("fomod/ModuleConfig.xml", b"<config/>"),
    ]);
    let tree = install(&archive, vec![file("meshes/", "Data/meshes", 0)]);
    assert!(tree.contains_key("meshes/armor.nif"));
}

#[test]
fn installer_install_fomod_files_data_root_fallback_skips_fomod_config_dir() {
    let archive = create_test_zip(&[
        ("fomod/", b""),
        ("fomod/ModuleConfig.xml", b"<config/>"),
        ("plugin.esp", b"esp_data"),
    ]);
    let tree = install(&archive, vec![file("Data", "Data", 0)]);
    assert!(tree.contains_key("plugin.esp"));
    assert!(!has_dir(&tree, "fomod"));
}

#[test]
fn installer_install_fomod_files_skips_empty_directory_entries() {
    let archive = create_test_zip(&[
        ("textures/", b""),
        ("textures/armor.dds", b"dds_data"),
        ("textures/empty/", b""),
        ("fomod/", b""),
        ("fomod/ModuleConfig.xml", b"<config/>"),
    ]);
    let tree = install(&archive, vec![file("textures", "Data/textures", 0)]);
    assert!(tree.contains_key("textures/armor.dds"));
    assert_eq!(tree.len(), 1);
}

#[test]
fn installer_install_fomod_files_matches_sources_in_wrapped_archives() {
    let archive = create_test_zip(&[
        ("Aela Replacer/", b""),
        ("Aela Replacer/00 main/", b""),
        ("Aela Replacer/00 main/AelaStandalone.esp", b"esp_data"),
        (
            "Aela Replacer/00 main/textures/Actors/Character/Aela/Head/femalehead.dds",
            b"dds_data",
        ),
        ("Aela Replacer/fomod/", b""),
        ("Aela Replacer/fomod/ModuleConfig.xml", b"<config/>"),
    ]);
    let tree = install(&archive, vec![file("00 main", "Data", 0)]);
    assert!(tree.contains_key("AelaStandalone.esp"));
    assert!(tree.contains_key("textures/Actors/Character/Aela/Head/femalehead.dds"));
}

#[test]
fn installer_parse_fomod_xml_parses_plugin_dependencies_flags_and_image() {
    let xml = br#"
        <config>
          <moduleName>Example Mod</moduleName>
          <installSteps>
            <installStep name="Variants">
              <optionalFileGroups>
                <group name="Main" type="SelectAny">
                  <plugins>
                    <plugin name="Plus Variant">
                      <description>Use plus variant</description>
                      <image path="images/plus.png"/>
                      <conditionFlags>
                        <flag name="VariantSign">+</flag>
                      </conditionFlags>
                      <dependencies operator="And">
                        <flagDependency flag="FeaturePack" value="+"/>
                      </dependencies>
                      <files>
                        <file source="plus/file.txt" destination="Data/file.txt"/>
                      </files>
                    </plugin>
                  </plugins>
                </group>
              </optionalFileGroups>
            </installStep>
          </installSteps>
        </config>
    "#;

    let cfg = parse_fomod_xml(xml).unwrap();
    let plugin = &cfg.steps[0].groups[0].plugins[0];
    assert_eq!(plugin.image_path.as_deref(), Some("images/plus.png"));
    assert_eq!(
        plugin.condition_flags,
        vec![ConditionFlag { name: "VariantSign".to_string(), value: "+".to_string() }]
    );
    assert_eq!(
        plugin.dependencies,
        Some(PluginDependencies {
            operator: DependencyOperator::And,
            flags: vec![FlagDependency {
                flag: "FeaturePack".to_string(),
                value: "+".to_string(),
            }],
        })
    );
    assert!(cfg.steps[0].visible.is_none());
    assert!(cfg.conditional_file_installs.is_empty());
}

#[test]
fn installer_parse_fomod_xml_parses_step_visibility_and_conditional_files() {
    let xml = br#"
        <config>
          <moduleName>Example Mod</moduleName>
          <installSteps>
            <installStep name="Underwear Options">
              <visible>
                <flagDependency flag="bUnderwear" value="On" />
              </visible>
              <optionalFileGroups>
                <group name="Color" type="SelectExactlyOne">
                  <plugins>
                    <plugin name="Black">
                      <files>
                        <folder source="16 Underwear" destination="" priority="0"/>
                      </files>
                    </plugin>
                  </plugins>
                </group>
              </optionalFileGroups>
            </installStep>
          </installSteps>
          <conditionalFileInstalls>
            <patterns>
              <pattern>
                <dependencies>
                  <flagDependency flag="bUnderwear" value="On"/>
                </dependencies>
                <files>
                  <folder source="22 Underwear Dark Purple" destination=""/>
                </files>
              </pattern>
            </patterns>
          </conditionalFileInstalls>
        </config>
    "#;

    let cfg = parse_fomod_xml(xml).unwrap();
    assert_eq!(cfg.steps.len(), 1);
    assert_eq!(
        cfg.steps[0].visible,
        Some(PluginDependencies {
            operator: DependencyOperator::And,
            flags: vec![FlagDependency {
                flag: "bUnderwear".to_string(),
                value: "On".to_string(),
            }],
        })
    );
    assert_eq!(cfg.conditional_file_installs.len(), 1);
    assert_eq!(
        cfg.conditional_file_installs[0].dependencies,
        PluginDependencies {
            operator: DependencyOperator::And,
            flags: vec![FlagDependency {
                flag: "bUnderwear".to_string(),
                value: "On".to_string(),
            }],
        }
    );
    assert_eq!(cfg.conditional_file_installs[0].files.len(), 1);
    assert_eq!(cfg.conditional_file_installs[0].files[0].source, "22 Underwear Dark Purple");
}

#[test]
fn installer_read_archive_file_bytes_finds_fomod_relative_image_path() {
    let archive = create_test_zip(&[
        ("MyMod/", b""),
        ("MyMod/fomod/", b""),
        ("MyMod/fomod/images/preview.png", b"pngdata"),
    ]);
    let entries = zip_listing(&archive);
    let found = read_archive_file_bytes(&entries, "images/preview.png").unwrap();
    assert_eq!(zip_bytes(&archive, &entries[found].name), b"pngdata");
}

#[test]
fn installer_read_archive_file_bytes_non_zip_finds_image() {
    let archive = create_test_7z_with_image();
    let names = names_in_7z(&archive).unwrap();
    let found = read_archive_file_bytes_non_zip(&names, "images/preview.png").unwrap();
    assert_eq!(bytes_in_7z(&archive, &names[found]), b"pngdata");
}

#[test]
fn installer_install_fomod_files_non_zip_installs_selected_files() {
    let archive = create_test_7z();
    let names = names_in_7z(&archive).unwrap();
    let directories = vec![false; names.len()];
    let plan = install_fomod_files_from_dir(
        &names,
        &directories,
        &vec![file("textures", "Data/textures", 0)],
    );
    let sky = plan.iter().find(|p| p.destination == "textures/sky.dds").unwrap();
    assert_eq!(bytes_in_7z(&archive, &names[sky.index]), b"dds");
}

#[test]
fn installer_install_fomod_files_from_dir_same_result_as_zip() {
    let entries: &[(&str, &[u8])] = &[
        ("fomod/", b""),
        ("fomod/ModuleConfig.xml", b"<config/>"),
        ("textures/sky.dds", b"dds_data"),
    ];
    let archive = create_test_zip(entries);
    let files = || vec![file("textures", "Data/textures", 0)];
    let from_zip = install(&archive, files());

    let paths = texts(&["fomod", "fomod/ModuleConfig.xml", "textures", "textures/sky.dds"]);
    let directories = vec![true, false, true, false];
    let plan = install_fomod_files_from_dir(&paths, &directories, &files());
    let placed: Vec<&str> = plan.iter().map(|p| p.destination.as_str()).collect();
    assert_eq!(placed, vec!["textures/sky.dds"]);
    assert_eq!(paths[plan[0].index], "textures/sky.dds");
    assert_eq!(from_zip["textures/sky.dds"], b"dds_data");
}

#[test]
fn installer_install_fomod_files_normalizes_uppercase_dirs_to_lowercase() {
    let archive = create_test_zip(&[
        ("fomod/", b""),
        ("fomod/ModuleConfig.xml", b"<config/>"),
        ("CalienteTools/BodySlide/SliderSets/CBBE.osp", b"osp_data"),
        ("TEXTURES/actors/character/cbbe.dds", b"dds_data"),
    ]);
    let tree = install(
        &archive,
        vec![
            file("CalienteTools", "Data/CalienteTools", 0),
            file("TEXTURES", "Data/TEXTURES", 0),
        ],
    );
    let tree = lowercased(&tree);
    assert!(tree.contains_key("calientetools/bodyslide/slidersets/cbbe.osp"));
    assert!(!has_dir(&tree, "CalienteTools"));
    assert!(tree.contains_key("textures/actors/character/cbbe.dds"));
    assert!(!has_dir(&tree, "TEXTURES"));
}

#[test]
fn installer_normalize_paths_to_lowercase_renames_uppercase_dirs() {
    let tree = lowercased(&tree_of(&[("TEXTURES/sky.dds", b"dds")]));
    assert!(tree.contains_key("textures/sky.dds"));
    assert!(!has_dir(&tree, "TEXTURES"));
}

#[test]
fn installer_normalize_paths_to_lowercase_merges_duplicate_dirs() {
    let tree = lowercased(&tree_of(&[
        ("TEXTURES/sky.dds", b"upper"),
        ("textures/ground.dds", b"lower"),
    ]));
    assert!(tree.contains_key("textures/sky.dds"));
    assert!(tree.contains_key("textures/ground.dds"));
    assert!(!has_dir(&tree, "TEXTURES"));
}

#[test]
fn installer_normalize_paths_to_lowercase_recurses_into_subdirs() {
    let tree = lowercased(&tree_of(&[("meshes/ARMOR/helm.nif", b"nif")]));
    assert!(tree.contains_key("meshes/armor/helm.nif"));
    assert!(!has_dir(&tree, "meshes/ARMOR"));
}

#[test]
fn installer_install_flat_archive_normalizes_uppercase_folder_names() {
    let archive = create_test_zip(&[
        ("TEXTURES/", b""),
        ("TEXTURES/sky.dds", b"dds_data"),
        ("meshes/helm.nif", b"nif_data"),
    ]);
    let tree = lowercased(&extract(&archive, "Data", ""));
    assert!(tree.contains_key("data/textures/sky.dds"));
    assert!(!has_dir(&tree, "data/TEXTURES"));
}

#[test]
fn of_two_spellings_of_a_file_the_lowercase_one_stays() {
    let tree = lowercased(&tree_of(&[("A.ESP", b"upper"), ("a.esp", b"lower")]));
    assert_eq!(tree, tree_of(&[("a.esp", b"lower")]));
    let tree = lowercased(&tree_of(&[
        ("MESHES/a.nif", b"moved"),
        ("meshes/a.nif", b"replaced"),
        ("meshes/b.nif", b"kept"),
    ]));
    assert_eq!(tree, tree_of(&[("meshes/a.nif", b"moved"), ("meshes/b.nif", b"kept")]));
    let tree = lowercased(&tree_of(&[("DOCS", b"a file"), ("docs/a.txt", b"text")]));
    assert_eq!(tree, tree_of(&[("DOCS", b"a file"), ("docs/a.txt", b"text")]));
}

#[test]
fn entries_move_unless_something_else_stands_there() {
    assert!(moves_on_merge(false, false, false, false));
    assert!(moves_on_merge(false, true, false, false));
    assert!(moves_on_merge(true, true, true, true));
    assert!(!moves_on_merge(true, true, true, false));
    assert!(!moves_on_merge(false, true, true, true));
    assert!(!moves_on_merge(true, true, false, false));
}
