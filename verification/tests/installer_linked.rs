//! Installing for deployment by links.
use linkmm::installer::linked::{
    detect_data_root, determine_link_type, is_safe_relative_path, normalize_path_lowercase,
    resolve_file_conflicts, score_as_data_root, strip_data_prefix, ActiveFlags,
    DependencyOperator, FlagDependency, FomodConfig, FomodFile, InstallStrategy, LinkKind,
    PluginDependencies,
};

#[test]
fn installer_new_test_normalize_path_lowercase() {
    assert_eq!(
        normalize_path_lowercase("Textures\\Armor\\Helmet.DDS"),
        "textures/armor/helmet.dds"
    );
    assert_eq!(
        normalize_path_lowercase("Data/meshes/MyMod.NIF"),
        "data/meshes/mymod.nif"
    );
}

#[test]
fn installer_new_test_strip_data_prefix() {
    assert_eq!(strip_data_prefix("Data/meshes/file.nif"), "meshes/file.nif");
    assert_eq!(strip_data_prefix("data/textures/tex.dds"), "textures/tex.dds");
    assert_eq!(strip_data_prefix("meshes/file.nif"), "meshes/file.nif");
    assert_eq!(strip_data_prefix("Data"), "");
    assert_eq!(strip_data_prefix("data"), "");
}

#[test]
fn installer_new_test_is_safe_relative_path() {
    assert!(is_safe_relative_path("meshes/armor/helmet.nif"));
    assert!(is_safe_relative_path("./meshes/file.nif"));
    assert!(!is_safe_relative_path("../../../etc/passwd"));
    assert!(!is_safe_relative_path("/etc/passwd"));
    assert!(is_safe_relative_path("folder/../other/file.txt")); // depth stays >= 0
}

#[test]
fn installer_new_test_score_as_data_root_empty_prefix() {
    let paths = vec![
        "meshes/armor/helmet.nif".to_string(),
        "textures/armor/helmet.dds".to_string(),
        "MyMod.esp".to_string(),
    ];

    let score = score_as_data_root("", &paths);
    // meshes=10, textures=10, .esp=15 = 35
    assert_eq!(score, 35);
}

#[test]
fn installer_new_test_score_as_data_root_with_prefix() {
    let paths = vec![
        "MyMod/meshes/file.nif".to_string(),
        "MyMod/textures/file.dds".to_string(),
        "MyMod/MyMod.esp".to_string(),
    ];

    let score = score_as_data_root("MyMod", &paths);
    assert_eq!(score, 35); // Same as above
}

#[test]
fn installer_new_test_score_as_data_root_data_named_dir() {
    let paths = vec![
        "Data/meshes/file.nif".to_string(),
        "Data/MyMod.esp".to_string(),
    ];

    let score = score_as_data_root("Data", &paths);
    // "data" name bonus=20, meshes=10, .esp=15 = 45
    assert_eq!(score, 45);
}

#[test]
fn installer_new_test_detect_data_root_simple() {
    let paths = vec![
        "meshes/armor/helmet.nif".to_string(),
        "textures/armor/helmet.dds".to_string(),
        "MyMod.esp".to_string(),
    ];

    let root = detect_data_root(&paths);
    assert_eq!(root, Some(String::new())); // Root is already Data/
}

#[test]
fn installer_new_test_detect_data_root_single_wrapper() {
    let paths = vec![
        "MyMod/meshes/file.nif".to_string(),
        "MyMod/textures/file.dds".to_string(),
        "MyMod/MyMod.esp".to_string(),
    ];

    let root = detect_data_root(&paths);
    assert_eq!(root, Some("mymod".to_string())); // Strip "MyMod/"
}

#[test]
fn installer_new_test_detect_data_root_explicit_data_dir() {
    let paths = vec![
        "Data/meshes/file.nif".to_string(),
        "Data/MyMod.esp".to_string(),
    ];

    let root = detect_data_root(&paths);
    // "Data" directory itself has content, so strip it
    assert_eq!(root, Some("data".to_string()));
}

#[test]
fn installer_new_test_resolve_file_conflicts() {
    let files = vec![
        FomodFile {
            source: "a.txt".to_string(),
            destination: "file.txt".to_string(),
            priority: 0,
            doc_order: 1,
        },
        FomodFile {
            source: "b.txt".to_string(),
            destination: "file.txt".to_string(),
            priority: 10,
            doc_order: 2,
        },
        FomodFile {
            source: "c.txt".to_string(),
            destination: "other.txt".to_string(),
            priority: 0,
            doc_order: 3,
        },
    ];

    let resolved = resolve_file_conflicts(files);
    assert_eq!(resolved.len(), 2); // Two unique destinations

    // file.txt should be b.txt (higher priority)
    let file_txt = resolved.iter().find(|f| f.destination == "file.txt").unwrap();
    assert_eq!(file_txt.source, "b.txt");

    // other.txt should be c.txt
    let other_txt = resolved.iter().find(|f| f.destination == "other.txt").unwrap();
    assert_eq!(other_txt.source, "c.txt");
}

#[test]
fn test_resolve_file_conflicts_doc_order_tiebreak() {
    let files = vec![
        FomodFile {
            source: "a.txt".to_string(),
            destination: "file.txt".to_string(),
            priority: 5,
            doc_order: 1,
        },
        FomodFile {
            source: "b.txt".to_string(),
            destination: "file.txt".to_string(),
            priority: 5,
            doc_order: 2,
        },
    ];

    let resolved = resolve_file_conflicts(files);
    assert_eq!(resolved.len(), 1);

    // Later doc_order wins on tie
    assert_eq!(resolved[0].source, "b.txt");
    assert_eq!(resolved[0].doc_order, 2);
}

#[test]
fn installer_new_test_dependency_evaluate_and() {
    let deps = PluginDependencies {
        operator: DependencyOperator::And,
        flags: vec![
            FlagDependency {
                flag: "TEX_QUALITY".to_string(),
                value: "4K".to_string(),
            },
            FlagDependency {
                flag: "BODY_TYPE".to_string(),
                value: "CBBE".to_string(),
            },
        ],
    };

    let mut active = ActiveFlags::new();
    active.insert("tex_quality".to_string(), "4k".to_string());
    active.insert("body_type".to_string(), "cbbe".to_string());

    assert!(deps.evaluate(&active));

    // Missing one flag
    active.remove("body_type");
    assert!(!deps.evaluate(&active));
}

#[test]
fn installer_new_test_dependency_evaluate_or() {
    let deps = PluginDependencies {
        operator: DependencyOperator::Or,
        flags: vec![
            FlagDependency {
                flag: "OPTION_A".to_string(),
                value: "YES".to_string(),
            },
            FlagDependency {
                flag: "OPTION_B".to_string(),
                value: "YES".to_string(),
            },
        ],
    };

    let mut active = ActiveFlags::new();
    active.insert("option_a".to_string(), "yes".to_string());

    assert!(deps.evaluate(&active)); // One is enough

    active = ActiveFlags::new();
    assert!(!deps.evaluate(&active)); // None satisfied
}

#[test]
fn backslashes_part_no_components() {
    assert!(is_safe_relative_path("..\\x"));
    assert!(!is_safe_relative_path("a/../../x"));
}

#[test]
fn stripping_finds_the_prefix_with_either_slash() {
    assert_eq!(strip_data_prefix("\\Data\\meshes\\a.nif\\"), "meshes/a.nif");
    assert_eq!(strip_data_prefix("//DATA/"), "");
}

#[test]
fn stripping_leaves_other_paths_unchanged() {
    assert_eq!(strip_data_prefix("meshes\\file.nif"), "meshes\\file.nif");
    assert_eq!(strip_data_prefix("/database/a.esp/"), "/database/a.esp/");
}

#[test]
fn hard_links_stay_on_one_known_device() {
    assert_eq!(determine_link_type(Some(7), Some(7)), LinkKind::Hardlink);
    assert_eq!(determine_link_type(Some(7), Some(8)), LinkKind::Symlink);
    assert_eq!(determine_link_type(None, Some(1)), LinkKind::Symlink);
    assert_eq!(determine_link_type(Some(1), None), LinkKind::Symlink);
    assert_eq!(determine_link_type(None, None), LinkKind::Symlink);
}

#[test]
fn conflicts_ignore_case_and_keep_the_order_of_destinations() {
    let f = |s: &str, d: &str, p: i32, o: usize| FomodFile {
        source: s.to_string(),
        destination: d.to_string(),
        priority: p,
        doc_order: o,
    };
    let resolved = resolve_file_conflicts(vec![
        f("1", "Z\\x.dds", 0, 1),
        f("2", "a.esp", -3, 2),
        f("3", "z/X.DDS", 0, 0),
        f("4", "A.ESP", -2, 1),
    ]);
    let kept: Vec<&str> = resolved.iter().map(|f| f.source.as_str()).collect();
    assert_eq!(kept, vec!["4", "1"]);
    assert!(resolve_file_conflicts(Vec::new()).is_empty());
}

#[test]
fn strategies_carry_their_data() {
    let plain = InstallStrategy::SimpleData { strip_prefix: "MyMod/".to_string() };
    assert!(matches!(plain, InstallStrategy::SimpleData { strip_prefix } if strip_prefix == "MyMod/"));
    let config = FomodConfig {
        mod_name: None,
        required_files: Vec::new(),
        install_steps: Vec::new(),
        conditional_installs: Vec::new(),
    };
    assert!(matches!(InstallStrategy::Fomod { config }, InstallStrategy::Fomod { .. }));
}
