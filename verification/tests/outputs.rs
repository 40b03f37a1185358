//! Files that tools generate, and what changes while a game runs.
use std::collections::BTreeMap;

use linkmm::generated_outputs::{
    adoption_staging_dir, staging_dir,
    adopt_existing_game_data_files, capture_and_register_from_game_data_diff,
    cleanup_stale_generated_outputs, register_output_directory_package,
    remove_generated_output_package, snapshot_game_data, NewPackage, RestoreStep, ToolRunContext,
};
use linkmm::games::GameKind;
use linkmm::mods::{GeneratedOutputPackage, ModDatabase, OwnedGeneratedFile};
use linkmm::runtime_scan::{
    adopt_runtime_paths, classify_unmanaged, clear_ignored_paths_for_active_profile,
    scan_profile_runtime_changes, set_runtime_path_ignored, DataFile,
    RuntimeEntryClassification, RuntimeEntryReviewStatus,
};
use linkmm::table::NameSet;

fn texts(list: &[&str]) -> Vec<String> {
    list.iter().map(|s| s.to_string()).collect()
}

fn tool(id: &str) -> ToolRunContext {
    ToolRunContext { tool_id: id.to_string(), run_profile: "default".to_string() }
}

fn register(db: &mut ModDatabase, id: &str, tool_id: &str, files: &[&str]) -> String {
    let files = texts(files);
    let new = NewPackage { id, name: "Output", files: &files, now: 7 };
    register_output_directory_package(db, "/mods", &tool(tool_id), &new)
}

#[test]
fn dedicated_output_registers_as_managed_package_and_deploys() {
    let mut db = ModDatabase::default();
    register(&mut db, "p1", "bodyslide", &["meshes/out.nif"]);
    assert_eq!(db.generated_outputs.len(), 1);
    assert_eq!(db.generated_outputs[0].tool_id, "bodyslide");
    assert_eq!(db.generated_outputs[0].owned_files.len(), 1);
    assert_eq!(db.generated_outputs[0].owned_files[0].relative_path, "meshes/out.nif");
}

#[test]
fn rerun_replaces_previous_package_for_same_tool_profile() {
    let mut db = ModDatabase::default();
    let first = register(&mut db, "p1", "nemesis", &["meshes/out.nif"]);
    let second = register(&mut db, "p2", "nemesis", &["meshes/out.nif", "meshes/b.nif"]);
    assert_eq!(db.generated_outputs.len(), 1);
    assert_eq!(db.generated_outputs[0].owned_files.len(), 2);
    register(&mut db, "p3", "pandora", &["c.nif"]);
    assert_eq!(db.generated_outputs.len(), 2);
    assert_eq!((first.is_empty(), second.is_empty()), (false, false));
}

#[test]
fn snapshot_diff_capture_restores_game_folder_and_registers_output() {
    let file = |p: &str, b: &[u8]| (p.to_string(), b.to_vec());
    let before = snapshot_game_data(vec![
        file("meshes/existing.nif", b"old"),
        file("meshes/gone.nif", b"gone"),
    ]);
    let disk = vec![file("meshes/existing.nif", b"new"), file("meshes/newgen.nif", b"generated")];
    let after = snapshot_game_data(disk.clone());
    let plan = capture_and_register_from_game_data_diff(&before, &after);
    assert_eq!(plan.staged.len(), 2);
    assert!(plan.staged.contains("meshes/existing.nif"));
    assert!(plan.staged.contains("meshes/newgen.nif"));

    let mut disk: BTreeMap<String, Vec<u8>> = disk.into_iter().collect();
    for step in plan.restore {
        match step {
            RestoreStep::Write { path, bytes } => {
                disk.insert(path, bytes);
            }
            RestoreStep::Remove { path } => {
                disk.remove(&path);
            }
        }
    }
    assert_eq!(disk["meshes/existing.nif"], b"old");
    assert_eq!(disk["meshes/gone.nif"], b"gone");
    assert!(!disk.contains_key("meshes/newgen.nif"));

    let mut db = ModDatabase::default();
    let staged: Vec<&str> = plan.staged.names().iter().map(|s| s.as_str()).collect();
    register(&mut db, "p1", "pandora", &staged);
    assert_eq!(db.generated_outputs.len(), 1);
    assert_eq!(db.generated_outputs[0].owned_files.len(), 2);
}

#[test]
fn generated_plugin_output_is_written_to_plugins_txt_on_rebuild() {
    let mut db = ModDatabase::default();
    register(&mut db, "p1", "xedit", &["GeneratedPatch.esp"]);
    let plugins = db.write_plugins_txt(GameKind::SkyrimSE, &texts(&["GeneratedPatch.esp"]));
    assert!(plugins.contains("*GeneratedPatch.esp"));
}

#[test]
fn remove_generated_output_package_cleans_deployment_links() {
    let mut db = ModDatabase::default();
    let id = register(&mut db, "p1", "bodyslide", &["meshes/out.nif"]);
    let failed = remove_generated_output_package(&mut db, &id, Err("busy".to_string()));
    assert!(failed.is_err());
    assert_eq!(db.generated_outputs.len(), 1);
    remove_generated_output_package(&mut db, &id, Ok(())).unwrap();
    assert!(db.generated_outputs.is_empty());
    assert!(remove_generated_output_package(&mut db, "none", Ok(())).is_ok());
}

#[test]
fn packages_without_files_on_disk_are_forgotten() {
    let mut db = ModDatabase::default();
    register(&mut db, "p1", "a", &["x.nif"]);
    register(&mut db, "p2", "b", &["y.nif"]);
    let kept = db.generated_outputs[1].source_path.clone();
    cleanup_stale_generated_outputs(&mut db, &vec![kept]);
    assert_eq!(db.generated_outputs.len(), 1);
    assert_eq!(db.generated_outputs[0].tool_id, "b");
}

#[test]
fn existing_files_are_adopted_where_they_are_present() {
    let mut db = ModDatabase::default();
    let files = texts(&["textures/a.dds", "textures/gone.dds", "textures/a.dds"]);
    let new = NewPackage { id: "p1", name: "Adopted", files: &files, now: 3 };
    let (id, adopted) = adopt_existing_game_data_files(
        &mut db,
        "/mods",
        &tool("adopt"),
        &new,
        &texts(&["textures/a.dds"]),
    );
    assert_eq!(adopted, texts(&["textures/a.dds"]));
    assert!(db.generated_outputs.iter().any(|p| p.id == id));
    assert_eq!(db.generated_outputs[0].owned_files.len(), 1);
}

#[test]
fn classification_helper_is_truthful() {
    assert_eq!(
        classify_unmanaged("textures/a.dds"),
        RuntimeEntryClassification::UnmanagedAdoptable
    );
    assert_eq!(
        classify_unmanaged("logs/tool.log"),
        RuntimeEntryClassification::UnmanagedIgnorable
    );
    assert_eq!(
        classify_unmanaged("meshes/custom.bin"),
        RuntimeEntryClassification::UnknownNeedsReview
    );
}

fn data_file(path: &str) -> DataFile {
    DataFile { relative_path: path.to_string(), link_target: None }
}

#[test]
fn scan_is_profile_aware() {
    let files = vec![data_file("textures/runtime.dds")];
    let mut db = ModDatabase::default();
    db.active_profile_id = "profile_a".to_string();
    let a = scan_profile_runtime_changes(&db, &files);
    assert!(a.entries.iter().any(|e| e.relative_path == "textures/runtime.dds"));

    db.active_profile_id = "profile_b".to_string();
    let mut ignored = NameSet::new();
    ignored.insert("textures/runtime.dds");
    db.profile_runtime_ignored.insert("profile_b", ignored);
    let b = scan_profile_runtime_changes(&db, &files);
    let entry = b.entries.iter().find(|e| e.relative_path == "textures/runtime.dds").unwrap();
    assert_eq!(entry.review_status, RuntimeEntryReviewStatus::Ignored);
}

#[test]
fn adoptable_entries_can_be_ignored_and_resolved() {
    let files = vec![data_file("textures/runtime.dds")];
    let mut db = ModDatabase::default();
    let report = scan_profile_runtime_changes(&db, &files);
    assert!(report.has_unresolved_changes());
    assert_eq!(report.adoptable_count(), 1);
    assert_eq!(report.unknown_count(), 0);

    set_runtime_path_ignored(&mut db, "textures/runtime.dds", true);
    let ignored = scan_profile_runtime_changes(&db, &files);
    assert_eq!(ignored.unresolved_review_count(), 0);

    clear_ignored_paths_for_active_profile(&mut db, &texts(&["textures/runtime.dds"]));
    assert!(scan_profile_runtime_changes(&db, &files).has_unresolved_changes());
}

#[test]
fn managed_missing_is_detected() {
    let mut db = ModDatabase::default();
    let mut package = GeneratedOutputPackage::new(
        "p1".to_string(),
        "Generated".to_string(),
        "tool_a".to_string(),
        "default".to_string(),
        db.active_profile_id.clone(),
        "/tmp/pkg".to_string(),
    );
    package.owned_files.push(OwnedGeneratedFile {
        relative_path: "meshes/out.nif".to_string(),
        captured_at: 0,
        source_tool: "tool_a".to_string(),
    });
    db.generated_outputs.push(package);
    let report = scan_profile_runtime_changes(&db, &Vec::new());
    assert!(report.entries.iter().any(|e| {
        e.classification == RuntimeEntryClassification::ManagedOwnedMissing
            && e.relative_path == "meshes/out.nif"
    }));
}

#[test]
fn managed_files_are_present_or_modified() {
    let mut db = ModDatabase::default();
    register(&mut db, "p1", "tool_a", &["meshes/out.nif"]);
    let source = format!("{}/meshes/out.nif", db.generated_outputs[0].source_path);
    let linked = |target: Option<String>| {
        vec![DataFile { relative_path: "meshes/out.nif".to_string(), link_target: target }]
    };
    let class = |files: &Vec<DataFile>| {
        scan_profile_runtime_changes(&db, files).entries[0].classification
    };
    assert_eq!(class(&linked(Some(source))), RuntimeEntryClassification::ManagedOwnedPresent);
    assert_eq!(class(&linked(None)), RuntimeEntryClassification::ManagedOwnedModified);
}

#[test]
fn runtime_files_are_adopted_into_a_package() {
    let mut db = ModDatabase::default();
    let paths = texts(&["textures/a.dds", "logs/x.log"]);
    let adopted = adopt_runtime_paths(&mut db, "/mods", &paths, &paths, "p9", 4);
    let (_, files) = adopted.unwrap();
    assert_eq!(files, texts(&["textures/a.dds"]));
    assert!(adopt_runtime_paths(&mut db, "/mods", &texts(&["logs/x.log"]), &paths, "q", 4)
        .is_none());
}

#[test]
fn outputs_are_staged_by_tool() {
    assert_eq!(staging_dir("/mods", &tool("nemesis")), "/mods/generated_outputs/nemesis_staging");
    assert_eq!(
        adoption_staging_dir("/mods", &tool("nemesis")),
        "/mods/generated_outputs/nemesis_adopt_staging"
    );
}

#[test]
fn a_scan_reports_every_file_in_path_order() {
    let mut db = ModDatabase::default();
    register(&mut db, "p1", "nemesis", &["b/owned.txt"]);
    let files = vec![data_file("z.txt"), data_file("a/b.txt"), data_file("a.txt")];
    let report = scan_profile_runtime_changes(&db, &files);
    let paths: Vec<&str> = report.entries.iter().map(|e| e.relative_path.as_str()).collect();
    assert_eq!(paths, vec!["a/b.txt", "a.txt", "b/owned.txt", "z.txt"]);
}
