//! From an archive to a registered mod: how its files are extracted, and what
//! is noted of it.
use vstd::prelude::*;

use crate::installer::extract::{tree_placement, zip_placement, PlacementView};
use crate::installer::heuristics::{build_data_archive_plan, data_plan};
use crate::installer::layout::{is_plain, prefix_is_taken_off};
use crate::installer::paths::{extension_is, has_rar_extension};
use crate::installer::types::{
    DataArchivePlan, DataArchivePlanView, InstallStrategy, InstallStrategyView,
};
use crate::mods::{fresh_mod, mod_uuid, with_mod, Mod, ModDatabase, ModView, UuidSeed};
use crate::paths::{file_name, file_name_of};
use crate::text::{all_ascii, concat2, lemma_ascii_concat, owned};

verus! {

// ── Extracting an archive without a FOMOD configuration ─────────────────────

/// One pass over an archive: what lies below the prefix goes below the mod
/// folder's `Data/`, or below the mod folder itself.
#[derive(Debug)]
pub struct ExtractPass {
    pub prefix: String,
    pub into_data: bool,
}

/// An [`ExtractPass`] as a mathematical value.
#[verifier::ext_equal]
pub ghost struct ExtractPassView {
    pub prefix: Seq<char>,
    pub into_data: bool,
}

impl DeepView for ExtractPass {
    type V = ExtractPassView;

    open spec fn deep_view(&self) -> ExtractPassView {
        ExtractPassView { prefix: self.prefix@, into_data: self.into_data }
    }
}

/// The passes over an archive, and whether the names below `Data/` are turned
/// into lowercase after them.
#[derive(Debug)]
pub struct DataInstall {
    pub passes: Vec<ExtractPass>,
    pub lowercase_data: bool,
}

/// The passes that a plan asks for: one for each BAIN package, in their order,
/// so that a later one overrides an earlier one; a single pass otherwise.
pub open spec fn passes_of(plan: DataArchivePlanView) -> Seq<ExtractPassView> {
    match plan {
        DataArchivePlanView::Bain { top_dirs } => top_dirs.map_values(
            |d: Seq<char>| ExtractPassView { prefix: d + "/"@, into_data: true },
        ),
        DataArchivePlanView::ExtractToData { strip_prefix } => seq![
            ExtractPassView { prefix: strip_prefix, into_data: true },
        ],
        DataArchivePlanView::ExtractToModRoot { strip_prefix } => seq![
            ExtractPassView { prefix: strip_prefix, into_data: false },
        ],
    }
}

fn passes_for(plan: DataArchivePlan) -> (r: Vec<ExtractPass>)
    ensures
        r.deep_view() == passes_of(plan.deep_view()),
{
    let ghost view = plan.deep_view();
    let mut r: Vec<ExtractPass> = Vec::new();
    match plan {
        DataArchivePlan::Bain { top_dirs } => {
            let ghost dirs = top_dirs.deep_view();
            for i in 0..top_dirs.len()
                invariant
                    dirs == top_dirs.deep_view(),
                    r@.len() == i,
                    forall|j: int|
                        0 <= j < i ==> #[trigger] r@[j].deep_view() == (ExtractPassView {
                            prefix: dirs[j] + "/"@,
                            into_data: true,
                        }),
            {
                assert(dirs[i as int] == top_dirs@[i as int]@);
                r.push(
                    ExtractPass { prefix: concat2(top_dirs[i].as_str(), "/"), into_data: true },
                );
            }
        },
        DataArchivePlan::ExtractToData { strip_prefix } => {
            r.push(ExtractPass { prefix: strip_prefix, into_data: true });
        },
        DataArchivePlan::ExtractToModRoot { strip_prefix } => {
            r.push(ExtractPass { prefix: strip_prefix, into_data: false });
        },
    }
    assert(r.deep_view() =~= passes_of(view));
    r
}

/// How a zip archive with the given paths is extracted.
pub fn install_zip_data_mod(path_refs: &[&str]) -> (r: DataInstall)
    ensures
        r.passes.deep_view() == passes_of(data_plan(path_refs.deep_view())),
        r.lowercase_data == !(data_plan(path_refs.deep_view()) is ExtractToModRoot),
{
    let plan = build_data_archive_plan(path_refs);
    let lowercase_data = match &plan {
        DataArchivePlan::ExtractToModRoot { .. } => false,
        _ => true,
    };
    DataInstall { passes: passes_for(plan), lowercase_data }
}

/// How an archive of another format with the given paths is extracted.
pub fn install_data_archive_non_zip(path_refs: &[&str]) -> (r: DataInstall)
    ensures
        r.passes.deep_view() == passes_of(data_plan(path_refs.deep_view())),
        r.lowercase_data,
{
    DataInstall { passes: passes_for(build_data_archive_plan(path_refs)), lowercase_data: true }
}

/// How the entries of an archive that has been extracted already are moved.
pub fn install_data_from_extracted(entries: &[&str]) -> (r: DataInstall)
    ensures
        r.passes.deep_view() == passes_of(data_plan(entries.deep_view())),
        r.lowercase_data,
{
    install_data_archive_non_zip(entries)
}

// ── Listing ─────────────────────────────────────────────────────────────────

/// Which library lists an archive that is not a zip archive.
#[derive(Clone, Copy, Debug, PartialEq, Eq, Structural)]
pub enum Lister {
    Rar,
    SevenZip,
}

/// The library that lists an archive that is not a zip archive.
pub fn list_archive_entries_with_7z(archive_path: &str) -> (r: Lister)
    ensures
        r == (if extension_is(archive_path@, "rar"@) {
            Lister::Rar
        } else {
            Lister::SevenZip
        }),
{
    if has_rar_extension(archive_path) {
        Lister::Rar
    } else {
        Lister::SevenZip
    }
}

// ── Registering ─────────────────────────────────────────────────────────────

/// A mod that is installed: its name, its folder, what its identifier is made
/// from, and where it comes from.
pub struct InstallRequest<'a> {
    pub mod_name: &'a str,
    pub mod_dir: &'a str,
    pub seed: UuidSeed,
    pub nexus_id: Option<u32>,
    pub archive_name: Option<&'a str>,
}

/// The mod that is registered for a request.
pub open spec fn installed_mod(request: InstallRequest<'_>) -> ModView {
    ModView {
        installed_from_nexus: request.nexus_id is Some,
        nexus_id: request.nexus_id,
        archive_name: request.archive_name.deep_view(),
        ..fresh_mod(mod_uuid(request.seed), request.mod_name@, request.mod_dir@)
    }
}

/// Why nothing is installed, if nothing is: no files were selected, extracting
/// them failed, or none of the selected files was found.
pub open spec fn install_refusal(
    strategy: InstallStrategyView,
    extracted: Result<bool, String>,
) -> Option<Seq<char>> {
    match strategy {
        InstallStrategyView::Fomod(files) => if files.len() == 0 {
            Some(
                "No files selected for installation. FOMOD configuration may be invalid or no options were selected."@,
            )
        } else {
            match extracted {
                Err(e) => Some(e@),
                Ok(found) => if found {
                    None
                } else {
                    Some(
                        "No files were installed. FOMOD file paths may not match archive contents."@,
                    )
                },
            }
        },
        InstallStrategyView::Data => match extracted {
            Err(e) => Some(e@),
            Ok(_) => None,
        },
    }
}

/// Whether anything is to be extracted at all.
pub fn check_selection(strategy: &InstallStrategy) -> (r: Result<(), String>)
    ensures
        match r {
            Ok(_) => install_refusal(strategy.deep_view(), Ok(true)) is None,
            Err(e) => install_refusal(strategy.deep_view(), Ok(true)) == Some(e@),
        },
{
    match strategy {
        InstallStrategy::Fomod(files) => {
            if files.len() == 0 {
                return Err(
                    owned(
                        "No files selected for installation. FOMOD configuration may be invalid or no options were selected.",
                    ),
                );
            }
            Ok(())
        },
        InstallStrategy::Data => Ok(()),
    }
}

/// Registers a mod whose files have been moved from an extracted archive, given
/// whether any have been, or why that failed.
pub fn install_mod_from_extracted(
    db: &mut ModDatabase,
    strategy: &InstallStrategy,
    extracted: Result<bool, String>,
    request: InstallRequest<'_>,
) -> (r: Result<Mod, String>)
    ensures
        match install_refusal(strategy.deep_view(), extracted) {
            Some(e) => r is Err && r->Err_0@ == e && *final(db) == *old(db),
            None => r is Ok && r->Ok_0.deep_view() == installed_mod(request)
                && final(db).deep_view() == with_mod(old(db).deep_view(), installed_mod(request)),
        },
{
    match check_selection(strategy) {
        Ok(_) => {},
        Err(e) => {
            return Err(e);
        },
    }
    let found = match extracted {
        Ok(found) => found,
        Err(e) => {
            return Err(e);
        },
    };
    match strategy {
        InstallStrategy::Fomod(_) => {
            if !found {
                return Err(
                    owned(
                        "No files were installed. FOMOD file paths may not match archive contents.",
                    ),
                );
            }
        },
        InstallStrategy::Data => {},
    }
    let mut entry = Mod::new(request.mod_name, owned(request.mod_dir), request.seed);
    entry.installed_from_nexus = request.nexus_id.is_some();
    entry.nexus_id = request.nexus_id;
    entry.archive_name = match request.archive_name {
        Some(n) => Some(owned(n)),
        None => None,
    };
    assert(entry.deep_view() =~= installed_mod(request));
    db.register_mod(entry.clone());
    Ok(entry)
}

/// The request with the file name of the archive that the mod comes from.
pub open spec fn from_archive(archive_path: Seq<char>, m: ModView) -> ModView {
    ModView { archive_name: file_name_of(archive_path), ..m }
}

/// Registers a mod whose files have been extracted from an archive, given
/// whether any have been, or why that failed.  The mod is noted to come from
/// the archive's file, and from Nexus if its number there is known.
pub fn install_mod_from_archive_with_nexus_ticking(
    db: &mut ModDatabase,
    archive_path: &str,
    strategy: &InstallStrategy,
    extracted: Result<bool, String>,
    request: InstallRequest<'_>,
) -> (r: Result<Mod, String>)
    ensures
        match install_refusal(strategy.deep_view(), extracted) {
            Some(e) => r is Err && r->Err_0@ == e && *final(db) == *old(db),
            None => r is Ok && r->Ok_0.deep_view() == from_archive(
                archive_path@,
                installed_mod(request),
            ) && final(db).deep_view() == with_mod(
                old(db).deep_view(),
                from_archive(archive_path@, installed_mod(request)),
            ),
        },
{
    let name = file_name(archive_path);
    let archive_name: Option<&str> = match &name {
        Some(n) => Some(n.as_str()),
        None => None,
    };
    let named = InstallRequest {
        mod_name: request.mod_name,
        mod_dir: request.mod_dir,
        seed: request.seed,
        nexus_id: request.nexus_id,
        archive_name,
    };
    assert(installed_mod(named) =~= from_archive(archive_path@, installed_mod(request)));
    install_mod_from_extracted(db, strategy, extracted, named)
}

/// Registers a mod that was extracted from an archive of Nexus, if its number
/// there is given.
pub fn install_mod_from_archive_with_nexus(
    db: &mut ModDatabase,
    archive_path: &str,
    strategy: &InstallStrategy,
    extracted: Result<bool, String>,
    request: InstallRequest<'_>,
) -> (r: Result<Mod, String>)
    ensures
        match install_refusal(strategy.deep_view(), extracted) {
            Some(e) => r is Err && r->Err_0@ == e && *final(db) == *old(db),
            None => r is Ok && r->Ok_0.deep_view() == from_archive(
                archive_path@,
                installed_mod(request),
            ) && final(db).deep_view() == with_mod(
                old(db).deep_view(),
                from_archive(archive_path@, installed_mod(request)),
            ),
        },
{
    install_mod_from_archive_with_nexus_ticking(db, archive_path, strategy, extracted, request)
}

/// Registers a mod that was extracted from an archive of another origin.
pub fn install_mod_from_archive(
    db: &mut ModDatabase,
    archive_path: &str,
    strategy: &InstallStrategy,
    extracted: Result<bool, String>,
    request: InstallRequest<'_>,
) -> (r: Result<Mod, String>)
    ensures
        match install_refusal(strategy.deep_view(), extracted) {
            Some(e) => r is Err && r->Err_0@ == e && *final(db) == *old(db),
            None => {
                let m = ModView {
                    installed_from_nexus: false,
                    nexus_id: None,
                    ..from_archive(archive_path@, installed_mod(request))
                };
                &&& r is Ok
                &&& r->Ok_0.deep_view() == m
                &&& final(db).deep_view() == with_mod(old(db).deep_view(), m)
            },
        },
{
    let plain = InstallRequest {
        mod_name: request.mod_name,
        mod_dir: request.mod_dir,
        seed: request.seed,
        nexus_id: None,
        archive_name: request.archive_name,
    };
    assert(from_archive(archive_path@, installed_mod(plain)) =~= ModView {
        installed_from_nexus: false,
        nexus_id: None,
        ..from_archive(archive_path@, installed_mod(request))
    });
    install_mod_from_archive_with_nexus_ticking(db, archive_path, strategy, extracted, plain)
}

// ── Laws ────────────────────────────────────────────────────────────────────

/// Every package of a BAIN archive is extracted to the data directory without
/// the package's own directory, in the order of the packages.
pub proof fn each_package_is_extracted_to_the_data_directory(
    dirs: Seq<Seq<char>>,
    i: int,
    rel: Seq<char>,
)
    requires
        0 <= i < dirs.len(),
        all_ascii(dirs[i]),
        !dirs[i].contains('\\'),
        is_plain(rel),
        dirs[i].len() + 1 + rel.len() <= usize::MAX,
    ensures
        ({
            let passes = passes_of(DataArchivePlanView::Bain { top_dirs: dirs });
            let name = dirs[i] + seq!['/'] + rel;
            &&& passes.len() == dirs.len()
            &&& passes[i].into_data
            &&& zip_placement(name, passes[i].prefix) == PlacementView::Put(rel)
            &&& tree_placement(name, passes[i].prefix) == PlacementView::Put(rel)
        }),
{
    reveal_strlit("/");
    let slash = seq!['/'];
    assert("/"@ =~= slash);
    let front = dirs[i] + slash;
    lemma_ascii_concat(dirs[i], slash);
    assert(all_ascii(slash));
    assert forall|j: int| 0 <= j < front.len() implies front[j] != '\\' by {
        if j < dirs[i].len() {
            assert(dirs[i].contains(dirs[i][j]));
        }
    }
    prefix_is_taken_off(front, rel, front);
}

/// Any other archive is extracted once, with the prefix of its plan, to the data
/// directory or beside it as the plan says.
pub proof fn other_archives_are_extracted_once(prefix: Seq<char>)
    ensures
        passes_of(DataArchivePlanView::ExtractToData { strip_prefix: prefix }) == seq![
            ExtractPassView { prefix, into_data: true },
        ],
        passes_of(DataArchivePlanView::ExtractToModRoot { strip_prefix: prefix }) == seq![
            ExtractPassView { prefix, into_data: false },
        ],
{
}

/// An installation is refused if the extraction failed, and, of a FOMOD, if no
/// files were selected or none were found; a failure is told as it came.
pub proof fn installations_fail_with_their_extraction(
    strategy: InstallStrategyView,
    extracted: Result<bool, String>,
)
    ensures
        ({
            let refused = install_refusal(strategy, extracted);
            let nothing = strategy is Fomod && (strategy->Fomod_0.len() == 0 || extracted == Ok::<
                bool,
                String,
            >(false));
            &&& refused is Some <==> extracted is Err || nothing
            &&& extracted is Err && !(strategy is Fomod && strategy->Fomod_0.len() == 0) ==> refused
                == Some(extracted->Err_0@)
        }),
{
}

/// A mod counts as coming from Nexus Mods if it has a number there.
pub proof fn installed_mods_keep_what_is_known_of_them(request: InstallRequest<'_>)
    ensures
        ({
            let m = installed_mod(request);
            &&& m.name == request.mod_name@
            &&& m.source_path == request.mod_dir@
            &&& m.nexus_id == request.nexus_id
            &&& m.installed_from_nexus <==> request.nexus_id is Some
            &&& m.archive_name == request.archive_name.deep_view()
            &&& !m.enabled
        }),
{
}

} // verus!
