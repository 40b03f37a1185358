//! Reviewing what games and tools have left in the data directory.
use vstd::prelude::*;

use crate::generated_outputs::{
    adopt_existing_game_data_files, owned_by, present_files, with_package, NewPackage,
    ToolRunContext,
};
use crate::mods::{
    GeneratedOutputPackage, GeneratedOutputPackageView, ModDatabase, ModDatabaseView,
    OwnedGeneratedFileView,
};
use crate::paths::{
    join, joined, lemma_parts_total, lemma_parts_transitive, parts_of, path_less, path_precedes,
    path_same, same_path,
};
use crate::table::NameSet;
use crate::text::{
    concat3, ends_with, has_prefix, has_suffix, lemma_sorted_keeps, lemma_sorted_positions,
    lemma_stably_sorted, lowercase, owned, same, sort_stably, sorted_positions, stably_sorted,
    starts_with, to_lowercase, total_preorder,
};

verus! {

// ── Reports ─────────────────────────────────────────────────────────────────

/// What a file in the data directory is.
#[derive(Clone, Copy, Debug, PartialEq, Eq, Structural)]
pub enum RuntimeEntryClassification {
    ManagedOwnedPresent,
    ManagedOwnedMissing,
    ManagedOwnedModified,
    UnmanagedAdoptable,
    UnmanagedIgnorable,
    UnknownNeedsReview,
}

/// Whether a file is still to be reviewed.
#[derive(Clone, Copy, Debug, PartialEq, Eq, Structural)]
pub enum RuntimeEntryReviewStatus {
    Pending,
    Ignored,
}

/// What a scan says of one file.
#[derive(Debug)]
pub struct RuntimeScanEntry {
    pub relative_path: String,
    pub classification: RuntimeEntryClassification,
    pub review_status: RuntimeEntryReviewStatus,
    pub package_id: Option<String>,
    pub tool_id: Option<String>,
    pub explanation: String,
}

/// A [`RuntimeScanEntry`] as a mathematical value.
#[verifier::ext_equal]
pub ghost struct RuntimeScanEntryView {
    pub relative_path: Seq<char>,
    pub classification: RuntimeEntryClassification,
    pub review_status: RuntimeEntryReviewStatus,
    pub package_id: Option<Seq<char>>,
    pub tool_id: Option<Seq<char>>,
    pub explanation: Seq<char>,
}

impl DeepView for RuntimeScanEntry {
    type V = RuntimeScanEntryView;

    open spec fn deep_view(&self) -> RuntimeScanEntryView {
        RuntimeScanEntryView {
            relative_path: self.relative_path@,
            classification: self.classification,
            review_status: self.review_status,
            package_id: self.package_id.deep_view(),
            tool_id: self.tool_id.deep_view(),
            explanation: self.explanation@,
        }
    }
}

/// What a scan says of the data directory.
#[derive(Debug)]
pub struct RuntimeScanReport {
    pub entries: Vec<RuntimeScanEntry>,
}

/// The file is to be reviewed.
pub open spec fn is_unresolved(e: RuntimeScanEntryView) -> bool {
    e.review_status == RuntimeEntryReviewStatus::Pending && (e.classification
        == RuntimeEntryClassification::UnmanagedAdoptable || e.classification
        == RuntimeEntryClassification::UnknownNeedsReview || e.classification
        == RuntimeEntryClassification::ManagedOwnedMissing || e.classification
        == RuntimeEntryClassification::ManagedOwnedModified)
}

/// The file is to be reviewed and of the given kind.
pub open spec fn is_pending(e: RuntimeScanEntryView, c: RuntimeEntryClassification) -> bool {
    e.review_status == RuntimeEntryReviewStatus::Pending && e.classification == c
}

fn count_entries<F: Fn(&RuntimeScanEntry) -> bool>(
    entries: &Vec<RuntimeScanEntry>,
    counts: F,
    Ghost(counted): Ghost<spec_fn(RuntimeScanEntryView) -> bool>,
) -> (r: usize)
    requires
        forall|e: &RuntimeScanEntry| #[trigger] counts.requires((e,)),
        forall|e: &RuntimeScanEntry, b: bool| #[trigger]
            counts.ensures((e,), b) ==> b == counted(e.deep_view()),
    ensures
        r == entries.deep_view().filter(counted).len(),
{
    let ghost all = entries.deep_view();
    let mut n: usize = 0;
    assert(all.take(0).filter(counted).len() == 0) by {
        reveal(Seq::filter);
    }
    for i in 0..entries.len()
        invariant
            forall|e: &RuntimeScanEntry| #[trigger] counts.requires((e,)),
            forall|e: &RuntimeScanEntry, b: bool| #[trigger]
                counts.ensures((e,), b) ==> b == counted(e.deep_view()),
            all == entries.deep_view(),
            n == all.take(i as int).filter(counted).len(),
            n <= i,
    {
        assert(all[i as int] == entries@[i as int].deep_view());
        assert(all.take(i + 1).drop_last() =~= all.take(i as int));
        assert(all.take(i + 1).filter(counted).len() == all.take(i as int).filter(counted).len()
            + (if counted(all[i as int]) {
            1int
        } else {
            0
        })) by {
            reveal(Seq::filter);
        }
        if counts(&entries[i]) {
            n = n + 1;
        }
    }
    assert(all.take(all.len() as int) =~= all);
    n
}

impl RuntimeScanReport {
    /// How many files are to be reviewed.
    pub fn unresolved_review_count(&self) -> (r: usize)
        ensures
            r == self.entries.deep_view().filter(|e: RuntimeScanEntryView| is_unresolved(e)).len(),
    {
        let counts = |e: &RuntimeScanEntry| -> (b: bool)
            ensures
                b == is_unresolved(e.deep_view()),
        {
            e.review_status == RuntimeEntryReviewStatus::Pending && matches!(
                e.classification,
                RuntimeEntryClassification::UnmanagedAdoptable
                    | RuntimeEntryClassification::UnknownNeedsReview
                    | RuntimeEntryClassification::ManagedOwnedMissing
                    | RuntimeEntryClassification::ManagedOwnedModified
            )
        };
        count_entries(&self.entries, counts, Ghost(|e: RuntimeScanEntryView| is_unresolved(e)))
    }

    /// How many files can be adopted.
    pub fn adoptable_count(&self) -> (r: usize)
        ensures
            r == self.entries.deep_view().filter(
                |e: RuntimeScanEntryView|
                    is_pending(e, RuntimeEntryClassification::UnmanagedAdoptable),
            ).len(),
    {
        let counts = |e: &RuntimeScanEntry| -> (b: bool)
            ensures
                b == is_pending(e.deep_view(), RuntimeEntryClassification::UnmanagedAdoptable),
        {
            e.review_status == RuntimeEntryReviewStatus::Pending && e.classification
                == RuntimeEntryClassification::UnmanagedAdoptable
        };
        count_entries(
            &self.entries,
            counts,
            Ghost(
                |e: RuntimeScanEntryView|
                    is_pending(e, RuntimeEntryClassification::UnmanagedAdoptable),
            ),
        )
    }

    /// How many files nothing is known of.
    pub fn unknown_count(&self) -> (r: usize)
        ensures
            r == self.entries.deep_view().filter(
                |e: RuntimeScanEntryView|
                    is_pending(e, RuntimeEntryClassification::UnknownNeedsReview),
            ).len(),
    {
        let counts = |e: &RuntimeScanEntry| -> (b: bool)
            ensures
                b == is_pending(e.deep_view(), RuntimeEntryClassification::UnknownNeedsReview),
        {
            e.review_status == RuntimeEntryReviewStatus::Pending && e.classification
                == RuntimeEntryClassification::UnknownNeedsReview
        };
        count_entries(
            &self.entries,
            counts,
            Ghost(
                |e: RuntimeScanEntryView|
                    is_pending(e, RuntimeEntryClassification::UnknownNeedsReview),
            ),
        )
    }

    /// Whether any file is to be reviewed.
    pub fn has_unresolved_changes(&self) -> (r: bool)
        ensures
            r == (self.entries.deep_view().filter(
                |e: RuntimeScanEntryView| is_unresolved(e),
            ).len() > 0),
    {
        self.unresolved_review_count() > 0
    }
}

// ── Files that no package owns ──────────────────────────────────────────────

/// What a file that no package owns is, by its lowercase path.
pub open spec fn unmanaged_kind(lower: Seq<char>) -> RuntimeEntryClassification {
    if has_prefix(lower, "logs/"@) || has_prefix(lower, "shadercache/"@) || has_prefix(
        lower,
        "skse/"@,
    ) || has_prefix(lower, "f4se/"@) || has_suffix(lower, ".log"@) || has_suffix(lower, ".tmp"@)
        || has_suffix(lower, ".bak"@) || has_suffix(lower, ".dmp"@) {
        RuntimeEntryClassification::UnmanagedIgnorable
    } else if has_suffix(lower, ".esp"@) || has_suffix(lower, ".esm"@) || has_suffix(
        lower,
        ".esl"@,
    ) || has_suffix(lower, ".nif"@) || has_suffix(lower, ".dds"@) || has_suffix(lower, ".pex"@)
        || has_suffix(lower, ".hkx"@) || has_suffix(lower, ".json"@) || has_suffix(lower, ".ini"@)
        || has_suffix(lower, ".txt"@) {
        RuntimeEntryClassification::UnmanagedAdoptable
    } else {
        RuntimeEntryClassification::UnknownNeedsReview
    }
}

/// What a file that no package owns is: logs, caches and leftovers are ignored,
/// the kinds of files that mods are made of can be adopted.
pub fn classify_unmanaged(path: &str) -> (r: RuntimeEntryClassification)
    ensures
        r == unmanaged_kind(lowercase(path@)),
{
    let text = to_lowercase(path);
    let lower = text.as_str();
    if starts_with(lower, "logs/") || starts_with(lower, "shadercache/") || starts_with(
        lower,
        "skse/",
    ) || starts_with(lower, "f4se/") || ends_with(lower, ".log") || ends_with(lower, ".tmp")
        || ends_with(lower, ".bak") || ends_with(lower, ".dmp") {
        RuntimeEntryClassification::UnmanagedIgnorable
    } else if ends_with(lower, ".esp") || ends_with(lower, ".esm") || ends_with(lower, ".esl")
        || ends_with(lower, ".nif") || ends_with(lower, ".dds") || ends_with(lower, ".pex")
        || ends_with(lower, ".hkx") || ends_with(lower, ".json") || ends_with(lower, ".ini")
        || ends_with(lower, ".txt") {
        RuntimeEntryClassification::UnmanagedAdoptable
    } else {
        RuntimeEntryClassification::UnknownNeedsReview
    }
}

// ── Scanning ────────────────────────────────────────────────────────────────

/// A file in the data directory, and where it leads if it is a link.
pub struct DataFile {
    pub relative_path: String,
    pub link_target: Option<String>,
}

/// A [`DataFile`] as a mathematical value.
#[verifier::ext_equal]
pub ghost struct DataFileView {
    pub relative_path: Seq<char>,
    pub link_target: Option<Seq<char>>,
}

impl DeepView for DataFile {
    type V = DataFileView;

    open spec fn deep_view(&self) -> DataFileView {
        DataFileView {
            relative_path: self.relative_path@,
            link_target: self.link_target.deep_view(),
        }
    }
}

/// A file that a package owns.
struct OwnedRecord {
    path: String,
    package_id: String,
    tool_id: String,
    source_path: String,
}

/// A file that a package owns.
#[verifier::ext_equal]
pub ghost struct OwnedRecordView {
    pub path: Seq<char>,
    pub package_id: Seq<char>,
    pub tool_id: Seq<char>,
    pub source_path: Seq<char>,
}

impl DeepView for OwnedRecord {
    type V = OwnedRecordView;

    closed spec fn deep_view(&self) -> OwnedRecordView {
        OwnedRecordView {
            path: self.path@,
            package_id: self.package_id@,
            tool_id: self.tool_id@,
            source_path: self.source_path@,
        }
    }
}

/// The index of the first record for the path, or their number.
pub open spec fn record_index(records: Seq<OwnedRecordView>, path: Seq<char>) -> int
    decreases records.len(),
{
    if records.len() == 0 || path_same(records[0].path, path) {
        0
    } else {
        1 + record_index(records.skip(1), path)
    }
}

/// The records with one more: it takes over an earlier record for its path.
pub open spec fn with_record(records: Seq<OwnedRecordView>, new: OwnedRecordView) -> Seq<
    OwnedRecordView,
> {
    let i = record_index(records, new.path);
    if i < records.len() {
        records.update(i, OwnedRecordView { path: records[i].path, ..new })
    } else {
        records.push(new)
    }
}

/// The record for a file of a package.
pub open spec fn record_for(
    package: GeneratedOutputPackageView,
    file: OwnedGeneratedFileView,
) -> OwnedRecordView {
    OwnedRecordView {
        path: file.relative_path,
        package_id: package.id,
        tool_id: package.tool_id,
        source_path: joined(package.source_path, file.relative_path),
    }
}

/// The records with those for the files of a package.
pub open spec fn with_package_files(
    records: Seq<OwnedRecordView>,
    package: GeneratedOutputPackageView,
    files: Seq<OwnedGeneratedFileView>,
) -> Seq<OwnedRecordView>
    decreases files.len(),
{
    if files.len() == 0 {
        records
    } else {
        with_record(
            with_package_files(records, package, files.drop_last()),
            record_for(package, files.last()),
        )
    }
}

/// The files that the packages of a profile own.
pub open spec fn owned_records(
    packages: Seq<GeneratedOutputPackageView>,
    profile: Seq<char>,
) -> Seq<OwnedRecordView>
    decreases packages.len(),
{
    if packages.len() == 0 {
        Seq::empty()
    } else {
        let before = owned_records(packages.drop_last(), profile);
        let p = packages.last();
        if p.manager_profile_id == profile {
            with_package_files(before, p, p.owned_files)
        } else {
            before
        }
    }
}

/// The paths that are not to be reviewed in the active profile.
pub open spec fn ignored_paths(db: ModDatabaseView) -> Set<Seq<char>> {
    if db.profile_runtime_ignored.contains_key(db.active_profile_id) {
        db.profile_runtime_ignored[db.active_profile_id]
    } else {
        Set::empty()
    }
}

/// Whether a path is still to be reviewed.
pub open spec fn status_of(path: Seq<char>, ignored: Set<Seq<char>>) -> RuntimeEntryReviewStatus {
    if ignored.contains(path) {
        RuntimeEntryReviewStatus::Ignored
    } else {
        RuntimeEntryReviewStatus::Pending
    }
}

/// The index of the first file with the path, or their number.
pub open spec fn file_index(files: Seq<DataFileView>, path: Seq<char>) -> int
    decreases files.len(),
{
    if files.len() == 0 || path_same(files[0].relative_path, path) {
        0
    } else {
        1 + file_index(files.skip(1), path)
    }
}

/// What a scan says of a file that a package owns: it is missing, or it is the
/// link into the package, or something has taken its place.
pub open spec fn owned_entry(
    record: OwnedRecordView,
    files: Seq<DataFileView>,
    ignored: Set<Seq<char>>,
) -> RuntimeScanEntryView {
    let i = file_index(files, record.path);
    let (classification, explanation) = if i >= files.len() {
        (
            RuntimeEntryClassification::ManagedOwnedMissing,
            "Managed/generated file is missing from Data"@,
        )
    } else if files[i].link_target is Some && path_same(
        files[i].link_target->0,
        record.source_path,
    ) {
        (
            RuntimeEntryClassification::ManagedOwnedPresent,
            "Managed/generated file is present and linked to package source"@,
        )
    } else {
        (
            RuntimeEntryClassification::ManagedOwnedModified,
            "Managed/generated file exists but no longer points to expected package source"@,
        )
    };
    RuntimeScanEntryView {
        relative_path: record.path,
        classification,
        review_status: status_of(record.path, ignored),
        package_id: Some(record.package_id),
        tool_id: Some(record.tool_id),
        explanation,
    }
}

/// What is said of a file that no package owns.
pub open spec fn unmanaged_explanation(c: RuntimeEntryClassification) -> Seq<char> {
    match c {
        RuntimeEntryClassification::UnmanagedAdoptable =>
            "Unmanaged runtime file in scoped Data area; can be adopted into managed outputs"@,
        RuntimeEntryClassification::UnmanagedIgnorable =>
            "Likely temporary/log/cache runtime file; can be ignored"@,
        _ => "Unmanaged runtime file in scoped Data area; needs manual review"@,
    }
}

/// What a scan says of a file that no package owns.
pub open spec fn unmanaged_entry(path: Seq<char>, ignored: Set<Seq<char>>) -> RuntimeScanEntryView {
    let c = unmanaged_kind(lowercase(path));
    RuntimeScanEntryView {
        relative_path: path,
        classification: c,
        review_status: status_of(path, ignored),
        package_id: None,
        tool_id: None,
        explanation: unmanaged_explanation(c),
    }
}

/// The entries for the files that no package owns.
pub open spec fn unmanaged_entries(
    files: Seq<DataFileView>,
    records: Seq<OwnedRecordView>,
    ignored: Set<Seq<char>>,
) -> Seq<RuntimeScanEntryView>
    decreases files.len(),
{
    if files.len() == 0 {
        Seq::empty()
    } else {
        let before = unmanaged_entries(files.drop_last(), records, ignored);
        let path = files.last().relative_path;
        if record_index(records, path) < records.len() {
            before
        } else {
            before.push(unmanaged_entry(path, ignored))
        }
    }
}

/// The order of the entries of a scan.
pub open spec fn scan_order() -> spec_fn(RuntimeScanEntryView, RuntimeScanEntryView) -> bool {
    |a: RuntimeScanEntryView, b: RuntimeScanEntryView|
        !path_precedes(b.relative_path, a.relative_path)
}

/// The entries of a scan, by path.
pub open spec fn scan_of(db: ModDatabaseView, files: Seq<DataFileView>) -> Seq<
    RuntimeScanEntryView,
> {
    let records = owned_records(db.generated_outputs, db.active_profile_id);
    let ignored = ignored_paths(db);
    stably_sorted(
        records.map_values(|r: OwnedRecordView| owned_entry(r, files, ignored))
            + unmanaged_entries(files, records, ignored),
        scan_order(),
    )
}

fn find_record(records: &Vec<OwnedRecord>, path: &str) -> (r: usize)
    ensures
        r == record_index(records.deep_view(), path@),
        r <= records@.len(),
{
    let ghost all = records.deep_view();
    let mut i: usize = 0;
    assert(all.skip(0) =~= all);
    while i < records.len()
        invariant
            all == records.deep_view(),
            i <= records@.len(),
            record_index(all, path@) == i + record_index(all.skip(i as int), path@),
        decreases records@.len() - i,
    {
        assert(all[i as int] == records@[i as int].deep_view());
        assert(all.skip(i as int).skip(1) =~= all.skip(i + 1));
        if same_path(records[i].path.as_str(), path) {
            return i;
        }
        i += 1;
    }
    i
}

fn find_file(files: &Vec<DataFile>, path: &str) -> (r: usize)
    ensures
        r == file_index(files.deep_view(), path@),
        r <= files@.len(),
{
    let ghost all = files.deep_view();
    let mut i: usize = 0;
    assert(all.skip(0) =~= all);
    while i < files.len()
        invariant
            all == files.deep_view(),
            i <= files@.len(),
            file_index(all, path@) == i + file_index(all.skip(i as int), path@),
        decreases files@.len() - i,
    {
        assert(all[i as int] == files@[i as int].deep_view());
        assert(all.skip(i as int).skip(1) =~= all.skip(i + 1));
        if same_path(files[i].relative_path.as_str(), path) {
            return i;
        }
        i += 1;
    }
    i
}

fn add_record(records: &mut Vec<OwnedRecord>, new: OwnedRecord)
    ensures
        final(records).deep_view() == with_record(old(records).deep_view(), new.deep_view()),
{
    let ghost before = records.deep_view();
    let ghost nv = new.deep_view();
    let i = find_record(records, new.path.as_str());
    if i < records.len() {
        let path = owned(records[i].path.as_str());
        assert(before[i as int].path == path@);
        let record = OwnedRecord { path, ..new };
        let ghost rv = record.deep_view();
        assert(rv =~= OwnedRecordView { path: before[i as int].path, ..nv });
        records.set(i, record);
        assert(records.deep_view() =~= before.update(i as int, rv));
    } else {
        records.push(new);
        assert(records.deep_view() =~= before.push(nv));
    }
}

fn collect_records(packages: &Vec<GeneratedOutputPackage>, profile: &str) -> (r: Vec<OwnedRecord>)
    ensures
        r.deep_view() == owned_records(packages.deep_view(), profile@),
{
    let ghost all = packages.deep_view();
    let mut r: Vec<OwnedRecord> = Vec::new();
    assert(owned_records(all.take(0), profile@) =~= r.deep_view());
    for i in 0..packages.len()
        invariant
            all == packages.deep_view(),
            r.deep_view() == owned_records(all.take(i as int), profile@),
    {
        assert(all.take(i + 1).drop_last() =~= all.take(i as int));
        let package = &packages[i];
        let ghost pv = package.deep_view();
        assert(all[i as int] == pv);
        if same(package.manager_profile_id.as_str(), profile) {
            let ghost start = r.deep_view();
            let ghost files = package.owned_files.deep_view();
            for k in 0..package.owned_files.len()
                invariant
                    pv == package.deep_view(),
                    files == package.owned_files.deep_view(),
                    r.deep_view() == with_package_files(start, pv, files.take(k as int)),
            {
                assert(files.take(k + 1).drop_last() =~= files.take(k as int));
                let file = &package.owned_files[k];
                assert(files[k as int] == file.deep_view());
                let rel = file.relative_path.as_str();
                add_record(
                    &mut r,
                    OwnedRecord {
                        path: owned(rel),
                        package_id: owned(package.id.as_str()),
                        tool_id: owned(package.tool_id.as_str()),
                        source_path: join(package.source_path.as_str(), rel),
                    },
                );
            }
            assert(files.take(files.len() as int) =~= files);
        }
    }
    assert(all.take(all.len() as int) =~= all);
    r
}

fn review_status_for(path: &str, ignored: &NameSet) -> (r: RuntimeEntryReviewStatus)
    ensures
        r == status_of(path@, ignored.set()),
{
    if ignored.contains(path) {
        RuntimeEntryReviewStatus::Ignored
    } else {
        RuntimeEntryReviewStatus::Pending
    }
}

fn describe_owned(record: &OwnedRecord, files: &Vec<DataFile>, ignored: &NameSet) -> (r:
    RuntimeScanEntry)
    ensures
        r.deep_view() == owned_entry(record.deep_view(), files.deep_view(), ignored.set()),
{
    let i = find_file(files, record.path.as_str());
    let mut classification = RuntimeEntryClassification::ManagedOwnedMissing;
    let mut explanation = "Managed/generated file is missing from Data";
    if i < files.len() {
        assert(files.deep_view()[i as int] == files@[i as int].deep_view());
        let linked = match &files[i].link_target {
            Some(target) => same_path(target.as_str(), record.source_path.as_str()),
            None => false,
        };
        if linked {
            classification = RuntimeEntryClassification::ManagedOwnedPresent;
            explanation = "Managed/generated file is present and linked to package source";
        } else {
            classification = RuntimeEntryClassification::ManagedOwnedModified;
            explanation =
            "Managed/generated file exists but no longer points to expected package source";
        }
    }
    RuntimeScanEntry {
        relative_path: owned(record.path.as_str()),
        classification,
        review_status: review_status_for(record.path.as_str(), ignored),
        package_id: Some(owned(record.package_id.as_str())),
        tool_id: Some(owned(record.tool_id.as_str())),
        explanation: owned(explanation),
    }
}

fn describe_unmanaged(path: &str, ignored: &NameSet) -> (r: RuntimeScanEntry)
    ensures
        r.deep_view() == unmanaged_entry(path@, ignored.set()),
{
    let classification = classify_unmanaged(path);
    let explanation = match classification {
        RuntimeEntryClassification::UnmanagedAdoptable =>
            "Unmanaged runtime file in scoped Data area; can be adopted into managed outputs",
        RuntimeEntryClassification::UnmanagedIgnorable =>
            "Likely temporary/log/cache runtime file; can be ignored",
        _ => "Unmanaged runtime file in scoped Data area; needs manual review",
    };
    RuntimeScanEntry {
        relative_path: owned(path),
        classification,
        review_status: review_status_for(path, ignored),
        package_id: None,
        tool_id: None,
        explanation: owned(explanation),
    }
}

/// Compares the files of the data directory with what the packages of the
/// active profile own, and reports on each file, by path.
pub fn scan_profile_runtime_changes(db: &ModDatabase, files: &Vec<DataFile>) -> (r:
    RuntimeScanReport)
    ensures
        r.entries.deep_view() == scan_of(db.deep_view(), files.deep_view()),
{
    let ghost fs = files.deep_view();
    let profile = db.active_profile_id.as_str();
    let ignored = match db.profile_runtime_ignored.get(profile) {
        Some(set) => set.clone(),
        None => NameSet::new(),
    };
    assert(ignored.set() == ignored_paths(db.deep_view()));
    let records = collect_records(&db.generated_outputs, profile);
    let ghost rs = records.deep_view();
    let ghost ig = ignored.set();
    let mut entries: Vec<RuntimeScanEntry> = Vec::new();
    for i in 0..records.len()
        invariant
            rs == records.deep_view(),
            fs == files.deep_view(),
            ig == ignored.set(),
            entries@.len() == i,
            forall|j: int|
                0 <= j < i ==> #[trigger] entries@[j].deep_view() == owned_entry(rs[j], fs, ig),
    {
        assert(rs[i as int] == records@[i as int].deep_view());
        entries.push(describe_owned(&records[i], files, &ignored));
    }
    let ghost first = entries.deep_view();
    assert(first =~= rs.map_values(|r: OwnedRecordView| owned_entry(r, fs, ig)));
    assert(first + unmanaged_entries(fs.take(0), rs, ig) =~= first);
    for i in 0..files.len()
        invariant
            rs == records.deep_view(),
            fs == files.deep_view(),
            ig == ignored.set(),
            entries.deep_view() == first + unmanaged_entries(fs.take(i as int), rs, ig),
    {
        let ghost before = entries.deep_view();
        assert(fs.take(i + 1).drop_last() =~= fs.take(i as int));
        assert(fs[i as int] == files@[i as int].deep_view());
        let path = files[i].relative_path.as_str();
        if find_record(&records, path) == records.len() {
            let entry = describe_unmanaged(path, &ignored);
            let ghost ev = entry.deep_view();
            entries.push(entry);
            assert(entries.deep_view() =~= before.push(ev));
            assert(before.push(ev) =~= first + unmanaged_entries(fs.take(i + 1), rs, ig));
        }
    }
    assert(fs.take(fs.len() as int) =~= fs);
    let in_place = |a: &RuntimeScanEntry, b: &RuntimeScanEntry| -> (ok: bool)
        ensures
            ok == !path_precedes(b.relative_path@, a.relative_path@),
    {
        !path_less(b.relative_path.as_str(), a.relative_path.as_str())
    };
    let sorted = sort_stably(entries, in_place, Ghost(scan_order()));
    RuntimeScanReport { entries: sorted }
}

// ── Ignoring and adopting ───────────────────────────────────────────────────

/// The database with other paths that are not to be reviewed in the active
/// profile.
pub open spec fn with_ignored(db: ModDatabaseView, ignored: Set<Seq<char>>) -> ModDatabaseView {
    ModDatabaseView {
        profile_runtime_ignored: db.profile_runtime_ignored.insert(db.active_profile_id, ignored),
        ..db
    }
}

/// Puts a path among those that are not to be reviewed in the active profile,
/// or takes it out.
pub fn set_runtime_path_ignored(db: &mut ModDatabase, relative_path: &str, ignored: bool)
    ensures
        final(db).deep_view() == with_ignored(
            old(db).deep_view(),
            if ignored {
                ignored_paths(old(db).deep_view()).insert(relative_path@)
            } else {
                ignored_paths(old(db).deep_view()).remove(relative_path@)
            },
        ),
{
    let profile = owned(db.active_profile_id.as_str());
    let set = db.profile_runtime_ignored.get_or_insert(profile.as_str(), NameSet::new());
    if ignored {
        set.insert(relative_path);
    } else {
        set.remove(relative_path);
    }
    assert(db.deep_view() =~= with_ignored(
        old(db).deep_view(),
        if ignored {
            ignored_paths(old(db).deep_view()).insert(relative_path@)
        } else {
            ignored_paths(old(db).deep_view()).remove(relative_path@)
        },
    ));
}

/// A set without the listed paths.
pub open spec fn set_without(set: Set<Seq<char>>, paths: Seq<Seq<char>>) -> Set<Seq<char>> {
    set.difference(paths.to_set())
}

/// The database with the listed paths to be reviewed again in the active
/// profile.
pub open spec fn with_cleared(db: ModDatabaseView, paths: Seq<Seq<char>>) -> ModDatabaseView {
    if db.profile_runtime_ignored.contains_key(db.active_profile_id) {
        with_ignored(db, set_without(ignored_paths(db), paths))
    } else {
        db
    }
}

/// Takes paths out of those that are not to be reviewed in the active profile.
pub fn clear_ignored_paths_for_active_profile(db: &mut ModDatabase, paths: &Vec<String>)
    ensures
        final(db).deep_view() == with_cleared(old(db).deep_view(), paths.deep_view()),
{
    let profile = owned(db.active_profile_id.as_str());
    let mut set = match db.profile_runtime_ignored.get(profile.as_str()) {
        Some(set) => set.clone(),
        None => {
            return;
        },
    };
    let ghost ps = paths.deep_view();
    let ghost start = set.set();
    assert(start =~= set_without(start, ps.take(0)));
    for i in 0..paths.len()
        invariant
            ps == paths.deep_view(),
            set.set() == set_without(start, ps.take(i as int)),
    {
        assert(ps[i as int] == paths@[i as int]@);
        set.remove(paths[i].as_str());
        assert(set.set() =~= set_without(start, ps.take(i + 1))) by {
            assert forall|x: Seq<char>| ps.take(i + 1).to_set().contains(x) == (ps.take(
                i as int,
            ).to_set().contains(x) || x == ps[i as int]) by {
                let a = ps.take(i as int);
                let b = ps.take(i + 1);
                if a.contains(x) {
                    let j = choose|j: int| 0 <= j < a.len() && a[j] == x;
                    assert(b[j] == x);
                }
                if b.contains(x) {
                    let j = choose|j: int| 0 <= j < b.len() && b[j] == x;
                    if j < i {
                        assert(a[j] == x);
                    }
                }
                if x == ps[i as int] {
                    assert(b[i as int] == x);
                }
            }
        }
    }
    assert(ps.take(ps.len() as int) =~= ps);
    db.profile_runtime_ignored.insert(profile.as_str(), set);
    assert(db.deep_view() =~= with_cleared(old(db).deep_view(), ps));
}

/// The paths that can be adopted.
pub open spec fn adoptable_paths(paths: Seq<Seq<char>>) -> Seq<Seq<char>> {
    paths.filter(
        |p: Seq<char>|
            unmanaged_kind(lowercase(p)) == RuntimeEntryClassification::UnmanagedAdoptable,
    )
}

/// The paths that can be adopted out of the data directory.
pub fn select_adoptable(paths: &Vec<String>) -> (r: Vec<String>)
    ensures
        r.deep_view() == adoptable_paths(paths.deep_view()),
{
    let ghost all = paths.deep_view();
    let ghost keep = |p: Seq<char>|
        unmanaged_kind(lowercase(p)) == RuntimeEntryClassification::UnmanagedAdoptable;
    let mut r: Vec<String> = Vec::new();
    assert(r.deep_view() =~= all.take(0).filter(keep)) by {
        reveal(Seq::filter);
    }
    for i in 0..paths.len()
        invariant
            all == paths.deep_view(),
            keep == (|p: Seq<char>|
                unmanaged_kind(lowercase(p)) == RuntimeEntryClassification::UnmanagedAdoptable),
            r.deep_view() == all.take(i as int).filter(keep),
    {
        let ghost before = r.deep_view();
        assert(all[i as int] == paths@[i as int]@);
        assert(all.take(i + 1).drop_last() =~= all.take(i as int));
        if classify_unmanaged(paths[i].as_str()) == RuntimeEntryClassification::UnmanagedAdoptable {
            r.push(owned(paths[i].as_str()));
            assert(r.deep_view() =~= before.push(all[i as int]));
        }
        assert(r.deep_view() == all.take(i + 1).filter(keep)) by {
            reveal(Seq::filter);
        }
    }
    assert(all.take(all.len() as int) =~= all);
    r
}

/// The name of the package of adopted files.
pub open spec fn adopted_name(profile: Seq<char>) -> Seq<char> {
    "Runtime Adopted ("@ + profile + ")"@
}

/// The database after the listed paths were adopted.
pub open spec fn with_adopted(
    db: ModDatabaseView,
    mods_dir: Seq<char>,
    paths: Seq<Seq<char>>,
    present: Seq<Seq<char>>,
    id: Seq<char>,
    now: u64,
) -> ModDatabaseView {
    let adoptable = adoptable_paths(paths);
    if adoptable.len() == 0 {
        db
    } else {
        with_cleared(
            with_package(
                db,
                GeneratedOutputPackageView {
                    id,
                    name: adopted_name(db.active_profile_id),
                    tool_id: "runtime-adopted"@,
                    run_profile: db.active_profile_id,
                    manager_profile_id: db.active_profile_id,
                    source_path: crate::generated_outputs::package_dir(
                        mods_dir,
                        "runtime-adopted"@,
                        db.active_profile_id,
                    ),
                    owned_files: owned_by(
                        present_files(adoptable, present),
                        "runtime-adopted"@,
                        now,
                    ),
                    updated_at: now,
                },
            ),
            adoptable,
        )
    }
}

/// Adopts those of the paths that can be adopted into a package of the active
/// profile, and has them reviewed again; without such a path nothing happens.
/// Gives the identifier of the package and the files to move, given those that
/// are there.
pub fn adopt_runtime_paths(
    db: &mut ModDatabase,
    mods_dir: &str,
    relative_paths: &Vec<String>,
    present: &Vec<String>,
    id: &str,
    now: u64,
) -> (r: Option<(String, Vec<String>)>)
    ensures
        final(db).deep_view() == with_adopted(
            old(db).deep_view(),
            mods_dir@,
            relative_paths.deep_view(),
            present.deep_view(),
            id@,
            now,
        ),
        match r {
            Some((package, moved)) => adoptable_paths(relative_paths.deep_view()).len() > 0
                && package@ == id@ && moved.deep_view() == present_files(
                adoptable_paths(relative_paths.deep_view()),
                present.deep_view(),
            ),
            None => adoptable_paths(relative_paths.deep_view()).len() == 0,
        },
{
    let adoptable = select_adoptable(relative_paths);
    if adoptable.len() == 0 {
        return None;
    }
    let run_ctx = ToolRunContext {
        tool_id: owned("runtime-adopted"),
        run_profile: owned(db.active_profile_id.as_str()),
    };
    let name = concat3("Runtime Adopted (", db.active_profile_id.as_str(), ")");
    let new = NewPackage { id, name: name.as_str(), files: &adoptable, now };
    let (package, moved) = adopt_existing_game_data_files(db, mods_dir, &run_ctx, &new, present);
    clear_ignored_paths_for_active_profile(db, &adoptable);
    assert(db.deep_view() =~= with_adopted(
        old(db).deep_view(),
        mods_dir@,
        relative_paths.deep_view(),
        present.deep_view(),
        id@,
        now,
    ));
    Some((package, moved))
}

proof fn lemma_scan_order()
    ensures
        total_preorder(scan_order()),
{
    let leq = scan_order();
    assert forall|a: RuntimeScanEntryView, b: RuntimeScanEntryView| #[trigger] leq(a, b) || leq(
        b,
        a,
    ) by {
        lemma_parts_total(parts_of(a.relative_path), parts_of(b.relative_path));
    }
    assert forall|a: RuntimeScanEntryView, b: RuntimeScanEntryView, c: RuntimeScanEntryView|
        #[trigger] leq(a, b) && #[trigger] leq(b, c) implies leq(a, c) by {
        let (x, y, z) = (
            parts_of(a.relative_path),
            parts_of(b.relative_path),
            parts_of(c.relative_path),
        );
        lemma_parts_total(x, y);
        lemma_parts_total(y, z);
        if x != y && y != z {
            lemma_parts_transitive(x, y, z);
            lemma_parts_total(x, z);
        }
    }
}

/// The entries of a scan are in the order of their paths.
pub proof fn scan_is_in_path_order(
    db: ModDatabaseView,
    files: Seq<DataFileView>,
    i: int,
    j: int,
)
    requires
        0 <= i < j < scan_of(db, files).len(),
    ensures
        !path_precedes(
            scan_of(db, files)[j].relative_path,
            scan_of(db, files)[i].relative_path,
        ),
{
    let records = owned_records(db.generated_outputs, db.active_profile_id);
    lemma_scan_order();
    lemma_stably_sorted(
        records.map_values(|r: OwnedRecordView| owned_entry(r, files, ignored_paths(db)))
            + unmanaged_entries(files, records, ignored_paths(db)),
        scan_order(),
    );
    assert(scan_order()(scan_of(db, files)[i], scan_of(db, files)[j]));
}

/// No path is listed twice.
pub open spec fn files_differ(files: Seq<DataFileView>) -> bool {
    forall|i: int, j: int|
        0 <= i < j < files.len() ==> !path_same(
            (#[trigger] files[i]).relative_path,
            (#[trigger] files[j]).relative_path,
        )
}

/// No two records are of one path.
spec fn records_differ(records: Seq<OwnedRecordView>) -> bool {
    forall|i: int, j: int|
        0 <= i < j < records.len() ==> !path_same(
            (#[trigger] records[i]).path,
            (#[trigger] records[j]).path,
        )
}

spec fn is_recorded(records: Seq<OwnedRecordView>, path: Seq<char>) -> bool {
    exists|i: int| 0 <= i < records.len() && path_same((#[trigger] records[i]).path, path)
}

proof fn lemma_record_found(records: Seq<OwnedRecordView>, path: Seq<char>)
    ensures
        record_index(records, path) < records.len() <==> is_recorded(records, path),
    decreases records.len(),
{
    lemma_record_index(records, path);
    if records.len() > 0 {
        let rest = records.skip(1);
        lemma_record_found(rest, path);
        if is_recorded(rest, path) {
            let i = choose|i: int| 0 <= i < rest.len() && path_same((#[trigger] rest[i]).path, path);
            assert(records[i + 1] == rest[i]);
        }
        if is_recorded(records, path) && !path_same(records[0].path, path) {
            let i = choose|i: int|
                0 <= i < records.len() && path_same((#[trigger] records[i]).path, path);
            assert(rest[i - 1] == records[i]);
        }
    }
}

proof fn lemma_with_record(records: Seq<OwnedRecordView>, new: OwnedRecordView, path: Seq<char>)
    requires
        records_differ(records),
    ensures
        records_differ(with_record(records, new)),
        is_recorded(with_record(records, new), path) <==> is_recorded(records, path) || path_same(
            new.path,
            path,
        ),
{
    let after = with_record(records, new);
    let k = record_index(records, new.path);
    lemma_record_index(records, new.path);
    lemma_record_found(records, new.path);
    assert forall|i: int| 0 <= i < records.len() implies (#[trigger] after[i]).path
        == records[i].path by {}
    assert forall|i: int, j: int| 0 <= i < j < after.len() implies !path_same(
        (#[trigger] after[i]).path,
        (#[trigger] after[j]).path,
    ) by {
        if j < records.len() {
            assert(!path_same(records[i].path, records[j].path));
        } else {
            assert(!path_same(records[i].path, new.path));
        }
    }
    if is_recorded(records, path) {
        let i = choose|i: int|
            0 <= i < records.len() && path_same((#[trigger] records[i]).path, path);
        assert(after[i].path == records[i].path);
    }
    if path_same(new.path, path) {
        assert(path_same(after[k].path, path));
    }
    if is_recorded(after, path) {
        let i = choose|i: int| 0 <= i < after.len() && path_same((#[trigger] after[i]).path, path);
        if i < records.len() {
            assert(path_same(records[i].path, path));
        }
    }
}

/// One of the files has the path.
spec fn owns_path(files: Seq<OwnedGeneratedFileView>, path: Seq<char>) -> bool {
    exists|i: int|
        0 <= i < files.len() && path_same((#[trigger] files[i]).relative_path, path)
}

proof fn lemma_with_package_files(
    records: Seq<OwnedRecordView>,
    p: GeneratedOutputPackageView,
    files: Seq<OwnedGeneratedFileView>,
    path: Seq<char>,
)
    requires
        records_differ(records),
    ensures
        records_differ(with_package_files(records, p, files)),
        is_recorded(with_package_files(records, p, files), path) <==> is_recorded(records, path)
            || owns_path(files, path),
    decreases files.len(),
{
    if files.len() > 0 {
        let rest = files.drop_last();
        lemma_with_package_files(records, p, rest, path);
        let f = files.last();
        lemma_with_record(with_package_files(records, p, rest), record_for(p, f), path);
        if owns_path(rest, path) {
            let i = choose|i: int|
                0 <= i < rest.len() && path_same((#[trigger] rest[i]).relative_path, path);
            assert(files[i] == rest[i]);
        }
        if path_same(f.relative_path, path) {
            assert(path_same(files[files.len() - 1].relative_path, path));
        }
        if owns_path(files, path) && !path_same(f.relative_path, path) {
            let i = choose|i: int|
                0 <= i < files.len() && path_same((#[trigger] files[i]).relative_path, path);
            assert(rest[i] == files[i]);
        }
    }
}

/// A package of the profile owns the file `i` with the path.
pub open spec fn owns_file(
    p: GeneratedOutputPackageView,
    i: int,
    profile: Seq<char>,
    path: Seq<char>,
) -> bool {
    &&& p.manager_profile_id == profile
    &&& 0 <= i < p.owned_files.len()
    &&& path_same(p.owned_files[i].relative_path, path)
}

/// A package of the profile owns a file with the path.
pub open spec fn is_owned(
    packages: Seq<GeneratedOutputPackageView>,
    profile: Seq<char>,
    path: Seq<char>,
) -> bool {
    exists|k: int, i: int|
        0 <= k < packages.len() && #[trigger] owns_file(packages[k], i, profile, path)
}

proof fn lemma_owned_records(
    packages: Seq<GeneratedOutputPackageView>,
    profile: Seq<char>,
    path: Seq<char>,
)
    ensures
        records_differ(owned_records(packages, profile)),
        is_recorded(owned_records(packages, profile), path) <==> is_owned(packages, profile, path),
    decreases packages.len(),
{
    if packages.len() > 0 {
        let rest = packages.drop_last();
        let p = packages.last();
        lemma_owned_records(rest, profile, path);
        lemma_with_package_files(owned_records(rest, profile), p, p.owned_files, path);
        if is_owned(rest, profile, path) {
            let (k, i) = choose|k: int, i: int|
                0 <= k < rest.len() && #[trigger] owns_file(rest[k], i, profile, path);
            assert(owns_file(packages[k], i, profile, path));
        }
        if p.manager_profile_id == profile && owns_path(p.owned_files, path) {
            let i = choose|i: int|
                0 <= i < p.owned_files.len() && path_same(
                    (#[trigger] p.owned_files[i]).relative_path,
                    path,
                );
            assert(owns_file(packages[packages.len() - 1], i, profile, path));
        }
        if is_owned(packages, profile, path) {
            let (k, i) = choose|k: int, i: int|
                0 <= k < packages.len() && #[trigger] owns_file(packages[k], i, profile, path);
            if k < rest.len() {
                assert(owns_file(rest[k], i, profile, path));
            } else {
                assert(path_same(p.owned_files[i].relative_path, path));
            }
        }
    }
}

proof fn lemma_record_index(records: Seq<OwnedRecordView>, path: Seq<char>)
    ensures
        0 <= record_index(records, path) <= records.len(),
        record_index(records, path) < records.len() ==> path_same(
            records[record_index(records, path)].path,
            path,
        ),
    decreases records.len(),
{
    if records.len() > 0 && !path_same(records[0].path, path) {
        lemma_record_index(records.skip(1), path);
    }
}

proof fn lemma_unmanaged_reported(
    files: Seq<DataFileView>,
    records: Seq<OwnedRecordView>,
    ignored: Set<Seq<char>>,
    k: int,
)
    requires
        0 <= k < files.len(),
        record_index(records, files[k].relative_path) >= records.len(),
    ensures
        unmanaged_entries(files, records, ignored).contains(
            unmanaged_entry(files[k].relative_path, ignored),
        ),
    decreases files.len(),
{
    let all = unmanaged_entries(files, records, ignored);
    if k == files.len() - 1 {
        assert(all.last() == unmanaged_entry(files[k].relative_path, ignored));
    } else {
        lemma_unmanaged_reported(files.drop_last(), records, ignored, k);
        let before = unmanaged_entries(files.drop_last(), records, ignored);
        let e = unmanaged_entry(files[k].relative_path, ignored);
        let m = choose|m: int| 0 <= m < before.len() && before[m] == e;
        assert(all[m] == e);
    }
}

/// A scan reports on every file of the data directory.
pub proof fn scan_reports_every_file(db: ModDatabaseView, files: Seq<DataFileView>, k: int) -> (e:
    RuntimeScanEntryView)
    requires
        0 <= k < files.len(),
    ensures
        scan_of(db, files).contains(e),
        path_same(e.relative_path, files[k].relative_path),
{
    broadcast use vstd::seq_lib::group_to_multiset_ensures;

    let records = owned_records(db.generated_outputs, db.active_profile_id);
    let ignored = ignored_paths(db);
    let path = files[k].relative_path;
    let owned = records.map_values(|r: OwnedRecordView| owned_entry(r, files, ignored));
    let others = unmanaged_entries(files, records, ignored);
    let all = owned + others;
    lemma_record_index(records, path);
    let i = record_index(records, path);
    let e = if i < records.len() {
        owned[i]
    } else {
        unmanaged_entry(path, ignored)
    };
    if i < records.len() {
        assert(all[i] == e);
    } else {
        lemma_unmanaged_reported(files, records, ignored, k);
        let m = choose|m: int| 0 <= m < others.len() && others[m] == e;
        assert(all[owned.len() + m] == e);
    }
    lemma_sorted_keeps(all, scan_order());
    assert(all.contains(e));
    assert(all.to_multiset().count(e) > 0);
    assert(scan_of(db, files).to_multiset().count(e) > 0);
    e
}

/// The entries for files that no package owns have the paths of these files,
/// each once.
proof fn lemma_unmanaged_paths(
    files: Seq<DataFileView>,
    records: Seq<OwnedRecordView>,
    ignored: Set<Seq<char>>,
)
    ensures
        forall|i: int|
            0 <= i < unmanaged_entries(files, records, ignored).len() ==> {
                let path = (#[trigger] unmanaged_entries(files, records, ignored)[i]).relative_path;
                &&& !is_recorded(records, path)
                &&& exists|k: int| 0 <= k < files.len() && (#[trigger] files[k]).relative_path
                    == path
            },
        files_differ(files) ==> forall|i: int, j: int|
            0 <= i < j < unmanaged_entries(files, records, ignored).len() ==> !path_same(
                (#[trigger] unmanaged_entries(files, records, ignored)[i]).relative_path,
                (#[trigger] unmanaged_entries(files, records, ignored)[j]).relative_path,
            ),
    decreases files.len(),
{
    if files.len() > 0 {
        let rest = files.drop_last();
        let path = files.last().relative_path;
        let before = unmanaged_entries(rest, records, ignored);
        let all = unmanaged_entries(files, records, ignored);
        lemma_unmanaged_paths(rest, records, ignored);
        lemma_record_found(records, path);
        if files_differ(files) {
            assert forall|i: int, j: int| 0 <= i < j < rest.len() implies !path_same(
                (#[trigger] rest[i]).relative_path,
                (#[trigger] rest[j]).relative_path,
            ) by {
                assert(rest[i] == files[i] && rest[j] == files[j]);
            }
        }
        assert forall|i: int| 0 <= i < all.len() implies {
            let p = (#[trigger] all[i]).relative_path;
            &&& !is_recorded(records, p)
            &&& exists|k: int| 0 <= k < files.len() && (#[trigger] files[k]).relative_path == p
        } by {
            if i < before.len() {
                assert(all[i] == before[i]);
                let k = choose|k: int|
                    0 <= k < rest.len() && (#[trigger] rest[k]).relative_path
                        == before[i].relative_path;
                assert(files[k] == rest[k]);
            } else {
                assert(files[files.len() - 1].relative_path == path);
            }
        }
        if files_differ(files) {
            assert forall|i: int, j: int| 0 <= i < j < all.len() implies !path_same(
                (#[trigger] all[i]).relative_path,
                (#[trigger] all[j]).relative_path,
            ) by {
                assert(all[i] == before[i]);
                if j < before.len() {
                    assert(all[j] == before[j]);
                } else {
                    let k = choose|k: int|
                        0 <= k < rest.len() && (#[trigger] rest[k]).relative_path
                            == before[i].relative_path;
                    assert(files[k] == rest[k]);
                    assert(!path_same(files[k].relative_path, files[files.len() - 1].relative_path));
                }
            }
        }
    }
}

/// The entries of a scan are strictly in the order of their paths, if no file is
/// listed twice: each path is reported once.
pub proof fn scan_reports_paths_once(
    db: ModDatabaseView,
    files: Seq<DataFileView>,
    i: int,
    j: int,
)
    requires
        files_differ(files),
        0 <= i < j < scan_of(db, files).len(),
    ensures
        path_precedes(scan_of(db, files)[i].relative_path, scan_of(db, files)[j].relative_path),
{
    let records = owned_records(db.generated_outputs, db.active_profile_id);
    let ignored = ignored_paths(db);
    let owned = records.map_values(|r: OwnedRecordView| owned_entry(r, files, ignored));
    let others = unmanaged_entries(files, records, ignored);
    let all = owned + others;
    lemma_scan_order();
    lemma_sorted_positions(all, scan_order());
    lemma_owned_records(db.generated_outputs, db.active_profile_id, Seq::empty());
    lemma_unmanaged_paths(files, records, ignored);
    let a = sorted_positions(all, scan_order())[i];
    let b = sorted_positions(all, scan_order())[j];
    assert(scan_of(db, files)[i] == all[a] && scan_of(db, files)[j] == all[b]);
    let (lo, hi) = if a < b {
        (a, b)
    } else {
        (b, a)
    };
    assert(a != b) by {
        if a == b {
            lemma_parts_total(parts_of(all[a].relative_path), parts_of(all[a].relative_path));
            assert(scan_order()(all[b], all[a]));
        }
    }
    assert(!path_same(all[lo].relative_path, all[hi].relative_path)) by {
        if hi < owned.len() {
            assert(owned[lo].relative_path == records[lo].path);
            assert(owned[hi].relative_path == records[hi].path);
            assert(!path_same(records[lo].path, records[hi].path));
        } else if lo < owned.len() {
            let path = others[hi - owned.len()].relative_path;
            assert(all[hi] == others[hi - owned.len()]);
            assert(owned[lo].relative_path == records[lo].path);
            assert(!is_recorded(records, path));
        } else {
            assert(all[lo] == others[lo - owned.len()] && all[hi] == others[hi - owned.len()]);
        }
    }
    lemma_parts_total(parts_of(all[a].relative_path), parts_of(all[b].relative_path));
    assert(scan_order()(all[a], all[b]));
}

/// A scan reports on exactly the paths of the files of the data directory and
/// those that packages of the active profile own.
pub proof fn scan_reports_files_and_owned_paths(
    db: ModDatabaseView,
    files: Seq<DataFileView>,
    path: Seq<char>,
)
    ensures
        (exists|i: int|
            0 <= i < scan_of(db, files).len() && path_same(
                (#[trigger] scan_of(db, files)[i]).relative_path,
                path,
            )) <==> (exists|k: int|
            0 <= k < files.len() && path_same((#[trigger] files[k]).relative_path, path))
            || is_owned(db.generated_outputs, db.active_profile_id, path),
{
    let records = owned_records(db.generated_outputs, db.active_profile_id);
    let ignored = ignored_paths(db);
    let owned = records.map_values(|r: OwnedRecordView| owned_entry(r, files, ignored));
    let others = unmanaged_entries(files, records, ignored);
    let all = owned + others;
    let scan = scan_of(db, files);
    lemma_owned_records(db.generated_outputs, db.active_profile_id, path);
    lemma_unmanaged_paths(files, records, ignored);
    if exists|i: int| 0 <= i < scan.len() && path_same((#[trigger] scan[i]).relative_path, path) {
        let i = choose|i: int|
            0 <= i < scan.len() && path_same((#[trigger] scan[i]).relative_path, path);
        lemma_scan_order();
        lemma_sorted_positions(all, scan_order());
        let a = sorted_positions(all, scan_order())[i];
        assert(scan[i] == all[a]);
        if a < owned.len() {
            assert(owned[a].relative_path == records[a].path);
            assert(is_recorded(records, path));
        } else {
            assert(all[a] == others[a - owned.len()]);
            let k = choose|k: int|
                0 <= k < files.len() && (#[trigger] files[k]).relative_path
                    == others[a - owned.len()].relative_path;
            assert(path_same(files[k].relative_path, path));
        }
    }
    if exists|k: int| 0 <= k < files.len() && path_same((#[trigger] files[k]).relative_path, path) {
        let k = choose|k: int|
            0 <= k < files.len() && path_same((#[trigger] files[k]).relative_path, path);
        let e = scan_reports_every_file(db, files, k);
        let i = choose|i: int| 0 <= i < scan.len() && scan[i] == e;
        assert(path_same(scan[i].relative_path, path));
    }
    if is_recorded(records, path) {
        let r = choose|r: int| 0 <= r < records.len() && path_same((#[trigger] records[r]).path, path);
        broadcast use vstd::seq_lib::group_to_multiset_ensures;

        lemma_sorted_keeps(all, scan_order());
        assert(all[r] == owned[r]);
        assert(all.contains(owned[r]));
        assert(all.to_multiset().count(owned[r]) > 0);
        assert(scan.to_multiset().count(owned[r]) > 0);
        assert(scan.contains(owned[r]));
        let i = choose|i: int| 0 <= i < scan.len() && scan[i] == owned[r];
        assert(path_same(scan[i].relative_path, path));
    }
}

/// A file that is ignored does not count as unresolved, whatever it is, and
/// becomes so again when it is no longer ignored.
pub proof fn ignoring_resolves(path: Seq<char>, ignored: Set<Seq<char>>)
    ensures
        !is_unresolved(unmanaged_entry(path, ignored.insert(path))),
        unmanaged_kind(lowercase(path)) != RuntimeEntryClassification::UnmanagedIgnorable
            ==> is_unresolved(unmanaged_entry(path, ignored.remove(path))),
{
}

/// A file that no package owns can be ignored if it is a log, a cache or a
/// temporary file, and adopted if it is a plugin, an asset or a setting; any
/// other is left to be reviewed.
pub proof fn unmanaged_files_are_sorted_by_their_names(lower: Seq<char>)
    ensures
        ({
            let passing = "logs/"@.is_prefix_of(lower) || "shadercache/"@.is_prefix_of(lower)
                || "skse/"@.is_prefix_of(lower) || "f4se/"@.is_prefix_of(lower)
                || ".log"@.is_suffix_of(lower) || ".tmp"@.is_suffix_of(lower)
                || ".bak"@.is_suffix_of(lower) || ".dmp"@.is_suffix_of(lower);
            let content = ".esp"@.is_suffix_of(lower) || ".esm"@.is_suffix_of(lower)
                || ".esl"@.is_suffix_of(lower) || ".nif"@.is_suffix_of(lower)
                || ".dds"@.is_suffix_of(lower) || ".pex"@.is_suffix_of(lower)
                || ".hkx"@.is_suffix_of(lower) || ".json"@.is_suffix_of(lower)
                || ".ini"@.is_suffix_of(lower) || ".txt"@.is_suffix_of(lower);
            let kind = unmanaged_kind(lower);
            &&& kind == RuntimeEntryClassification::UnmanagedIgnorable <==> passing
            &&& kind == RuntimeEntryClassification::UnmanagedAdoptable <==> content && !passing
            &&& kind == RuntimeEntryClassification::UnknownNeedsReview <==> !content && !passing
        }),
{
}

proof fn lemma_file_index(files: Seq<DataFileView>, path: Seq<char>, i: int)
    ensures
        0 <= i < files.len() && path_same(files[i].relative_path, path) && (forall|j: int|
            0 <= j < i ==> !path_same((#[trigger] files[j]).relative_path, path)) ==> file_index(
            files,
            path,
        ) == i,
        (forall|j: int|
            0 <= j < files.len() ==> !path_same((#[trigger] files[j]).relative_path, path))
            ==> file_index(files, path) == files.len(),
    decreases files.len(),
{
    if files.len() > 0 && !path_same(files[0].relative_path, path) {
        let rest = files.skip(1);
        lemma_file_index(rest, path, i - 1);
        assert(forall|j: int| 0 <= j < rest.len() ==> #[trigger] rest[j] == files[j + 1]);
    }
}

/// An owned file is present if it is there as a link to its package, modified if
/// it is there as anything else, and missing if it is not there; it is to be
/// reviewed unless it is ignored.
pub proof fn owned_files_are_compared_with_their_packages(
    record: OwnedRecordView,
    files: Seq<DataFileView>,
    ignored: Set<Seq<char>>,
    i: int,
)
    ensures
        ({
            let e = owned_entry(record, files, ignored);
            let there = 0 <= i < files.len() && path_same(files[i].relative_path, record.path) && (
            forall|j: int|
                0 <= j < i ==> !path_same((#[trigger] files[j]).relative_path, record.path));
            let linked = files[i].link_target is Some && path_same(
                files[i].link_target->0,
                record.source_path,
            );
            &&& there && linked ==> e.classification
                == RuntimeEntryClassification::ManagedOwnedPresent
            &&& there && !linked ==> e.classification
                == RuntimeEntryClassification::ManagedOwnedModified
            &&& (forall|j: int|
                0 <= j < files.len() ==> !path_same((#[trigger] files[j]).relative_path, record.path))
                ==> e.classification == RuntimeEntryClassification::ManagedOwnedMissing
            &&& e.relative_path == record.path
            &&& e.package_id == Some(record.package_id)
            &&& e.tool_id == Some(record.tool_id)
            &&& e.review_status == RuntimeEntryReviewStatus::Ignored <==> ignored.contains(
                record.path,
            )
        }),
{
    lemma_file_index(files, record.path, i);
}

/// What a record says besides its path.
spec fn ownership(r: OwnedRecordView) -> (Seq<char>, Seq<char>, Seq<char>) {
    (r.package_id, r.tool_id, r.source_path)
}

spec fn owner_of(records: Seq<OwnedRecordView>, path: Seq<char>) -> Option<
    (Seq<char>, Seq<char>, Seq<char>),
> {
    let i = record_index(records, path);
    if i < records.len() {
        Some(ownership(records[i]))
    } else {
        None
    }
}

proof fn lemma_record_index_is(records: Seq<OwnedRecordView>, path: Seq<char>, n: int)
    requires
        0 <= n <= records.len(),
        forall|j: int| 0 <= j < n ==> !path_same((#[trigger] records[j]).path, path),
        n < records.len() ==> path_same(records[n].path, path),
    ensures
        record_index(records, path) == n,
    decreases records.len(),
{
    if n > 0 {
        assert(!path_same(records[0].path, path));
        let rest = records.skip(1);
        assert forall|j: int| 0 <= j < n - 1 implies !path_same((#[trigger] rest[j]).path, path) by {
            assert(rest[j] == records[j + 1]);
        }
        lemma_record_index_is(rest, path, n - 1);
    }
}

proof fn lemma_index_minimal(records: Seq<OwnedRecordView>, path: Seq<char>, j: int)
    requires
        0 <= j < record_index(records, path),
        j < records.len(),
    ensures
        !path_same(records[j].path, path),
    decreases records.len(),
{
    if j > 0 {
        lemma_index_minimal(records.skip(1), path, j - 1);
        assert(records.skip(1)[j - 1] == records[j]);
    }
}

proof fn lemma_owner_after(
    records: Seq<OwnedRecordView>,
    new: OwnedRecordView,
    path: Seq<char>,
)
    ensures
        path_same(new.path, path) ==> owner_of(with_record(records, new), path) == Some(
            ownership(new),
        ),
        !path_same(new.path, path) ==> owner_of(with_record(records, new), path) == owner_of(
            records,
            path,
        ),
{
    lemma_record_index(records, new.path);
    lemma_record_index(records, path);
    let i = record_index(records, new.path);
    let k = record_index(records, path);
    let after = with_record(records, new);
    assert forall|j: int| 0 <= j < i && j < records.len() implies !path_same(
        (#[trigger] records[j]).path,
        new.path,
    ) by {
        lemma_index_minimal(records, new.path, j);
    }
    assert forall|j: int| 0 <= j < k && j < records.len() implies !path_same(
        (#[trigger] records[j]).path,
        path,
    ) by {
        lemma_index_minimal(records, path, j);
    }
    if path_same(new.path, path) {
        assert forall|j: int| 0 <= j < i implies !path_same((#[trigger] after[j]).path, path) by {
            assert(after[j] == records[j]);
        }
        lemma_record_index_is(after, path, i);
    } else if k < records.len() {
        assert forall|j: int| 0 <= j < k implies !path_same((#[trigger] after[j]).path, path) by {
            if j != i {
                assert(after[j] == records[j]);
            }
            assert(!path_same(records[j].path, path));
        }
        assert(k != i);
        assert(after[k] == records[k]);
        lemma_record_index_is(after, path, k);
    } else {
        assert forall|j: int| 0 <= j < after.len() implies !path_same((#[trigger] after[j]).path, path) by {
            if j < records.len() {
                assert(!path_same(records[j].path, path));
            }
        }
        lemma_record_index_is(after, path, after.len() as int);
    }
}

proof fn lemma_owner_after_files(
    records: Seq<OwnedRecordView>,
    p: GeneratedOutputPackageView,
    files: Seq<OwnedGeneratedFileView>,
    path: Seq<char>,
    i: int,
)
    ensures
        0 <= i < files.len() && path_same(files[i].relative_path, path) && (forall|j: int|
            i < j < files.len() ==> !path_same((#[trigger] files[j]).relative_path, path))
            ==> owner_of(with_package_files(records, p, files), path) == Some(
            (p.id, p.tool_id, joined(p.source_path, files[i].relative_path)),
        ),
        (forall|j: int|
            0 <= j < files.len() ==> !path_same((#[trigger] files[j]).relative_path, path))
            ==> owner_of(with_package_files(records, p, files), path) == owner_of(records, path),
    decreases files.len(),
{
    if files.len() > 0 {
        let rest = files.drop_last();
        let n = files.len() - 1;
        lemma_owner_after_files(records, p, rest, path, i);
        lemma_owner_after(with_package_files(records, p, rest), record_for(p, files[n]), path);
        assert(forall|j: int| 0 <= j < rest.len() ==> #[trigger] rest[j] == files[j]);
    }
}

/// Of the packages of the active profile that own a path, the last one counts:
/// its record names the package and where in it the file lies.
pub proof fn last_package_owns_the_file(
    packages: Seq<GeneratedOutputPackageView>,
    profile: Seq<char>,
    path: Seq<char>,
    k: int,
    i: int,
)
    requires
        0 <= k < packages.len(),
        owns_file(packages[k], i, profile, path),
        forall|j: int|
            i < j < packages[k].owned_files.len() ==> !path_same(
                (#[trigger] packages[k].owned_files[j]).relative_path,
                path,
            ),
        forall|l: int, j: int|
            k < l < packages.len() ==> !#[trigger] owns_file(packages[l], j, profile, path),
    ensures
        ({
            let records = owned_records(packages, profile);
            let n = record_index(records, path);
            let p = packages[k];
            &&& 0 <= n < records.len()
            &&& records[n].package_id == p.id
            &&& records[n].tool_id == p.tool_id
            &&& records[n].source_path == joined(p.source_path, p.owned_files[i].relative_path)
        }),
    decreases packages.len(),
{
    let records = owned_records(packages, profile);
    lemma_record_index(records, path);
    let rest = packages.drop_last();
    let n = packages.len() - 1;
    let before = owned_records(rest, profile);
    let p = packages[n];
    if k < n {
        assert(rest[k] == packages[k]);
        assert forall|l: int, j: int| k < l < rest.len() implies !#[trigger] owns_file(
            rest[l],
            j,
            profile,
            path,
        ) by {
            assert(rest[l] == packages[l]);
            assert(!owns_file(packages[l], j, profile, path));
        }
        last_package_owns_the_file(rest, profile, path, k, i);
        lemma_record_index(before, path);
        if p.manager_profile_id == profile {
            assert forall|j: int| 0 <= j < p.owned_files.len() implies !path_same(
                (#[trigger] p.owned_files[j]).relative_path,
                path,
            ) by {
                assert(!owns_file(packages[n], j, profile, path));
            }
            lemma_owner_after_files(before, p, p.owned_files, path, 0);
        }
    } else {
        lemma_owner_after_files(before, p, p.owned_files, path, i);
    }
}

/// Paths that are reviewed again are no longer ignored, and no others; other
/// profiles keep what they ignore.
pub proof fn clearing_takes_back_what_was_ignored(
    db: ModDatabaseView,
    paths: Seq<Seq<char>>,
    p: Seq<char>,
    profile: Seq<char>,
)
    ensures
        ignored_paths(with_cleared(db, paths)).contains(p) <==> ignored_paths(db).contains(p)
            && !paths.contains(p),
        profile != db.active_profile_id ==> (with_cleared(
            db,
            paths,
        ).profile_runtime_ignored.contains_key(profile) == db.profile_runtime_ignored.contains_key(
            profile,
        ) && (db.profile_runtime_ignored.contains_key(profile) ==> with_cleared(
            db,
            paths,
        ).profile_runtime_ignored[profile] == db.profile_runtime_ignored[profile])),
        (ModDatabaseView {
            profile_runtime_ignored: db.profile_runtime_ignored,
            ..with_cleared(db, paths)
        }) == db,
{
    broadcast use vstd::seq_lib::group_to_multiset_ensures;

    assert(paths.to_set().contains(p) <==> paths.contains(p));
}

/// Adopting takes the paths that can be adopted and exist into the package of
/// the active profile, each once, and reviews them no longer; where none can be
/// adopted nothing changes.
pub proof fn adopting_registers_what_can_be_adopted(
    db: ModDatabaseView,
    mods_dir: Seq<char>,
    paths: Seq<Seq<char>>,
    present: Seq<Seq<char>>,
    id: Seq<char>,
    now: u64,
    p: Seq<char>,
)
    ensures
        ({
            let after = with_adopted(db, mods_dir, paths, present, id, now);
            let fit = |q: Seq<char>|
                unmanaged_kind(lowercase(q)) == RuntimeEntryClassification::UnmanagedAdoptable;
            let package = after.generated_outputs.last();
            &&& (forall|q: Seq<char>| #[trigger] paths.contains(q) ==> !fit(q)) ==> after == db
            &&& paths.contains(p) && fit(p) ==> {
                &&& after.generated_outputs.len() > 0
                &&& package.id == id
                &&& package.manager_profile_id == db.active_profile_id
                &&& package.run_profile == db.active_profile_id
                &&& package.updated_at == now
                &&& !ignored_paths(after).contains(p)
                &&& present.contains(p) <==> exists|i: int|
                    0 <= i < package.owned_files.len() && (
                    #[trigger] package.owned_files[i]).relative_path == p
            }
            &&& after.mods == db.mods
            &&& after.active_profile_id == db.active_profile_id
        }),
{
    let fit = |q: Seq<char>|
        unmanaged_kind(lowercase(q)) == RuntimeEntryClassification::UnmanagedAdoptable;
    let adoptable = adoptable_paths(paths);
    let after = with_adopted(db, mods_dir, paths, present, id, now);
    if forall|q: Seq<char>| #[trigger] paths.contains(q) ==> !fit(q) {
        if adoptable.len() > 0 {
            let q = adoptable[0];
            assert(adoptable.contains(q));
            paths.lemma_filter_contains_rev(fit, q);
            paths.lemma_filter_pred(fit, 0);
        }
    }
    if paths.contains(p) && fit(p) {
        let i = choose|i: int| 0 <= i < paths.len() && paths[i] == p;
        paths.lemma_filter_contains(fit, i);
        assert(adoptable.contains(p));
        crate::generated_outputs::adopted_files_differ(adoptable, present);
        let files = present_files(adoptable, present);
        let package = after.generated_outputs.last();
        assert(package.owned_files == owned_by(files, "runtime-adopted"@, now));
        assert(files.contains(p) <==> present.contains(p));
        if files.contains(p) {
            let j = choose|j: int| 0 <= j < files.len() && files[j] == p;
            assert(package.owned_files[j].relative_path == p);
        }
        if exists|i: int|
            0 <= i < package.owned_files.len() && (#[trigger] package.owned_files[i]).relative_path
                == p {
            let j = choose|j: int|
                0 <= j < package.owned_files.len() && (
                #[trigger] package.owned_files[j]).relative_path == p;
            assert(files[j] == p);
        }
        assert(adoptable.to_set().contains(p));
    }
}

} // verus!
