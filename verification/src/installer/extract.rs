//! Deciding what leaves an archive, and where it goes.
use vstd::prelude::*;

use crate::installer::heuristics::{counts_as_top, is_kept_top};
use crate::installer::paths::{
    extension_is, has_rar_extension, has_zip_extension, is_safe_relative_path, normalize_path,
    normalized, stays_below, with_slashes,
};
use crate::number::{decimal, decimal_is_injective, decimal_string};
use crate::paths::{join, joined, parts_of};
use crate::text::{
    byte_len, concat2, contains, first_component, first_piece, has_infix, has_prefix, last_bytes,
    lowercase, owned, pieces, replace_char, same, split, strip_prefix, suffix_of_bytes,
    to_lowercase, trim_end_matches, trim_start_matches, trimmed_end, trimmed_start,
};

verus! {

// ── Entries and where they go ───────────────────────────────────────────────

/// An entry of an archive, as its directory lists it.
pub struct ArchiveEntry {
    pub name: String,
    pub directory: bool,
    pub size: u64,
}

/// An [`ArchiveEntry`] as a mathematical value.
#[verifier::ext_equal]
pub ghost struct ArchiveEntryView {
    pub name: Seq<char>,
    pub directory: bool,
    pub size: u64,
}

impl DeepView for ArchiveEntry {
    type V = ArchiveEntryView;

    open spec fn deep_view(&self) -> ArchiveEntryView {
        ArchiveEntryView { name: self.name@, directory: self.directory, size: self.size }
    }
}

/// What is left of `name` without the prefix, compared without regard to case;
/// `None` if the name does not start with it.
pub open spec fn tail_behind(name: Seq<char>, prefix: Seq<char>) -> Option<Seq<char>> {
    let lower = with_slashes(lowercase(name));
    let front = with_slashes(lowercase(prefix));
    if front.len() == 0 {
        Some(name)
    } else if has_prefix(lower, front) {
        last_bytes(name, byte_len(lower.skip(front.len() as int)) as int)
    } else {
        None
    }
}

fn strip_front(name: &str, prefix: &str) -> (r: Option<String>)
    ensures
        r.deep_view() == tail_behind(name@, prefix@),
{
    let front = replace_char(to_lowercase(prefix).as_str(), '\\', '/');
    if front.as_str().is_empty() {
        return Some(owned(name));
    }
    let lower = replace_char(to_lowercase(name).as_str(), '\\', '/');
    match strip_prefix(lower.as_str(), front.as_str()) {
        Some(rest) => suffix_of_bytes(name, rest.as_str().len()),
        None => None,
    }
}

/// What is left of the name of a zip entry without the prefix: the prefix as it
/// is spelled, or else compared without regard to case.
pub open spec fn zip_tail(name: Seq<char>, prefix: Seq<char>) -> Option<Seq<char>> {
    if prefix.len() == 0 {
        Some(name)
    } else if has_prefix(name, prefix) {
        Some(name.skip(prefix.len() as int))
    } else if has_prefix(lowercase(name), lowercase(prefix)) {
        last_bytes(
            name,
            byte_len(lowercase(name).skip(lowercase(prefix).len() as int)) as int,
        )
    } else {
        None
    }
}

fn strip_zip_front(name: &str, prefix: &str) -> (r: Option<String>)
    ensures
        r.deep_view() == zip_tail(name@, prefix@),
{
    if prefix.is_empty() {
        return Some(owned(name));
    }
    match strip_prefix(name, prefix) {
        Some(rest) => Some(rest),
        None => {
            let lower = to_lowercase(name);
            match strip_prefix(lower.as_str(), to_lowercase(prefix).as_str()) {
                Some(rest) => suffix_of_bytes(name, rest.as_str().len()),
                None => None,
            }
        },
    }
}

/// What happens to an entry: it is passed over, passed over with a warning as
/// its path leads out of the destination, or put at a relative path.
pub enum Placement {
    Skip,
    Unsafe(String),
    Put(String),
}

/// A [`Placement`] as a mathematical value.
#[verifier::ext_equal]
pub ghost enum PlacementView {
    Skip,
    Unsafe(Seq<char>),
    Put(Seq<char>),
}

impl DeepView for Placement {
    type V = PlacementView;

    open spec fn deep_view(&self) -> PlacementView {
        match self {
            Placement::Skip => PlacementView::Skip,
            Placement::Unsafe(p) => PlacementView::Unsafe(p@),
            Placement::Put(p) => PlacementView::Put(p@),
        }
    }
}

/// The placement at a relative path that is known to name something.
pub open spec fn guarded(rel: Seq<char>) -> PlacementView {
    if stays_below(parts_of(with_slashes(rel))) {
        PlacementView::Put(rel)
    } else {
        PlacementView::Unsafe(rel)
    }
}

fn guard(rel: String) -> (r: Placement)
    ensures
        r.deep_view() == guarded(rel@),
{
    if is_safe_relative_path(rel.as_str()) {
        Placement::Put(rel)
    } else {
        Placement::Unsafe(rel)
    }
}

/// Where an entry of a zip archive goes.
pub open spec fn zip_placement(name: Seq<char>, prefix: Seq<char>) -> PlacementView {
    match zip_tail(name, prefix) {
        Some(rel) => if rel.len() == 0 || rel == "/"@ {
            PlacementView::Skip
        } else {
            guarded(rel)
        },
        None => PlacementView::Skip,
    }
}

/// Where an entry of a zip archive goes when `strip_prefix` is taken off the
/// names.
pub fn place_zip_entry(name: &str, strip_prefix: &str) -> (r: Placement)
    ensures
        r.deep_view() == zip_placement(name@, strip_prefix@),
{
    match strip_zip_front(name, strip_prefix) {
        Some(rel) => {
            if rel.as_str().is_empty() || same(rel.as_str(), "/") {
                Placement::Skip
            } else {
                guard(rel)
            }
        },
        None => Placement::Skip,
    }
}

/// Where an extracted file or directory goes.
pub open spec fn tree_placement(name: Seq<char>, prefix: Seq<char>) -> PlacementView {
    match tail_behind(name, prefix) {
        Some(rest) => {
            let rel = trimmed_start(rest, '/');
            if rel.len() == 0 {
                PlacementView::Skip
            } else {
                guarded(rel)
            }
        },
        None => PlacementView::Skip,
    }
}

/// Where an extracted file or directory goes when `strip_prefix` is taken off
/// its path, without regard to case.
pub fn place_extracted_entry(name: &str, strip_prefix: &str) -> (r: Placement)
    ensures
        r.deep_view() == tree_placement(name@, strip_prefix@),
{
    match strip_front(name, strip_prefix) {
        Some(rest) => {
            let rel = trim_start_matches(rest.as_str(), '/');
            if rel.as_str().is_empty() {
                Placement::Skip
            } else {
                guard(rel)
            }
        },
        None => Placement::Skip,
    }
}

/// Where an entry of a 7z archive goes when `strip_prefix` is taken off its
/// normalized name, without regard to case.
pub fn place_7z_entry(name: &str, strip_prefix: &str) -> (r: Placement)
    ensures
        r.deep_view() == tree_placement(normalized(name@), strip_prefix@),
{
    place_extracted_entry(normalize_path(name).as_str(), strip_prefix)
}

/// No placement puts anything outside the destination.
pub proof fn placements_stay_below(name: Seq<char>, prefix: Seq<char>, rel: Seq<char>)
    ensures
        zip_placement(name, prefix) == PlacementView::Put(rel) ==> stays_below(
            parts_of(with_slashes(rel)),
        ),
        tree_placement(name, prefix) == PlacementView::Put(rel) ==> stays_below(
            parts_of(with_slashes(rel)),
        ),
{
}

// ── The steps of an extraction ──────────────────────────────────────────────

/// The step for one entry: where it goes, whether it is a directory, and how
/// many bytes of the archive lie before it.
pub struct ExtractStep {
    pub placement: Placement,
    pub directory: bool,
    pub bytes_done: u64,
}

/// An [`ExtractStep`] as a mathematical value.
#[verifier::ext_equal]
pub ghost struct ExtractStepView {
    pub placement: PlacementView,
    pub directory: bool,
    pub bytes_done: int,
}

impl DeepView for ExtractStep {
    type V = ExtractStepView;

    open spec fn deep_view(&self) -> ExtractStepView {
        ExtractStepView {
            placement: self.placement.deep_view(),
            directory: self.directory,
            bytes_done: self.bytes_done as int,
        }
    }
}

/// The steps of an extraction, and the bytes of all entries together.
pub struct Extraction {
    pub steps: Vec<ExtractStep>,
    pub total_bytes: u64,
}

/// The sizes of the entries together.
pub open spec fn size_of_all(entries: Seq<ArchiveEntryView>) -> int
    decreases entries.len(),
{
    if entries.len() == 0 {
        0
    } else {
        size_of_all(entries.drop_last()) + entries.last().size
    }
}

/// The sizes of fewer entries are not more.
pub proof fn lemma_size_monotone(entries: Seq<ArchiveEntryView>, n: int)
    requires
        0 <= n <= entries.len(),
    ensures
        0 <= size_of_all(entries.take(n)) <= size_of_all(entries),
    decreases entries.len(),
{
    if n < entries.len() {
        lemma_size_monotone(entries.drop_last(), n);
        assert(entries.drop_last().take(n) =~= entries.take(n));
    } else {
        assert(entries.take(n) =~= entries);
        if n > 0 {
            lemma_size_monotone(entries.drop_last(), n - 1);
            assert(entries.drop_last().take(n - 1) =~= entries.drop_last());
        }
    }
}

/// The step for the entry at `i`, placed by the rule of its kind of archive.
pub open spec fn step_at(
    entries: Seq<ArchiveEntryView>,
    i: int,
    prefix: Seq<char>,
    zip: bool,
) -> ExtractStepView {
    ExtractStepView {
        placement: if zip {
            zip_placement(entries[i].name, prefix)
        } else {
            tree_placement(normalized(entries[i].name), prefix)
        },
        directory: entries[i].directory,
        bytes_done: size_of_all(entries.take(i)),
    }
}

/// The steps for all entries, in order.
pub open spec fn steps_of(
    entries: Seq<ArchiveEntryView>,
    prefix: Seq<char>,
    zip: bool,
) -> Seq<ExtractStepView> {
    Seq::new(entries.len(), |i: int| step_at(entries, i, prefix, zip))
}

fn plan_extraction(entries: &Vec<ArchiveEntry>, strip_prefix: &str, zip: bool) -> (r: Extraction)
    requires
        size_of_all(entries.deep_view()) <= u64::MAX,
    ensures
        r.steps.deep_view() == steps_of(entries.deep_view(), strip_prefix@, zip),
        r.total_bytes == size_of_all(entries.deep_view()),
{
    let ghost all = entries.deep_view();
    let mut steps: Vec<ExtractStep> = Vec::new();
    let mut done: u64 = 0;
    for i in 0..entries.len()
        invariant
            all == entries.deep_view(),
            size_of_all(all) <= u64::MAX,
            done == size_of_all(all.take(i as int)),
            steps@.len() == i,
            forall|j: int|
                0 <= j < i ==> #[trigger] steps@[j].deep_view() == step_at(
                    all,
                    j,
                    strip_prefix@,
                    zip,
                ),
    {
        let entry = &entries[i];
        assert(all[i as int] == entry.deep_view());
        proof {
            assert(all.take(i + 1).drop_last() =~= all.take(i as int));
            lemma_size_monotone(all, i + 1);
        }
        let placement = if zip {
            place_zip_entry(entry.name.as_str(), strip_prefix)
        } else {
            place_7z_entry(entry.name.as_str(), strip_prefix)
        };
        steps.push(ExtractStep { placement, directory: entry.directory, bytes_done: done });
        done = done + entry.size;
    }
    assert(all.take(all.len() as int) =~= all);
    assert(steps.deep_view() =~= steps_of(all, strip_prefix@, zip));
    Extraction { steps, total_bytes: done }
}

/// The steps that extract a zip archive with `strip_prefix` taken off the
/// names of its entries.
pub fn extract_zip_to(entries: &Vec<ArchiveEntry>, strip_prefix: &str) -> (r: Extraction)
    requires
        size_of_all(entries.deep_view()) <= u64::MAX,
    ensures
        r.steps.deep_view() == steps_of(entries.deep_view(), strip_prefix@, true),
        r.total_bytes == size_of_all(entries.deep_view()),
{
    plan_extraction(entries, strip_prefix, true)
}

/// The steps that extract a 7z archive with `strip_prefix` taken off the names
/// of its entries.
pub fn extract_7z_archive_to(entries: &Vec<ArchiveEntry>, strip_prefix: &str) -> (r: Extraction)
    requires
        size_of_all(entries.deep_view()) <= u64::MAX,
    ensures
        r.steps.deep_view() == steps_of(entries.deep_view(), strip_prefix@, false),
        r.total_bytes == size_of_all(entries.deep_view()),
{
    plan_extraction(entries, strip_prefix, false)
}

/// The placements of extracted files when `strip_prefix` is taken off their
/// paths, in order.
pub fn move_from_extracted_to(entries: &Vec<String>, strip_prefix: &str) -> (r: Vec<Placement>)
    ensures
        r.deep_view() == entries.deep_view().map_values(
            |e: Seq<char>| tree_placement(e, strip_prefix@),
        ),
{
    let ghost all = entries.deep_view();
    let mut r: Vec<Placement> = Vec::new();
    for i in 0..entries.len()
        invariant
            all == entries.deep_view(),
            r@.len() == i,
            forall|j: int|
                0 <= j < i ==> #[trigger] r@[j].deep_view() == tree_placement(
                    all[j],
                    strip_prefix@,
                ),
    {
        assert(all[i as int] == entries@[i as int]@);
        r.push(place_extracted_entry(entries[i].as_str(), strip_prefix));
    }
    assert(r.deep_view() =~= all.map_values(|e: Seq<char>| tree_placement(e, strip_prefix@)));
    r
}

/// The progress that is reported with the steps never falls and never exceeds
/// the total.
pub proof fn progress_is_monotone(
    entries: Seq<ArchiveEntryView>,
    prefix: Seq<char>,
    zip: bool,
    i: int,
    j: int,
)
    requires
        0 <= i <= j < entries.len(),
    ensures
        0 <= steps_of(entries, prefix, zip)[i].bytes_done <= steps_of(
            entries,
            prefix,
            zip,
        )[j].bytes_done <= size_of_all(entries),
{
    lemma_size_monotone(entries, j);
    lemma_size_monotone(entries.take(j), i);
    assert(entries.take(j).take(i) =~= entries.take(i));
}

/// How often an extraction reports its progress.
pub const EXTRACTION_TICK_INTERVAL_MS: u64 = 50;

/// Whether progress is due when `elapsed_ms` milliseconds have passed since it
/// was last reported.
pub fn progress_is_due(elapsed_ms: u64) -> (r: bool)
    ensures
        r == (elapsed_ms >= EXTRACTION_TICK_INTERVAL_MS),
{
    elapsed_ms >= EXTRACTION_TICK_INTERVAL_MS
}

/// What is reported when the 7z library fails with `message`: only the
/// cancellation, if that was the cause.
pub fn seven_zip_failure(archive: &str, message: &str) -> (r: String)
    ensures
        r@ == (if has_infix(message@, "Cancelled by user"@) {
            "Cancelled by user"@
        } else {
            "Failed to extract 7z archive "@ + archive@ + ": "@ + message@
        }),
{
    if contains(message, "Cancelled by user") {
        owned("Cancelled by user")
    } else {
        let head = concat2("Failed to extract 7z archive ", archive);
        concat2(concat2(head.as_str(), ": ").as_str(), message)
    }
}

// ── Kinds of archives ───────────────────────────────────────────────────────

/// How an archive is read, decided by its name.
#[derive(Clone, Copy, PartialEq, Eq, Structural)]
pub enum ArchiveKind {
    Zip,
    Rar,
    SevenZip,
}

/// The kind of the archive at `path`; whatever is neither zip nor rar is left
/// to the 7z library.
pub fn archive_kind(path: &str) -> (r: ArchiveKind)
    ensures
        r == (if extension_is(path@, "zip"@) {
            ArchiveKind::Zip
        } else if extension_is(path@, "rar"@) {
            ArchiveKind::Rar
        } else {
            ArchiveKind::SevenZip
        }),
{
    if has_zip_extension(path) {
        ArchiveKind::Zip
    } else if has_rar_extension(path) {
        ArchiveKind::Rar
    } else {
        ArchiveKind::SevenZip
    }
}

/// The directory that the components of a prefix lead to.
pub open spec fn descended(base: Seq<char>, parts: Seq<Seq<char>>) -> Seq<char>
    decreases parts.len(),
{
    if parts.len() == 0 {
        base
    } else {
        let before = descended(base, parts.drop_last());
        if parts.last().len() == 0 {
            before
        } else {
            joined(before, parts.last())
        }
    }
}

/// Where the contents under `strip_prefix` lie, once an archive has been
/// extracted to `extracted`.
pub fn prefix_directory(extracted: &str, strip_prefix: &str) -> (r: String)
    ensures
        r@ == descended(extracted@, pieces(trimmed_end(strip_prefix@, '/'), '/')),
{
    let parts = split(trim_end_matches(strip_prefix, '/').as_str(), '/');
    let ghost all = parts.deep_view();
    let mut r = owned(extracted);
    for i in 0..parts.len()
        invariant
            all == parts.deep_view(),
            r@ == descended(extracted@, all.take(i as int)),
    {
        assert(all.take(i + 1).drop_last() =~= all.take(i as int));
        assert(all[i as int] == parts@[i as int]@);
        if !parts[i].as_str().is_empty() {
            r = join(r.as_str(), parts[i].as_str());
        }
    }
    assert(all.take(all.len() as int) =~= all);
    r
}

/// The directory whose contents a rar archive, extracted to `extracted`, adds
/// to the destination: that of the prefix, if there is such a directory.
pub fn rar_move_source(extracted: &str, strip_prefix: &str, prefix_exists: bool) -> (r: String)
    ensures
        r@ == (if strip_prefix@.len() > 0 && prefix_exists {
            descended(extracted@, pieces(trimmed_end(strip_prefix@, '/'), '/'))
        } else {
            extracted@
        }),
{
    if !strip_prefix.is_empty() && prefix_exists {
        prefix_directory(extracted, strip_prefix)
    } else {
        owned(extracted)
    }
}

// ── Temporary directories ───────────────────────────────────────────────────

/// The name of a temporary directory: a prefix, the process, the time and the
/// attempt.
pub open spec fn temp_name(prefix: Seq<char>, pid: nat, nanos: nat, attempt: nat) -> Seq<char> {
    prefix + "_"@ + decimal(pid) + "_"@ + decimal(nanos) + "_"@ + decimal(attempt)
}

fn temp_name_with(prefix: &str, pid: u32, nanos: u128, attempt: u32) -> (r: String)
    ensures
        r@ == temp_name(prefix@, pid as nat, nanos as nat, attempt as nat),
{
    let a = concat2(concat2(prefix, "_").as_str(), decimal_string(pid as u128).as_str());
    let b = concat2(concat2(a.as_str(), "_").as_str(), decimal_string(nanos).as_str());
    concat2(concat2(b.as_str(), "_").as_str(), decimal_string(attempt as u128).as_str())
}

/// The name of a directory for extraction in the system's temporary directory.
pub fn temp_extract_dir_name(pid: u32, nanos: u128, attempt: u32) -> (r: String)
    ensures
        r@ == temp_name("linkmm_extract"@, pid as nat, nanos as nat, attempt as nat),
{
    temp_name_with("linkmm_extract", pid, nanos, attempt)
}

/// The name of a hidden directory for extraction beside the mods.
pub fn hidden_extract_dir_name(pid: u32, nanos: u128, attempt: u32) -> (r: String)
    ensures
        r@ == temp_name(".linkmm_tmp"@, pid as nat, nanos as nat, attempt as nat),
{
    temp_name_with(".linkmm_tmp", pid, nanos, attempt)
}

/// How many names are tried for a temporary directory.
pub const TEMP_DIR_ATTEMPTS: u32 = 100;

/// Attempts of one process at one time get different names.
pub proof fn temp_names_differ(prefix: Seq<char>, pid: nat, nanos: nat, a: nat, b: nat)
    requires
        a != b,
    ensures
        temp_name(prefix, pid, nanos, a) != temp_name(prefix, pid, nanos, b),
{
    let head = prefix + "_"@ + decimal(pid) + "_"@ + decimal(nanos) + "_"@;
    if head + decimal(a) == head + decimal(b) {
        assert(decimal(a) =~= (head + decimal(a)).skip(head.len() as int));
        assert(decimal(b) =~= (head + decimal(b)).skip(head.len() as int));
        decimal_is_injective(a, b);
    }
}

// ── Lowercase names ─────────────────────────────────────────────────────────

/// What is done with a file or directory whose name is to be in lowercase.
pub enum LowercaseStep {
    /// It stays as it is.
    Keep,
    /// It is renamed.
    Rename(String),
    /// Its contents move into the directory that has the name already.
    Merge(String),
}

/// A [`LowercaseStep`] as a mathematical value.
#[verifier::ext_equal]
pub ghost enum LowercaseStepView {
    Keep,
    Rename(Seq<char>),
    Merge(Seq<char>),
}

impl DeepView for LowercaseStep {
    type V = LowercaseStepView;

    open spec fn deep_view(&self) -> LowercaseStepView {
        match self {
            LowercaseStep::Keep => LowercaseStepView::Keep,
            LowercaseStep::Rename(n) => LowercaseStepView::Rename(n@),
            LowercaseStep::Merge(n) => LowercaseStepView::Merge(n@),
        }
    }
}

/// The step for a name in lowercase: nothing that exists is overwritten, and of
/// two files whose names differ in case alone both are kept.
pub open spec fn lowercase_step(
    name: Seq<char>,
    directory: bool,
    target_exists: bool,
    target_directory: bool,
) -> LowercaseStepView {
    if name == lowercase(name) {
        LowercaseStepView::Keep
    } else if !target_exists {
        LowercaseStepView::Rename(lowercase(name))
    } else if directory && target_directory {
        LowercaseStepView::Merge(lowercase(name))
    } else {
        LowercaseStepView::Keep
    }
}

/// Decides what is done with an entry of a directory whose names are to be in
/// lowercase, given whether the entry is a directory and what stands under the
/// lowercase name.
pub fn normalize_paths_to_lowercase(
    name: &str,
    directory: bool,
    target_exists: bool,
    target_directory: bool,
) -> (r: LowercaseStep)
    ensures
        r.deep_view() == lowercase_step(name@, directory, target_exists, target_directory),
{
    let lower = to_lowercase(name);
    if same(name, lower.as_str()) {
        LowercaseStep::Keep
    } else if !target_exists {
        LowercaseStep::Rename(lower)
    } else if directory && target_directory {
        LowercaseStep::Merge(lower)
    } else {
        LowercaseStep::Keep
    }
}

/// What is done with a file or directory whose directory is merged into
/// another.
pub enum MergeStep {
    /// It moves there under the given name.
    Move(String),
    /// It is merged into the directory of the given name.
    Descend(String),
    /// It stays, as something else stands there.
    Skip,
}

/// A [`MergeStep`] as a mathematical value.
#[verifier::ext_equal]
pub ghost enum MergeStepView {
    Move(Seq<char>),
    Descend(Seq<char>),
    Skip,
}

impl DeepView for MergeStep {
    type V = MergeStepView;

    open spec fn deep_view(&self) -> MergeStepView {
        match self {
            MergeStep::Move(n) => MergeStepView::Move(n@),
            MergeStep::Descend(n) => MergeStepView::Descend(n@),
            MergeStep::Skip => MergeStepView::Skip,
        }
    }
}

/// The step for an entry of a directory that is merged: nothing that exists is
/// overwritten.
pub open spec fn merge_step(
    name: Seq<char>,
    directory: bool,
    target_exists: bool,
    target_directory: bool,
) -> MergeStepView {
    if !target_exists {
        MergeStepView::Move(lowercase(name))
    } else if directory && target_directory {
        MergeStepView::Descend(lowercase(name))
    } else {
        MergeStepView::Skip
    }
}

/// Decides what is done with an entry of a directory that is merged into
/// another, given what stands there under its lowercase name.
pub fn merge_directory_into(
    name: &str,
    directory: bool,
    target_exists: bool,
    target_directory: bool,
) -> (r: MergeStep)
    ensures
        r.deep_view() == merge_step(name@, directory, target_exists, target_directory),
{
    let lower = to_lowercase(name);
    if !target_exists {
        MergeStep::Move(lower)
    } else if directory && target_directory {
        MergeStep::Descend(lower)
    } else {
        MergeStep::Skip
    }
}

// ── Extracted archives ──────────────────────────────────────────────────────

/// The path, relative to the root of an extracted archive, is listed.
pub open spec fn is_listed_entry(rel: Seq<char>) -> bool {
    counts_as_top(first_piece(with_slashes(rel)))
        || (first_piece(with_slashes(rel)).len() == 0 && with_slashes(rel).len() > 0)
}

/// The paths that are listed, with forward slashes.
pub open spec fn listed_entries(paths: Seq<Seq<char>>) -> Seq<Seq<char>>
    decreases paths.len(),
{
    if paths.len() == 0 {
        Seq::empty()
    } else {
        let before = listed_entries(paths.drop_last());
        if is_listed_entry(paths.last()) {
            before.push(with_slashes(paths.last()))
        } else {
            before
        }
    }
}

/// The paths, relative to the root of an extracted archive, that count as its
/// entries: junk at the top level, and whatever lies below it, is left out.
pub fn collect_extracted_entries(paths: &Vec<String>) -> (r: Vec<String>)
    ensures
        r.deep_view() == listed_entries(paths.deep_view()),
{
    let ghost all = paths.deep_view();
    let mut r: Vec<String> = Vec::new();
    assert(r.deep_view() =~= Seq::<Seq<char>>::empty());
    for i in 0..paths.len()
        invariant
            all == paths.deep_view(),
            r.deep_view() == listed_entries(all.take(i as int)),
    {
        let ghost before = r.deep_view();
        assert(all.take(i + 1).drop_last() =~= all.take(i as int));
        assert(all[i as int] == paths@[i as int]@);
        let rel = replace_char(paths[i].as_str(), '\\', '/');
        let top = first_component(rel.as_str());
        if is_kept_top(top.as_str()) || (top.as_str().is_empty() && !rel.as_str().is_empty()) {
            let ghost rv = rel@;
            r.push(rel);
            assert(r.deep_view() =~= before.push(rv));
        }
    }
    assert(all.take(all.len() as int) =~= all);
    r
}

/// An archive that has been extracted to a temporary directory.
pub struct ExtractedArchive {
    dir_path: String,
    cleanup_dir: Option<String>,
    entries: Vec<String>,
}

impl ExtractedArchive {
    /// The directory that holds, or held, the extracted files.
    pub closed spec fn directory(&self) -> Seq<char> {
        self.dir_path@
    }

    /// The directory that is still to be removed.
    pub closed spec fn to_remove(&self) -> Option<Seq<char>> {
        self.cleanup_dir.deep_view()
    }

    /// The paths of the entries.
    pub closed spec fn paths(&self) -> Seq<Seq<char>> {
        self.entries.deep_view()
    }

    fn new(dir: String, entries: Vec<String>) -> (r: ExtractedArchive)
        ensures
            r.directory() == dir@,
            r.to_remove() == Some(dir@),
            r.paths() == entries.deep_view(),
    {
        let copy = owned(dir.as_str());
        ExtractedArchive { dir_path: dir, cleanup_dir: Some(copy), entries }
    }

    /// The archive that was extracted to `dir`, where the given paths are found
    /// now; or the failure of the extraction.
    pub fn from_archive(
        dir: String,
        outcome: Result<(), String>,
        paths: &Vec<String>,
    ) -> (r: Result<ExtractedArchive, String>)
        ensures
            match outcome {
                Ok(_) => r is Ok && r->Ok_0.directory() == dir@ && r->Ok_0.to_remove() == Some(
                    dir@,
                ) && r->Ok_0.paths() == listed_entries(paths.deep_view()),
                Err(e) => r is Err && r->Err_0@ == e@,
            },
    {
        match outcome {
            Ok(_) => Ok(ExtractedArchive::new(dir, collect_extracted_entries(paths))),
            Err(e) => Err(e),
        }
    }

    /// The archive that was extracted to the directory `name` inside `parent`,
    /// where the given paths are found now; or the failure of the extraction.
    pub fn from_archive_in(
        parent: &str,
        name: &str,
        outcome: Result<(), String>,
        paths: &Vec<String>,
    ) -> (r: Result<ExtractedArchive, String>)
        ensures
            match outcome {
                Ok(_) => r is Ok && r->Ok_0.directory() == joined(parent@, name@)
                    && r->Ok_0.to_remove() == Some(joined(parent@, name@)) && r->Ok_0.paths()
                    == listed_entries(paths.deep_view()),
                Err(e) => r is Err && r->Err_0@ == e@,
            },
    {
        ExtractedArchive::from_archive(join(parent, name), outcome, paths)
    }

    /// Takes out the directory that is to be removed; there is none after the
    /// first call.
    pub fn cleanup(&mut self) -> (r: Option<String>)
        ensures
            r.deep_view() == old(self).to_remove(),
            final(self).to_remove() == None::<Seq<char>>,
            final(self).directory() == old(self).directory(),
            final(self).paths() == old(self).paths(),
    {
        self.cleanup_dir.take()
    }

    /// The directory that holds, or held, the extracted files.
    pub fn dir(&self) -> (r: &str)
        ensures
            r@ == self.directory(),
    {
        self.dir_path.as_str()
    }

    /// The paths of the entries, relative to [`ExtractedArchive::dir`], with
    /// forward slashes.
    pub fn entries(&self) -> (r: &Vec<String>)
        ensures
            r.deep_view() == self.paths(),
    {
        &self.entries
    }
}

/// The entries of an extracted archive hold no junk of packing tools.
pub proof fn listed_entries_hold_no_junk(paths: Seq<Seq<char>>)
    ensures
        forall|i: int|
            0 <= i < listed_entries(paths).len() ==> {
                let top = first_piece(#[trigger] listed_entries(paths)[i]);
                top.len() > 0 ==> counts_as_top(top)
            },
    decreases paths.len(),
{
    if paths.len() > 0 {
        listed_entries_hold_no_junk(paths.drop_last());
        let before = listed_entries(paths.drop_last());
        let all = listed_entries(paths);
        assert forall|i: int| 0 <= i < all.len() implies {
            let top = first_piece(#[trigger] all[i]);
            top.len() > 0 ==> counts_as_top(top)
        } by {
            if i < before.len() {
                assert(all[i] == before[i]);
            }
        }
    }
}

// ── Laws ────────────────────────────────────────────────────────────────────

/// What an extraction leaves in the directory gets its name in lowercase: it
/// stays if it has it, is renamed if the name is free, and is merged if both are
/// directories.
pub proof fn names_become_lowercase(
    name: Seq<char>,
    directory: bool,
    target_exists: bool,
    target_directory: bool,
)
    ensures
        ({
            let step = lowercase_step(name, directory, target_exists, target_directory);
            let low = lowercase(name);
            &&& step == LowercaseStepView::Rename(low) <==> name != low && !target_exists
            &&& step == LowercaseStepView::Merge(low) <==> name != low && target_exists && directory
                && target_directory
            &&& step is Rename ==> step->Rename_0 == low
            &&& step is Merge ==> step->Merge_0 == low
        }),
        ({
            let step = merge_step(name, directory, target_exists, target_directory);
            let low = lowercase(name);
            &&& step == MergeStepView::Move(low) <==> !target_exists
            &&& step == MergeStepView::Descend(low) <==> target_exists && directory
                && target_directory
            &&& step is Move ==> step->Move_0 == low
            &&& step is Descend ==> step->Descend_0 == low
        }),
{
}

/// Every entry of an archive has a step, with the bytes of the entries before it
/// done, and one that is not placed is skipped or refused.
pub proof fn every_entry_has_its_step(
    entries: Seq<ArchiveEntryView>,
    prefix: Seq<char>,
    i: int,
)
    requires
        0 <= i < entries.len(),
    ensures
        steps_of(entries, prefix, true).len() == entries.len(),
        steps_of(entries, prefix, false).len() == entries.len(),
        steps_of(entries, prefix, true)[i].placement == zip_placement(entries[i].name, prefix),
        steps_of(entries, prefix, false)[i].placement == tree_placement(
            normalized(entries[i].name),
            prefix,
        ),
        steps_of(entries, prefix, true)[i].directory == entries[i].directory,
        steps_of(entries, prefix, true)[0].bytes_done == 0,
        i + 1 < entries.len() ==> steps_of(entries, prefix, true)[i + 1].bytes_done == steps_of(
            entries,
            prefix,
            true,
        )[i].bytes_done + entries[i].size,
{
    assert(entries.take(0) =~= Seq::empty());
    if i + 1 < entries.len() {
        assert(entries.take(i + 1).drop_last() =~= entries.take(i));
        assert(entries.take(i + 1).last() == entries[i]);
    }
}

/// Descending through names leads to the path that is made of them, below where
/// it starts; empty names count for nothing.
pub proof fn descending_follows_the_names(base: Seq<char>, parts: Seq<Seq<char>>, name: Seq<char>)
    requires
        base.len() > 0,
    ensures
        descended(base, Seq::empty()) == base,
        name.len() > 0 ==> descended(base, parts.push(name)) == joined(
            descended(base, parts),
            name,
        ),
        name.len() == 0 ==> descended(base, parts.push(name)) == descended(base, parts),
{
    assert(parts.push(name).drop_last() =~= parts);
}

} // verus!
