//! Planning which entry of an archive is installed where.
use vstd::prelude::*;

use crate::installer::heuristics::{find_data_root_in_paths, junk_toplevel_entries, strip_prefix_of};
use crate::installer::paths::{
    data_prefix_stripped, is_safe_relative_path, normalize_path, normalized, stays_below,
    strip_data_prefix_given, with_slashes,
};
use crate::installer::types::{FomodFile, FomodFileView};
use crate::paths::{file_name, file_name_of, parts_of};
use crate::text::{
    byte_len, chars_of, concat2, concat3, contains, ends_with, first_component, first_piece,
    from_byte, has_infix, has_prefix, has_suffix, is_among, lemma_sorted_keeps,
    lemma_sorted_positions, lowercase, owned, replace_char, same, sort_stably, sorted_positions,
    stably_sorted, starts_with, suffix_from_byte, to_lowercase, total_preorder, trim_end_matches,
    trim_start_matches, trimmed_end, trimmed_start,
};

verus! {

// ── Plans ───────────────────────────────────────────────────────────────────

/// The entry with the given index is installed at the given path, relative to
/// the directory that is installed into.
#[derive(Debug)]
pub struct PlannedFile {
    pub index: usize,
    pub destination: String,
}

#[verifier::ext_equal]
pub ghost struct PlannedFileView {
    pub index: usize,
    pub destination: Seq<char>,
}

impl DeepView for PlannedFile {
    type V = PlannedFileView;

    open spec fn deep_view(&self) -> PlannedFileView {
        PlannedFileView { index: self.index, destination: self.destination@ }
    }
}

/// A path below a directory, where an empty directory is the root.
pub open spec fn under(directory: Seq<char>, path: Seq<char>) -> Seq<char> {
    if directory.len() == 0 {
        path
    } else {
        directory + "/"@ + path
    }
}

fn put_under(directory: &str, path: &str) -> (r: String)
    ensures
        r@ == under(directory@, path@),
{
    if directory.is_empty() {
        owned(path)
    } else {
        concat3(directory, "/", path)
    }
}

// ── Matching sources ────────────────────────────────────────────────────────

/// The lowercase path of an entry is `key` or lies below it.
pub open spec fn lies_at(lower: Seq<char>, key: Seq<char>) -> bool {
    lower == key || has_prefix(lower, key + "/"@) || has_prefix(lower, key + "\\"@)
}

/// The lowercase path of an entry does not belong to a FOMOD configuration.
pub open spec fn outside_fomod(lower: Seq<char>) -> bool {
    !(lower == "fomod"@ || has_prefix(lower, "fomod/"@) || has_infix(lower, "/fomod/"@))
}

/// A place where the source of a mapping is looked for.
#[derive(Debug)]
pub struct Candidate {
    /// The lowercase path that entries lie at; everything outside the FOMOD
    /// configuration if there is none.
    pub key: Option<String>,
    /// The path that the destination stands for.
    pub matched: String,
}

#[verifier::ext_equal]
pub ghost struct CandidateView {
    pub key: Option<Seq<char>>,
    pub matched: Seq<char>,
}

impl DeepView for Candidate {
    type V = CandidateView;

    open spec fn deep_view(&self) -> CandidateView {
        CandidateView { key: self.key.deep_view(), matched: self.matched@ }
    }
}

pub open spec fn is_selected(lower: Seq<char>, key: Option<Seq<char>>) -> bool {
    match key {
        Some(k) => lies_at(lower, k),
        None => outside_fomod(lower),
    }
}

/// The indices of the entries that a candidate selects.
pub open spec fn selection(lowers: Seq<Seq<char>>, key: Option<Seq<char>>) -> Seq<usize>
    decreases lowers.len(),
{
    if lowers.len() == 0 {
        Seq::empty()
    } else {
        let before = selection(lowers.drop_last(), key);
        if is_selected(lowers.last(), key) {
            before.push((lowers.len() - 1) as usize)
        } else {
            before
        }
    }
}

/// The first candidate that selects an entry.
pub open spec fn chosen(lowers: Seq<Seq<char>>, candidates: Seq<CandidateView>) -> Option<
    CandidateView,
>
    decreases candidates.len(),
{
    if candidates.len() == 0 {
        None
    } else if selection(lowers, candidates[0].key).len() > 0 {
        Some(candidates[0])
    } else {
        chosen(lowers, candidates.skip(1))
    }
}

fn selects(lower: &str, key: &Option<String>) -> (r: bool)
    ensures
        r == is_selected(lower@, key.deep_view()),
{
    match key {
        Some(k) => {
            same(lower, k.as_str()) || starts_with(lower, concat2(k.as_str(), "/").as_str())
                || starts_with(lower, concat2(k.as_str(), "\\").as_str())
        },
        None => {
            !(same(lower, "fomod") || starts_with(lower, "fomod/") || contains(lower, "/fomod/"))
        },
    }
}

/// The indices of the entries that a candidate selects.
pub fn select_entries(lowers: &Vec<String>, key: &Option<String>) -> (r: Vec<usize>)
    ensures
        r@ == selection(lowers.deep_view(), key.deep_view()),
        forall|i: int| 0 <= i < r@.len() ==> #[trigger] r@[i] < lowers@.len(),
{
    let ghost all = lowers.deep_view();
    let mut r: Vec<usize> = Vec::new();
    assert(selection(all.take(0), key.deep_view()) =~= r@);
    for i in 0..lowers.len()
        invariant
            all == lowers.deep_view(),
            r@ == selection(all.take(i as int), key.deep_view()),
            forall|j: int| 0 <= j < r@.len() ==> #[trigger] r@[j] < lowers@.len(),
    {
        assert(all.take(i + 1).drop_last() =~= all.take(i as int));
        assert(all.take(i + 1).last() == lowers@[i as int]@);
        if selects(lowers[i].as_str(), key) {
            r.push(i);
        }
    }
    assert(all.take(all.len() as int) =~= all);
    r
}

/// The index of the first candidate that selects an entry, with what it
/// selects.
fn choose_candidate(lowers: &Vec<String>, candidates: &Vec<Candidate>) -> (r: Option<
    (usize, Vec<usize>),
>)
    ensures
        match r {
            Some((c, indices)) => {
                &&& c < candidates@.len()
                &&& chosen(lowers.deep_view(), candidates.deep_view()) == Some(
                    candidates@[c as int].deep_view(),
                )
                &&& indices@ == selection(
                    lowers.deep_view(),
                    candidates@[c as int].key.deep_view(),
                )
                &&& forall|i: int|
                    0 <= i < indices@.len() ==> #[trigger] indices@[i] < lowers@.len()
            },
            None => chosen(lowers.deep_view(), candidates.deep_view()) is None,
        },
{
    let ghost all = candidates.deep_view();
    let ghost ls = lowers.deep_view();
    let mut c: usize = 0;
    assert(all.skip(0) =~= all);
    while c < candidates.len()
        invariant
            c <= candidates@.len(),
            all == candidates.deep_view(),
            ls == lowers.deep_view(),
            chosen(ls, all) == chosen(ls, all.skip(c as int)),
        decreases candidates@.len() - c,
    {
        assert(all.skip(c as int)[0] == candidates@[c as int].deep_view());
        let indices = select_entries(lowers, &candidates[c].key);
        if indices.len() > 0 {
            return Some((c, indices));
        }
        assert(all.skip(c as int).skip(1) =~= all.skip(c + 1));
        c += 1;
    }
    None
}

/// The order in which mappings are carried out.
pub open spec fn priority_order() -> spec_fn(FomodFileView, FomodFileView) -> bool {
    |a: FomodFileView, b: FomodFileView| a.priority <= b.priority
}

/// The mappings in the order in which they are carried out: a higher priority
/// later.
pub open spec fn by_priority(files: Seq<FomodFileView>) -> Seq<FomodFileView> {
    stably_sorted(files, priority_order())
}

fn sort_by_priority(files: &Vec<FomodFile>) -> (r: Vec<FomodFile>)
    ensures
        r.deep_view() == by_priority(files.deep_view()),
{
    let ghost all = files.deep_view();
    let mut copy: Vec<FomodFile> = Vec::new();
    for i in 0..files.len()
        invariant
            all == files.deep_view(),
            copy.deep_view() == all.take(i as int),
    {
        let ghost before = copy.deep_view();
        copy.push(files[i].clone());
        assert(all[i as int] == files@[i as int].deep_view());
        assert(copy.deep_view() =~= before.push(all[i as int]));
        assert(all.take(i + 1) =~= all.take(i as int).push(all[i as int]));
    }
    assert(all.take(all.len() as int) =~= all);
    let in_place = |a: &FomodFile, b: &FomodFile| -> (ok: bool)
        ensures
            ok == (a.deep_view().priority <= b.deep_view().priority),
    {
        a.priority <= b.priority
    };
    sort_stably(copy, in_place, Ghost(priority_order()))
}

/// The destination of a mapping, relative to `Data/`.
pub open spec fn data_destination(f: FomodFileView) -> Seq<char> {
    let d = normalized(f.destination);
    data_prefix_stripped(d, lowercase(d))
}

fn read_destination(f: &FomodFile) -> (r: String)
    ensures
        r@ == data_destination(f.deep_view()),
{
    let d = normalize_path(f.destination.as_str());
    let lower = to_lowercase(d.as_str());
    strip_data_prefix_given(d.as_str(), lower.as_str())
}

// ── From an archive ─────────────────────────────────────────────────────────

/// A source as a candidate.
pub open spec fn as_candidate(source: Seq<char>) -> CandidateView {
    CandidateView { key: Some(lowercase(source)), matched: source }
}

/// A source as a candidate, at the archive root and below the wrapper
/// directory.
pub open spec fn around(source: Seq<char>, prefix: Seq<char>) -> Seq<CandidateView> {
    if prefix.len() == 0 {
        seq![as_candidate(source)]
    } else {
        seq![
            as_candidate(source),
            as_candidate(normalized(trimmed_end(prefix, '/') + "/"@ + source)),
        ]
    }
}

/// The other spelling of a source: without a leading `data/`, or with one.
pub open spec fn respelled(source: Seq<char>) -> Option<Seq<char>> {
    let lower = lowercase(source);
    if has_prefix(lower, "data/"@) {
        let stripped = data_prefix_stripped(source, lower);
        if stripped.len() > 0 && stripped != source {
            Some(stripped)
        } else {
            None
        }
    } else if lower.len() > 0 && lower != "data"@ {
        Some("data/"@ + source)
    } else {
        None
    }
}

/// The lowercase source stands for the whole data folder.
pub open spec fn is_data_folder(lower: Seq<char>) -> bool {
    lower == "data"@ || lower == "data/"@
}

/// Where the source of a mapping is looked for in an archive.
pub open spec fn archive_candidates(source: Seq<char>, prefix: Seq<char>) -> Seq<CandidateView> {
    around(source, prefix) + (match respelled(source) {
        Some(other) => around(other, prefix),
        None => Seq::empty(),
    }) + (if is_data_folder(lowercase(source)) {
        seq![CandidateView { key: None, matched: Seq::empty() }]
    } else {
        Seq::empty()
    })
}

fn candidate(source: String) -> (r: Candidate)
    ensures
        r.deep_view() == as_candidate(source@),
{
    Candidate { key: Some(to_lowercase(source.as_str())), matched: source }
}

fn push_around(list: &mut Vec<Candidate>, source: &str, prefix: &str)
    ensures
        final(list).deep_view() == old(list).deep_view() + around(source@, prefix@),
{
    let ghost before = list.deep_view();
    list.push(candidate(owned(source)));
    assert(list.deep_view() =~= before.push(as_candidate(source@)));
    if !prefix.is_empty() {
        let wrapped = concat3(trim_end_matches(prefix, '/').as_str(), "/", source);
        let norm = normalize_path(wrapped.as_str());
        let ghost nv = norm@;
        let ghost mid = list.deep_view();
        list.push(candidate(norm));
        assert(list.deep_view() =~= mid.push(as_candidate(nv)));
    }
    assert(list.deep_view() =~= before + around(source@, prefix@));
}

fn find_archive_candidates(source: &str, prefix: &str) -> (r: Vec<Candidate>)
    ensures
        r.deep_view() == archive_candidates(source@, prefix@),
{
    let lower = to_lowercase(source);
    let mut r: Vec<Candidate> = Vec::new();
    push_around(&mut r, source, prefix);
    assert(r.deep_view() =~= around(source@, prefix@));
    let other = if starts_with(lower.as_str(), "data/") {
        let stripped = strip_data_prefix_given(source, lower.as_str());
        if !stripped.as_str().is_empty() && !same(stripped.as_str(), source) {
            Some(stripped)
        } else {
            None
        }
    } else if !lower.as_str().is_empty() && !same(lower.as_str(), "data") {
        Some(concat2("data/", source))
    } else {
        None
    };
    assert(other.deep_view() == respelled(source@));
    match other {
        Some(o) => push_around(&mut r, o.as_str(), prefix),
        None => {},
    }
    let ghost mid = r.deep_view();
    if same(lower.as_str(), "data") || same(lower.as_str(), "data/") {
        r.push(Candidate { key: None, matched: String::new() });
        assert(r.deep_view() =~= mid.push(CandidateView { key: None, matched: Seq::empty() }));
    }
    assert(r.deep_view() =~= archive_candidates(source@, prefix@));
    r
}

/// Where an entry goes that the source `matched` selected: in the place of the
/// source, or below the destination.
pub open spec fn place_of(
    entry: Seq<char>,
    entry_lower: Seq<char>,
    matched_lower: Seq<char>,
    destination: Seq<char>,
) -> Option<Seq<char>> {
    if matched_lower.len() == 0 {
        Some(under(destination, entry))
    } else if entry_lower == matched_lower {
        Some(destination)
    } else if has_prefix(entry_lower, matched_lower + "/"@) {
        match from_byte(entry, byte_len(matched_lower + "/"@) as int) {
            Some(suffix) => Some(under(destination, suffix)),
            None => None,
        }
    } else {
        None
    }
}

/// A place that a file may be written to.
pub open spec fn is_writable_place(rel: Seq<char>) -> bool {
    rel.len() > 0 && rel.last() != '/' && stays_below(parts_of(with_slashes(rel)))
}

/// The destination of an entry, if it is installed.
pub open spec fn archive_destination(
    entry: Seq<char>,
    entry_lower: Seq<char>,
    matched_lower: Seq<char>,
    destination: Seq<char>,
) -> Option<Seq<char>> {
    match place_of(entry, entry_lower, matched_lower, destination) {
        Some(rel) => if is_writable_place(rel) {
            Some(rel)
        } else {
            None
        },
        None => None,
    }
}

/// The destination of an entry, given its normalized path, that path and the
/// matched source in lowercase, and the destination of the mapping.
pub fn destination_in_archive(
    entry: &str,
    entry_lower: &str,
    matched_lower: &str,
    destination: &str,
) -> (r: Option<String>)
    ensures
        r.deep_view() == archive_destination(entry@, entry_lower@, matched_lower@, destination@),
{
    let prefix = concat2(matched_lower, "/");
    let rel = if matched_lower.is_empty() {
        Some(put_under(destination, entry))
    } else if same(entry_lower, matched_lower) {
        Some(owned(destination))
    } else if starts_with(entry_lower, prefix.as_str()) {
        match suffix_from_byte(entry, prefix.as_str().len()) {
            Some(suffix) => Some(put_under(destination, suffix.as_str())),
            None => None,
        }
    } else {
        None
    };
    match rel {
        Some(rel) => {
            let v = chars_of(rel.as_str());
            if v.len() > 0 && v[v.len() - 1] != '/' && is_safe_relative_path(rel.as_str()) {
                Some(rel)
            } else {
                None
            }
        },
        None => None,
    }
}

/// The plan for the selected entries of one mapping.
pub open spec fn placed_from_archive(
    norms: Seq<Seq<char>>,
    indices: Seq<usize>,
    matched: Seq<char>,
    destination: Seq<char>,
) -> Seq<PlannedFileView>
    decreases indices.len(),
{
    if indices.len() == 0 {
        Seq::empty()
    } else {
        let before = placed_from_archive(norms, indices.drop_last(), matched, destination);
        let i = indices.last();
        let entry = norms[i as int];
        match archive_destination(entry, lowercase(entry), lowercase(matched), destination) {
            Some(d) => before.push(PlannedFileView { index: i, destination: d }),
            None => before,
        }
    }
}

/// The plan for one mapping: its source is looked for at its candidates.
pub open spec fn mapping_plan(
    norms: Seq<Seq<char>>,
    prefix: Seq<char>,
    f: FomodFileView,
) -> Seq<PlannedFileView> {
    let lowers = norms.map_values(|e: Seq<char>| lowercase(e));
    match chosen(lowers, archive_candidates(normalized(f.source), prefix)) {
        Some(c) => placed_from_archive(
            norms,
            selection(lowers, c.key),
            c.matched,
            data_destination(f),
        ),
        None => Seq::empty(),
    }
}

/// The plans of several mappings, one after the other.
pub open spec fn mapping_plans(
    norms: Seq<Seq<char>>,
    prefix: Seq<char>,
    files: Seq<FomodFileView>,
) -> Seq<PlannedFileView>
    decreases files.len(),
{
    if files.len() == 0 {
        Seq::empty()
    } else {
        mapping_plans(norms, prefix, files.drop_last()) + mapping_plan(norms, prefix, files.last())
    }
}

/// What installing the mappings from an archive with the given entries copies
/// where.
pub open spec fn fomod_plan(entries: Seq<Seq<char>>, files: Seq<FomodFileView>) -> Seq<
    PlannedFileView,
> {
    mapping_plans(
        entries.map_values(|e: Seq<char>| normalized(e)),
        normalized(strip_prefix_of(entries)),
        by_priority(files),
    )
}

fn normalize_all(entries: &[String]) -> (r: Vec<String>)
    ensures
        r.deep_view() == entries.deep_view().map_values(|e: Seq<char>| normalized(e)),
        r@.len() == entries@.len(),
{
    let ghost all = entries.deep_view();
    let mut r: Vec<String> = Vec::new();
    for i in 0..entries.len()
        invariant
            all == entries.deep_view(),
            r@.len() == i,
            r.deep_view() == all.take(i as int).map_values(|e: Seq<char>| normalized(e)),
    {
        let ghost before = r.deep_view();
        assert(all[i as int] == entries@[i as int]@);
        let norm = normalize_path(entries[i].as_str());
        let ghost nv = norm@;
        r.push(norm);
        assert(r.deep_view() =~= before.push(nv));
        assert(r.deep_view() =~= all.take(i + 1).map_values(|e: Seq<char>| normalized(e)));
    }
    assert(all.take(all.len() as int) =~= all);
    r
}

fn lowercase_all(norms: &Vec<String>) -> (r: Vec<String>)
    ensures
        r.deep_view() == norms.deep_view().map_values(|e: Seq<char>| lowercase(e)),
        r@.len() == norms@.len(),
{
    let ghost all = norms.deep_view();
    let mut r: Vec<String> = Vec::new();
    for i in 0..norms.len()
        invariant
            all == norms.deep_view(),
            r@.len() == i,
            r.deep_view() == all.take(i as int).map_values(|e: Seq<char>| lowercase(e)),
    {
        let ghost before = r.deep_view();
        assert(all[i as int] == norms@[i as int]@);
        let lower = to_lowercase(norms[i].as_str());
        let ghost lv = lower@;
        r.push(lower);
        assert(r.deep_view() =~= before.push(lv));
        assert(r.deep_view() =~= all.take(i + 1).map_values(|e: Seq<char>| lowercase(e)));
    }
    assert(all.take(all.len() as int) =~= all);
    r
}

/// References to owned paths.
fn path_refs(paths: &[String]) -> (r: Vec<&str>)
    ensures
        r.deep_view() == paths.deep_view(),
{
    let ghost all = paths.deep_view();
    let mut r: Vec<&str> = Vec::new();
    for i in 0..paths.len()
        invariant
            all == paths.deep_view(),
            r.deep_view() == all.take(i as int),
    {
        let ghost before = r.deep_view();
        r.push(paths[i].as_str());
        assert(all[i as int] == paths@[i as int]@);
        assert(r.deep_view() =~= before.push(all[i as int]));
        assert(all.take(i + 1) =~= all.take(i as int).push(all[i as int]));
    }
    assert(all.take(all.len() as int) =~= all);
    r
}

/// The prefix to strip from owned paths.
pub fn data_root_of(paths: &[String]) -> (r: String)
    ensures
        r@ == strip_prefix_of(paths.deep_view()),
{
    let refs = path_refs(paths);
    let slice = refs.as_slice();
    assert(slice.deep_view() =~= paths.deep_view());
    find_data_root_in_paths(slice)
}

fn place_from_archive(
    norms: &Vec<String>,
    lowers: &Vec<String>,
    indices: &Vec<usize>,
    matched: &str,
    destination: &str,
) -> (r: Vec<PlannedFile>)
    requires
        lowers.deep_view() == norms.deep_view().map_values(|e: Seq<char>| lowercase(e)),
        lowers@.len() == norms@.len(),
        forall|i: int| 0 <= i < indices@.len() ==> #[trigger] indices@[i] < lowers@.len(),
    ensures
        r.deep_view() == placed_from_archive(
            norms.deep_view(),
            indices@,
            matched@,
            destination@,
        ),
{
    let matched_lower = to_lowercase(matched);
    let ghost ns = norms.deep_view();
    let mut r: Vec<PlannedFile> = Vec::new();
    assert(placed_from_archive(ns, indices@.take(0), matched@, destination@) =~= r.deep_view());
    for k in 0..indices.len()
        invariant
            ns == norms.deep_view(),
            matched_lower@ == lowercase(matched@),
            lowers.deep_view() == ns.map_values(|e: Seq<char>| lowercase(e)),
            lowers@.len() == norms@.len(),
            forall|i: int| 0 <= i < indices@.len() ==> #[trigger] indices@[i] < lowers@.len(),
            r.deep_view() == placed_from_archive(
                ns,
                indices@.take(k as int),
                matched@,
                destination@,
            ),
    {
        let ghost before = r.deep_view();
        let i = indices[k];
        assert(indices@.take(k + 1).drop_last() =~= indices@.take(k as int));
        assert(ns[i as int] == norms@[i as int]@);
        assert(lowers.deep_view()[i as int] == lowers@[i as int]@);
        match destination_in_archive(
            norms[i].as_str(),
            lowers[i].as_str(),
            matched_lower.as_str(),
            destination,
        ) {
            Some(d) => {
                let ghost dv = d@;
                r.push(PlannedFile { index: i, destination: d });
                assert(r.deep_view() =~= before.push(
                    PlannedFileView { index: i, destination: dv },
                ));
            },
            None => {},
        }
    }
    assert(indices@.take(indices@.len() as int) =~= indices@);
    r
}

/// Plans the installation of FOMOD mappings from an archive.
///
/// A later entry of the plan overwrites an earlier one for the same
/// destination, so that a higher priority wins.
pub fn install_fomod(entries: &[String], files: &Vec<FomodFile>) -> (r: Vec<PlannedFile>)
    ensures
        r.deep_view() == fomod_plan(entries.deep_view(), files.deep_view()),
{
    let prefix = normalize_path(data_root_of(entries).as_str());
    let norms = normalize_all(entries);
    let lowers = lowercase_all(&norms);
    let sorted = sort_by_priority(files);
    let ghost ns = norms.deep_view();
    let ghost ordered = sorted.deep_view();
    let mut r: Vec<PlannedFile> = Vec::new();
    assert(mapping_plans(ns, prefix@, ordered.take(0)) =~= r.deep_view());
    for k in 0..sorted.len()
        invariant
            ns == norms.deep_view(),
            ordered == sorted.deep_view(),
            lowers.deep_view() == ns.map_values(|e: Seq<char>| lowercase(e)),
            lowers@.len() == norms@.len(),
            r.deep_view() == mapping_plans(ns, prefix@, ordered.take(k as int)),
    {
        let file = &sorted[k];
        let ghost before = r.deep_view();
        assert(ordered.take(k + 1).drop_last() =~= ordered.take(k as int));
        assert(ordered.take(k + 1).last() == file.deep_view());
        let source = normalize_path(file.source.as_str());
        let destination = read_destination(file);
        let candidates = find_archive_candidates(source.as_str(), prefix.as_str());
        match choose_candidate(&lowers, &candidates) {
            Some((c, indices)) => {
                let mut placed = place_from_archive(
                    &norms,
                    &lowers,
                    &indices,
                    candidates[c].matched.as_str(),
                    destination.as_str(),
                );
                let ghost pv = placed.deep_view();
                r.append(&mut placed);
                assert(r.deep_view() =~= before + pv);
            },
            None => {
                assert(before + Seq::<PlannedFileView>::empty() =~= before);
            },
        }
    }
    assert(ordered.take(ordered.len() as int) =~= ordered);
    r
}

/// The planned file is written: its entry is no directory, and, in a zip
/// archive, does not lie in what packing tools leave behind.
pub open spec fn is_written(
    p: PlannedFileView,
    names: Seq<Seq<char>>,
    directories: Seq<bool>,
    zip: bool,
) -> bool {
    &&& p.index < names.len()
    &&& p.index < directories.len()
    &&& !directories[p.index as int]
    &&& zip ==> !junk_toplevel_entries().contains(
        first_piece(lowercase(normalized(names[p.index as int]))),
    )
}

/// The files of a plan that are written, given the names of the archive's
/// entries and which of them are directories.
pub fn files_to_extract(
    plan: Vec<PlannedFile>,
    names: &[String],
    directories: &Vec<bool>,
    zip: bool,
) -> (r: Vec<PlannedFile>)
    ensures
        r.deep_view() == plan.deep_view().filter(
            |p: PlannedFileView| is_written(p, names.deep_view(), directories@, zip),
        ),
{
    let ghost all = plan.deep_view();
    let ghost ns = names.deep_view();
    let ghost keep = |p: PlannedFileView| is_written(p, ns, directories@, zip);
    let junk: Vec<&'static str> = vec!["__macosx"];
    assert(junk.deep_view() =~= junk_toplevel_entries());
    let mut r: Vec<PlannedFile> = Vec::new();
    assert(r.deep_view() =~= all.take(0).filter(keep)) by {
        reveal(Seq::filter);
    }
    for i in 0..plan.len()
        invariant
            all == plan.deep_view(),
            ns == names.deep_view(),
            junk.deep_view() == junk_toplevel_entries(),
            keep == (|p: PlannedFileView| is_written(p, ns, directories@, zip)),
            r.deep_view() == all.take(i as int).filter(keep),
    {
        let ghost before = r.deep_view();
        assert(all[i as int] == plan@[i as int].deep_view());
        assert(all.take(i + 1).drop_last() =~= all.take(i as int));
        let k = plan[i].index;
        if k < names.len() && k < directories.len() && !directories[k] {
            assert(ns[k as int] == names@[k as int]@);
            let lower = to_lowercase(normalize_path(names[k].as_str()).as_str());
            let top = first_component(lower.as_str());
            if !(zip && is_among(&junk, top.as_str())) {
                r.push(PlannedFile { index: k, destination: owned(plan[i].destination.as_str()) });
                assert(r.deep_view() =~= before.push(all[i as int]));
            }
        }
        assert(r.deep_view() == all.take(i + 1).filter(keep)) by {
            reveal(Seq::filter);
        }
    }
    assert(all.take(all.len() as int) =~= all);
    r
}

// ── From a tree of files ────────────────────────────────────────────────────

/// A source and its key as a candidate, at the root of the tree and below the
/// wrapper directory.
pub open spec fn around_in_tree(
    key: Seq<char>,
    matched: Seq<char>,
    wrapped: Seq<char>,
    prefix_lower: Seq<char>,
) -> Seq<CandidateView> {
    if prefix_lower.len() == 0 {
        seq![CandidateView { key: Some(key), matched }]
    } else {
        seq![
            CandidateView { key: Some(key), matched },
            CandidateView { key: Some(prefix_lower + key), matched: wrapped },
        ]
    }
}

/// Where the source of a mapping is looked for in a tree of files.  The
/// wrapper directory is given with a slash at its end, as it is spelled and in
/// lowercase; both are empty if there is none.
pub open spec fn tree_candidates(
    source: Seq<char>,
    prefix: Seq<char>,
    prefix_lower: Seq<char>,
) -> Seq<CandidateView> {
    let lower = lowercase(source);
    let stripped = data_prefix_stripped(source, lower);
    let stripped_lower = lowercase(stripped);
    around_in_tree(lower, source, prefix + source, prefix_lower) + (if stripped.len() > 0
        && stripped_lower != lower {
        around_in_tree(stripped_lower, stripped, prefix + stripped, prefix_lower)
    } else if is_data_folder(lower) {
        seq![CandidateView { key: None, matched: Seq::empty() }]
    } else {
        Seq::empty()
    }) + (if lower.len() > 0 {
        around_in_tree(
            "data/"@ + lower,
            "data/"@ + lower,
            prefix + "data/"@ + source,
            prefix_lower,
        )
    } else {
        Seq::empty()
    })
}

fn push_around_in_tree(
    list: &mut Vec<Candidate>,
    key: &str,
    matched: &str,
    wrapped: String,
    prefix_lower: &str,
)
    ensures
        final(list).deep_view() == old(list).deep_view() + around_in_tree(
            key@,
            matched@,
            wrapped@,
            prefix_lower@,
        ),
{
    let ghost before = list.deep_view();
    let ghost wv = wrapped@;
    list.push(Candidate { key: Some(owned(key)), matched: owned(matched) });
    assert(list.deep_view() =~= before.push(
        CandidateView { key: Some(key@), matched: matched@ },
    ));
    if !prefix_lower.is_empty() {
        let ghost mid = list.deep_view();
        list.push(Candidate { key: Some(concat2(prefix_lower, key)), matched: wrapped });
        assert(list.deep_view() =~= mid.push(
            CandidateView { key: Some(prefix_lower@ + key@), matched: wv },
        ));
    }
    assert(list.deep_view() =~= before + around_in_tree(key@, matched@, wv, prefix_lower@));
}

fn find_tree_candidates(source: &str, prefix: &str, prefix_lower: &str) -> (r: Vec<Candidate>)
    ensures
        r.deep_view() == tree_candidates(source@, prefix@, prefix_lower@),
{
    let lower = to_lowercase(source);
    let stripped = strip_data_prefix_given(source, lower.as_str());
    let stripped_lower = to_lowercase(stripped.as_str());
    let mut r: Vec<Candidate> = Vec::new();
    push_around_in_tree(&mut r, lower.as_str(), source, concat2(prefix, source), prefix_lower);
    let ghost first = around_in_tree(lower@, source@, prefix@ + source@, prefix_lower@);
    assert(r.deep_view() =~= first);
    if !stripped.as_str().is_empty() && !same(stripped_lower.as_str(), lower.as_str()) {
        push_around_in_tree(
            &mut r,
            stripped_lower.as_str(),
            stripped.as_str(),
            concat2(prefix, stripped.as_str()),
            prefix_lower,
        );
    } else if same(lower.as_str(), "data") || same(lower.as_str(), "data/") {
        r.push(Candidate { key: None, matched: String::new() });
        assert(r.deep_view() =~= first.push(CandidateView { key: None, matched: Seq::empty() }));
        assert(r.deep_view() =~= first + seq![CandidateView { key: None, matched: Seq::empty() }]);
    } else {
        assert(r.deep_view() =~= first + Seq::<CandidateView>::empty());
    }
    if !lower.as_str().is_empty() {
        let key = concat2("data/", lower.as_str());
        push_around_in_tree(
            &mut r,
            key.as_str(),
            key.as_str(),
            concat3(prefix, "data/", source),
            prefix_lower,
        );
    }
    assert(r.deep_view() =~= tree_candidates(source@, prefix@, prefix_lower@));
    r
}

/// The path of an entry relative to the source that selected it: its file name
/// if it is the source itself.
pub open spec fn relative_to(
    entry: Seq<char>,
    entry_lower: Seq<char>,
    matched: Seq<char>,
    matched_lower: Seq<char>,
) -> Seq<char> {
    if entry_lower == matched_lower {
        match file_name_of(entry) {
            Some(n) => n,
            None => Seq::empty(),
        }
    } else {
        match from_byte(entry, byte_len(matched) as int) {
            Some(rest) => trimmed_start(rest, '/'),
            None => Seq::empty(),
        }
    }
}

/// The destination of a file of the tree, if it is installed.
pub open spec fn tree_destination(
    entry: Seq<char>,
    entry_lower: Seq<char>,
    matched: Seq<char>,
    matched_lower: Seq<char>,
    destination: Seq<char>,
) -> Option<Seq<char>> {
    let rel = relative_to(entry, entry_lower, matched, matched_lower);
    if rel.len() > 0 && stays_below(parts_of(with_slashes(under(destination, rel)))) {
        Some(under(destination, rel))
    } else {
        None
    }
}

/// The destination of a file of a tree, given its path, the source that
/// selected it, both also in lowercase, and the destination of the mapping.
pub fn destination_in_tree(
    entry: &str,
    entry_lower: &str,
    matched: &str,
    matched_lower: &str,
    destination: &str,
) -> (r: Option<String>)
    ensures
        r.deep_view() == tree_destination(
            entry@,
            entry_lower@,
            matched@,
            matched_lower@,
            destination@,
        ),
{
    let rel = if same(entry_lower, matched_lower) {
        match file_name(entry) {
            Some(n) => n,
            None => String::new(),
        }
    } else {
        match suffix_from_byte(entry, matched.len()) {
            Some(rest) => trim_start_matches(rest.as_str(), '/'),
            None => String::new(),
        }
    };
    assert(rel@ =~= relative_to(entry@, entry_lower@, matched@, matched_lower@));
    if rel.as_str().is_empty() {
        return None;
    }
    let combined = put_under(destination, rel.as_str());
    if is_safe_relative_path(combined.as_str()) {
        Some(combined)
    } else {
        None
    }
}

/// The plan for the selected entries of one mapping; directories are skipped.
pub open spec fn placed_from_tree(
    names: Seq<Seq<char>>,
    directories: Seq<bool>,
    indices: Seq<usize>,
    matched: Seq<char>,
    destination: Seq<char>,
) -> Seq<PlannedFileView>
    decreases indices.len(),
{
    if indices.len() == 0 {
        Seq::empty()
    } else {
        let before = placed_from_tree(
            names,
            directories,
            indices.drop_last(),
            matched,
            destination,
        );
        let i = indices.last();
        let entry = names[i as int];
        if directories[i as int] {
            before
        } else {
            match tree_destination(
                entry,
                lowercase(entry),
                matched,
                lowercase(matched),
                destination,
            ) {
                Some(d) => before.push(PlannedFileView { index: i, destination: d }),
                None => before,
            }
        }
    }
}

/// The plan for one mapping.
pub open spec fn tree_mapping_plan(
    names: Seq<Seq<char>>,
    directories: Seq<bool>,
    prefix: Seq<char>,
    prefix_lower: Seq<char>,
    f: FomodFileView,
) -> Seq<PlannedFileView> {
    let lowers = names.map_values(|e: Seq<char>| lowercase(e));
    match chosen(lowers, tree_candidates(normalized(f.source), prefix, prefix_lower)) {
        Some(c) => placed_from_tree(
            names,
            directories,
            selection(lowers, c.key),
            c.matched,
            data_destination(f),
        ),
        None => Seq::empty(),
    }
}

/// The plans of several mappings, one after the other.
pub open spec fn tree_mapping_plans(
    names: Seq<Seq<char>>,
    directories: Seq<bool>,
    prefix: Seq<char>,
    prefix_lower: Seq<char>,
    files: Seq<FomodFileView>,
) -> Seq<PlannedFileView>
    decreases files.len(),
{
    if files.len() == 0 {
        Seq::empty()
    } else {
        tree_mapping_plans(names, directories, prefix, prefix_lower, files.drop_last())
            + tree_mapping_plan(names, directories, prefix, prefix_lower, files.last())
    }
}

fn place_from_tree(
    names: &Vec<String>,
    directories: &Vec<bool>,
    lowers: &Vec<String>,
    indices: &Vec<usize>,
    matched: &str,
    destination: &str,
) -> (r: Vec<PlannedFile>)
    requires
        lowers.deep_view() == names.deep_view().map_values(|e: Seq<char>| lowercase(e)),
        lowers@.len() == names@.len(),
        directories@.len() == names@.len(),
        forall|i: int| 0 <= i < indices@.len() ==> #[trigger] indices@[i] < lowers@.len(),
    ensures
        r.deep_view() == placed_from_tree(
            names.deep_view(),
            directories@,
            indices@,
            matched@,
            destination@,
        ),
{
    let matched_lower = to_lowercase(matched);
    let ghost ns = names.deep_view();
    let mut r: Vec<PlannedFile> = Vec::new();
    assert(placed_from_tree(ns, directories@, indices@.take(0), matched@, destination@)
        =~= r.deep_view());
    for k in 0..indices.len()
        invariant
            ns == names.deep_view(),
            matched_lower@ == lowercase(matched@),
            lowers.deep_view() == ns.map_values(|e: Seq<char>| lowercase(e)),
            lowers@.len() == names@.len(),
            directories@.len() == names@.len(),
            forall|i: int| 0 <= i < indices@.len() ==> #[trigger] indices@[i] < lowers@.len(),
            r.deep_view() == placed_from_tree(
                ns,
                directories@,
                indices@.take(k as int),
                matched@,
                destination@,
            ),
    {
        let ghost before = r.deep_view();
        let i = indices[k];
        assert(indices@.take(k + 1).drop_last() =~= indices@.take(k as int));
        assert(ns[i as int] == names@[i as int]@);
        assert(lowers.deep_view()[i as int] == lowers@[i as int]@);
        if !directories[i] {
            match destination_in_tree(
                names[i].as_str(),
                lowers[i].as_str(),
                matched,
                matched_lower.as_str(),
                destination,
            ) {
                Some(d) => {
                    let ghost dv = d@;
                    r.push(PlannedFile { index: i, destination: d });
                    assert(r.deep_view() =~= before.push(
                        PlannedFileView { index: i, destination: dv },
                    ));
                },
                None => {},
            }
        }
    }
    assert(indices@.take(indices@.len() as int) =~= indices@);
    r
}

/// Plans the installation of FOMOD mappings from a tree of files: the names of
/// its entries, which of them are directories, and its wrapper directory.
pub fn plan_from_tree(
    names: &Vec<String>,
    directories: &Vec<bool>,
    prefix: &str,
    prefix_lower: &str,
    files: &Vec<FomodFile>,
) -> (r: Vec<PlannedFile>)
    requires
        directories@.len() == names@.len(),
    ensures
        r.deep_view() == tree_mapping_plans(
            names.deep_view(),
            directories@,
            prefix@,
            prefix_lower@,
            by_priority(files.deep_view()),
        ),
{
    let lowers = lowercase_all(names);
    let sorted = sort_by_priority(files);
    let ghost ns = names.deep_view();
    let ghost ordered = sorted.deep_view();
    let mut r: Vec<PlannedFile> = Vec::new();
    assert(tree_mapping_plans(ns, directories@, prefix@, prefix_lower@, ordered.take(0))
        =~= r.deep_view());
    for k in 0..sorted.len()
        invariant
            ns == names.deep_view(),
            directories@.len() == names@.len(),
            ordered == sorted.deep_view(),
            lowers.deep_view() == ns.map_values(|e: Seq<char>| lowercase(e)),
            lowers@.len() == names@.len(),
            r.deep_view() == tree_mapping_plans(
                ns,
                directories@,
                prefix@,
                prefix_lower@,
                ordered.take(k as int),
            ),
    {
        let file = &sorted[k];
        let ghost before = r.deep_view();
        assert(ordered.take(k + 1).drop_last() =~= ordered.take(k as int));
        assert(ordered.take(k + 1).last() == file.deep_view());
        let source = normalize_path(file.source.as_str());
        let destination = read_destination(file);
        let candidates = find_tree_candidates(source.as_str(), prefix, prefix_lower);
        match choose_candidate(&lowers, &candidates) {
            Some((c, indices)) => {
                let mut placed = place_from_tree(
                    names,
                    directories,
                    &lowers,
                    &indices,
                    candidates[c].matched.as_str(),
                    destination.as_str(),
                );
                let ghost pv = placed.deep_view();
                r.append(&mut placed);
                assert(r.deep_view() =~= before + pv);
            },
            None => {
                assert(before + Seq::<PlannedFileView>::empty() =~= before);
            },
        }
    }
    assert(ordered.take(ordered.len() as int) =~= ordered);
    r
}

/// A prefix with forward slashes and a slash at its end, or nothing.
pub open spec fn as_tree_prefix(root: Seq<char>) -> Seq<char> {
    let r = with_slashes(root);
    if r.len() == 0 || has_suffix(r, "/"@) {
        r
    } else {
        r + "/"@
    }
}

/// The lowercase of a prefix, where nothing stays nothing.
pub open spec fn lower_prefix(prefix: Seq<char>) -> Seq<char> {
    if prefix.len() == 0 {
        prefix
    } else {
        lowercase(prefix)
    }
}

/// What installing the mappings from an extracted tree copies where.
pub open spec fn extracted_plan(
    paths: Seq<Seq<char>>,
    directories: Seq<bool>,
    files: Seq<FomodFileView>,
) -> Seq<PlannedFileView> {
    let names = paths.map_values(|e: Seq<char>| normalized(e));
    let prefix = as_tree_prefix(strip_prefix_of(names));
    tree_mapping_plans(names, directories, prefix, lower_prefix(prefix), by_priority(files))
}

/// Plans the installation of FOMOD mappings from an already extracted tree:
/// the paths of its entries relative to its root, and which of them are
/// directories.
pub fn install_fomod_files_from_dir(
    paths: &[String],
    directories: &Vec<bool>,
    files: &Vec<FomodFile>,
) -> (r: Vec<PlannedFile>)
    requires
        directories@.len() == paths@.len(),
    ensures
        r.deep_view() == extracted_plan(paths.deep_view(), directories@, files.deep_view()),
{
    let names = normalize_all(paths);
    let slice = names.as_slice();
    assert(slice.deep_view() =~= names.deep_view());
    let root = replace_char(data_root_of(slice).as_str(), '\\', '/');
    let prefix = if root.as_str().is_empty() || ends_with(root.as_str(), "/") {
        root
    } else {
        concat2(root.as_str(), "/")
    };
    let prefix_lower = if prefix.as_str().is_empty() {
        String::new()
    } else {
        to_lowercase(prefix.as_str())
    };
    assert(prefix_lower@ =~= lower_prefix(prefix@));
    plan_from_tree(&names, directories, prefix.as_str(), prefix_lower.as_str(), files)
}

// ── Laws ────────────────────────────────────────────────────────────────────

/// Every planned destination stays below the directory that is installed into.
pub open spec fn all_stay_below(plan: Seq<PlannedFileView>) -> bool {
    forall|i: int|
        0 <= i < plan.len() ==> stays_below(
            parts_of(with_slashes((#[trigger] plan[i]).destination)),
        )
}

proof fn lemma_placed_stay_below(
    norms: Seq<Seq<char>>,
    indices: Seq<usize>,
    matched: Seq<char>,
    destination: Seq<char>,
)
    ensures
        all_stay_below(placed_from_archive(norms, indices, matched, destination)),
    decreases indices.len(),
{
    if indices.len() > 0 {
        lemma_placed_stay_below(norms, indices.drop_last(), matched, destination);
    }
}

proof fn lemma_mappings_stay_below(
    norms: Seq<Seq<char>>,
    prefix: Seq<char>,
    files: Seq<FomodFileView>,
)
    ensures
        all_stay_below(mapping_plans(norms, prefix, files)),
    decreases files.len(),
{
    if files.len() > 0 {
        lemma_mappings_stay_below(norms, prefix, files.drop_last());
        let f = files.last();
        let lowers = norms.map_values(|e: Seq<char>| lowercase(e));
        if let Some(c) = chosen(lowers, archive_candidates(normalized(f.source), prefix)) {
            lemma_placed_stay_below(
                norms,
                selection(lowers, c.key),
                c.matched,
                data_destination(f),
            );
        }
    }
}

/// No entry of an archive is installed outside the directory that is installed
/// into, whatever the archive or the FOMOD configuration says.
pub proof fn fomod_plan_stays_below(entries: Seq<Seq<char>>, files: Seq<FomodFileView>)
    ensures
        all_stay_below(fomod_plan(entries, files)),
{
    lemma_mappings_stay_below(
        entries.map_values(|e: Seq<char>| normalized(e)),
        normalized(strip_prefix_of(entries)),
        by_priority(files),
    );
}

proof fn lemma_tree_placed_stay_below(
    names: Seq<Seq<char>>,
    directories: Seq<bool>,
    indices: Seq<usize>,
    matched: Seq<char>,
    destination: Seq<char>,
)
    ensures
        all_stay_below(placed_from_tree(names, directories, indices, matched, destination)),
    decreases indices.len(),
{
    if indices.len() > 0 {
        lemma_tree_placed_stay_below(
            names,
            directories,
            indices.drop_last(),
            matched,
            destination,
        );
    }
}

/// No file of a tree is installed outside the directory that is installed
/// into.
pub proof fn tree_plan_stays_below(
    names: Seq<Seq<char>>,
    directories: Seq<bool>,
    prefix: Seq<char>,
    prefix_lower: Seq<char>,
    files: Seq<FomodFileView>,
)
    ensures
        all_stay_below(tree_mapping_plans(names, directories, prefix, prefix_lower, files)),
    decreases files.len(),
{
    if files.len() > 0 {
        tree_plan_stays_below(names, directories, prefix, prefix_lower, files.drop_last());
        let f = files.last();
        let lowers = names.map_values(|e: Seq<char>| lowercase(e));
        if let Some(c) = chosen(
            lowers,
            tree_candidates(normalized(f.source), prefix, prefix_lower),
        ) {
            lemma_tree_placed_stay_below(
                names,
                directories,
                selection(lowers, c.key),
                c.matched,
                data_destination(f),
            );
        }
    }
}

/// Which of `n` mappings, carried out one after the other, makes the write `w`
/// of a plan, where the first `k` of them make `total(k)` writes.
pub open spec fn made_by(total: spec_fn(int) -> int, n: int, w: int) -> int
    decreases n,
{
    if n <= 0 || w >= total(n - 1) {
        n - 1
    } else {
        made_by(total, n - 1, w)
    }
}

proof fn lemma_made_by(total: spec_fn(int) -> int, n: int, w: int)
    requires
        total(0) == 0,
        0 <= w < total(n),
        n >= 0,
    ensures
        0 <= made_by(total, n, w) < n,
        total(made_by(total, n, w)) <= w < total(made_by(total, n, w) + 1),
    decreases n,
{
    if w < total(n - 1) && n > 0 {
        lemma_made_by(total, n - 1, w);
    }
}

proof fn lemma_made_in_order(total: spec_fn(int) -> int, n: int, v: int, w: int)
    requires
        total(0) == 0,
        0 <= v <= w < total(n),
        n >= 0,
    ensures
        made_by(total, n, v) <= made_by(total, n, w),
    decreases n,
{
    lemma_made_by(total, n, v);
    if n > 0 && w < total(n - 1) {
        lemma_made_in_order(total, n - 1, v, w);
    }
}

/// The position in `files` of the mapping that makes the write `w`, where the
/// first `k` mappings by priority make `total(k)` writes.
pub open spec fn made_at(files: Seq<FomodFileView>, total: spec_fn(int) -> int, w: int) -> int {
    sorted_positions(files, priority_order())[made_by(total, files.len() as int, w)]
}

/// `b` is carried out after `a`, or is the same mapping.
pub open spec fn overrides(files: Seq<FomodFileView>, a: int, b: int) -> bool {
    files[a].priority < files[b].priority || (files[a].priority == files[b].priority && a <= b)
}

proof fn lemma_made_by_priority(
    files: Seq<FomodFileView>,
    total: spec_fn(int) -> int,
    v: int,
    w: int,
)
    requires
        total(0) == 0,
        0 <= v <= w < total(files.len() as int),
    ensures
        0 <= made_at(files, total, v) < files.len(),
        0 <= made_at(files, total, w) < files.len(),
        overrides(files, made_at(files, total, v), made_at(files, total, w)),
        by_priority(files).len() == files.len(),
        by_priority(files)[made_by(total, files.len() as int, v)] == files[made_at(files, total, v)],
        by_priority(files)[made_by(total, files.len() as int, w)] == files[made_at(files, total, w)],
{
    let n = files.len() as int;
    let leq = priority_order();
    assert(total_preorder(leq));
    lemma_sorted_positions(files, leq);
    lemma_made_by(total, n, v);
    lemma_made_by(total, n, w);
    lemma_made_in_order(total, n, v, w);
    assert(by_priority(files) == stably_sorted(files, leq));
    let a = sorted_positions(files, leq)[made_by(total, n, v)];
    let b = sorted_positions(files, leq)[made_by(total, n, w)];
    assert(0 <= a < files.len() && 0 <= b < files.len());
    if made_by(total, n, v) < made_by(total, n, w) {
        assert(leq(files[a], files[b]) && (leq(files[b], files[a]) ==> a < b));
    }
}

/// How many writes the first `k` mappings by priority make.
pub open spec fn archive_writes(entries: Seq<Seq<char>>, files: Seq<FomodFileView>) -> spec_fn(
    int,
) -> int {
    |k: int|
        mapping_plans(
            entries.map_values(|e: Seq<char>| normalized(e)),
            normalized(strip_prefix_of(entries)),
            by_priority(files).take(k),
        ).len() as int
}

proof fn lemma_mapping_write(
    norms: Seq<Seq<char>>,
    prefix: Seq<char>,
    files: Seq<FomodFileView>,
    n: int,
    m: int,
    w: int,
)
    requires
        0 <= m < n <= files.len(),
        mapping_plans(norms, prefix, files.take(m)).len() <= w < mapping_plans(
            norms,
            prefix,
            files.take(m + 1),
        ).len(),
    ensures
        w < mapping_plans(norms, prefix, files.take(n)).len(),
        mapping_plan(norms, prefix, files[m]).contains(
            mapping_plans(norms, prefix, files.take(n))[w],
        ),
    decreases n,
{
    assert(files.take(n).drop_last() =~= files.take(n - 1));
    if m == n - 1 {
        let k = w - mapping_plans(norms, prefix, files.take(m)).len();
        assert(mapping_plans(norms, prefix, files.take(n))[w] == mapping_plan(
            norms,
            prefix,
            files[m],
        )[k]);
    } else {
        lemma_mapping_write(norms, prefix, files, n - 1, m, w);
    }
}

/// Of two writes that installing from an archive plans, the later one, which
/// for one destination is the one that stays, is made by a mapping with no
/// lower priority; where the priorities are the same, by one that comes no
/// earlier in the list.
pub proof fn archive_writes_follow_priority(
    entries: Seq<Seq<char>>,
    files: Seq<FomodFileView>,
    v: int,
    w: int,
)
    requires
        0 <= v < w < fomod_plan(entries, files).len(),
    ensures
        ({
            let norms = entries.map_values(|e: Seq<char>| normalized(e));
            let prefix = normalized(strip_prefix_of(entries));
            let plan = fomod_plan(entries, files);
            let a = made_at(files, archive_writes(entries, files), v);
            let b = made_at(files, archive_writes(entries, files), w);
            &&& 0 <= a < files.len() && 0 <= b < files.len()
            &&& mapping_plan(norms, prefix, files[a]).contains(plan[v])
            &&& mapping_plan(norms, prefix, files[b]).contains(plan[w])
            &&& overrides(files, a, b)
        }),
{
    let norms = entries.map_values(|e: Seq<char>| normalized(e));
    let prefix = normalized(strip_prefix_of(entries));
    let total = archive_writes(entries, files);
    let sorted = by_priority(files);
    let n = files.len() as int;
    lemma_sorted_keeps(files, priority_order());
    assert(sorted == stably_sorted(files, priority_order()));
    assert(sorted.take(n) =~= sorted);
    assert(sorted.take(0).len() == 0);
    assert(total(0) == 0 && total(n) == fomod_plan(entries, files).len());
    lemma_made_by_priority(files, total, v, w);
    lemma_made_by(total, n, v);
    lemma_made_by(total, n, w);
    lemma_mapping_write(norms, prefix, sorted, n, made_by(total, n, v), v);
    lemma_mapping_write(norms, prefix, sorted, n, made_by(total, n, w), w);
}

/// How many writes the first `k` mappings by priority make.
pub open spec fn tree_writes(
    names: Seq<Seq<char>>,
    directories: Seq<bool>,
    prefix: Seq<char>,
    prefix_lower: Seq<char>,
    files: Seq<FomodFileView>,
) -> spec_fn(int) -> int {
    |k: int|
        tree_mapping_plans(
            names,
            directories,
            prefix,
            prefix_lower,
            by_priority(files).take(k),
        ).len() as int
}

proof fn lemma_tree_mapping_write(
    names: Seq<Seq<char>>,
    directories: Seq<bool>,
    prefix: Seq<char>,
    prefix_lower: Seq<char>,
    files: Seq<FomodFileView>,
    n: int,
    m: int,
    w: int,
)
    requires
        0 <= m < n <= files.len(),
        tree_mapping_plans(names, directories, prefix, prefix_lower, files.take(m)).len() <= w
            < tree_mapping_plans(names, directories, prefix, prefix_lower, files.take(m + 1)).len(),
    ensures
        w < tree_mapping_plans(names, directories, prefix, prefix_lower, files.take(n)).len(),
        tree_mapping_plan(names, directories, prefix, prefix_lower, files[m]).contains(
            tree_mapping_plans(names, directories, prefix, prefix_lower, files.take(n))[w],
        ),
    decreases n,
{
    assert(files.take(n).drop_last() =~= files.take(n - 1));
    if m == n - 1 {
        let k = w - tree_mapping_plans(
            names,
            directories,
            prefix,
            prefix_lower,
            files.take(m),
        ).len();
        assert(tree_mapping_plans(names, directories, prefix, prefix_lower, files.take(n))[w]
            == tree_mapping_plan(names, directories, prefix, prefix_lower, files[m])[k]);
    } else {
        lemma_tree_mapping_write(
            names,
            directories,
            prefix,
            prefix_lower,
            files,
            n - 1,
            m,
            w,
        );
    }
}

/// Of two writes that installing from a tree plans, the later one, which for
/// one destination is the one that stays, is made by a mapping with no lower
/// priority; where the priorities are the same, by one that comes no earlier in
/// the list.
pub proof fn tree_writes_follow_priority(
    names: Seq<Seq<char>>,
    directories: Seq<bool>,
    prefix: Seq<char>,
    prefix_lower: Seq<char>,
    files: Seq<FomodFileView>,
    v: int,
    w: int,
)
    requires
        0 <= v < w < tree_mapping_plans(
            names,
            directories,
            prefix,
            prefix_lower,
            by_priority(files),
        ).len(),
    ensures
        ({
            let plan = tree_mapping_plans(
                names,
                directories,
                prefix,
                prefix_lower,
                by_priority(files),
            );
            let total = tree_writes(names, directories, prefix, prefix_lower, files);
            let a = made_at(files, total, v);
            let b = made_at(files, total, w);
            &&& 0 <= a < files.len() && 0 <= b < files.len()
            &&& tree_mapping_plan(names, directories, prefix, prefix_lower, files[a]).contains(
                plan[v],
            )
            &&& tree_mapping_plan(names, directories, prefix, prefix_lower, files[b]).contains(
                plan[w],
            )
            &&& overrides(files, a, b)
        }),
{
    let total = tree_writes(names, directories, prefix, prefix_lower, files);
    let sorted = by_priority(files);
    let n = files.len() as int;
    lemma_sorted_keeps(files, priority_order());
    assert(sorted == stably_sorted(files, priority_order()));
    assert(sorted.take(n) =~= sorted);
    assert(sorted.take(0).len() == 0);
    assert(total(0) == 0 && total(n) == tree_mapping_plans(
        names,
        directories,
        prefix,
        prefix_lower,
        sorted,
    ).len());
    lemma_made_by_priority(files, total, v, w);
    lemma_made_by(total, n, v);
    lemma_made_by(total, n, w);
    lemma_tree_mapping_write(
        names,
        directories,
        prefix,
        prefix_lower,
        sorted,
        n,
        made_by(total, n, v),
        v,
    );
    lemma_tree_mapping_write(
        names,
        directories,
        prefix,
        prefix_lower,
        sorted,
        n,
        made_by(total, n, w),
        w,
    );
}

} // verus!
