//! Layouts found by scoring every directory of an archive.
//!
//! Where [`crate::installer::heuristics`] follows the FOMOD configuration and
//! the outermost data root, the functions here score every directory near the
//! top and take the best; names are compared as they are spelled.
use vstd::prelude::*;

use crate::installer::heuristics::{
    data_folder_behind, data_root_score, has_data_folder_behind, is_config_path,
    is_fomod_config_path, lower_slashes, plan_for_roots, plan_with_roots, score_as_data_root,
    to_lower_slashes, top_name, top_of,
};
use crate::installer::install::{
    by_priority, plan_from_tree, tree_mapping_plans, PlannedFile, PlannedFileView,
};
use crate::installer::paths::{normalize_path, normalized, with_slashes};
use crate::installer::types::{
    DataArchivePlan, FomodFile, FomodFileView, FomodGroupType, FomodInstallStep,
    FomodPluginGroup, FomodPluginType, InstallStrategy, InstallStrategyView,
};
use crate::nxm::{interspersed, interspersed_pieces_are_found};
use crate::paths::{is_name, is_written};
use crate::text::{
    add_distinct, byte_len, concat2, concat3, distinct, first_component, first_piece, less,
    lowercase, not_after, owned, pieces, replace_char, same, sort_stably, split, stably_sorted,
    to_lowercase, trim_start_matches, trimmed_start,
};

verus! {

/// How many plugins of a group are selected.
pub type GroupType = FomodGroupType;

/// The selection state that a plugin starts in.
pub type PluginType = FomodPluginType;

/// A group of plugins to choose from.
pub type PluginGroup = FomodPluginGroup;

/// One page of choices.
pub type InstallStep = FomodInstallStep;

// ── Common directories ──────────────────────────────────────────────────────

/// The index of the first name that is not empty, or their number.
pub open spec fn first_named(tops: Seq<Seq<char>>) -> int
    decreases tops.len(),
{
    if tops.len() == 0 || tops[0].len() > 0 {
        0
    } else {
        1 + first_named(tops.skip(1))
    }
}

/// Every name that is not empty is `first`.
pub open spec fn all_same(tops: Seq<Seq<char>>, first: Seq<char>) -> bool {
    forall|i: int| 0 <= i < tops.len() && (#[trigger] tops[i]).len() > 0 ==> tops[i] == first
}

/// The index of the top-level name that all entries share; there is none if
/// there is only one entry.
pub open spec fn common_top(tops: Seq<Seq<char>>) -> Option<int> {
    let i = first_named(tops);
    if tops.len() > 1 && i < tops.len() && all_same(tops, tops[i]) {
        Some(i)
    } else {
        None
    }
}

proof fn lemma_first_named(tops: Seq<Seq<char>>, n: int)
    requires
        0 <= n <= tops.len(),
        forall|j: int| 0 <= j < n ==> (#[trigger] tops[j]).len() == 0,
        n < tops.len() ==> tops[n].len() > 0,
    ensures
        first_named(tops) == n,
    decreases tops.len(),
{
    if n > 0 {
        assert forall|j: int| 0 <= j < n - 1 implies (#[trigger] tops.skip(1)[j]).len() == 0 by {
            assert(tops.skip(1)[j] == tops[j + 1]);
        }
        lemma_first_named(tops.skip(1), n - 1);
        assert(tops[0].len() == 0);
    }
}

fn find_common_top(tops: &Vec<String>) -> (r: Option<usize>)
    ensures
        match r {
            Some(i) => common_top(tops.deep_view()) == Some(i as int) && i < tops@.len(),
            None => common_top(tops.deep_view()) is None,
        },
{
    let ghost all = tops.deep_view();
    let mut i: usize = 0;
    while i < tops.len() && tops[i].as_str().is_empty()
        invariant
            all == tops.deep_view(),
            i <= tops@.len(),
            forall|j: int| 0 <= j < i ==> (#[trigger] all[j]).len() == 0,
        decreases tops@.len() - i,
    {
        assert(all[i as int] == tops@[i as int]@);
        i += 1;
    }
    proof {
        if i < tops@.len() {
            assert(all[i as int] == tops@[i as int]@);
        }
        lemma_first_named(all, i as int);
    }
    if tops.len() <= 1 || i == tops.len() {
        return None;
    }
    for k in 0..tops.len()
        invariant
            all == tops.deep_view(),
            i < tops@.len(),
            first_named(all) == i,
            forall|j: int| 0 <= j < k && (#[trigger] all[j]).len() > 0 ==> all[j] == all[i as int],
    {
        assert(all[k as int] == tops@[k as int]@);
        assert(all[i as int] == tops@[i as int]@);
        if !tops[k].as_str().is_empty() && !same(tops[k].as_str(), tops[i].as_str()) {
            assert(all[k as int].len() > 0 && all[k as int] != all[i as int]);
            return None;
        }
    }
    Some(i)
}

/// The shared top-level name with a slash at its end, or nothing.
pub open spec fn shared_prefix(tops: Seq<Seq<char>>) -> Seq<char> {
    match common_top(tops) {
        Some(i) => tops[i] + "/"@,
        None => Seq::empty(),
    }
}

fn to_shared_prefix(tops: &Vec<String>) -> (r: String)
    ensures
        r@ == shared_prefix(tops.deep_view()),
{
    match find_common_top(tops) {
        Some(i) => {
            assert(tops.deep_view()[i as int] == tops@[i as int]@);
            concat2(tops[i].as_str(), "/")
        },
        None => String::new(),
    }
}

/// The top-level directory that all paths share, with a slash at its end, or
/// nothing.
pub fn find_common_prefix_from_paths(paths: &[&str]) -> (r: String)
    ensures
        r@ == shared_prefix(paths.deep_view().map_values(|p: Seq<char>| top_name(p))),
{
    let ghost all = paths.deep_view();
    let mut tops: Vec<String> = Vec::new();
    for i in 0..paths.len()
        invariant
            all == paths.deep_view(),
            tops@.len() == i,
            forall|j: int| 0 <= j < i ==> #[trigger] tops@[j]@ == top_name(all[j]),
    {
        assert(all[i as int] == paths@[i as int]@);
        tops.push(top_of(paths[i]));
    }
    assert(tops.deep_view() =~= all.map_values(|p: Seq<char>| top_name(p)));
    to_shared_prefix(&tops)
}

fn first_components(names: &Vec<String>) -> (r: Vec<String>)
    ensures
        r.deep_view() == names.deep_view().map_values(|p: Seq<char>| first_piece(p)),
{
    let ghost all = names.deep_view();
    let mut tops: Vec<String> = Vec::new();
    for i in 0..names.len()
        invariant
            all == names.deep_view(),
            tops@.len() == i,
            forall|j: int| 0 <= j < i ==> #[trigger] tops@[j]@ == first_piece(all[j]),
    {
        assert(all[i as int] == names@[i as int]@);
        tops.push(first_component(names[i].as_str()));
    }
    assert(tops.deep_view() =~= all.map_values(|p: Seq<char>| first_piece(p)));
    tops
}

/// The top-level directory that all entries of a zip archive share, with a
/// slash at its end, or nothing.
pub fn find_common_prefix(names: &Vec<String>) -> (r: String)
    ensures
        r@ == shared_prefix(names.deep_view().map_values(|p: Seq<char>| first_piece(p))),
{
    to_shared_prefix(&first_components(names))
}

/// Returns `true` when the archive contains a `Data/` folder after the
/// top-level directory that all its entries share is stripped.
///
/// - `Data/textures/sky.dds`: what remains are bare files.
/// - `SomeMod/Data/textures/sky.dds`: what remains starts with `Data/`.
/// - `textures/sky.dds`: there is no `Data/` folder.
pub fn archive_has_data_folder(names: &Vec<String>) -> (r: bool)
    ensures
        r == data_folder_behind(
            names.deep_view(),
            shared_prefix(names.deep_view().map_values(|p: Seq<char>| first_piece(p))),
        ),
{
    let prefix = find_common_prefix(names);
    has_data_folder_behind(names.as_slice(), prefix.as_str())
}

// ── The best directory ──────────────────────────────────────────────────────

/// The components of a path that are not empty.
pub open spec fn named_parts(parts: Seq<Seq<char>>) -> Seq<Seq<char>>
    decreases parts.len(),
{
    if parts.len() == 0 {
        Seq::empty()
    } else {
        let before = named_parts(parts.drop_last());
        if parts.last().len() == 0 {
            before
        } else {
            before.push(parts.last())
        }
    }
}

/// The path made of the first `n` components.
pub open spec fn ancestor(parts: Seq<Seq<char>>, n: int) -> Seq<char>
    decreases n,
{
    if n <= 0 {
        Seq::empty()
    } else if n == 1 {
        parts[0]
    } else {
        ancestor(parts, n - 1) + "/"@ + parts[n - 1]
    }
}

/// How deep a directory may lie to be scored.
pub const MAX_DEPTH: usize = 6;

/// The directories that a path leads through, from the top, and the path
/// itself.
pub open spec fn ancestors(path: Seq<char>) -> Seq<Seq<char>> {
    let parts = named_parts(pieces(trimmed_start(with_slashes(path), '/'), '/'));
    Seq::new(
        if parts.len() < MAX_DEPTH {
            parts.len()
        } else {
            MAX_DEPTH as nat
        },
        |i: int| ancestor(parts, i + 1),
    )
}

/// The directories that any of the paths leads through.
pub open spec fn all_ancestors(paths: Seq<Seq<char>>) -> Seq<Seq<char>>
    decreases paths.len(),
{
    if paths.len() == 0 {
        Seq::empty()
    } else {
        all_ancestors(paths.drop_last()) + ancestors(paths.last())
    }
}

/// The directories to score, each once, in order.
pub open spec fn scored_dirs(paths: Seq<Seq<char>>) -> Seq<Seq<char>> {
    stably_sorted(
        distinct(all_ancestors(paths)),
        |a: Seq<char>, b: Seq<char>| not_after(a, b),
    )
}

/// One directory is a better data root than another: its score is higher, or
/// the same and its name is shorter.
pub open spec fn is_better(a: Seq<char>, b: Seq<char>, paths: Seq<Seq<char>>) -> bool {
    let x = data_root_score(a, paths);
    let y = data_root_score(b, paths);
    x > y || (x == y && byte_len(a) < byte_len(b))
}

/// The best of the directories and the archive root.
pub open spec fn best_dir(dirs: Seq<Seq<char>>, paths: Seq<Seq<char>>) -> Seq<char>
    decreases dirs.len(),
{
    if dirs.len() == 0 {
        Seq::empty()
    } else {
        let best = best_dir(dirs.drop_last(), paths);
        if is_better(dirs.last(), best, paths) {
            dirs.last()
        } else {
            best
        }
    }
}

/// The prefix of the best data root, with a slash at its end unless it is the
/// archive root.
pub open spec fn scored_root(paths: Seq<Seq<char>>) -> Seq<char> {
    let best = best_dir(scored_dirs(paths), paths);
    if best.len() == 0 {
        Seq::empty()
    } else {
        best + "/"@
    }
}

fn collect_named(parts: &Vec<String>) -> (r: Vec<String>)
    ensures
        r.deep_view() == named_parts(parts.deep_view()),
{
    let ghost all = parts.deep_view();
    let mut r: Vec<String> = Vec::new();
    assert(named_parts(all.take(0)) =~= r.deep_view());
    for i in 0..parts.len()
        invariant
            all == parts.deep_view(),
            r.deep_view() == named_parts(all.take(i as int)),
    {
        let ghost before = r.deep_view();
        assert(all.take(i + 1).drop_last() =~= all.take(i as int));
        assert(all[i as int] == parts@[i as int]@);
        if !parts[i].as_str().is_empty() {
            r.push(owned(parts[i].as_str()));
            assert(r.deep_view() =~= before.push(all[i as int]));
        }
    }
    assert(all.take(all.len() as int) =~= all);
    r
}

proof fn lemma_distinct_step(list: Seq<Seq<char>>, more: Seq<Seq<char>>, n: int)
    requires
        0 <= n < more.len(),
    ensures
        (list + more.take(n + 1)).drop_last() == list + more.take(n),
        (list + more.take(n + 1)).last() == more[n],
{
    assert((list + more.take(n + 1)).drop_last() =~= list + more.take(n));
}

fn add_ancestors(path: &str, dirs: &mut Vec<String>, Ghost(seen): Ghost<Seq<Seq<char>>>)
    requires
        old(dirs).deep_view() == distinct(seen),
    ensures
        final(dirs).deep_view() == distinct(seen + ancestors(path@)),
{
    let clean = trim_start_matches(replace_char(path, '\\', '/').as_str(), '/');
    let parts = collect_named(&split(clean.as_str(), '/'));
    let ghost ps = parts.deep_view();
    let ghost own = ancestors(path@);
    let count: usize = if parts.len() < MAX_DEPTH {
        parts.len()
    } else {
        MAX_DEPTH
    };
    let mut current = String::new();
    assert(seen + own.take(0) =~= seen);
    assert(current@ =~= ancestor(ps, 0));
    for i in 0..count
        invariant
            ps == parts.deep_view(),
            count <= parts@.len(),
            count == own.len(),
            own == ancestors(path@),
            ps == named_parts(pieces(trimmed_start(with_slashes(path@), '/'), '/')),
            current@ == ancestor(ps, i as int),
            dirs.deep_view() == distinct(seen + own.take(i as int)),
    {
        assert(ps[i as int] == parts@[i as int]@);
        if i == 0 {
            current = owned(parts[i].as_str());
        } else {
            current = concat3(current.as_str(), "/", parts[i].as_str());
        }
        assert(current@ == ancestor(ps, i + 1));
        assert(own[i as int] == ancestor(ps, i + 1));
        proof {
            lemma_distinct_step(seen, own, i as int);
        }
        let added = add_distinct(dirs, owned(current.as_str()));
    }
    assert(own.take(own.len() as int) =~= own);
}

/// The prefix of the directory that looks most like the game's data directory:
/// every directory near the top is scored, and of the best the shortest is
/// taken.
pub fn find_data_root_in_paths(paths: &[&str]) -> (r: String)
    ensures
        r@ == scored_root(paths.deep_view()),
{
    let ghost all = paths.deep_view();
    let mut found: Vec<String> = Vec::new();
    assert(distinct(all_ancestors(all.take(0))) =~= found.deep_view());
    for i in 0..paths.len()
        invariant
            all == paths.deep_view(),
            found.deep_view() == distinct(all_ancestors(all.take(i as int))),
    {
        assert(all.take(i + 1).drop_last() =~= all.take(i as int));
        assert(all[i as int] == paths@[i as int]@);
        add_ancestors(paths[i], &mut found, Ghost(all_ancestors(all.take(i as int))));
    }
    assert(all.take(all.len() as int) =~= all);
    let in_place = |a: &String, b: &String| -> (ok: bool)
        ensures
            ok == not_after(a@, b@),
    {
        !less(b.as_str(), a.as_str())
    };
    let dirs = sort_stably(found, in_place, Ghost(|a: Seq<char>, b: Seq<char>| not_after(a, b)));
    let ghost ds = dirs.deep_view();
    let mut best = String::new();
    assert(best@ =~= best_dir(ds.take(0), all));
    let mut best_score = score_as_data_root("", paths);
    proof {
        reveal_strlit("");
        assert(""@ =~= best@);
    }
    for i in 0..dirs.len()
        invariant
            all == paths.deep_view(),
            ds == dirs.deep_view(),
            best@ == best_dir(ds.take(i as int), all),
            best_score == data_root_score(best@, all),
    {
        assert(ds.take(i + 1).drop_last() =~= ds.take(i as int));
        assert(ds[i as int] == dirs@[i as int]@);
        let dir = dirs[i].as_str();
        let score = score_as_data_root(dir, paths);
        if score > best_score || (score == best_score && dir.len() < best.as_str().len()) {
            best_score = score;
            best = owned(dir);
        }
    }
    assert(ds.take(ds.len() as int) =~= ds);
    if best.as_str().is_empty() {
        assert(best@ =~= Seq::empty());
        String::new()
    } else {
        concat2(best.as_str(), "/")
    }
}

proof fn lemma_best_dir(dirs: Seq<Seq<char>>, paths: Seq<Seq<char>>)
    ensures
        forall|i: int|
            0 <= i < dirs.len() ==> !is_better(#[trigger] dirs[i], best_dir(dirs, paths), paths),
        !is_better(Seq::empty(), best_dir(dirs, paths), paths),
    decreases dirs.len(),
{
    if dirs.len() > 0 {
        lemma_best_dir(dirs.drop_last(), paths);
        assert forall|i: int| 0 <= i < dirs.len() implies !is_better(
            #[trigger] dirs[i],
            best_dir(dirs, paths),
            paths,
        ) by {
            if i < dirs.len() - 1 {
                assert(dirs.drop_last()[i] == dirs[i]);
            }
        }
    }
}

/// No directory that is scored, nor the archive root, is a better data root
/// than the one that is found.
pub proof fn scored_root_is_best(paths: Seq<Seq<char>>)
    ensures
        forall|i: int|
            0 <= i < scored_dirs(paths).len() ==> !is_better(
                #[trigger] scored_dirs(paths)[i],
                best_dir(scored_dirs(paths), paths),
                paths,
            ),
        !is_better(Seq::empty(), best_dir(scored_dirs(paths), paths), paths),
{
    lemma_best_dir(scored_dirs(paths), paths);
}

/// Plans where the files of an archive without a FOMOD configuration go.
pub fn build_data_archive_plan(path_refs: &[&str]) -> (r: DataArchivePlan)
    ensures
        r.deep_view() == plan_for_roots(
            path_refs.deep_view(),
            scored_root(path_refs.deep_view()),
            shared_prefix(path_refs.deep_view().map_values(|p: Seq<char>| top_name(p))),
        ),
{
    plan_with_roots(
        path_refs,
        find_data_root_in_paths(path_refs),
        find_common_prefix_from_paths(path_refs),
    )
}

// ── FOMOD files ─────────────────────────────────────────────────────────────

/// A directory name with a slash at its end, or nothing.
pub open spec fn slashed(dir: Seq<char>) -> Seq<char> {
    if dir.len() == 0 {
        Seq::empty()
    } else {
        dir + "/"@
    }
}

fn with_slash(dir: &str) -> (r: String)
    ensures
        r@ == slashed(dir@),
{
    if dir.is_empty() {
        assert(dir@ =~= Seq::empty());
        String::new()
    } else {
        concat2(dir, "/")
    }
}

/// What installing the mappings from a zip archive copies where.
pub open spec fn zip_plan(
    names: Seq<Seq<char>>,
    directories: Seq<bool>,
    files: Seq<FomodFileView>,
) -> Seq<PlannedFileView> {
    let wrapper = normalized(
        shared_prefix(names.map_values(|p: Seq<char>| first_piece(p))),
    );
    tree_mapping_plans(
        names,
        directories,
        slashed(wrapper),
        slashed(lowercase(wrapper)),
        by_priority(files),
    )
}

/// Plans the installation of FOMOD mappings from the entries of a zip archive:
/// their names as they are stored, and which of them are directories.
pub fn install_fomod_files(
    names: &Vec<String>,
    directories: &Vec<bool>,
    files: &Vec<FomodFile>,
) -> (r: Vec<PlannedFile>)
    requires
        directories@.len() == names@.len(),
    ensures
        r.deep_view() == zip_plan(names.deep_view(), directories@, files.deep_view()),
{
    let wrapper = normalize_path(find_common_prefix(names).as_str());
    let prefix = with_slash(wrapper.as_str());
    let lower = with_slash(to_lowercase(wrapper.as_str()).as_str());
    plan_from_tree(names, directories, prefix.as_str(), lower.as_str(), files)
}

/// What installing the mappings from an extracted tree copies where.
pub open spec fn directory_plan(
    paths: Seq<Seq<char>>,
    directories: Seq<bool>,
    files: Seq<FomodFileView>,
) -> Seq<PlannedFileView> {
    let names = paths.map_values(|p: Seq<char>| normalized(p));
    let tops = names.map_values(|p: Seq<char>| first_piece(p));
    let lowers = names.map_values(|p: Seq<char>| first_piece(lowercase(p)));
    match common_top(lowers) {
        Some(i) => tree_mapping_plans(
            names,
            directories,
            tops[i] + "/"@,
            lowers[i] + "/"@,
            by_priority(files),
        ),
        None => tree_mapping_plans(
            names,
            directories,
            Seq::empty(),
            Seq::empty(),
            by_priority(files),
        ),
    }
}

/// The wrapper directory of a tree of files, as it is spelled and in
/// lowercase, each with a slash at its end; both are empty if there is none.
pub fn find_fs_common_prefix(names: &Vec<String>) -> (r: (String, String))
    ensures
        ({
            let tops = names.deep_view().map_values(|p: Seq<char>| first_piece(p));
            let lowers = names.deep_view().map_values(|p: Seq<char>| first_piece(lowercase(p)));
            match common_top(lowers) {
                Some(i) => r.0@ == tops[i] + "/"@ && r.1@ == lowers[i] + "/"@,
                None => r.0@ == Seq::<char>::empty() && r.1@ == Seq::<char>::empty(),
            }
        }),
{
    let ghost all = names.deep_view();
    let mut lowers: Vec<String> = Vec::new();
    for i in 0..names.len()
        invariant
            all == names.deep_view(),
            lowers@.len() == i,
            forall|j: int| 0 <= j < i ==> #[trigger] lowers@[j]@ == first_piece(lowercase(all[j])),
    {
        assert(all[i as int] == names@[i as int]@);
        lowers.push(first_component(to_lowercase(names[i].as_str()).as_str()));
    }
    assert(lowers.deep_view() =~= all.map_values(|p: Seq<char>| first_piece(lowercase(p))));
    match find_common_top(&lowers) {
        Some(i) => {
            assert(all[i as int] == names@[i as int]@);
            let top = first_component(names[i].as_str());
            (concat2(top.as_str(), "/"), concat2(lowers[i].as_str(), "/"))
        },
        None => (String::new(), String::new()),
    }
}

/// Plans the installation of FOMOD mappings from an already extracted tree:
/// the paths of its entries relative to its root, and which of them are
/// directories.
pub fn install_fomod_files_from_dir(
    paths: &Vec<String>,
    directories: &Vec<bool>,
    files: &Vec<FomodFile>,
) -> (r: Vec<PlannedFile>)
    requires
        directories@.len() == paths@.len(),
    ensures
        r.deep_view() == directory_plan(paths.deep_view(), directories@, files.deep_view()),
{
    let ghost all = paths.deep_view();
    let mut names: Vec<String> = Vec::new();
    for i in 0..paths.len()
        invariant
            all == paths.deep_view(),
            names@.len() == i,
            forall|j: int| 0 <= j < i ==> #[trigger] names@[j]@ == normalized(all[j]),
    {
        assert(all[i as int] == paths@[i as int]@);
        names.push(normalize_path(paths[i].as_str()));
    }
    assert(names.deep_view() =~= all.map_values(|p: Seq<char>| normalized(p)));
    let (prefix, lower) = find_fs_common_prefix(&names);
    plan_from_tree(&names, directories, prefix.as_str(), lower.as_str(), files)
}

// ── Choosing how to install ─────────────────────────────────────────────────

/// One of the entries is a FOMOD configuration, in any case and with either
/// kind of slash.
pub open spec fn holds_config(entries: Seq<Seq<char>>) -> bool {
    exists|i: int| 0 <= i < entries.len() && is_config_path(lower_slashes(#[trigger] entries[i]))
}

fn has_config(entries: &Vec<String>) -> (r: bool)
    ensures
        r == holds_config(entries.deep_view()),
{
    let ghost all = entries.deep_view();
    for i in 0..entries.len()
        invariant
            all == entries.deep_view(),
            forall|j: int| 0 <= j < i ==> !is_config_path(lower_slashes(#[trigger] all[j])),
    {
        assert(all[i as int] == entries@[i as int]@);
        let lower = to_lower_slashes(entries[i].as_str());
        if is_fomod_config_path(lower.as_str()) {
            return true;
        }
    }
    false
}

/// Decides how an archive is installed, given whether it exists and the names
/// of its entries (none, if an archive other than a zip cannot be listed).
///
/// An archive with a FOMOD configuration starts with no files: the wizard that
/// runs on the configuration chooses them.
pub fn detect_strategy(archive_path: &str, exists: bool, entries: &Vec<String>) -> (r: Result<
    InstallStrategy,
    String,
>)
    ensures
        !exists ==> r is Err && r->Err_0@ == "Cannot open archive: "@ + archive_path@,
        exists && holds_config(entries.deep_view()) ==> r is Ok && r->Ok_0.deep_view()
            == InstallStrategyView::Fomod(Seq::empty()),
        exists && !holds_config(entries.deep_view()) ==> r is Ok && r->Ok_0.deep_view()
            == InstallStrategyView::Data,
{
    if !exists {
        return Err(concat2("Cannot open archive: ", archive_path));
    }
    if has_config(entries) {
        let none: Vec<FomodFile> = Vec::new();
        assert(none.deep_view() =~= Seq::empty());
        Ok(InstallStrategy::Fomod(none))
    } else {
        Ok(InstallStrategy::Data)
    }
}

// ── Lowercase names ─────────────────────────────────────────────────────────

/// What is done with a file or directory whose name is to be in lowercase.
pub enum NameStep {
    /// It stays, as its name is in lowercase; a directory is entered.
    Keep,
    /// It is renamed; a directory is entered.
    Rename(String),
    /// Its entries move into the directory that has the name already, which is
    /// then entered; it is removed itself if nothing is left in it.
    Merge(String),
    /// It is removed, as a file has the name already.
    Discard,
    /// It stays, as something of the other kind has the name already.
    Leave,
}

/// A [`NameStep`] as a mathematical value.
#[verifier::ext_equal]
pub ghost enum NameStepView {
    Keep,
    Rename(Seq<char>),
    Merge(Seq<char>),
    Discard,
    Leave,
}

impl DeepView for NameStep {
    type V = NameStepView;

    open spec fn deep_view(&self) -> NameStepView {
        match self {
            NameStep::Keep => NameStepView::Keep,
            NameStep::Rename(n) => NameStepView::Rename(n@),
            NameStep::Merge(n) => NameStepView::Merge(n@),
            NameStep::Discard => NameStepView::Discard,
            NameStep::Leave => NameStepView::Leave,
        }
    }
}

/// The step for a name in lowercase: of two files the one in lowercase takes
/// precedence, and two directories become one.
pub open spec fn name_step(
    name: Seq<char>,
    directory: bool,
    target_exists: bool,
    target_directory: bool,
) -> NameStepView {
    if name == lowercase(name) {
        NameStepView::Keep
    } else if !target_exists {
        NameStepView::Rename(lowercase(name))
    } else if directory && target_directory {
        NameStepView::Merge(lowercase(name))
    } else if !directory && !target_directory {
        NameStepView::Discard
    } else {
        NameStepView::Leave
    }
}

/// Decides what is done with an entry of a directory whose names are to be in
/// lowercase, given whether the entry is a directory and what stands under the
/// lowercase name.
///
/// Unlike [`crate::installer::extract::normalize_paths_to_lowercase`], which
/// keeps both of two files whose names differ in case alone, this discards the
/// duplicate.
pub fn normalize_paths_to_lowercase(
    name: &str,
    directory: bool,
    target_exists: bool,
    target_directory: bool,
) -> (r: NameStep)
    ensures
        r.deep_view() == name_step(name@, directory, target_exists, target_directory),
{
    let lower = to_lowercase(name);
    if same(name, lower.as_str()) {
        NameStep::Keep
    } else if !target_exists {
        NameStep::Rename(lower)
    } else if directory && target_directory {
        NameStep::Merge(lower)
    } else if !directory && !target_directory {
        NameStep::Discard
    } else {
        NameStep::Leave
    }
}

/// Whether an entry of a directory that is merged moves into the other, given
/// what stands there under its own name: a file takes the place of a file, and a
/// directory that of an empty one.  What cannot move stays where it is.
pub fn moves_on_merge(
    directory: bool,
    target_exists: bool,
    target_directory: bool,
    target_empty: bool,
) -> (r: bool)
    ensures
        r == (!target_exists || (directory == target_directory && (directory ==> target_empty))),
{
    !target_exists || (directory == target_directory && (!directory || target_empty))
}

// ── Laws ────────────────────────────────────────────────────────────────────

/// Where all entries lie below one directory, two entries at least, that is what
/// they share; where two lie below different ones, they share nothing.
pub proof fn shared_directory_is_found(tops: Seq<Seq<char>>, w: Seq<char>, a: int, b: int)
    requires
        tops.len() > 1,
        w.len() > 0,
    ensures
        (forall|i: int| 0 <= i < tops.len() ==> #[trigger] tops[i] == w) ==> shared_prefix(tops)
            == w + seq!['/'],
        0 <= a < tops.len() && 0 <= b < tops.len() && tops[a].len() > 0 && tops[b].len() > 0
            && tops[a] != tops[b] ==> shared_prefix(tops) == Seq::<char>::empty(),
        shared_prefix(seq![w]) == Seq::<char>::empty(),
{
    reveal_strlit("/");
    assert("/"@ =~= seq!['/']);
    if forall|i: int| 0 <= i < tops.len() ==> #[trigger] tops[i] == w {
        assert(tops[0] == w);
        assert(first_named(tops) == 0);
        assert(all_same(tops, tops[0]));
    }
}

/// The directories on the way to a file: the first names of its path, as many as
/// are looked at.
pub proof fn directories_on_the_way_are_scored(names: Seq<Seq<char>>, path: Seq<char>, n: int)
    requires
        is_written(names, path),
        !path.contains('\\'),
        0 <= n < names.len(),
        n < 6,
    ensures
        ancestors(path).len() > n,
        ancestors(path)[n] == interspersed(names.take(n + 1), '/'),
{
    lemma_no_backslashes(path);
    crate::paths::written_ends_are_no_slashes(names, path);
    assert(trimmed_start(path, '/') == path);
    assert forall|i: int| 0 <= i < names.len() implies !(#[trigger] names[i]).contains('/') by {
        assert(is_name(names[i]));
    }
    interspersed_pieces_are_found(names, '/');
    assert forall|i: int| 0 <= i < names.len() implies (#[trigger] names[i]).len() > 0 by {
        assert(is_name(names[i]));
    }
    lemma_all_named(names);
    lemma_ancestor(names, n + 1);
}

proof fn lemma_no_backslashes(path: Seq<char>)
    requires
        !path.contains('\\'),
    ensures
        with_slashes(path) == path,
{
    assert forall|i: int| 0 <= i < path.len() implies path[i] != '\\' by {
        assert(path.contains(path[i]));
    }
    assert(with_slashes(path) =~= path);
}

proof fn lemma_all_named(parts: Seq<Seq<char>>)
    requires
        forall|i: int| 0 <= i < parts.len() ==> (#[trigger] parts[i]).len() > 0,
    ensures
        named_parts(parts) == parts,
    decreases parts.len(),
{
    if parts.len() > 0 {
        let rest = parts.drop_last();
        assert forall|i: int| 0 <= i < rest.len() implies (#[trigger] rest[i]).len() > 0 by {
            assert(rest[i] == parts[i]);
        }
        lemma_all_named(rest);
        assert(parts[parts.len() - 1].len() > 0);
        assert(rest.push(parts.last()) =~= parts);
    } else {
        assert(parts =~= Seq::empty());
    }
}

proof fn lemma_ancestor(parts: Seq<Seq<char>>, n: int)
    requires
        1 <= n <= parts.len(),
    ensures
        ancestor(parts, n) == interspersed(parts.take(n), '/'),
    decreases n,
{
    reveal_strlit("/");
    assert("/"@ =~= seq!['/']);
    let t = parts.take(n);
    if n > 1 {
        lemma_ancestor(parts, n - 1);
        assert(t.drop_last() =~= parts.take(n - 1));
        let head = interspersed(parts.take(n - 1), '/');
        assert(head + seq!['/'] + parts[n - 1] =~= head.push('/') + parts[n - 1]);
    }
}

/// A directory that scores more than all others is the data root.
pub proof fn highest_score_is_the_root(paths: Seq<Seq<char>>, dir: Seq<char>)
    requires
        dir.len() > 0,
        scored_dirs(paths).contains(dir),
        data_root_score(dir, paths) > data_root_score(Seq::empty(), paths),
        forall|i: int|
            0 <= i < scored_dirs(paths).len() && #[trigger] scored_dirs(paths)[i] != dir
                ==> data_root_score(scored_dirs(paths)[i], paths) < data_root_score(dir, paths),
    ensures
        scored_root(paths) == dir + seq!['/'],
{
    reveal_strlit("/");
    assert("/"@ =~= seq!['/']);
    let dirs = scored_dirs(paths);
    let best = best_dir(dirs, paths);
    scored_root_is_best(paths);
    let k = choose|k: int| 0 <= k < dirs.len() && dirs[k] == dir;
    assert(!is_better(dirs[k], best, paths));
    lemma_best_is_one(dirs, paths);
    if best != dir {
        if best.len() > 0 {
            let j = choose|j: int| 0 <= j < dirs.len() && dirs[j] == best;
            assert(dirs[j] != dir);
        } else {
            assert(best =~= Seq::<char>::empty());
        }
    }
}

proof fn lemma_best_is_one(dirs: Seq<Seq<char>>, paths: Seq<Seq<char>>)
    ensures
        best_dir(dirs, paths).len() == 0 || dirs.contains(best_dir(dirs, paths)),
    decreases dirs.len(),
{
    if dirs.len() > 0 {
        let rest = dirs.drop_last();
        lemma_best_is_one(rest, paths);
        let best = best_dir(rest, paths);
        if rest.contains(best) {
            let i = choose|i: int| 0 <= i < rest.len() && rest[i] == best;
            assert(dirs[i] == best);
        }
        assert(dirs[dirs.len() - 1] == dirs.last());
    }
}

/// What is left of an installation gets its name in lowercase: it is renamed if
/// the name is free, a directory is merged into the one that has it, and a file
/// gives way to the one that has it.
pub proof fn names_become_lowercase(
    name: Seq<char>,
    directory: bool,
    target_exists: bool,
    target_directory: bool,
)
    ensures
        ({
            let step = name_step(name, directory, target_exists, target_directory);
            let low = lowercase(name);
            &&& step is Keep <==> name == low
            &&& step == NameStepView::Rename(low) <==> name != low && !target_exists
            &&& step == NameStepView::Merge(low) <==> name != low && target_exists && directory
                && target_directory
            &&& step is Discard <==> name != low && target_exists && !directory && !target_directory
            &&& step is Leave <==> name != low && target_exists && directory != target_directory
            &&& step is Rename ==> step->Rename_0 == low
            &&& step is Merge ==> step->Merge_0 == low
        }),
{
}

} // verus!
