//! Installing for deployment by links: the data of such an installation, and
//! its handling of paths and conflicts.
//!
//! A file is never copied into the game.  It stays in the mod's own folder, and
//! the game's `Data/` gets a link to it.
use vstd::prelude::*;

use crate::installer::fomod::{ranked_winners, resolve_ranked};
use crate::installer::heuristics::{data_root_score_owned, score_as_data_root_owned};
use crate::installer::paths::{
    after_first, behind_first, data_prefix_stripped, is_clean, is_data_name, is_in_data,
    leading_data_is_dropped, normalized, spelling_does_not_matter, spells, stays_below,
    stays_inside,
};
use crate::paths::parts_of;
use crate::text::{
    all_ascii, ascii_lower, ascii_lowercase, has_prefix, is_ascii_char, lemma_ascii_concat,
    lowercase, owned, same, starts_with, to_lowercase,
};

pub use crate::installer::heuristics::detect_data_root;
pub use crate::installer::links::determine_link_type;
pub use crate::installer::paths::{normalize_path, normalize_path_lowercase};
pub use crate::installer::types::{
    ActiveFlags, ConditionFlag, DependencyOperator, FlagDependency, FomodGroupType, FomodPluginType,
    LinkKind, PluginDependencies,
};

verus! {

// ── Paths ───────────────────────────────────────────────────────────────────

/// A path without its leading `Data/` (case-insensitive), normalized; a path
/// without that prefix as it is.
pub open spec fn without_data_prefix(path: Seq<char>) -> Seq<char> {
    let lower = lowercase(normalized(path));
    if lower == "data"@ {
        Seq::empty()
    } else if has_prefix(lower, "data/"@) {
        behind_first(normalized(path), '/')
    } else {
        path
    }
}

/// Strips a leading `Data/` (case-insensitive, with either kind of slash) from
/// a path.  A path without that prefix is returned unchanged.
pub fn strip_data_prefix(path: &str) -> (r: String)
    ensures
        r@ == without_data_prefix(path@),
{
    let s = normalize_path(path);
    let lower = to_lowercase(s.as_str());
    if same(lower.as_str(), "data") {
        String::new()
    } else if starts_with(lower.as_str(), "data/") {
        after_first(s.as_str(), '/')
    } else {
        owned(path)
    }
}

/// Checks that a path is relative and does not lead above the directory it is
/// taken relative to.  Only forward slashes part its components.
pub fn is_safe_relative_path(path: &str) -> (r: bool)
    ensures
        r == stays_below(parts_of(path@)),
{
    stays_inside(path)
}

/// Scores a directory as a candidate data root:
///
/// - **+20** if it is itself named `data` (case-insensitive)
/// - **+10** for each known subdirectory of `Data/` among its direct children
/// - **+15** for each plugin file among its direct children
/// - **+5** for each game archive among its direct children
///
/// Each child counts once.
pub fn score_as_data_root(prefix: &str, paths: &[String]) -> (r: i32)
    ensures
        r == data_root_score_owned(prefix@, paths.deep_view()),
{
    score_as_data_root_owned(prefix, paths)
}

// ── FOMOD configurations ────────────────────────────────────────────────────

/// A file or folder mapping with its place in the document.
#[derive(Debug)]
pub struct FomodFile {
    /// Path in the archive.
    pub source: String,
    /// Destination below `Data/`.
    pub destination: String,
    /// Of files with one destination, that with the higher priority wins.
    pub priority: i32,
    /// Of equal priorities, that with the higher place wins.
    pub doc_order: usize,
}

/// A [`FomodFile`] as a mathematical value: its place, and the mapping.
impl DeepView for FomodFile {
    type V = (usize, crate::installer::types::FomodFileView);

    open spec fn deep_view(&self) -> (usize, crate::installer::types::FomodFileView) {
        (
            self.doc_order,
            crate::installer::types::FomodFileView {
                source: self.source@,
                destination: self.destination@,
                priority: self.priority as int,
            },
        )
    }
}

impl Clone for FomodFile {
    fn clone(&self) -> (r: Self)
        ensures
            r.deep_view() == self.deep_view(),
    {
        FomodFile {
            source: owned(self.source.as_str()),
            destination: owned(self.destination.as_str()),
            priority: self.priority,
            doc_order: self.doc_order,
        }
    }
}

/// A selectable plugin in a group.
#[derive(Debug)]
pub struct FomodPlugin {
    pub name: String,
    pub description: Option<String>,
    pub image_path: Option<String>,
    pub files: Vec<FomodFile>,
    pub plugin_type: FomodPluginType,
    pub condition_flags: Vec<ConditionFlag>,
    pub dependencies: Option<PluginDependencies>,
}

/// A group of plugins in a step.
#[derive(Debug)]
pub struct FomodPluginGroup {
    pub name: String,
    pub group_type: FomodGroupType,
    pub plugins: Vec<FomodPlugin>,
}

/// A page of the wizard.
#[derive(Debug)]
pub struct FomodInstallStep {
    pub name: String,
    pub visible: Option<PluginDependencies>,
    pub groups: Vec<FomodPluginGroup>,
}

/// Files that flags select.
#[derive(Debug)]
pub struct ConditionalFileInstall {
    pub dependencies: PluginDependencies,
    pub files: Vec<FomodFile>,
}

/// A FOMOD configuration.
#[derive(Debug)]
pub struct FomodConfig {
    pub mod_name: Option<String>,
    pub required_files: Vec<FomodFile>,
    pub install_steps: Vec<FomodInstallStep>,
    pub conditional_installs: Vec<ConditionalFileInstall>,
}

/// How a mod archive is installed.
#[derive(Debug)]
pub enum InstallStrategy {
    /// Its files go below `Data/`, without the prefix.
    SimpleData { strip_prefix: String },
    /// The user selects among its files.
    Fomod { config: FomodConfig },
}

// ── Conflicts ───────────────────────────────────────────────────────────────

/// Resolves conflicts within a file installation list.
///
/// When several files target one destination, the one with the higher priority
/// wins, and of equal priorities the one with the higher place in the
/// document.  The result is ordered by destination.
pub fn resolve_file_conflicts(files: Vec<FomodFile>) -> (r: Vec<FomodFile>)
    ensures
        r.deep_view() == ranked_winners(files.deep_view()),
{
    let ghost all = files.deep_view();
    let mut ranked: Vec<(usize, crate::installer::types::FomodFile)> = Vec::new();
    for i in 0..files.len()
        invariant
            all == files.deep_view(),
            ranked@.len() == i,
            forall|j: int| 0 <= j < i ==> #[trigger] ranked@[j].deep_view() == all[j],
    {
        let f = &files[i];
        assert(all[i as int] == f.deep_view());
        let mapping = crate::installer::types::FomodFile {
            source: owned(f.source.as_str()),
            destination: owned(f.destination.as_str()),
            priority: f.priority,
        };
        ranked.push((f.doc_order, mapping));
    }
    assert(ranked.deep_view() =~= all);
    let won = resolve_ranked(ranked);
    let ghost ws = won.deep_view();
    let mut r: Vec<FomodFile> = Vec::new();
    for i in 0..won.len()
        invariant
            ws == won.deep_view(),
            r@.len() == i,
            forall|j: int| 0 <= j < i ==> #[trigger] r@[j].deep_view() == ws[j],
    {
        assert(ws[i as int] == won@[i as int].deep_view());
        let f = &won[i].1;
        r.push(
            FomodFile {
                source: owned(f.source.as_str()),
                destination: owned(f.destination.as_str()),
                priority: f.priority,
                doc_order: won[i].0,
            },
        );
    }
    assert(r.deep_view() =~= ws);
    r
}

// ── Laws ────────────────────────────────────────────────────────────────────

/// A leading data directory is taken off a path, however it is spelled; a path
/// that has none stays as it is written.
pub proof fn leading_data_directory_is_taken_off(
    s: Seq<char>,
    data: Seq<char>,
    rest: Seq<char>,
)
    requires
        is_data_name(data),
        all_ascii(rest),
        is_clean(rest),
        rest.len() > 0,
    ensures
        spells(s, data + seq!['/'] + rest) ==> without_data_prefix(s) == rest,
        spells(s, data) ==> without_data_prefix(s) == Seq::<char>::empty(),
        spells(s, rest) && !is_in_data(rest) ==> without_data_prefix(s) == s,
{
    reveal_strlit("data");
    reveal_strlit("data/");
    assert("data"@ =~= seq!['d', 'a', 't', 'a']);
    leading_data_is_dropped(data, rest);
    assert(data.len() == ascii_lowercase(data).len());
    assert forall|i: int| 0 <= i < data.len() implies data[i] != '/' && data[i] != '\\' by {
        assert(ascii_lowercase(data)[i] == ascii_lower(data[i]));
    }
    let path = data + seq!['/'] + rest;
    if spells(s, path) {
        assert(is_clean(path)) by {
            assert forall|i: int| 0 <= i < path.len() implies path[i] != '\\' by {
                if i > 4 {
                    assert(rest.contains(rest[i - 5]));
                }
            }
            assert(path.last() == rest.last());
            assert(path[0] == data[0]);
        }
        spelling_does_not_matter(s, path);
        lemma_data_lower(data, rest);
        assert(data_prefix_stripped(path, lowercase(path)) == rest);
    }
    if spells(s, data) {
        spelling_does_not_matter(s, data);
        assert(all_ascii(data)) by {
            assert forall|i: int| 0 <= i < data.len() implies is_ascii_char(#[trigger] data[i]) by {
                assert(ascii_lowercase(data)[i] == ascii_lower(data[i]));
            }
        }
    }
    if spells(s, rest) && !is_in_data(rest) {
        spelling_does_not_matter(s, rest);
        lemma_not_in_data(rest);
    }
}

/// A path outside a data directory does not start with one in lowercase either.
pub proof fn lemma_not_in_data(rest: Seq<char>)
    requires
        all_ascii(rest),
        !is_in_data(rest),
    ensures
        lowercase(rest) != "data"@,
        !has_prefix(lowercase(rest), "data/"@),
{
    reveal_strlit("data");
    reveal_strlit("data/");
    let name = seq!['d', 'a', 't', 'a'];
    assert("data"@ =~= name);
    let low = ascii_lowercase(rest);
    if has_prefix(low, "data/"@) {
        assert(low.subrange(0, 5)[4] == low[4]);
        assert(low[4] == ascii_lower(rest[4]));
        assert(ascii_lowercase(rest.take(4)) =~= name) by {
            assert forall|i: int| 0 <= i < 4 implies ascii_lowercase(rest.take(4))[i] == name[i] by {
                assert(low.subrange(0, 5)[i] == low[i]);
                assert(low[i] == ascii_lower(rest[i]));
            }
        }
    }
}

/// A path below a data directory starts with it in lowercase.
pub proof fn lemma_data_lower(data: Seq<char>, rest: Seq<char>)
    requires
        is_data_name(data),
        all_ascii(rest),
    ensures
        ({
            let path = data + seq!['/'] + rest;
            &&& lowercase(path) != "data"@
            &&& has_prefix(lowercase(path), "data/"@)
        }),
{
    reveal_strlit("data");
    reveal_strlit("data/");
    let slash = seq!['/'];
    assert(data.len() == ascii_lowercase(data).len());
    assert forall|i: int| 0 <= i < data.len() implies is_ascii_char(#[trigger] data[i]) by {
        assert(ascii_lowercase(data)[i] == ascii_lower(data[i]));
    }
    assert(all_ascii(slash));
    assert(ascii_lowercase(slash) =~= slash);
    lemma_ascii_concat(data, slash);
    lemma_ascii_concat(data + slash, rest);
    let path = data + slash + rest;
    let low = lowercase(path);
    assert(all_ascii(path));
    assert(low == seq!['d', 'a', 't', 'a'] + slash + ascii_lowercase(rest));
    assert(low.len() >= 5 && "data"@.len() == 4);
    assert(low.subrange(0, 5) =~= "data/"@);
}

} // verus!
