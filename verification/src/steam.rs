//! Finding Steam, its libraries, and the Proton that a game runs with.
use vstd::prelude::*;

use crate::games::{all_kinds, GameKind};
use crate::launch::{
    arguments_of, build_flatpak_tool_command, build_native_tool_command, flatpak_tool, native_tool,
    CommandLine, ToolLaunch, ToolLaunchView,
};
use crate::number::{
    decimal, decimal_string, lemma_decimal_digits, parse_inverts_decimal, parse_u32, parsed,
};
use crate::nxm::interspersed;
use crate::paths::{
    is_name, join, joined, parent, parent_of, path_same, same_path, written_paths_are_same_if_equal,
};
use crate::text::{
    chars_of, concat2, concat3, contains, has_infix, has_prefix, has_suffix, is_ascii_digit,
    is_line, is_listed, is_numeric, is_white_space, lemma_not_after_transitive,
    lemma_precedes_total, less, lines, lowercase, not_after, numeric, only_white_space_is_trimmed,
    owned, precedes, same, string_between, strip_prefix, strip_suffix, to_lowercase, trim,
    written_lines, written_lines_are_read_back,
};
use crate::vdf::{
    clean_lines, folders_state, install_dir, is_quotable, library_folders_are_read_back,
    library_folders_vdf, manifest_is_read_back, manifest_text, mapped_tool, parse_acf_install_dir,
    parse_compat_tool_mapping, parse_library_folders_vdf,
};

verus! {

// ── The home directory ──────────────────────────────────────────────────────

/// The home directory of the user, by `dirs::home_dir`; where it lies depends
/// on the environment.  Bytes of its name that are not UTF-8 are given as
/// replacement characters.
#[verifier::external_body]
fn user_home_dir() -> (r: Option<String>) {
    dirs::home_dir().map(|p| p.to_string_lossy().into_owned())
}

// ── Where Steam lives ───────────────────────────────────────────────────────

/// The directories in which Steam may live, below the home directory.
pub open spec fn root_candidates(home: Seq<char>) -> Seq<Seq<char>> {
    seq![
        joined(joined(home, ".steam"@), "steam"@),
        joined(joined(joined(home, ".local"@), "share"@), "Steam"@),
        joined(
            joined(joined(joined(joined(home, "snap"@), "steam"@), "common"@), ".steam"@),
            "steam"@,
        ),
        joined(
            joined(
                joined(joined(joined(home, ".var"@), "app"@), "com.valvesoftware.Steam"@),
                ".steam"@,
            ),
            "steam"@,
        ),
    ]
}

/// The directories in which Steam may live: its own, that of a snap and that of
/// Flatpak.
pub fn steam_root_candidates_in(home: &str) -> (r: Vec<String>)
    ensures
        r.deep_view() == root_candidates(home@),
{
    let a = join(join(home, ".steam").as_str(), "steam");
    let b = join(join(join(home, ".local").as_str(), "share").as_str(), "Steam");
    let c0 = join(join(join(home, "snap").as_str(), "steam").as_str(), "common");
    let c = join(join(c0.as_str(), ".steam").as_str(), "steam");
    let d0 = join(join(join(home, ".var").as_str(), "app").as_str(), "com.valvesoftware.Steam");
    let d = join(join(d0.as_str(), ".steam").as_str(), "steam");
    let mut r: Vec<String> = Vec::new();
    r.push(a);
    r.push(b);
    r.push(c);
    r.push(d);
    assert(r.deep_view() =~= root_candidates(home@));
    r
}

/// The index of the first path that is listed, or their number.
pub open spec fn first_listed(paths: Seq<Seq<char>>, listed: Seq<Seq<char>>) -> int
    decreases paths.len(),
{
    if paths.len() == 0 || listed.contains(paths[0]) {
        0
    } else {
        1 + first_listed(paths.skip(1), listed)
    }
}

fn find_first_listed(paths: &Vec<String>, listed: &Vec<String>) -> (r: usize)
    ensures
        r == first_listed(paths.deep_view(), listed.deep_view()),
        r <= paths@.len(),
{
    let ghost all = paths.deep_view();
    let mut i: usize = 0;
    assert(all.skip(0) =~= all);
    while i < paths.len()
        invariant
            all == paths.deep_view(),
            i <= paths@.len(),
            first_listed(all, listed.deep_view()) == i + first_listed(
                all.skip(i as int),
                listed.deep_view(),
            ),
        decreases paths@.len() - i,
    {
        assert(all[i as int] == paths@[i as int]@);
        assert(all.skip(i as int).skip(1) =~= all.skip(i + 1));
        if is_listed(listed, paths[i].as_str()) {
            return i;
        }
        i += 1;
    }
    i
}

/// The directories in which Steam may live: none without a home directory.
pub open spec fn known_roots(home: Option<Seq<char>>) -> Seq<Seq<char>> {
    match home {
        Some(h) => root_candidates(h),
        None => Seq::empty(),
    }
}

/// The directories in which Steam of this user may live.
pub fn steam_root_candidates() -> (r: Vec<String>)
    ensures
        exists|home: Option<Seq<char>>| r.deep_view() == #[trigger] known_roots(home),
{
    let home = user_home_dir();
    let ghost h = home.deep_view();
    let r = match &home {
        Some(dir) => steam_root_candidates_in(dir.as_str()),
        None => Vec::new(),
    };
    assert(r.deep_view() =~= known_roots(h));
    r
}

/// The directory in which Steam lives, given the home directory and which
/// directories there are.
pub open spec fn steam_root(home: Option<Seq<char>>, directories: Seq<Seq<char>>) -> Option<
    Seq<char>,
> {
    match home {
        Some(h) => {
            let i = first_listed(root_candidates(h), directories);
            if i < 4 {
                Some(root_candidates(h)[i])
            } else {
                None
            }
        },
        None => None,
    }
}

/// The directory in which Steam lives, given the home directory and which of
/// [`steam_root_candidates_in`] are directories.
pub fn find_steam_root_in(home: Option<&str>, directories: &Vec<String>) -> (r: Option<String>)
    ensures
        r.deep_view() == steam_root(home.deep_view(), directories.deep_view()),
{
    match home {
        Some(h) => {
            let candidates = steam_root_candidates_in(h);
            let i = find_first_listed(&candidates, directories);
            if i < candidates.len() {
                assert(candidates.deep_view()[i as int] == candidates@[i as int]@);
                Some(owned(candidates[i].as_str()))
            } else {
                None
            }
        },
        None => None,
    }
}

/// The directory in which Steam of this user lives, given which of
/// [`steam_root_candidates`] are directories.
pub fn find_steam_root(directories: &Vec<String>) -> (r: Option<String>)
    ensures
        exists|home: Option<Seq<char>>|
            r.deep_view() == #[trigger] steam_root(home, directories.deep_view()),
{
    let home = user_home_dir();
    let ghost h = home.deep_view();
    let r = match &home {
        Some(dir) => find_steam_root_in(Some(dir.as_str()), directories),
        None => find_steam_root_in(None, directories),
    };
    assert(r.deep_view() == steam_root(h, directories.deep_view()));
    r
}

/// The path lies in the Flatpak of Steam.
pub open spec fn in_flatpak(path: Seq<char>) -> bool {
    has_infix(path, "/.var/app/com.valvesoftware.Steam/"@)
}

/// Whether Steam, if it was found, lives in Flatpak.
pub fn is_steam_flatpak(steam_root: Option<&str>) -> (r: bool)
    ensures
        r == (steam_root is Some && in_flatpak(steam_root->0@)),
{
    match steam_root {
        Some(root) => is_path_in_flatpak(root),
        None => false,
    }
}

/// Whether a path lies in the Flatpak of Steam.
pub fn is_path_in_flatpak(path: &str) -> (r: bool)
    ensures
        r == in_flatpak(path@),
{
    contains(path, "/.var/app/com.valvesoftware.Steam/")
}

// ── Libraries ───────────────────────────────────────────────────────────────

/// A library of Steam: its `steamapps` directory and what is installed there.
#[derive(Debug)]
pub struct SteamLibrary {
    pub path: String,
    pub apps: Vec<u32>,
}

/// A [`SteamLibrary`] as a mathematical value.
#[verifier::ext_equal]
pub ghost struct SteamLibraryView {
    pub path: Seq<char>,
    pub apps: Seq<u32>,
}

impl DeepView for SteamLibrary {
    type V = SteamLibraryView;

    open spec fn deep_view(&self) -> SteamLibraryView {
        SteamLibraryView { path: self.path@, apps: self.apps@ }
    }
}

/// The application whose manifest has the given name.
pub open spec fn manifest_app(name: Seq<char>) -> Option<nat> {
    let prefix = "appmanifest_"@;
    let suffix = ".acf"@;
    if has_prefix(name, prefix) && has_suffix(name.skip(prefix.len() as int), suffix) {
        let middle = name.skip(prefix.len() as int);
        parsed(middle.take(middle.len() - suffix.len()), u32::MAX as nat)
    } else {
        None
    }
}

fn app_of_manifest(name: &str) -> (r: Option<u32>)
    ensures
        match r {
            Some(n) => manifest_app(name@) == Some(n as nat),
            None => manifest_app(name@) is None,
        },
{
    match strip_prefix(name, "appmanifest_") {
        Some(rest) => match strip_suffix(rest.as_str(), ".acf") {
            Some(id) => parse_u32(id.as_str()),
            None => None,
        },
        None => None,
    }
}

/// The applications whose manifests are among the files.
pub open spec fn app_ids(names: Seq<Seq<char>>) -> Seq<u32>
    decreases names.len(),
{
    if names.len() == 0 {
        Seq::empty()
    } else {
        let before = app_ids(names.drop_last());
        match manifest_app(names.last()) {
            Some(n) => before.push(n as u32),
            None => before,
        }
    }
}

/// The applications whose manifests are among the files of a library.
pub fn collect_app_ids(names: &Vec<String>) -> (r: Vec<u32>)
    ensures
        r@ == app_ids(names.deep_view()),
{
    let ghost all = names.deep_view();
    let mut r: Vec<u32> = Vec::new();
    assert(app_ids(all.take(0)) =~= r@);
    for i in 0..names.len()
        invariant
            all == names.deep_view(),
            r@ == app_ids(all.take(i as int)),
    {
        assert(all.take(i + 1).drop_last() =~= all.take(i as int));
        assert(all[i as int] == names@[i as int]@);
        match app_of_manifest(names[i].as_str()) {
            Some(n) => {
                r.push(n);
            },
            None => {},
        }
    }
    assert(all.take(all.len() as int) =~= all);
    r
}

/// One of the paths is the given one.
pub open spec fn holds_path(paths: Seq<Seq<char>>, path: Seq<char>) -> bool {
    exists|i: int| 0 <= i < paths.len() && path_same(#[trigger] paths[i], path)
}

fn has_path(paths: &Vec<String>, path: &str) -> (r: bool)
    ensures
        r == holds_path(paths.deep_view(), path@),
{
    let ghost all = paths.deep_view();
    for i in 0..paths.len()
        invariant
            all == paths.deep_view(),
            forall|j: int| 0 <= j < i ==> !path_same(#[trigger] all[j], path@),
    {
        assert(all[i as int] == paths@[i as int]@);
        if same_path(paths[i].as_str(), path) {
            return true;
        }
    }
    false
}

/// The libraries that the folders add to those known, as far as they are
/// directories.
pub open spec fn with_folders(
    known: Seq<Seq<char>>,
    folders: Seq<Seq<char>>,
    directories: Seq<Seq<char>>,
) -> Seq<Seq<char>>
    decreases folders.len(),
{
    if folders.len() == 0 {
        known
    } else {
        let before = with_folders(known, folders.drop_last(), directories);
        let path = joined(folders.last(), "steamapps"@);
        if directories.contains(path) && !holds_path(before, path) {
            before.push(path)
        } else {
            before
        }
    }
}

/// The libraries of a Steam root: its own and those that its list of library
/// folders names.
pub open spec fn libraries_of(
    root: Seq<char>,
    vdf: Option<Seq<char>>,
    directories: Seq<Seq<char>>,
) -> Seq<Seq<char>> {
    let own = joined(root, "steamapps"@);
    if !directories.contains(own) {
        Seq::empty()
    } else {
        match vdf {
            Some(text) => with_folders(
                seq![own],
                folders_state(clean_lines(text)).paths,
                directories,
            ),
            None => seq![own],
        }
    }
}

/// The `steamapps` directories of the libraries of a Steam root, given the text
/// of its `libraryfolders.vdf`, if it could be read, and which directories there
/// are.
pub fn find_steam_libraries(root: &str, vdf: Option<&str>, directories: &Vec<String>) -> (r: Vec<
    String,
>)
    ensures
        r.deep_view() == libraries_of(root@, vdf.deep_view(), directories.deep_view()),
{
    let own = join(root, "steamapps");
    let mut r: Vec<String> = Vec::new();
    if !is_listed(directories, own.as_str()) {
        assert(r.deep_view() =~= Seq::empty());
        return r;
    }
    let ghost ov = own@;
    r.push(own);
    assert(r.deep_view() =~= seq![ov]);
    match vdf {
        Some(text) => {
            let folders = parse_library_folders_vdf(text);
            let ghost fs = folders.deep_view();
            for i in 0..folders.len()
                invariant
                    fs == folders.deep_view(),
                    r.deep_view() == with_folders(
                        seq![ov],
                        fs.take(i as int),
                        directories.deep_view(),
                    ),
            {
                let ghost before = r.deep_view();
                assert(fs.take(i + 1).drop_last() =~= fs.take(i as int));
                assert(fs[i as int] == folders@[i as int]@);
                let path = join(folders[i].as_str(), "steamapps");
                if is_listed(directories, path.as_str()) && !has_path(&r, path.as_str()) {
                    let ghost pv = path@;
                    r.push(path);
                    assert(r.deep_view() =~= before.push(pv));
                }
            }
            assert(fs.take(fs.len() as int) =~= fs);
        },
        None => {},
    }
    r
}

// ── Games ───────────────────────────────────────────────────────────────────

/// The manifest of an application in a library.
pub open spec fn manifest_path(library: Seq<char>, app_id: u32) -> Seq<char> {
    joined(library, "appmanifest_"@ + decimal(app_id as nat) + ".acf"@)
}

/// The manifest of an application in a library.
pub fn app_manifest_path(library: &str, app_id: u32) -> (r: String)
    ensures
        r@ == manifest_path(library@, app_id),
{
    let name = concat3("appmanifest_", decimal_string(app_id as u128).as_str(), ".acf");
    join(library, name.as_str())
}

/// Where a library says that an application is installed, if that is a
/// directory.
pub open spec fn installed_at(
    library: Seq<char>,
    manifest: Option<Seq<char>>,
    directories: Seq<Seq<char>>,
) -> Option<Seq<char>> {
    match manifest {
        Some(text) => match install_dir(clean_lines(text)) {
            Some(dir) => {
                let path = joined(joined(library, "common"@), dir);
                if directories.contains(path) {
                    Some(path)
                } else {
                    None
                }
            },
            None => None,
        },
        None => None,
    }
}

/// Where the first library that has it says that an application is installed.
pub open spec fn game_path(
    libraries: Seq<Seq<char>>,
    manifests: Seq<Option<Seq<char>>>,
    directories: Seq<Seq<char>>,
) -> Option<Seq<char>>
    decreases libraries.len(),
{
    if libraries.len() == 0 {
        None
    } else {
        match installed_at(libraries[0], manifests[0], directories) {
            Some(p) => Some(p),
            None => game_path(libraries.skip(1), manifests.skip(1), directories),
        }
    }
}

/// Where an application is installed, given for each library the text of its
/// manifest for the application, if it has one, and which directories there
/// are.
pub fn find_game_path(
    libraries: &Vec<String>,
    manifests: &Vec<Option<String>>,
    directories: &Vec<String>,
) -> (r: Option<String>)
    requires
        manifests@.len() == libraries@.len(),
    ensures
        r.deep_view() == game_path(
            libraries.deep_view(),
            manifests.deep_view(),
            directories.deep_view(),
        ),
{
    let ghost ls = libraries.deep_view();
    let ghost ms = manifests.deep_view();
    let ghost ds = directories.deep_view();
    let mut i: usize = 0;
    assert(ls.skip(0) =~= ls);
    assert(ms.skip(0) =~= ms);
    while i < libraries.len()
        invariant
            ls == libraries.deep_view(),
            ms == manifests.deep_view(),
            ds == directories.deep_view(),
            manifests@.len() == libraries@.len(),
            i <= libraries@.len(),
            game_path(ls, ms, ds) == game_path(ls.skip(i as int), ms.skip(i as int), ds),
        decreases libraries@.len() - i,
    {
        assert(ls[i as int] == libraries@[i as int]@);
        assert(ms[i as int] == manifests@[i as int].deep_view());
        assert(ls.skip(i as int).skip(1) =~= ls.skip(i + 1));
        assert(ms.skip(i as int).skip(1) =~= ms.skip(i + 1));
        match &manifests[i] {
            Some(text) => match parse_acf_install_dir(text.as_str()) {
                Some(dir) => {
                    let common = join(libraries[i].as_str(), "common");
                    let path = join(common.as_str(), dir.as_str());
                    if is_listed(directories, path.as_str()) {
                        return Some(path);
                    }
                },
                None => {},
            },
            None => {},
        }
        i += 1;
    }
    None
}

/// The games that were found, in the order of all games.
pub open spec fn found_games(paths: Seq<Option<Seq<char>>>) -> Seq<(GameKind, Seq<char>)>
    decreases paths.len(),
{
    if paths.len() == 0 {
        Seq::empty()
    } else {
        let before = found_games(paths.drop_last());
        match paths.last() {
            Some(p) => before.push((all_kinds()[paths.len() - 1], p)),
            None => before,
        }
    }
}

/// A game that was found, and where.
pub struct DetectedGame {
    pub kind: GameKind,
    pub path: String,
}

impl DeepView for DetectedGame {
    type V = (GameKind, Seq<char>);

    open spec fn deep_view(&self) -> (GameKind, Seq<char>) {
        (self.kind, self.path@)
    }
}

/// The games that were found, given where each of all games is installed, if it
/// is.
pub fn detect_games(paths: &Vec<Option<String>>) -> (r: Vec<DetectedGame>)
    requires
        paths@.len() == all_kinds().len(),
    ensures
        r.deep_view() == found_games(paths.deep_view()),
{
    let kinds = GameKind::all();
    let ghost all = paths.deep_view();
    let mut r: Vec<DetectedGame> = Vec::new();
    assert(found_games(all.take(0)) =~= r.deep_view());
    for i in 0..paths.len()
        invariant
            kinds@ == all_kinds(),
            paths@.len() == all_kinds().len(),
            all == paths.deep_view(),
            r.deep_view() == found_games(all.take(i as int)),
    {
        let ghost before = r.deep_view();
        assert(all.take(i + 1).drop_last() =~= all.take(i as int));
        assert(all[i as int] == paths@[i as int].deep_view());
        match &paths[i] {
            Some(p) => {
                r.push(DetectedGame { kind: kinds[i], path: owned(p.as_str()) });
                assert(r.deep_view() =~= before.push((all_kinds()[i as int], p@)));
            },
            None => {},
        }
    }
    assert(all.take(all.len() as int) =~= all);
    r
}

/// The compatibility data of an application in a library.
pub open spec fn compatdata_in(library: Seq<char>, app_id: u32) -> Seq<char> {
    joined(joined(library, "compatdata"@), decimal(app_id as nat))
}

/// The compatibility data of the first library that has it, among those with
/// the manifest of the application or among all.
pub open spec fn first_compatdata(
    libraries: Seq<Seq<char>>,
    app_id: u32,
    files: Seq<Seq<char>>,
    directories: Seq<Seq<char>>,
    with_manifest: bool,
) -> Option<Seq<char>>
    decreases libraries.len(),
{
    if libraries.len() == 0 {
        None
    } else {
        let path = compatdata_in(libraries[0], app_id);
        if (!with_manifest || files.contains(manifest_path(libraries[0], app_id)))
            && directories.contains(path) {
            Some(path)
        } else {
            first_compatdata(libraries.skip(1), app_id, files, directories, with_manifest)
        }
    }
}

/// The compatibility data of an application: that beside its manifest, or else
/// that of any library.
pub open spec fn compatdata_of(
    libraries: Seq<Seq<char>>,
    app_id: u32,
    files: Seq<Seq<char>>,
    directories: Seq<Seq<char>>,
) -> Option<Seq<char>> {
    match first_compatdata(libraries, app_id, files, directories, true) {
        Some(p) => Some(p),
        None => first_compatdata(libraries, app_id, files, directories, false),
    }
}

fn find_compatdata(
    libraries: &Vec<String>,
    app_id: u32,
    files: &Vec<String>,
    directories: &Vec<String>,
    with_manifest: bool,
) -> (r: Option<String>)
    ensures
        r.deep_view() == first_compatdata(
            libraries.deep_view(),
            app_id,
            files.deep_view(),
            directories.deep_view(),
            with_manifest,
        ),
{
    let ghost ls = libraries.deep_view();
    let ghost fs = files.deep_view();
    let ghost ds = directories.deep_view();
    let id = decimal_string(app_id as u128);
    let mut i: usize = 0;
    assert(ls.skip(0) =~= ls);
    while i < libraries.len()
        invariant
            ls == libraries.deep_view(),
            fs == files.deep_view(),
            ds == directories.deep_view(),
            id@ == decimal(app_id as nat),
            i <= libraries@.len(),
            first_compatdata(ls, app_id, fs, ds, with_manifest) == first_compatdata(
                ls.skip(i as int),
                app_id,
                fs,
                ds,
                with_manifest,
            ),
        decreases libraries@.len() - i,
    {
        assert(ls[i as int] == libraries@[i as int]@);
        assert(ls.skip(i as int).skip(1) =~= ls.skip(i + 1));
        let library = libraries[i].as_str();
        let path = join(join(library, "compatdata").as_str(), id.as_str());
        if (!with_manifest || is_listed(files, app_manifest_path(library, app_id).as_str()))
            && is_listed(directories, path.as_str()) {
            return Some(path);
        }
        i += 1;
    }
    None
}

/// The compatibility data of an application, given which manifests and
/// directories there are: that beside its manifest, as Steam keeps it, or else
/// that of any library.
pub fn find_compatdata_path(
    libraries: &Vec<String>,
    app_id: u32,
    files: &Vec<String>,
    directories: &Vec<String>,
) -> (r: Option<String>)
    ensures
        r.deep_view() == compatdata_of(
            libraries.deep_view(),
            app_id,
            files.deep_view(),
            directories.deep_view(),
        ),
{
    match find_compatdata(libraries, app_id, files, directories, true) {
        Some(p) => Some(p),
        None => find_compatdata(libraries, app_id, files, directories, false),
    }
}

// ── Names of Proton ─────────────────────────────────────────────────────────

/// The name in lowercase without separators.
pub open spec fn proton_key(name: Seq<char>) -> Seq<char> {
    lowercase(name).filter(|c: char| c != '-' && c != '_' && c != ' ' && c != '.')
}

/// The name of a Proton as it is compared: in lowercase without separators.
pub fn normalize_proton_name(name: &str) -> (r: String)
    ensures
        r@ == proton_key(name@),
{
    let v = chars_of(to_lowercase(name).as_str());
    let ghost s = lowercase(name@);
    let ghost keep = |c: char| c != '-' && c != '_' && c != ' ' && c != '.';
    let mut r = String::new();
    assert(r@ =~= s.take(0).filter(keep)) by {
        reveal(Seq::filter);
    }
    for i in 0..v.len()
        invariant
            v@ == s,
            keep == (|c: char| c != '-' && c != '_' && c != ' ' && c != '.'),
            r@ == s.take(i as int).filter(keep),
    {
        assert(s.take(i + 1).drop_last() =~= s.take(i as int));
        let c = v[i];
        if c != '-' && c != '_' && c != ' ' && c != '.' {
            r.push(c);
        }
        assert(r@ == s.take(i + 1).filter(keep)) by {
            reveal(Seq::filter);
        }
    }
    assert(s.take(s.len() as int) =~= s);
    r
}

/// The index of the first character that is numeric (or not), or the length.
pub open spec fn first_numeric(s: Seq<char>, wanted: bool) -> int
    decreases s.len(),
{
    if s.len() == 0 || numeric(s[0]) == wanted {
        0
    } else {
        1 + first_numeric(s.skip(1), wanted)
    }
}

/// The first row of numeric characters.
pub open spec fn first_number(s: Seq<char>) -> Seq<char> {
    let rest = s.skip(first_numeric(s, true));
    rest.take(first_numeric(rest, false))
}

/// Two names hold the same first number.
pub open spec fn same_version(a: Seq<char>, b: Seq<char>) -> bool {
    first_number(a).len() > 0 && first_number(a) == first_number(b)
}

fn index_of_numeric(v: &Vec<char>, from: usize, wanted: bool) -> (r: usize)
    requires
        from <= v@.len(),
    ensures
        r - from == first_numeric(v@.skip(from as int), wanted),
        from <= r <= v@.len(),
{
    let ghost s = v@.skip(from as int);
    let mut i: usize = from;
    assert(s.skip(0) =~= s);
    while i < v.len()
        invariant
            s == v@.skip(from as int),
            from <= i <= v@.len(),
            first_numeric(s, wanted) == (i - from) + first_numeric(s.skip(i - from), wanted),
        decreases v@.len() - i,
    {
        assert(s.skip(i - from)[0] == v@[i as int]);
        assert(s.skip(i - from).skip(1) =~= s.skip(i + 1 - from));
        if is_numeric(v[i]) == wanted {
            return i;
        }
        i += 1;
    }
    i
}

fn number_in(s: &str) -> (r: String)
    ensures
        r@ == first_number(s@),
{
    let v = chars_of(s);
    let a = index_of_numeric(&v, 0, true);
    assert(v@.skip(0) =~= s@);
    let b = index_of_numeric(&v, a, false);
    let r = string_between(&v, a, b);
    assert(r@ =~= s@.skip(a as int).take(b - a));
    r
}

/// Whether two names of a Proton are of the same version: the first number in
/// them is the same.
pub fn tools_match_version(tool1: &str, tool2: &str) -> (r: bool)
    ensures
        r == same_version(tool1@, tool2@),
{
    let a = number_in(tool1);
    let b = number_in(tool2);
    !a.as_str().is_empty() && same(a.as_str(), b.as_str())
}

// ── Installations of Proton ─────────────────────────────────────────────────

/// A directory of compatibility tools, and what is in it.
pub struct ToolDirectory {
    pub path: String,
    pub entries: Vec<ToolEntry>,
}

/// An entry of a directory of compatibility tools: its name, whether it is a
/// directory, and whether it holds a `proton` script.
pub struct ToolEntry {
    pub name: String,
    pub directory: bool,
    pub has_script: bool,
}

/// A [`ToolEntry`] as a mathematical value.
#[verifier::ext_equal]
pub ghost struct ToolEntryView {
    pub name: Seq<char>,
    pub directory: bool,
    pub has_script: bool,
}

/// A [`ToolDirectory`] as a mathematical value.
#[verifier::ext_equal]
pub ghost struct ToolDirectoryView {
    pub path: Seq<char>,
    pub entries: Seq<ToolEntryView>,
}

impl DeepView for ToolEntry {
    type V = ToolEntryView;

    open spec fn deep_view(&self) -> ToolEntryView {
        ToolEntryView {
            name: self.name@,
            directory: self.directory,
            has_script: self.has_script,
        }
    }
}

impl DeepView for ToolDirectory {
    type V = ToolDirectoryView;

    open spec fn deep_view(&self) -> ToolDirectoryView {
        ToolDirectoryView { path: self.path@, entries: self.entries.deep_view() }
    }
}

/// The directories of a library in which Proton may be installed: that of its
/// applications, for the official ones, and the one for custom ones beside it.
pub open spec fn library_tool_dirs(library: Seq<char>, directories: Seq<Seq<char>>) -> Seq<
    Seq<char>,
> {
    let common = joined(library, "common"@);
    (if directories.contains(common) {
        seq![common]
    } else {
        Seq::empty()
    }) + (match parent_of(library) {
        Some(root) => {
            let tools = joined(root, "compatibilitytools.d"@);
            if directories.contains(tools) {
                seq![tools]
            } else {
                Seq::empty()
            }
        },
        None => Seq::empty(),
    })
}

/// The directories of the libraries in which Proton may be installed.
pub open spec fn libraries_tool_dirs(libraries: Seq<Seq<char>>, directories: Seq<Seq<char>>) -> Seq<
    Seq<char>,
>
    decreases libraries.len(),
{
    if libraries.len() == 0 {
        Seq::empty()
    } else {
        libraries_tool_dirs(libraries.drop_last(), directories) + library_tool_dirs(
            libraries.last(),
            directories,
        )
    }
}

/// The roots whose own directory of tools is looked at: all but that of a snap.
pub open spec fn tool_roots(home: Seq<char>) -> Seq<Seq<char>> {
    seq![root_candidates(home)[0], root_candidates(home)[1], root_candidates(home)[3]]
}

/// The known directories with those of the roots.
pub open spec fn with_root_tools(
    known: Seq<Seq<char>>,
    roots: Seq<Seq<char>>,
    directories: Seq<Seq<char>>,
) -> Seq<Seq<char>>
    decreases roots.len(),
{
    if roots.len() == 0 {
        known
    } else {
        let before = with_root_tools(known, roots.drop_last(), directories);
        let path = joined(roots.last(), "compatibilitytools.d"@);
        if directories.contains(path) && !holds_path(before, path) {
            before.push(path)
        } else {
            before
        }
    }
}

/// All directories in which Proton may be installed.
pub open spec fn proton_dirs(
    libraries: Seq<Seq<char>>,
    home: Option<Seq<char>>,
    directories: Seq<Seq<char>>,
) -> Seq<Seq<char>> {
    let known = libraries_tool_dirs(libraries, directories);
    match home {
        Some(h) => with_root_tools(known, tool_roots(h), directories),
        None => known,
    }
}

/// The directories in which Proton may be installed, given the libraries, the
/// home directory, and which directories there are.
pub fn find_proton_directories_in(
    libraries: &Vec<String>,
    home: Option<&str>,
    directories: &Vec<String>,
) -> (r: Vec<String>)
    ensures
        r.deep_view() == proton_dirs(
            libraries.deep_view(),
            home.deep_view(),
            directories.deep_view(),
        ),
{
    let ghost ls = libraries.deep_view();
    let ghost ds = directories.deep_view();
    let mut r: Vec<String> = Vec::new();
    assert(libraries_tool_dirs(ls.take(0), ds) =~= r.deep_view());
    for i in 0..libraries.len()
        invariant
            ls == libraries.deep_view(),
            ds == directories.deep_view(),
            r.deep_view() == libraries_tool_dirs(ls.take(i as int), ds),
    {
        let ghost start = r.deep_view();
        assert(ls.take(i + 1).drop_last() =~= ls.take(i as int));
        assert(ls[i as int] == libraries@[i as int]@);
        let common = join(libraries[i].as_str(), "common");
        let ghost cv = common@;
        if is_listed(directories, common.as_str()) {
            r.push(common);
            assert(r.deep_view() =~= start.push(cv));
        }
        let ghost mid = r.deep_view();
        match parent(libraries[i].as_str()) {
            Some(root) => {
                let tools = join(root.as_str(), "compatibilitytools.d");
                let ghost tv = tools@;
                if is_listed(directories, tools.as_str()) {
                    r.push(tools);
                    assert(r.deep_view() =~= mid.push(tv));
                }
            },
            None => {},
        }
        assert(r.deep_view() =~= start + library_tool_dirs(ls[i as int], ds));
    }
    assert(ls.take(ls.len() as int) =~= ls);
    match home {
        Some(h) => {
            let candidates = steam_root_candidates_in(h);
            let ghost cs = candidates.deep_view();
            assert(cs.len() == 4);
            let mut roots: Vec<String> = Vec::new();
            assert(cs[0] == candidates@[0]@ && cs[1] == candidates@[1]@ && cs[3]
                == candidates@[3]@);
            roots.push(owned(candidates[0].as_str()));
            roots.push(owned(candidates[1].as_str()));
            roots.push(owned(candidates[3].as_str()));
            let ghost rs = roots.deep_view();
            assert(rs =~= tool_roots(h@));
            let ghost known = r.deep_view();
            assert(with_root_tools(known, rs.take(0), ds) =~= known);
            for i in 0..roots.len()
                invariant
                    rs == roots.deep_view(),
                    ds == directories.deep_view(),
                    r.deep_view() == with_root_tools(known, rs.take(i as int), ds),
            {
                let ghost before = r.deep_view();
                assert(rs.take(i + 1).drop_last() =~= rs.take(i as int));
                assert(rs[i as int] == roots@[i as int]@);
                let path = join(roots[i].as_str(), "compatibilitytools.d");
                if is_listed(directories, path.as_str()) && !has_path(&r, path.as_str()) {
                    let ghost pv = path@;
                    r.push(path);
                    assert(r.deep_view() =~= before.push(pv));
                }
            }
            assert(rs.take(rs.len() as int) =~= rs);
        },
        None => {},
    }
    r
}

/// The directories in which Proton may be installed for this user, given the
/// libraries and which directories there are.
pub fn find_proton_directories(libraries: &Vec<String>, directories: &Vec<String>) -> (r: Vec<
    String,
>)
    ensures
        exists|home: Option<Seq<char>>|
            r.deep_view() == #[trigger] proton_dirs(
                libraries.deep_view(),
                home,
                directories.deep_view(),
            ),
{
    let home = user_home_dir();
    let ghost h = home.deep_view();
    let r = match &home {
        Some(dir) => find_proton_directories_in(libraries, Some(dir.as_str()), directories),
        None => find_proton_directories_in(libraries, None, directories),
    };
    assert(r.deep_view() == proton_dirs(libraries.deep_view(), h, directories.deep_view()));
    r
}

/// The entry is an installation of the Proton with the given name: by its name,
/// or by its version where both names tell that they are Protons.
pub open spec fn is_named_proton(e: ToolEntryView, tool: Seq<char>) -> bool {
    &&& e.directory
    &&& e.has_script
    &&& (e.name == tool || proton_key(e.name) == proton_key(tool) || (has_infix(tool, "proton"@)
        && has_infix(lowercase(e.name), "proton"@) && same_version(
        lowercase(tool),
        lowercase(e.name),
    )))
}

/// The index of the first such entry, or their number.
pub open spec fn named_index(entries: Seq<ToolEntryView>, tool: Seq<char>) -> int
    decreases entries.len(),
{
    if entries.len() == 0 || is_named_proton(entries[0], tool) {
        0
    } else {
        1 + named_index(entries.skip(1), tool)
    }
}

/// The installation of the Proton with the given name in the first directory
/// that has it.
pub open spec fn proton_by_name(dirs: Seq<ToolDirectoryView>, tool: Seq<char>) -> Option<Seq<char>>
    decreases dirs.len(),
{
    if dirs.len() == 0 {
        None
    } else {
        let i = named_index(dirs[0].entries, tool);
        if i < dirs[0].entries.len() {
            Some(joined(dirs[0].path, dirs[0].entries[i].name))
        } else {
            proton_by_name(dirs.skip(1), tool)
        }
    }
}

fn is_proton_named(e: &ToolEntry, tool: &str) -> (r: bool)
    ensures
        r == is_named_proton(e.deep_view(), tool@),
{
    if !e.directory || !e.has_script {
        return false;
    }
    let name = e.name.as_str();
    if same(name, tool) || same(
        normalize_proton_name(name).as_str(),
        normalize_proton_name(tool).as_str(),
    ) {
        return true;
    }
    let lower = to_lowercase(name);
    contains(tool, "proton") && contains(lower.as_str(), "proton") && tools_match_version(
        to_lowercase(tool).as_str(),
        lower.as_str(),
    )
}

fn find_named(entries: &Vec<ToolEntry>, tool: &str) -> (r: usize)
    ensures
        r == named_index(entries.deep_view(), tool@),
        r <= entries@.len(),
{
    let ghost all = entries.deep_view();
    let mut i: usize = 0;
    assert(all.skip(0) =~= all);
    while i < entries.len()
        invariant
            all == entries.deep_view(),
            i <= entries@.len(),
            named_index(all, tool@) == i + named_index(all.skip(i as int), tool@),
        decreases entries@.len() - i,
    {
        assert(all[i as int] == entries@[i as int].deep_view());
        assert(all.skip(i as int).skip(1) =~= all.skip(i + 1));
        if is_proton_named(&entries[i], tool) {
            return i;
        }
        i += 1;
    }
    i
}

/// The installation of the Proton with the given name, as Steam's configuration
/// or the compatibility data of a game has it.
pub fn find_proton_by_name(dirs: &Vec<ToolDirectory>, tool_name: &str) -> (r: Option<String>)
    ensures
        r.deep_view() == proton_by_name(dirs.deep_view(), tool_name@),
{
    let ghost all = dirs.deep_view();
    let mut i: usize = 0;
    assert(all.skip(0) =~= all);
    while i < dirs.len()
        invariant
            all == dirs.deep_view(),
            i <= dirs@.len(),
            proton_by_name(all, tool_name@) == proton_by_name(all.skip(i as int), tool_name@),
        decreases dirs@.len() - i,
    {
        assert(all[i as int] == dirs@[i as int].deep_view());
        assert(all.skip(i as int).skip(1) =~= all.skip(i + 1));
        let dir = &dirs[i];
        let k = find_named(&dir.entries, tool_name);
        if k < dir.entries.len() {
            assert(dir.entries.deep_view()[k as int] == dir.entries@[k as int].deep_view());
            return Some(join(dir.path.as_str(), dir.entries[k].name.as_str()));
        }
        i += 1;
    }
    None
}

/// The entry is an installation of some Proton.
pub open spec fn is_any_proton(e: ToolEntryView) -> bool {
    has_infix(lowercase(e.name), "proton"@) && e.has_script
}

/// The index of the installation of some Proton whose name comes last, or -1.
pub open spec fn newest_index(entries: Seq<ToolEntryView>) -> int
    decreases entries.len(),
{
    if entries.len() == 0 {
        -1
    } else {
        let best = newest_index(entries.drop_last());
        if is_any_proton(entries.last()) && (best < 0 || precedes(
            entries[best].name,
            entries.last().name,
        )) {
            entries.len() - 1
        } else {
            best
        }
    }
}

/// The installation whose name comes last in the first directory that has any.
pub open spec fn any_proton(dirs: Seq<ToolDirectoryView>) -> Option<Seq<char>>
    decreases dirs.len(),
{
    if dirs.len() == 0 {
        None
    } else {
        let i = newest_index(dirs[0].entries);
        if i >= 0 {
            Some(joined(dirs[0].path, dirs[0].entries[i].name))
        } else {
            any_proton(dirs.skip(1))
        }
    }
}

proof fn lemma_newest_index(entries: Seq<ToolEntryView>)
    ensures
        -1 <= newest_index(entries) < entries.len(),
    decreases entries.len(),
{
    if entries.len() > 0 {
        lemma_newest_index(entries.drop_last());
    }
}

fn find_newest(entries: &Vec<ToolEntry>) -> (r: Option<usize>)
    ensures
        match r {
            Some(i) => newest_index(entries.deep_view()) == i && i < entries@.len(),
            None => newest_index(entries.deep_view()) == -1,
        },
{
    let ghost all = entries.deep_view();
    let mut best: Option<usize> = None;
    for i in 0..entries.len()
        invariant
            all == entries.deep_view(),
            match best {
                Some(b) => newest_index(all.take(i as int)) == b && b < i,
                None => newest_index(all.take(i as int)) == -1,
            },
    {
        assert(all.take(i + 1).drop_last() =~= all.take(i as int));
        assert(all[i as int] == entries@[i as int].deep_view());
        let e = &entries[i];
        if contains(to_lowercase(e.name.as_str()).as_str(), "proton") && e.has_script {
            let newer = match best {
                Some(b) => {
                    assert(all.take(i + 1)[b as int] == entries@[b as int].deep_view());
                    less(entries[b].name.as_str(), e.name.as_str())
                },
                None => true,
            };
            if newer {
                best = Some(i);
            }
        }
    }
    assert(all.take(all.len() as int) =~= all);
    best
}

fn find_any_proton(dirs: &Vec<ToolDirectory>) -> (r: Option<String>)
    ensures
        r.deep_view() == any_proton(dirs.deep_view()),
{
    let ghost all = dirs.deep_view();
    let mut i: usize = 0;
    assert(all.skip(0) =~= all);
    while i < dirs.len()
        invariant
            all == dirs.deep_view(),
            i <= dirs@.len(),
            any_proton(all) == any_proton(all.skip(i as int)),
        decreases dirs@.len() - i,
    {
        assert(all[i as int] == dirs@[i as int].deep_view());
        assert(all.skip(i as int).skip(1) =~= all.skip(i + 1));
        let dir = &dirs[i];
        match find_newest(&dir.entries) {
            Some(k) => {
                assert(dir.entries.deep_view()[k as int] == dir.entries@[k as int].deep_view());
                return Some(join(dir.path.as_str(), dir.entries[k].name.as_str()));
            },
            None => {},
        }
        i += 1;
    }
    None
}

/// The configuration files of Steam, below the directories in which it may
/// live.
pub open spec fn config_candidates(home: Seq<char>) -> Seq<Seq<char>> {
    root_candidates(home).map_values(
        |r: Seq<char>| joined(joined(r, "config"@), "config.vdf"@),
    )
}

/// The configuration files of Steam that are looked at, in order.
pub fn steam_config_candidates_in(home: &str) -> (r: Vec<String>)
    ensures
        r.deep_view() == config_candidates(home@),
{
    let roots = steam_root_candidates_in(home);
    let ghost rs = roots.deep_view();
    let mut r: Vec<String> = Vec::new();
    for i in 0..roots.len()
        invariant
            rs == roots.deep_view(),
            r@.len() == i,
            forall|j: int|
                0 <= j < i ==> #[trigger] r@[j]@ == joined(
                    joined(rs[j], "config"@),
                    "config.vdf"@,
                ),
    {
        assert(rs[i as int] == roots@[i as int]@);
        r.push(join(join(roots[i].as_str(), "config").as_str(), "config.vdf"));
    }
    assert(r.deep_view() =~= config_candidates(home@));
    r
}

/// The configuration files of Steam: none without a home directory.
pub open spec fn known_configs(home: Option<Seq<char>>) -> Seq<Seq<char>> {
    match home {
        Some(h) => config_candidates(h),
        None => Seq::empty(),
    }
}

/// The configuration files of this user's Steam that are looked at, in order.
pub fn steam_config_candidates() -> (r: Vec<String>)
    ensures
        exists|home: Option<Seq<char>>| r.deep_view() == #[trigger] known_configs(home),
{
    let home = user_home_dir();
    let ghost h = home.deep_view();
    let r = match &home {
        Some(dir) => steam_config_candidates_in(dir.as_str()),
        None => Vec::new(),
    };
    assert(r.deep_view() =~= known_configs(h));
    r
}

/// The tool that the first of the texts that maps the application maps it to.
pub open spec fn configured_tool(texts: Seq<Option<Seq<char>>>, app_id: u32) -> Option<Seq<char>>
    decreases texts.len(),
{
    if texts.len() == 0 {
        None
    } else {
        let tool = match texts[0] {
            Some(t) => mapped_tool(clean_lines(t), 0, None, 0, decimal(app_id as nat)),
            None => None,
        };
        match tool {
            Some(t) => Some(t),
            None => configured_tool(texts.skip(1), app_id),
        }
    }
}

/// The tool that Steam's configuration maps an application to, given the texts
/// of [`steam_config_candidates`], as far as they could be read.
pub fn parse_per_game_proton_config(texts: &Vec<Option<String>>, app_id: u32) -> (r: Option<String>)
    ensures
        r.deep_view() == configured_tool(texts.deep_view(), app_id),
{
    let ghost all = texts.deep_view();
    let mut i: usize = 0;
    assert(all.skip(0) =~= all);
    while i < texts.len()
        invariant
            all == texts.deep_view(),
            i <= texts@.len(),
            configured_tool(all, app_id) == configured_tool(all.skip(i as int), app_id),
        decreases texts@.len() - i,
    {
        assert(all[i as int] == texts@[i as int].deep_view());
        assert(all.skip(i as int).skip(1) =~= all.skip(i + 1));
        match &texts[i] {
            Some(text) => match parse_compat_tool_mapping(text.as_str(), app_id) {
                Some(tool) => {
                    return Some(tool);
                },
                None => {},
            },
            None => {},
        }
        i += 1;
    }
    None
}

/// The first line of a version file without white space around it.
pub open spec fn version_line(text: Seq<char>) -> Option<Seq<char>> {
    if clean_lines(text).len() > 0 {
        Some(clean_lines(text)[0])
    } else {
        None
    }
}

fn first_line_of(text: &str) -> (r: Option<String>)
    ensures
        r.deep_view() == version_line(text@),
{
    let all = lines(text);
    if all.len() > 0 {
        assert(all.deep_view()[0] == all@[0]@);
        Some(trim(all[0].as_str()))
    } else {
        None
    }
}

/// What is known when the Proton of a game is looked for.
pub struct ProtonFacts<'a> {
    /// The compatibility data of the game.
    pub compatdata: Option<&'a str>,
    /// The tool that Steam's configuration maps the game to.
    pub configured: Option<&'a str>,
    /// The text of the version file in the compatibility data.
    pub version_file: Option<&'a str>,
    /// The directories in which Proton may be installed.
    pub dirs: &'a Vec<ToolDirectory>,
}

/// The Proton of a game: the one that is configured, or else the one that made
/// the compatibility data, or else any.
pub open spec fn proton_for(
    dirs: Seq<ToolDirectoryView>,
    configured: Option<Seq<char>>,
    version_file: Option<Seq<char>>,
) -> Option<Seq<char>> {
    if configured is Some && proton_by_name(dirs, configured->0) is Some {
        proton_by_name(dirs, configured->0)
    } else if version_file is Some && version_line(version_file->0) is Some && proton_by_name(
        dirs,
        version_line(version_file->0)->0,
    ) is Some {
        proton_by_name(dirs, version_line(version_file->0)->0)
    } else {
        any_proton(dirs)
    }
}

/// The Proton of a game and its compatibility data, or why they cannot be had.
pub open spec fn proton_result(
    app_id: u32,
    compatdata: Option<Seq<char>>,
    proton: Option<Seq<char>>,
) -> Result<(Seq<char>, Seq<char>), Seq<char>> {
    match compatdata {
        None => Err("Could not find compatdata for App ID "@ + decimal(app_id as nat)),
        Some(c) => match proton {
            Some(p) => Ok((p, c)),
            None => Err("Could not find any Proton installation"@),
        },
    }
}

/// The Proton of a game and its compatibility data.
pub fn find_proton_for_game(app_id: u32, facts: &ProtonFacts<'_>) -> (r: Result<
    (String, String),
    String,
>)
    ensures
        match r {
            Ok((p, c)) => proton_result(
                app_id,
                facts.compatdata.deep_view(),
                proton_for(
                    facts.dirs.deep_view(),
                    facts.configured.deep_view(),
                    facts.version_file.deep_view(),
                ),
            ) == Ok::<(Seq<char>, Seq<char>), Seq<char>>((p@, c@)),
            Err(e) => proton_result(
                app_id,
                facts.compatdata.deep_view(),
                proton_for(
                    facts.dirs.deep_view(),
                    facts.configured.deep_view(),
                    facts.version_file.deep_view(),
                ),
            ) == Err::<(Seq<char>, Seq<char>), Seq<char>>(e@),
        },
{
    let compatdata = match facts.compatdata {
        Some(c) => owned(c),
        None => {
            return Err(
                concat2(
                    "Could not find compatdata for App ID ",
                    decimal_string(app_id as u128).as_str(),
                ),
            );
        },
    };
    match facts.configured {
        Some(tool) => match find_proton_by_name(facts.dirs, tool) {
            Some(p) => {
                return Ok((p, compatdata));
            },
            None => {},
        },
        None => {},
    }
    match facts.version_file {
        Some(text) => match first_line_of(text) {
            Some(version) => match find_proton_by_name(facts.dirs, version.as_str()) {
                Some(p) => {
                    return Ok((p, compatdata));
                },
                None => {},
            },
            None => {},
        },
        None => {},
    }
    match find_any_proton(facts.dirs) {
        Some(p) => Ok((p, compatdata)),
        None => Err(owned("Could not find any Proton installation")),
    }
}

/// A Proton that is configured for a game and installed is the one the game
/// gets, whatever else is installed.
pub proof fn configured_proton_wins(
    dirs: Seq<ToolDirectoryView>,
    tool: Seq<char>,
    version_file: Option<Seq<char>>,
)
    requires
        proton_by_name(dirs, tool) is Some,
    ensures
        proton_for(dirs, Some(tool), version_file) == proton_by_name(dirs, tool),
{
}

// ── Tools ───────────────────────────────────────────────────────────────────

/// What a tool is to be run with, and what is there.
pub struct ToolRequest<'a> {
    pub exe_path: &'a str,
    pub arguments: &'a str,
    pub app_id: u32,
    pub proton_path: &'a str,
    pub compatdata_path: &'a str,
    pub steam_root: Option<&'a str>,
    pub script_exists: bool,
    pub exe_exists: bool,
}

/// Why a tool cannot be run, if it cannot.
pub open spec fn tool_problem(t: ToolRequest) -> Option<Seq<char>> {
    if !t.script_exists {
        Some("Proton script not found at "@ + joined(t.proton_path@, "proton"@))
    } else if !t.exe_exists {
        Some("Executable not found at "@ + t.exe_path@)
    } else if t.steam_root is None {
        Some("Could not find Steam installation"@)
    } else if arguments_of(t.arguments@) is None {
        Some("Tool arguments contain an unmatched quote"@)
    } else {
        None
    }
}

/// What the tool is run with.
pub open spec fn tool_launch(t: ToolRequest) -> ToolLaunchView {
    ToolLaunchView {
        proton_script: joined(t.proton_path@, "proton"@),
        exe_path: t.exe_path@,
        arguments: t.arguments@,
        steam_root: t.steam_root->0@,
        compatdata_path: t.compatdata_path@,
        app_id: t.app_id,
    }
}

/// The command that runs a tool with the Proton of a game: through Flatpak if
/// the Proton or the compatibility data lies there.
pub fn build_tool_command(t: &ToolRequest<'_>) -> (r: Result<CommandLine, String>)
    ensures
        match tool_problem(*t) {
            Some(e) => r is Err && r->Err_0@ == e,
            None => r is Ok && r->Ok_0.deep_view() == (if in_flatpak(t.proton_path@) || in_flatpak(
                t.compatdata_path@,
            ) {
                flatpak_tool(tool_launch(*t), arguments_of(t.arguments@)->0)
            } else {
                native_tool(tool_launch(*t), arguments_of(t.arguments@)->0)
            }),
        },
{
    let script = join(t.proton_path, "proton");
    if !t.script_exists {
        return Err(concat2("Proton script not found at ", script.as_str()));
    }
    if !t.exe_exists {
        return Err(concat2("Executable not found at ", t.exe_path));
    }
    let steam_root = match t.steam_root {
        Some(r) => r,
        None => {
            return Err(owned("Could not find Steam installation"));
        },
    };
    let launch = ToolLaunch {
        proton_script: script.as_str(),
        exe_path: t.exe_path,
        arguments: t.arguments,
        steam_root,
        compatdata_path: t.compatdata_path,
        app_id: t.app_id,
    };
    assert(launch.deep_view() =~= tool_launch(*t));
    if is_path_in_flatpak(t.proton_path) || is_path_in_flatpak(t.compatdata_path) {
        build_flatpak_tool_command(&launch)
    } else {
        build_native_tool_command(&launch)
    }
}

// ── Laws ────────────────────────────────────────────────────────────────────

/// An absolute path made of names with single slashes between them.
pub open spec fn is_plain_directory(path: Seq<char>) -> bool {
    exists|names: Seq<Seq<char>>| #[trigger] names_absolute(names, path)
}

/// The path is the absolute one with the names.
pub open spec fn names_absolute(names: Seq<Seq<char>>, path: Seq<char>) -> bool {
    &&& names.len() > 0
    &&& forall|i: int| 0 <= i < names.len() ==> is_name(#[trigger] names[i])
    &&& path == seq!['/'] + interspersed(names, '/')
}

proof fn lemma_steamapps(path: Seq<char>)
    requires
        is_plain_directory(path),
    ensures
        joined(path, "steamapps"@) == path + "/steamapps"@,
        is_plain_directory(path + "/steamapps"@),
{
    reveal_strlit("steamapps");
    reveal_strlit("/steamapps");
    let names = choose|names: Seq<Seq<char>>| #[trigger] names_absolute(names, path);
    let more = names.push("steamapps"@);
    assert forall|i: int| 0 <= i < more.len() implies is_name(#[trigger] more[i]) by {
        if i < names.len() {
            assert(more[i] == names[i]);
            assert(is_name(names[i]));
        } else {
            assert("steamapps"@.len() == 9);
        }
    }
    assert(more.drop_last() =~= names);
    assert(interspersed(more, '/') == interspersed(names, '/').push('/') + "steamapps"@);
    assert("/steamapps"@ =~= seq!['/'] + "steamapps"@);
    assert(path + "/steamapps"@ =~= seq!['/'] + interspersed(more, '/'));
    assert(names_absolute(more, path + "/steamapps"@));
    lemma_plain_end(names);
    assert(path.last() != '/');
    assert(path + seq!['/'] + "steamapps"@ =~= path + "/steamapps"@);
}

proof fn lemma_plain_end(names: Seq<Seq<char>>)
    requires
        names.len() > 0,
        forall|i: int| 0 <= i < names.len() ==> is_name(#[trigger] names[i]),
    ensures
        interspersed(names, '/').len() > 0,
        interspersed(names, '/').last() != '/',
{
    let last = names.last();
    assert(is_name(names[names.len() - 1]));
    assert(last.contains(last[last.len() - 1]));
    if names.len() > 1 {
        assert(interspersed(names, '/').last() == last.last());
    }
}

proof fn lemma_plain_same(a: Seq<char>, b: Seq<char>)
    requires
        is_plain_directory(a),
        is_plain_directory(b),
    ensures
        path_same(a, b) <==> a == b,
{
    let x = choose|names: Seq<Seq<char>>| #[trigger] names_absolute(names, a);
    let y = choose|names: Seq<Seq<char>>| #[trigger] names_absolute(names, b);
    let p = interspersed(x, '/');
    let q = interspersed(y, '/');
    written_paths_are_same_if_equal(x, y, p, q);
    if a == b {
        assert(a.skip(1) =~= p);
        assert(b.skip(1) =~= q);
    }
}

proof fn lemma_with_folders(
    own: Seq<char>,
    folders: Seq<Seq<char>>,
    directories: Seq<Seq<char>>,
)
    requires
        is_plain_directory(own),
        forall|i: int| 0 <= i < folders.len() ==> is_plain_directory(#[trigger] folders[i]),
    ensures
        ({
            let found = with_folders(seq![own], folders, directories);
            &&& found.no_duplicates()
            &&& forall|i: int| 0 <= i < found.len() ==> is_plain_directory(#[trigger] found[i])
            &&& forall|x: Seq<char>| #[trigger]
                found.contains(x) <==> x == own || (directories.contains(x) && exists|k: int|
                    0 <= k < folders.len() && x == (#[trigger] folders[k]) + "/steamapps"@)
        }),
    decreases folders.len(),
{
    let found = with_folders(seq![own], folders, directories);
    if folders.len() == 0 {
        assert forall|x: Seq<char>| #[trigger] found.contains(x) <==> x == own || (
        directories.contains(x) && exists|k: int|
            0 <= k < folders.len() && x == (#[trigger] folders[k]) + "/steamapps"@) by {
            assert(found[0] == own);
        }
    } else {
        let rest = folders.drop_last();
        assert forall|i: int| 0 <= i < rest.len() implies is_plain_directory(#[trigger] rest[i]) by {
            assert(rest[i] == folders[i]);
        }
        lemma_with_folders(own, rest, directories);
        let before = with_folders(seq![own], rest, directories);
        let n = folders.len() - 1;
        assert(is_plain_directory(folders[n]));
        lemma_steamapps(folders[n]);
        let path = folders[n] + "/steamapps"@;
        assert(holds_path(before, path) <==> before.contains(path)) by {
            if holds_path(before, path) {
                let i = choose|i: int| 0 <= i < before.len() && path_same(#[trigger] before[i], path);
                assert(is_plain_directory(before[i]));
                lemma_plain_same(before[i], path);
                assert(before.contains(before[i]));
            }
            if before.contains(path) {
                let i = choose|i: int| 0 <= i < before.len() && before[i] == path;
                lemma_plain_same(before[i], path);
                assert(path_same(before[i], path));
            }
        }
        assert forall|x: Seq<char>| #[trigger] found.contains(x) <==> x == own || (
        directories.contains(x) && exists|k: int|
            0 <= k < folders.len() && x == (#[trigger] folders[k]) + "/steamapps"@) by {
            assert(before.contains(x) <==> x == own || (directories.contains(x) && exists|k: int|
                0 <= k < rest.len() && x == (#[trigger] rest[k]) + "/steamapps"@));
            if exists|k: int| 0 <= k < rest.len() && x == (#[trigger] rest[k]) + "/steamapps"@ {
                let k = choose|k: int|
                    0 <= k < rest.len() && x == (#[trigger] rest[k]) + "/steamapps"@;
                assert(folders[k] == rest[k]);
            }
            if exists|k: int| 0 <= k < folders.len() && x == (#[trigger] folders[k])
                + "/steamapps"@ {
                let k = choose|k: int|
                    0 <= k < folders.len() && x == (#[trigger] folders[k]) + "/steamapps"@;
                if k < rest.len() {
                    assert(folders[k] == rest[k]);
                }
            }
            if found.len() > before.len() {
                if before.contains(x) {
                    let i = choose|i: int| 0 <= i < before.len() && before[i] == x;
                    assert(found[i] == x);
                }
                assert(found[before.len() as int] == path);
                if found.contains(x) && x != path {
                    let i = choose|i: int| 0 <= i < found.len() && found[i] == x;
                    assert(before[i] == x);
                }
            }
            if x == path {
                assert(x == folders[n] + "/steamapps"@);
            }
        }
        assert forall|i: int, j: int| 0 <= i < found.len() && 0 <= j < found.len() && i
            != j implies found[i] != found[j] by {
            if i < before.len() && j < before.len() {
                assert(before[i] != before[j]);
            } else if i < before.len() {
                assert(before.contains(before[i]));
            } else {
                assert(before.contains(before[j]));
            }
        }
        assert forall|i: int| 0 <= i < found.len() implies is_plain_directory(
            #[trigger] found[i],
        ) by {
            if i < before.len() {
                assert(found[i] == before[i]);
            }
        }
    }
}

/// The libraries that are found are the `steamapps` directory of the root and,
/// of the folders that a `libraryfolders.vdf` lists, those with a `steamapps`
/// directory: each of them, none other, and none twice.
pub proof fn listed_libraries_are_found(
    root: Seq<char>,
    folders: Seq<Seq<char>>,
    directories: Seq<Seq<char>>,
    library: Seq<char>,
)
    requires
        is_plain_directory(root),
        directories.contains(root + "/steamapps"@),
        forall|i: int| 0 <= i < folders.len() ==> is_plain_directory(#[trigger] folders[i]),
        forall|i: int| 0 <= i < folders.len() ==> is_quotable(#[trigger] folders[i]),
    ensures
        libraries_of(root, Some(library_folders_vdf(folders)), directories).no_duplicates(),
        libraries_of(root, Some(library_folders_vdf(folders)), directories).contains(library)
            <==> library == root + "/steamapps"@ || (directories.contains(library) && exists|k: int|
            0 <= k < folders.len() && library == (#[trigger] folders[k]) + "/steamapps"@),
        libraries_of(root, Some(library_folders_vdf(folders)), directories)[0] == root
            + "/steamapps"@,
        libraries_of(root, None, directories) == seq![root + "/steamapps"@],
{
    lemma_steamapps(root);
    library_folders_are_read_back(folders);
    lemma_with_folders(root + "/steamapps"@, folders, directories);
    lemma_own_first(root + "/steamapps"@, folders, directories);
}

proof fn lemma_own_first(own: Seq<char>, folders: Seq<Seq<char>>, directories: Seq<Seq<char>>)
    ensures
        with_folders(seq![own], folders, directories).len() > 0,
        with_folders(seq![own], folders, directories)[0] == own,
    decreases folders.len(),
{
    if folders.len() > 0 {
        lemma_own_first(own, folders.drop_last(), directories);
    }
}

/// A Steam root without a `steamapps` directory has no libraries.
pub proof fn root_without_applications_has_no_libraries(
    root: Seq<char>,
    vdf: Option<Seq<char>>,
    directories: Seq<Seq<char>>,
)
    requires
        is_plain_directory(root),
        !directories.contains(root + "/steamapps"@),
    ensures
        libraries_of(root, vdf, directories).len() == 0,
{
    lemma_steamapps(root);
}

proof fn lemma_join_two(a: Seq<char>, b: Seq<char>, c: Seq<char>)
    requires
        a.len() > 0,
        a.last() != '/',
        b.len() > 0,
        b[0] != '/',
        b.last() != '/',
        c.len() > 0,
        c[0] != '/',
    ensures
        joined(joined(a, b), c) == a + seq!['/'] + b + seq!['/'] + c,
{
    assert((a + seq!['/'] + b).last() == b.last());
}

/// A game is found where the manifest of a library says that it is installed, in
/// the first library of which that is so: below the library's `common`
/// directory.
pub proof fn game_is_found_where_its_manifest_says(
    libraries: Seq<Seq<char>>,
    manifests: Seq<Option<Seq<char>>>,
    directories: Seq<Seq<char>>,
    app: Seq<char>,
    dir: Seq<char>,
    k: int,
)
    requires
        0 <= k < libraries.len() == manifests.len(),
        libraries[k].len() > 0,
        libraries[k].last() != '/',
        is_quotable(app),
        is_quotable(dir),
        dir.len() > 0,
        dir[0] != '/',
        manifests[k] == Some(manifest_text(app, dir)),
        directories.contains(libraries[k] + "/common/"@ + dir),
        forall|j: int| 0 <= j < k ==> (#[trigger] manifests[j]) is None,
    ensures
        game_path(libraries, manifests, directories) == Some(libraries[k] + "/common/"@ + dir),
    decreases k,
{
    if k == 0 {
        reveal_strlit("common");
        reveal_strlit("/common/");
        manifest_is_read_back(app, dir);
        lemma_join_two(libraries[0], "common"@, dir);
        assert(libraries[0] + seq!['/'] + "common"@ + seq!['/'] + dir =~= libraries[0]
            + "/common/"@ + dir);
    } else {
        let ls = libraries.skip(1);
        let ms = manifests.skip(1);
        assert forall|j: int| 0 <= j < k - 1 implies (#[trigger] ms[j]) is None by {
            assert(ms[j] == manifests[j + 1]);
        }
        assert(manifests[0] is None);
        game_is_found_where_its_manifest_says(ls, ms, directories, app, dir, k - 1);
    }
}

/// A game that is found lies in one of the directories there are, below the
/// `common` directory of a library with a manifest for it.
pub proof fn found_game_is_installed(
    libraries: Seq<Seq<char>>,
    manifests: Seq<Option<Seq<char>>>,
    directories: Seq<Seq<char>>,
)
    requires
        libraries.len() == manifests.len(),
        game_path(libraries, manifests, directories) is Some,
    ensures
        directories.contains(game_path(libraries, manifests, directories)->0),
        exists|k: int| 0 <= k < manifests.len() && (#[trigger] manifests[k]) is Some,
    decreases libraries.len(),
{
    if libraries.len() > 0 && installed_at(libraries[0], manifests[0], directories) is None {
        found_game_is_installed(libraries.skip(1), manifests.skip(1), directories);
        let ms = manifests.skip(1);
        let k = choose|k: int| 0 <= k < ms.len() && (#[trigger] ms[k]) is Some;
        assert(manifests[k + 1] is Some);
    } else {
        assert(manifests[0] is Some);
    }
}

/// The applications of a library are those whose manifests it holds.
pub proof fn manifests_name_their_applications(ids: Seq<u32>)
    ensures
        app_ids(
            ids.map_values(|id: u32| "appmanifest_"@ + decimal(id as nat) + ".acf"@),
        ) == ids,
    decreases ids.len(),
{
    let f = |id: u32| "appmanifest_"@ + decimal(id as nat) + ".acf"@;
    let names = ids.map_values(f);
    if ids.len() > 0 {
        let rest = ids.drop_last();
        manifests_name_their_applications(rest);
        assert(names.drop_last() =~= rest.map_values(f));
        let d = decimal(ids.last() as nat);
        let name = names.last();
        let prefix = "appmanifest_"@;
        let suffix = ".acf"@;
        assert(name.subrange(0, prefix.len() as int) =~= prefix);
        let middle = name.skip(prefix.len() as int);
        assert(middle =~= d + suffix);
        assert(middle.subrange(middle.len() - suffix.len(), middle.len() as int) =~= suffix);
        assert(middle.take(middle.len() - suffix.len()) =~= d);
        parse_inverts_decimal(ids.last() as nat, u32::MAX as nat);
        assert(app_ids(names) =~= ids);
    } else {
        assert(app_ids(names) =~= ids);
    }
}

proof fn lemma_first_compatdata(
    libraries: Seq<Seq<char>>,
    app_id: u32,
    files: Seq<Seq<char>>,
    directories: Seq<Seq<char>>,
    with_manifest: bool,
    k: int,
)
    requires
        0 <= k < libraries.len(),
        !with_manifest || files.contains(manifest_path(libraries[k], app_id)),
        directories.contains(compatdata_in(libraries[k], app_id)),
        forall|j: int|
            0 <= j < k ==> !directories.contains(compatdata_in(#[trigger] libraries[j], app_id))
                || (with_manifest && !files.contains(manifest_path(libraries[j], app_id))),
    ensures
        first_compatdata(libraries, app_id, files, directories, with_manifest) == Some(
            compatdata_in(libraries[k], app_id),
        ),
    decreases k,
{
    if k > 0 {
        let rest = libraries.skip(1);
        assert forall|j: int| 0 <= j < k - 1 implies !directories.contains(
            compatdata_in(#[trigger] rest[j], app_id),
        ) || (with_manifest && !files.contains(manifest_path(rest[j], app_id))) by {
            assert(rest[j] == libraries[j + 1]);
        }
        assert(!directories.contains(compatdata_in(libraries[0], app_id)) || (with_manifest
            && !files.contains(manifest_path(libraries[0], app_id))));
        lemma_first_compatdata(rest, app_id, files, directories, with_manifest, k - 1);
    }
}

/// A library that holds the manifest of an application and its compatibility
/// data gives the latter, before libraries that hold only the data.
pub proof fn compatibility_data_lies_beside_the_manifest(
    libraries: Seq<Seq<char>>,
    app_id: u32,
    files: Seq<Seq<char>>,
    directories: Seq<Seq<char>>,
    k: int,
)
    requires
        0 <= k < libraries.len(),
        forall|j: int|
            0 <= j < libraries.len() ==> (#[trigger] libraries[j]).len() > 0
                && libraries[j].last() != '/',
        files.contains(libraries[k] + "/appmanifest_"@ + decimal(app_id as nat) + ".acf"@),
        directories.contains(libraries[k] + "/compatdata/"@ + decimal(app_id as nat)),
        forall|j: int|
            0 <= j < k ==> !files.contains(
                (#[trigger] libraries[j]) + "/appmanifest_"@ + decimal(app_id as nat) + ".acf"@,
            ),
    ensures
        compatdata_of(libraries, app_id, files, directories) == Some(
            libraries[k] + "/compatdata/"@ + decimal(app_id as nat),
        ),
{
    reveal_strlit("compatdata");
    reveal_strlit("/compatdata/");
    reveal_strlit("appmanifest_");
    reveal_strlit("/appmanifest_");
    let d = decimal(app_id as nat);
    lemma_decimal_digits(app_id as nat);
    assert(is_ascii_digit(d[0]));
    assert forall|j: int| 0 <= j < libraries.len() implies compatdata_in(
        #[trigger] libraries[j],
        app_id,
    ) == libraries[j] + "/compatdata/"@ + d && manifest_path(libraries[j], app_id) == libraries[j]
        + "/appmanifest_"@ + d + ".acf"@ by {
        let l = libraries[j];
        lemma_join_two(l, "compatdata"@, d);
        assert(l + seq!['/'] + "compatdata"@ + seq!['/'] + d =~= l + "/compatdata/"@ + d);
        let name = "appmanifest_"@ + d + ".acf"@;
        assert(name[0] == 'a');
        assert(l + seq!['/'] + name =~= l + "/appmanifest_"@ + d + ".acf"@);
    }
    lemma_first_compatdata(libraries, app_id, files, directories, true, k);
}

/// Without any manifest the first library that holds the compatibility data of
/// an application gives it.
pub proof fn compatibility_data_is_found_without_manifest(
    libraries: Seq<Seq<char>>,
    app_id: u32,
    directories: Seq<Seq<char>>,
    k: int,
)
    requires
        0 <= k < libraries.len(),
        forall|j: int|
            0 <= j < libraries.len() ==> (#[trigger] libraries[j]).len() > 0
                && libraries[j].last() != '/',
        directories.contains(libraries[k] + "/compatdata/"@ + decimal(app_id as nat)),
        forall|j: int|
            0 <= j < k ==> !directories.contains(
                (#[trigger] libraries[j]) + "/compatdata/"@ + decimal(app_id as nat),
            ),
    ensures
        compatdata_of(libraries, app_id, Seq::empty(), directories) == Some(
            libraries[k] + "/compatdata/"@ + decimal(app_id as nat),
        ),
{
    reveal_strlit("compatdata");
    reveal_strlit("/compatdata/");
    let d = decimal(app_id as nat);
    lemma_decimal_digits(app_id as nat);
    assert(is_ascii_digit(d[0]));
    assert forall|j: int| 0 <= j < libraries.len() implies compatdata_in(
        #[trigger] libraries[j],
        app_id,
    ) == libraries[j] + "/compatdata/"@ + d by {
        let l = libraries[j];
        lemma_join_two(l, "compatdata"@, d);
        assert(l + seq!['/'] + "compatdata"@ + seq!['/'] + d =~= l + "/compatdata/"@ + d);
    }
    lemma_no_manifests(libraries, app_id, directories);
    lemma_first_compatdata(libraries, app_id, Seq::empty(), directories, false, k);
}

proof fn lemma_no_manifests(
    libraries: Seq<Seq<char>>,
    app_id: u32,
    directories: Seq<Seq<char>>,
)
    ensures
        first_compatdata(libraries, app_id, Seq::empty(), directories, true) is None,
    decreases libraries.len(),
{
    if libraries.len() > 0 {
        lemma_no_manifests(libraries.skip(1), app_id, directories);
    }
}

/// The roots in which Steam may live, as they are spelled below the home
/// directory.
proof fn lemma_root_candidates(home: Seq<char>)
    requires
        home.len() > 0,
        home.last() != '/',
    ensures
        root_candidates(home)[0] == home + "/.steam/steam"@,
        root_candidates(home)[1] == home + "/.local/share/Steam"@,
        root_candidates(home)[2] == home + "/snap/steam/common/.steam/steam"@,
        root_candidates(home)[3] == home + "/.var/app/com.valvesoftware.Steam/.steam/steam"@,
{
    reveal_strlit("/.steam/steam");
    reveal_strlit("/.local/share/Steam");
    reveal_strlit("/snap/steam/common/.steam/steam");
    reveal_strlit("/.var/app/com.valvesoftware.Steam/.steam/steam");
    reveal_strlit(".steam");
    reveal_strlit("steam");
    reveal_strlit(".local");
    reveal_strlit("share");
    reveal_strlit("Steam");
    reveal_strlit("snap");
    reveal_strlit("common");
    reveal_strlit(".var");
    reveal_strlit("app");
    reveal_strlit("com.valvesoftware.Steam");
    let s = seq!['/'];
    lemma_join_two(home, ".steam"@, "steam"@);
    assert(home + s + ".steam"@ + s + "steam"@ =~= home + "/.steam/steam"@);
    lemma_join_two(home, ".local"@, "share"@);
    let b = home + s + ".local"@ + s + "share"@;
    assert(b.last() == 'e');
    assert(b + s + "Steam"@ =~= home + "/.local/share/Steam"@);
    lemma_join_two(home, "snap"@, "steam"@);
    let c = home + s + "snap"@ + s + "steam"@;
    assert(c.last() == 'm');
    lemma_join_two(c, "common"@, ".steam"@);
    let d = c + s + "common"@ + s + ".steam"@;
    assert(d.last() == 'm');
    assert(d + s + "steam"@ =~= home + "/snap/steam/common/.steam/steam"@);
    lemma_join_two(home, ".var"@, "app"@);
    let e = home + s + ".var"@ + s + "app"@;
    assert(e.last() == 'p');
    lemma_join_two(e, "com.valvesoftware.Steam"@, ".steam"@);
    let f = e + s + "com.valvesoftware.Steam"@ + s + ".steam"@;
    assert(f.last() == 'm');
    assert(f + s + "steam"@ =~= home + "/.var/app/com.valvesoftware.Steam/.steam/steam"@);
}

/// Steam is found below the home directory, in the first place of these that is
/// a directory: its own, the one that its own leads to, that of a snap and that
/// of Flatpak.
pub proof fn steam_is_found_below_the_home_directory(home: Seq<char>, directories: Seq<Seq<char>>)
    requires
        home.len() > 0,
        home.last() != '/',
    ensures
        steam_root(Some(home), directories) == if directories.contains(home + "/.steam/steam"@) {
            Some(home + "/.steam/steam"@)
        } else if directories.contains(home + "/.local/share/Steam"@) {
            Some(home + "/.local/share/Steam"@)
        } else if directories.contains(home + "/snap/steam/common/.steam/steam"@) {
            Some(home + "/snap/steam/common/.steam/steam"@)
        } else if directories.contains(
            home + "/.var/app/com.valvesoftware.Steam/.steam/steam"@,
        ) {
            Some(home + "/.var/app/com.valvesoftware.Steam/.steam/steam"@)
        } else {
            None
        },
        steam_root(None, directories) is None,
{
    lemma_root_candidates(home);
    let c = root_candidates(home);
    assert(c.skip(1)[0] == c[1]);
    assert(c.skip(1).skip(1)[0] == c[2]);
    assert(c.skip(1).skip(1).skip(1)[0] == c[3]);
    reveal_with_fuel(first_listed, 6);
}

/// An entry can be the Proton that is looked for.
pub open spec fn is_usable(e: ToolEntryView) -> bool {
    e.directory && e.has_script
}

proof fn lemma_named_index(entries: Seq<ToolEntryView>, tool: Seq<char>)
    ensures
        0 <= named_index(entries, tool) <= entries.len(),
        named_index(entries, tool) < entries.len() ==> is_named_proton(
            entries[named_index(entries, tool)],
            tool,
        ),
        forall|i: int|
            0 <= i < named_index(entries, tool) ==> !is_named_proton(#[trigger] entries[i], tool),
    decreases entries.len(),
{
    if entries.len() > 0 && !is_named_proton(entries[0], tool) {
        let rest = entries.skip(1);
        lemma_named_index(rest, tool);
        assert forall|i: int| 0 <= i < named_index(entries, tool) implies !is_named_proton(
            #[trigger] entries[i],
            tool,
        ) by {
            if i > 0 {
                assert(rest[i - 1] == entries[i]);
            }
        }
    }
}

/// The Proton that is found under a name is an installation: a directory with a
/// `proton` script, in one of the directories that are searched.
pub proof fn found_proton_is_installed(dirs: Seq<ToolDirectoryView>, tool: Seq<char>) -> (at: (
    int,
    int,
))
    requires
        proton_by_name(dirs, tool) is Some,
    ensures
        0 <= at.0 < dirs.len(),
        0 <= at.1 < dirs[at.0].entries.len(),
        is_usable(dirs[at.0].entries[at.1]),
        proton_by_name(dirs, tool)->0 == joined(
            dirs[at.0].path,
            dirs[at.0].entries[at.1].name,
        ),
    decreases dirs.len(),
{
    let i = named_index(dirs[0].entries, tool);
    lemma_named_index(dirs[0].entries, tool);
    if i < dirs[0].entries.len() {
        (0, i)
    } else {
        let at = found_proton_is_installed(dirs.skip(1), tool);
        (at.0 + 1, at.1)
    }
}

/// An installation whose name is the one looked for, but for case and the
/// separators `-`, `_`, space and dot, is found, or one in an earlier place.
pub proof fn proton_is_found_by_its_name(
    dirs: Seq<ToolDirectoryView>,
    tool: Seq<char>,
    d: int,
    e: int,
)
    requires
        0 <= d < dirs.len(),
        0 <= e < dirs[d].entries.len(),
        is_usable(dirs[d].entries[e]),
        lowercase(dirs[d].entries[e].name).filter(
            |c: char| c != '-' && c != '_' && c != ' ' && c != '.',
        ) == lowercase(tool).filter(|c: char| c != '-' && c != '_' && c != ' ' && c != '.'),
    ensures
        proton_by_name(dirs, tool) is Some,
        (forall|i: int, j: int|
            0 <= i < dirs.len() && 0 <= j < dirs[i].entries.len() && (i != d || j != e)
                ==> !is_usable(#[trigger] dirs[i].entries[j])) ==> proton_by_name(dirs, tool)
            == Some(joined(dirs[d].path, dirs[d].entries[e].name)),
    decreases d,
{
    lemma_named_index(dirs[0].entries, tool);
    let i = named_index(dirs[0].entries, tool);
    let found = dirs[d].entries[e];
    assert(proton_key(found.name) == proton_key(tool));
    assert(is_named_proton(found, tool));
    if d > 0 {
        let rest = dirs.skip(1);
        proton_is_found_by_its_name(rest, tool, d - 1, e);
        if forall|i: int, j: int|
            0 <= i < dirs.len() && 0 <= j < dirs[i].entries.len() && (i != d || j != e)
                ==> !is_usable(#[trigger] dirs[i].entries[j]) {
            assert forall|i: int, j: int|
                0 <= i < rest.len() && 0 <= j < rest[i].entries.len() && (i != d - 1 || j
                    != e) implies !is_usable(#[trigger] rest[i].entries[j]) by {
                assert(rest[i] == dirs[i + 1]);
                assert(!is_usable(dirs[i + 1].entries[j]));
            }
            if i < dirs[0].entries.len() {
                assert(!is_usable(dirs[0].entries[i]));
            }
        }
    } else if i < dirs[0].entries.len() && i != e {
        if forall|i: int, j: int|
            0 <= i < dirs.len() && 0 <= j < dirs[i].entries.len() && (i != d || j != e)
                ==> !is_usable(#[trigger] dirs[i].entries[j]) {
            assert(!is_usable(dirs[0].entries[i]));
        }
    }
}

/// Without any installation that could be a Proton none is found.
pub proof fn no_proton_without_installation(
    dirs: Seq<ToolDirectoryView>,
    configured: Option<Seq<char>>,
    version_file: Option<Seq<char>>,
)
    requires
        forall|i: int, j: int|
            0 <= i < dirs.len() && 0 <= j < dirs[i].entries.len() ==> !(
            #[trigger] dirs[i].entries[j]).has_script,
    ensures
        proton_for(dirs, configured, version_file) is None,
{
    if configured is Some && proton_by_name(dirs, configured->0) is Some {
        let at = found_proton_is_installed(dirs, configured->0);
        assert(!dirs[at.0].entries[at.1].has_script);
    }
    if version_file is Some && version_line(version_file->0) is Some && proton_by_name(
        dirs,
        version_line(version_file->0)->0,
    ) is Some {
        let at = found_proton_is_installed(dirs, version_line(version_file->0)->0);
        assert(!dirs[at.0].entries[at.1].has_script);
    }
    lemma_no_scripts(dirs);
}

proof fn lemma_no_scripts(dirs: Seq<ToolDirectoryView>)
    requires
        forall|i: int, j: int|
            0 <= i < dirs.len() && 0 <= j < dirs[i].entries.len() ==> !(
            #[trigger] dirs[i].entries[j]).has_script,
    ensures
        any_proton(dirs) is None,
    decreases dirs.len(),
{
    if dirs.len() > 0 {
        lemma_newest(dirs[0].entries);
        let k = newest_index(dirs[0].entries);
        if k >= 0 {
            assert(!dirs[0].entries[k].has_script);
        }
        let rest = dirs.skip(1);
        assert forall|i: int, j: int|
            0 <= i < rest.len() && 0 <= j < rest[i].entries.len() implies !(
        #[trigger] rest[i].entries[j]).has_script by {
            assert(rest[i] == dirs[i + 1]);
            assert(!dirs[i + 1].entries[j].has_script);
        }
        lemma_no_scripts(rest);
    }
}

proof fn lemma_newest(entries: Seq<ToolEntryView>)
    ensures
        -1 <= newest_index(entries) < entries.len(),
        newest_index(entries) >= 0 ==> is_any_proton(entries[newest_index(entries)]),
        forall|i: int|
            0 <= i < entries.len() && is_any_proton(#[trigger] entries[i]) ==> newest_index(entries)
                >= 0 && not_after(entries[i].name, entries[newest_index(entries)].name),
    decreases entries.len(),
{
    if entries.len() > 0 {
        let rest = entries.drop_last();
        lemma_newest(rest);
        let best = newest_index(rest);
        let n = newest_index(entries);
        assert forall|i: int| 0 <= i < entries.len() && is_any_proton(
            #[trigger] entries[i],
        ) implies n >= 0 && not_after(entries[i].name, entries[n].name) by {
            if i < rest.len() {
                assert(rest[i] == entries[i]);
                if n != best {
                    lemma_precedes_total(entries[best].name, entries[n].name);
                    lemma_not_after_transitive(
                        entries[i].name,
                        entries[best].name,
                        entries[n].name,
                    );
                }
            } else if best >= 0 {
                lemma_precedes_total(entries[best].name, entries.last().name);
                lemma_precedes_total(entries.last().name, entries.last().name);
            } else {
                lemma_precedes_total(entries.last().name, entries.last().name);
            }
        }
    }
}

/// Where no Proton is configured and none made the compatibility data, the game
/// gets the installation whose name comes last, in the first directory with an
/// entry whose name tells that it is a Proton.
pub proof fn newest_proton_is_the_fallback(dirs: Seq<ToolDirectoryView>, d: int, e: int)
    requires
        0 <= d < dirs.len(),
        0 <= e < dirs[d].entries.len(),
        dirs[d].entries[e].has_script,
        has_infix(lowercase(dirs[d].entries[e].name), "proton"@),
        forall|j: int|
            0 <= j < dirs[d].entries.len() && j != e && (#[trigger] dirs[d].entries[j]).has_script
                ==> precedes(dirs[d].entries[j].name, dirs[d].entries[e].name),
        forall|i: int, j: int|
            0 <= i < d && 0 <= j < dirs[i].entries.len() ==> !(
            #[trigger] dirs[i].entries[j]).has_script,
    ensures
        proton_for(dirs, None, None) == Some(joined(dirs[d].path, dirs[d].entries[e].name)),
    decreases d,
{
    let entries = dirs[0].entries;
    lemma_newest(entries);
    let k = newest_index(entries);
    if d == 0 {
        assert(is_any_proton(entries[e]));
        if k != e {
            assert(entries[k].has_script);
            assert(precedes(dirs[d].entries[k].name, dirs[d].entries[e].name));
            assert(not_after(entries[e].name, entries[k].name));
            lemma_precedes_total(entries[k].name, entries[e].name);
        }
    } else {
        if k >= 0 {
            assert(!dirs[0].entries[k].has_script);
        }
        let rest = dirs.skip(1);
        assert forall|i: int, j: int|
            0 <= i < d - 1 && 0 <= j < rest[i].entries.len() implies !(
        #[trigger] rest[i].entries[j]).has_script by {
            assert(rest[i] == dirs[i + 1]);
            assert(!dirs[i + 1].entries[j].has_script);
        }
        newest_proton_is_the_fallback(rest, d - 1, e);
    }
}

/// The first line of the version file names the Proton that made the
/// compatibility data, which the game gets if none is configured.
pub proof fn version_file_names_the_proton(
    dirs: Seq<ToolDirectoryView>,
    version: Seq<char>,
    more: Seq<Seq<char>>,
)
    requires
        is_line(version),
        version.len() > 0,
        !is_white_space(version[0]),
        !is_white_space(version.last()),
        forall|i: int| 0 <= i < more.len() ==> is_line(#[trigger] more[i]),
        proton_by_name(dirs, version) is Some,
    ensures
        proton_for(dirs, None, Some(written_lines(seq![version] + more))) == proton_by_name(
            dirs,
            version,
        ),
{
    let all = seq![version] + more;
    assert forall|i: int| 0 <= i < all.len() implies is_line(#[trigger] all[i]) by {
        if i > 0 {
            assert(all[i] == more[i - 1]);
        }
    }
    written_lines_are_read_back(all);
    let none = Seq::<char>::empty();
    only_white_space_is_trimmed(none, version, none);
    assert(none + version + none =~= version);
    assert(all[0] == version);
}

proof fn lemma_among(s: Seq<Seq<char>>, t: Seq<Seq<char>>, x: Seq<char>)
    ensures
        (s + t).contains(x) <==> s.contains(x) || t.contains(x),
{
    if s.contains(x) {
        let i = choose|i: int| 0 <= i < s.len() && s[i] == x;
        assert((s + t)[i] == x);
    }
    if t.contains(x) {
        let i = choose|i: int| 0 <= i < t.len() && t[i] == x;
        assert((s + t)[s.len() + i] == x);
    }
    if (s + t).contains(x) {
        let i = choose|i: int| 0 <= i < (s + t).len() && (s + t)[i] == x;
        if i < s.len() {
            assert(s[i] == x);
        } else {
            assert(t[i - s.len()] == x);
        }
    }
}

proof fn lemma_library_dirs(library: Seq<char>, directories: Seq<Seq<char>>, x: Seq<char>)
    ensures
        library_tool_dirs(library, directories).contains(x) <==> directories.contains(x) && (x
            == joined(library, "common"@) || (parent_of(library) is Some && x == joined(
            parent_of(library)->0,
            "compatibilitytools.d"@,
        ))),
{
    let common = joined(library, "common"@);
    let a = if directories.contains(common) {
        seq![common]
    } else {
        Seq::empty()
    };
    let b = match parent_of(library) {
        Some(root) => {
            let tools = joined(root, "compatibilitytools.d"@);
            if directories.contains(tools) {
                seq![tools]
            } else {
                Seq::empty()
            }
        },
        None => Seq::empty(),
    };
    lemma_among(a, b, x);
    if directories.contains(common) {
        assert(a[0] == common);
    }
    if parent_of(library) is Some {
        let tools = joined(parent_of(library)->0, "compatibilitytools.d"@);
        if directories.contains(tools) {
            assert(b[0] == tools);
        }
    }
}

proof fn lemma_libraries_dirs(
    libraries: Seq<Seq<char>>,
    directories: Seq<Seq<char>>,
    x: Seq<char>,
)
    ensures
        libraries_tool_dirs(libraries, directories).contains(x) <==> exists|i: int|
            0 <= i < libraries.len() && (#[trigger] library_tool_dirs(
                libraries[i],
                directories,
            )).contains(x),
    decreases libraries.len(),
{
    if libraries.len() > 0 {
        let rest = libraries.drop_last();
        let n = libraries.len() - 1;
        let before = libraries_tool_dirs(rest, directories);
        lemma_libraries_dirs(rest, directories, x);
        lemma_among(before, library_tool_dirs(libraries[n], directories), x);
        if before.contains(x) {
            let i = choose|i: int|
                0 <= i < rest.len() && (#[trigger] library_tool_dirs(
                    rest[i],
                    directories,
                )).contains(x);
            assert(library_tool_dirs(libraries[i], directories).contains(x));
        }
        if exists|i: int|
            0 <= i < libraries.len() && (#[trigger] library_tool_dirs(
                libraries[i],
                directories,
            )).contains(x) {
            let i = choose|i: int|
                0 <= i < libraries.len() && (#[trigger] library_tool_dirs(
                    libraries[i],
                    directories,
                )).contains(x);
            if i < n {
                assert(library_tool_dirs(rest[i], directories).contains(x));
            }
        }
    }
}

/// Without a home directory, Proton is looked for in exactly the directories
/// that exist of these: `common` of each library, and `compatibilitytools.d`
/// beside each library's applications.
pub proof fn proton_is_looked_for_in_every_library(
    libraries: Seq<Seq<char>>,
    directories: Seq<Seq<char>>,
    x: Seq<char>,
)
    ensures
        proton_dirs(libraries, None, directories).contains(x) <==> directories.contains(x) && exists|
            i: int,
        |
            0 <= i < libraries.len() && (x == joined(#[trigger] libraries[i], "common"@) || (
            parent_of(libraries[i]) is Some && x == joined(
                parent_of(libraries[i])->0,
                "compatibilitytools.d"@,
            ))),
{
    lemma_libraries_dirs(libraries, directories, x);
    assert forall|i: int| 0 <= i < libraries.len() implies (library_tool_dirs(
        #[trigger] libraries[i],
        directories,
    ).contains(x) <==> directories.contains(x) && (x == joined(libraries[i], "common"@) || (
    parent_of(libraries[i]) is Some && x == joined(
        parent_of(libraries[i])->0,
        "compatibilitytools.d"@,
    )))) by {
        lemma_library_dirs(libraries[i], directories, x);
    }
    if proton_dirs(libraries, None, directories).contains(x) {
        let i = choose|i: int|
            0 <= i < libraries.len() && (#[trigger] library_tool_dirs(
                libraries[i],
                directories,
            )).contains(x);
        assert(directories.contains(x));
    }
}

/// With a home directory, nothing that was looked at is left out, and each tool
/// directory of Steam's own roots that exists is looked at too.
pub proof fn proton_is_looked_for_below_the_home_directory(
    libraries: Seq<Seq<char>>,
    home: Seq<char>,
    directories: Seq<Seq<char>>,
    x: Seq<char>,
)
    ensures
        proton_dirs(libraries, None, directories).contains(x) ==> proton_dirs(
            libraries,
            Some(home),
            directories,
        ).contains(x),
        ({
            let own = joined(joined(joined(home, ".steam"@), "steam"@), "compatibilitytools.d"@);
            let shared = joined(
                joined(joined(joined(home, ".local"@), "share"@), "Steam"@),
                "compatibilitytools.d"@,
            );
            let dirs = proton_dirs(libraries, Some(home), directories);
            &&& directories.contains(own) ==> holds_path(dirs, own)
            &&& directories.contains(shared) ==> holds_path(dirs, shared)
        }),
{
    let known = libraries_tool_dirs(libraries, directories);
    let roots = tool_roots(home);
    lemma_root_tools(known, roots, directories, x, 0);
    lemma_root_tools(known, roots, directories, x, 1);
}

proof fn lemma_root_tools(
    known: Seq<Seq<char>>,
    roots: Seq<Seq<char>>,
    directories: Seq<Seq<char>>,
    x: Seq<char>,
    i: int,
)
    ensures
        known.contains(x) ==> with_root_tools(known, roots, directories).contains(x),
        0 <= i < roots.len() && directories.contains(joined(roots[i], "compatibilitytools.d"@))
            ==> holds_path(
            with_root_tools(known, roots, directories),
            joined(roots[i], "compatibilitytools.d"@),
        ),
    decreases roots.len(),
{
    if roots.len() > 0 {
        let rest = roots.drop_last();
        let before = with_root_tools(known, rest, directories);
        let all = with_root_tools(known, roots, directories);
        lemma_root_tools(known, rest, directories, x, i);
        if before.contains(x) {
            let j = choose|j: int| 0 <= j < before.len() && before[j] == x;
            assert(all[j] == x);
        }
        let n = roots.len() - 1;
        let wanted = joined(roots[i], "compatibilitytools.d"@);
        if 0 <= i < roots.len() && directories.contains(wanted) {
            if holds_path(before, wanted) {
                let j = choose|j: int| 0 <= j < before.len() && path_same(#[trigger] before[j], wanted);
                assert(all[j] == before[j]);
            } else if i == n {
                assert(all[before.len() as int] == wanted);
            }
        }
    }
}

/// The tool that is configured for an application is that of the first text that
/// maps it.
pub proof fn first_mapping_counts(texts: Seq<Option<Seq<char>>>, app_id: u32, i: int)
    ensures
        ({
            let tool = |t: Option<Seq<char>>|
                if t is Some {
                    mapped_tool(clean_lines(t->0), 0, None, 0, decimal(app_id as nat))
                } else {
                    None
                };
            &&& 0 <= i < texts.len() && tool(texts[i]) is Some && (forall|j: int|
                0 <= j < i ==> tool(#[trigger] texts[j]) is None) ==> configured_tool(texts, app_id)
                == tool(texts[i])
            &&& (forall|j: int| 0 <= j < texts.len() ==> tool(#[trigger] texts[j]) is None)
                ==> configured_tool(texts, app_id) is None
        }),
    decreases texts.len(),
{
    if texts.len() > 0 {
        let rest = texts.skip(1);
        first_mapping_counts(rest, app_id, i - 1);
        assert(forall|j: int| 0 <= j < rest.len() ==> #[trigger] rest[j] == texts[j + 1]);
        assert(texts[0] == texts[0]);
    }
}

/// A tool can be started if Proton's script, the executable and Steam are there
/// and its arguments have no open quote.
pub proof fn tools_start_if_everything_is_there(t: ToolRequest)
    ensures
        tool_problem(t) is None <==> t.script_exists && t.exe_exists && t.steam_root is Some
            && arguments_of(t.arguments@) is Some,
{
}

/// A tool runs with the Proton and the prefix that were found, and not without
/// either.
pub proof fn tools_need_proton_and_a_prefix(
    app_id: u32,
    compatdata: Option<Seq<char>>,
    proton: Option<Seq<char>>,
)
    ensures
        proton_result(app_id, compatdata, proton) is Ok <==> compatdata is Some && proton is Some,
        compatdata is Some && proton is Some ==> proton_result(app_id, compatdata, proton) == Ok::<
            (Seq<char>, Seq<char>),
            Seq<char>,
        >((proton->0, compatdata->0)),
{
}

/// The games that are found are those with a path, each under its own kind.
pub proof fn games_with_a_path_are_found(paths: Seq<Option<Seq<char>>>, kind: int, p: Seq<char>)
    requires
        paths.len() <= all_kinds().len(),
        0 <= kind < paths.len(),
    ensures
        found_games(paths).contains((all_kinds()[kind], p)) <==> paths[kind] == Some(p),
    decreases paths.len(),
{
    let rest = paths.drop_last();
    let n = paths.len() - 1;
    let before = found_games(rest);
    let all = found_games(paths);
    let g = (all_kinds()[kind], p);
    if kind < n {
        games_with_a_path_are_found(rest, kind, p);
        if before.contains(g) {
            let i = choose|i: int| 0 <= i < before.len() && before[i] == g;
            assert(all[i] == g);
        }
        if all.contains(g) {
            let i = choose|i: int| 0 <= i < all.len() && all[i] == g;
            lemma_kinds_differ(kind, n);
            assert(before[i] == g);
        }
    } else {
        lemma_found_before(rest, g);
        if paths[n] is Some {
            assert(all[before.len() as int] == (all_kinds()[n], paths[n]->0));
        }
        if all.contains(g) {
            let i = choose|i: int| 0 <= i < all.len() && all[i] == g;
            if i < before.len() {
                assert(before[i] == g);
            }
        }
    }
}

proof fn lemma_kinds_differ(i: int, j: int)
    requires
        0 <= i < j < all_kinds().len(),
    ensures
        all_kinds()[i] != all_kinds()[j],
{
}

proof fn lemma_found_before(paths: Seq<Option<Seq<char>>>, g: (GameKind, Seq<char>))
    requires
        paths.len() < all_kinds().len(),
        g.0 == all_kinds()[paths.len() as int],
    ensures
        !found_games(paths).contains(g),
{
    lemma_found_kinds(paths, g, paths.len() as int);
}

proof fn lemma_found_kinds(paths: Seq<Option<Seq<char>>>, g: (GameKind, Seq<char>), k: int)
    requires
        paths.len() <= k < all_kinds().len(),
        g.0 == all_kinds()[k],
    ensures
        !found_games(paths).contains(g),
    decreases paths.len(),
{
    if paths.len() > 0 {
        let rest = paths.drop_last();
        let before = found_games(rest);
        let all = found_games(paths);
        lemma_found_kinds(rest, g, k);
        lemma_kinds_differ(paths.len() - 1, k);
        if all.contains(g) {
            let i = choose|i: int| 0 <= i < all.len() && all[i] == g;
            if i < before.len() {
                assert(before[i] == g);
            }
        }
    }
}

/// What lies in Flatpak's directory for Steam belongs to Steam from Flatpak.
pub proof fn paths_in_flatpak_are_recognised(front: Seq<char>, back: Seq<char>)
    ensures
        in_flatpak(front + "/.var/app/com.valvesoftware.Steam/"@ + back),
{
    let word = "/.var/app/com.valvesoftware.Steam/"@;
    let s = front + word + back;
    let n = front.len() as int;
    assert(s.subrange(n, n + word.len()) =~= word);
    assert(crate::text::occurs_at(s, word, n));
}

} // verus!
