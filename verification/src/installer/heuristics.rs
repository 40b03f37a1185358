//! Recognising how the contents of an archive are laid out.
use vstd::prelude::*;

use crate::installer::decode::utf8_text;
use crate::installer::paths::{normalize_path_lowercase, normalized_lowercase, with_slashes};
use crate::installer::types::{
    DataArchivePlan, DataArchivePlanView, FomodFile, InstallStrategy, InstallStrategyView,
};
use crate::text::{
    add_distinct, after_last, chars_of, concat2, contains, distinct, ends_with, first_component,
    first_piece, has_infix, has_prefix, has_suffix, is_among, is_ascii_digit, is_digit, less,
    lowercase, not_after, occurs_at, owned, replace_char, same, sort_stably, stably_sorted, string_between,
    strip_prefix, to_lowercase, trim_end_matches, trim_start_matches, trimmed_end, trimmed_start,
};
use vstd::utf8::{decode_utf8, valid_utf8};

verus! {

// ── What a data root looks like ─────────────────────────────────────────────

/// Well-known subdirectory names inside a game's `Data/` folder.
pub open spec fn known_data_subdirs() -> Seq<Seq<char>> {
    seq![
        "meshes"@, "textures"@, "scripts"@, "sound"@, "music"@, "shaders"@, "lodsettings"@,
        "seq"@, "interface"@, "skse"@, "f4se"@, "nvse"@, "obse"@, "fose"@, "mwse"@, "xnvse"@,
        "strings"@, "video"@, "facegen"@, "grass"@, "shadersfx"@, "terrain"@, "dialogueviews"@,
        "vis"@, "lightingtemplate"@, "distantlod"@, "lod"@, "trees"@, "fxmaster"@, "sky"@,
    ]
}

/// The names of `known_data_subdirs`.
fn known_data_subdir_names() -> (r: Vec<&'static str>)
    ensures
        r.deep_view() == known_data_subdirs(),
{
    let r: Vec<&'static str> = vec![
        "meshes", "textures", "scripts", "sound", "music", "shaders", "lodsettings", "seq",
        "interface", "skse", "f4se", "nvse", "obse", "fose", "mwse", "xnvse", "strings", "video",
        "facegen", "grass", "shadersfx", "terrain", "dialogueviews", "vis", "lightingtemplate",
        "distantlod", "lod", "trees", "fxmaster", "sky",
    ];
    assert(r.deep_view() =~= known_data_subdirs());
    r
}

/// The lowercase name is that of a plugin file.
pub open spec fn is_plugin_name(name: Seq<char>) -> bool {
    has_suffix(name, ".esp"@) || has_suffix(name, ".esm"@) || has_suffix(name, ".esl"@)
}

/// The lowercase name is that of a game archive.
pub open spec fn is_game_archive_name(name: Seq<char>) -> bool {
    has_suffix(name, ".bsa"@) || has_suffix(name, ".ba2"@)
}

fn has_plugin_name(name: &str) -> (r: bool)
    ensures
        r == is_plugin_name(name@),
{
    ends_with(name, ".esp") || ends_with(name, ".esm") || ends_with(name, ".esl")
}

/// What a child of a directory says for the directory being a data root:
/// 10 for a known subdirectory, 15 for a plugin and, where they count, 5 for a
/// game archive.
pub open spec fn points(child: Seq<char>, archives: bool) -> int {
    (if known_data_subdirs().contains(child) {
        10int
    } else {
        0
    }) + (if is_plugin_name(child) {
        15int
    } else {
        0
    }) + (if archives && is_game_archive_name(child) {
        5int
    } else {
        0
    })
}

pub open spec fn total_points(children: Seq<Seq<char>>, archives: bool) -> int
    decreases children.len(),
{
    if children.len() == 0 {
        0
    } else {
        total_points(children.drop_last(), archives) + points(children.last(), archives)
    }
}

/// The name of the child through which a path leads out of the directory that
/// `search` names (with a slash at its end; empty for the archive root), or
/// nothing if the path does not lie in it.
pub open spec fn child_through(path: Seq<char>, search: Seq<char>) -> Seq<char> {
    let rel = if search.len() == 0 {
        path
    } else if has_prefix(path, search) {
        path.skip(search.len() as int)
    } else {
        Seq::empty()
    };
    first_piece(trimmed_start(rel, '/'))
}

/// A score is at most the largest 32-bit integer.
pub open spec fn capped(n: int) -> int {
    if n > i32::MAX {
        i32::MAX as int
    } else {
        n
    }
}

/// The score of a directory: 20 if it is named `data`, and the points of its
/// children, each counted once.
pub open spec fn directory_score(
    named_data: bool,
    norms: Seq<Seq<char>>,
    search: Seq<char>,
    archives: bool,
) -> int {
    let children = distinct(norms.map_values(|p: Seq<char>| child_through(p, search)));
    capped(
        (if named_data {
            20int
        } else {
            0
        }) + total_points(children, archives),
    )
}

fn add_capped(a: i32, b: i32) -> (r: i32)
    requires
        a >= 0,
        b >= 0,
    ensures
        r == capped(a + b),
{
    if a > i32::MAX - b {
        i32::MAX
    } else {
        a + b
    }
}

fn points_of(child: &str, archives: bool) -> (r: i32)
    ensures
        r == points(child@, archives),
        0 <= r <= 30,
{
    let mut r: i32 = 0;
    if is_among(&known_data_subdir_names(), child) {
        r = r + 10;
    }
    if has_plugin_name(child) {
        r = r + 15;
    }
    if archives && (ends_with(child, ".bsa") || ends_with(child, ".ba2")) {
        r = r + 5;
    }
    r
}

proof fn lemma_points_nonnegative(children: Seq<Seq<char>>, archives: bool)
    ensures
        total_points(children, archives) >= 0,
    decreases children.len(),
{
    if children.len() > 0 {
        lemma_points_nonnegative(children.drop_last(), archives);
    }
}

/// The score of a directory, given the normalized paths of the archive and the
/// directory's normalized name with a slash at its end.
pub fn score_directory(
    named_data: bool,
    norms: &Vec<String>,
    search: &str,
    archives: bool,
) -> (r: i32)
    ensures
        r == directory_score(named_data, norms.deep_view(), search@, archives),
{
    let mut score: i32 = if named_data {
        20
    } else {
        0
    };
    let ghost base: int = score as int;
    let mut seen: Vec<String> = Vec::new();
    let ghost all = norms.deep_view();
    let ghost children = all.map_values(|p: Seq<char>| child_through(p, search@));
    assert(distinct(children.take(0)) =~= seen.deep_view());
    for i in 0..norms.len()
        invariant
            all == norms.deep_view(),
            children == all.map_values(|p: Seq<char>| child_through(p, search@)),
            seen.deep_view() == distinct(children.take(i as int)),
            base >= 0,
            score == capped(base + total_points(seen.deep_view(), archives)),
            score >= 0,
    {
        let path = norms[i].as_str();
        assert(all[i as int] == path@);
        let rel = if search.is_empty() {
            owned(path)
        } else {
            match strip_prefix(path, search) {
                Some(r) => r,
                None => String::new(),
            }
        };
        let child = first_component(trim_start_matches(rel.as_str(), '/').as_str());
        assert(child@ == children[i as int]);
        let ghost before = seen.deep_view();
        proof {
            assert(children.take(i + 1).drop_last() =~= children.take(i as int));
            lemma_points_nonnegative(before, archives);
        }
        let gain = points_of(child.as_str(), archives);
        let ghost cv = child@;
        if add_distinct(&mut seen, child) {
            score = add_capped(score, gain);
            assert(before.push(cv).drop_last() =~= before);
        }
    }
    assert(children.take(children.len() as int) =~= children);
    score
}

/// The part of a path behind its last slash.
pub open spec fn last_segment(s: Seq<char>) -> Seq<char> {
    s.skip(after_last(s, '/'))
}

fn last_component(s: &str) -> (r: String)
    ensures
        r@ == last_segment(s@),
{
    let v = chars_of(s);
    let mut k: usize = v.len();
    assert(v@.take(k as int) =~= v@);
    while k > 0 && v[k - 1] != '/'
        invariant
            k <= v@.len(),
            after_last(v@, '/') == after_last(v@.take(k as int), '/'),
        decreases k,
    {
        assert(v@.take(k as int).drop_last() =~= v@.take(k - 1));
        k -= 1;
    }
    let r = string_between(&v, k, v.len());
    assert(r@ =~= s@.skip(k as int));
    r
}

/// A path in lowercase with forward slashes.
pub open spec fn lower_slashes(p: Seq<char>) -> Seq<char> {
    with_slashes(lowercase(p))
}

/// The path in lowercase with forward slashes.
pub fn to_lower_slashes(p: &str) -> (r: String)
    ensures
        r@ == lower_slashes(p@),
{
    replace_char(to_lowercase(p).as_str(), '\\', '/')
}

/// The name of a directory with a slash at its end.
pub open spec fn as_search_prefix(dir: Seq<char>) -> Seq<char> {
    trimmed_end(dir, '/') + "/"@
}

/// The score of `prefix` as a data root: slashes in front of a path are
/// ignored, game archives do not count.
pub open spec fn data_root_score(prefix: Seq<char>, paths: Seq<Seq<char>>) -> int {
    let dir = trimmed_end(lower_slashes(prefix), '/');
    directory_score(
        last_segment(dir) == "data"@,
        paths.map_values(|p: Seq<char>| trimmed_start(lower_slashes(p), '/')),
        if dir.len() == 0 {
            Seq::empty()
        } else {
            dir + "/"@
        },
        false,
    )
}

/// Scores a path prefix as a candidate data root.
///
/// * **+20** if the directory itself is named `data`
/// * **+10** for each direct child that is a known data subdirectory
/// * **+15** for each direct child with a plugin extension
pub fn score_as_data_root(prefix: &str, paths: &[&str]) -> (r: i32)
    ensures
        r == data_root_score(prefix@, paths.deep_view()),
{
    let dir = trim_end_matches(to_lower_slashes(prefix).as_str(), '/');
    let named = same(last_component(dir.as_str()).as_str(), "data");
    let search = if dir.as_str().is_empty() {
        String::new()
    } else {
        concat2(dir.as_str(), "/")
    };
    let ghost all = paths.deep_view();
    let mut norms: Vec<String> = Vec::new();
    for i in 0..paths.len()
        invariant
            all == paths.deep_view(),
            norms.deep_view() == all.take(i as int).map_values(
                |p: Seq<char>| trimmed_start(lower_slashes(p), '/'),
            ),
    {
        let ghost before = norms.deep_view();
        assert(all[i as int] == paths@[i as int]@);
        let norm = trim_start_matches(to_lower_slashes(paths[i]).as_str(), '/');
        let ghost nv = norm@;
        norms.push(norm);
        assert(norms.deep_view() =~= before.push(nv));
        assert(norms.deep_view() =~= all.take(i + 1).map_values(
            |p: Seq<char>| trimmed_start(lower_slashes(p), '/'),
        ));
    }
    assert(all.take(all.len() as int) =~= all);
    score_directory(named, &norms, search.as_str(), false)
}

/// The score of `prefix` as a data root, with game archives counted.
pub open spec fn data_root_score_owned(prefix: Seq<char>, paths: Seq<Seq<char>>) -> int {
    let dir = normalized_lowercase(prefix);
    directory_score(
        last_segment(trimmed_end(dir, '/')) == "data"@,
        paths.map_values(|p: Seq<char>| normalized_lowercase(p)),
        if dir.len() == 0 {
            Seq::empty()
        } else {
            as_search_prefix(dir)
        },
        true,
    )
}

/// Scores a path prefix as a candidate data root, as `score_as_data_root`
/// does, with **+5** for each direct child that is a game archive.
pub fn score_as_data_root_owned(prefix: &str, paths: &[String]) -> (r: i32)
    ensures
        r == data_root_score_owned(prefix@, paths.deep_view()),
{
    let dir = normalize_path_lowercase(prefix);
    let trimmed = trim_end_matches(dir.as_str(), '/');
    let named = same(last_component(trimmed.as_str()).as_str(), "data");
    let search = if dir.as_str().is_empty() {
        String::new()
    } else {
        concat2(trimmed.as_str(), "/")
    };
    let norms = normalized_paths(paths);
    score_directory(named, &norms, search.as_str(), true)
}

fn normalized_paths(paths: &[String]) -> (r: Vec<String>)
    ensures
        r.deep_view() == paths.deep_view().map_values(|p: Seq<char>| normalized_lowercase(p)),
{
    let ghost all = paths.deep_view();
    let mut norms: Vec<String> = Vec::new();
    for i in 0..paths.len()
        invariant
            all == paths.deep_view(),
            norms.deep_view() == all.take(i as int).map_values(
                |p: Seq<char>| normalized_lowercase(p),
            ),
    {
        let ghost before = norms.deep_view();
        assert(all[i as int] == paths@[i as int]@);
        let norm = normalize_path_lowercase(paths[i].as_str());
        let ghost nv = norm@;
        norms.push(norm);
        assert(norms.deep_view() =~= before.push(nv));
        assert(norms.deep_view() =~= all.take(i + 1).map_values(
            |p: Seq<char>| normalized_lowercase(p),
        ));
    }
    assert(all.take(all.len() as int) =~= all);
    norms
}

// ── Detecting the data root ─────────────────────────────────────────────────

/// The top-level names of the archive in lowercase, each once, as they first
/// appear.
pub open spec fn top_level_names(paths: Seq<Seq<char>>) -> Seq<Seq<char>> {
    distinct(paths.map_values(|p: Seq<char>| first_piece(normalized_lowercase(p))))
}

/// A top-level name that only the inside of a `Data/` folder has.
pub open spec fn indicates_data(name: Seq<char>) -> bool {
    known_data_subdirs().contains(name) || is_plugin_name(name)
}

/// The best of the candidates and its score: the first with the highest score,
/// where the archive root counts as the candidate before all others.
pub open spec fn best_candidate(names: Seq<Seq<char>>, paths: Seq<Seq<char>>) -> (int, Seq<char>)
    decreases names.len(),
{
    if names.len() == 0 {
        (data_root_score_owned(Seq::empty(), paths), Seq::empty())
    } else {
        let before = best_candidate(names.drop_last(), paths);
        let score = data_root_score_owned(names.last(), paths);
        if score > before.0 {
            (score, names.last())
        } else {
            before
        }
    }
}

/// The detected data root: the archive root if it holds what a data root
/// holds; a single top-level directory or else the best candidate, if it
/// scores at least 10.
pub open spec fn detected_data_root(paths: Seq<Seq<char>>) -> Option<Seq<char>> {
    let tops = top_level_names(paths);
    let best = best_candidate(tops, paths);
    if paths.len() == 0 {
        None
    } else if exists|i: int| 0 <= i < tops.len() && indicates_data(#[trigger] tops[i]) {
        Some(Seq::empty())
    } else if tops.len() == 1 && data_root_score_owned(tops[0], paths) >= 10 {
        Some(tops[0])
    } else if best.0 >= 10 {
        Some(best.1)
    } else {
        None
    }
}

/// Detects the data root of an archive: the prefix to strip from its paths,
/// empty if the archive root is one, nothing if none is recognised.
pub fn detect_data_root(paths: &[String]) -> (r: Option<String>)
    ensures
        r.deep_view() == detected_data_root(paths.deep_view()),
{
    if paths.len() == 0 {
        return None;
    }
    let ghost all = paths.deep_view();
    let norms = normalized_paths(paths);
    let ghost firsts = all.map_values(|p: Seq<char>| first_piece(normalized_lowercase(p)));
    let mut tops: Vec<String> = Vec::new();
    assert(distinct(firsts.take(0)) =~= tops.deep_view());
    for i in 0..norms.len()
        invariant
            all == paths.deep_view(),
            firsts == all.map_values(|p: Seq<char>| first_piece(normalized_lowercase(p))),
            norms.deep_view() == all.map_values(|p: Seq<char>| normalized_lowercase(p)),
            tops.deep_view() == distinct(firsts.take(i as int)),
    {
        assert(norms.deep_view().len() == norms@.len());
        assert(norms.deep_view()[i as int] == norms@[i as int]@);
        let first = first_component(norms[i].as_str());
        assert(first@ == firsts[i as int]);
        assert(firsts.take(i + 1).drop_last() =~= firsts.take(i as int));
        let added = add_distinct(&mut tops, first);
    }
    assert(norms@.len() == norms.deep_view().len());
    assert(firsts.take(firsts.len() as int) =~= firsts);
    let ghost names = tops.deep_view();
    assert(names == top_level_names(all));
    for i in 0..tops.len()
        invariant
            all == paths.deep_view(),
            all.len() > 0,
            names == tops.deep_view(),
            names == top_level_names(all),
            forall|j: int| 0 <= j < i ==> !indicates_data(#[trigger] names[j]),
    {
        assert(names[i as int] == tops@[i as int]@);
        if is_among(&known_data_subdir_names(), tops[i].as_str()) || has_plugin_name(
            tops[i].as_str(),
        ) {
            return Some(String::new());
        }
    }
    if tops.len() == 1 {
        assert(names[0] == tops@[0]@);
        if score_as_data_root_owned(tops[0].as_str(), paths) >= 10 {
            return Some(tops[0].clone());
        }
    }
    let mut best_score = score_as_data_root_owned("", paths);
    let mut best_prefix = String::new();
    proof {
        reveal_strlit("");
        assert(""@ =~= Seq::<char>::empty());
        assert(names.take(0) =~= Seq::<Seq<char>>::empty());
    }
    for i in 0..tops.len()
        invariant
            all == paths.deep_view(),
            names == tops.deep_view(),
            (best_score as int, best_prefix@) == best_candidate(names.take(i as int), all),
    {
        assert(names[i as int] == tops@[i as int]@);
        assert(names.take(i + 1).drop_last() =~= names.take(i as int));
        let score = score_as_data_root_owned(tops[i].as_str(), paths);
        if score > best_score {
            best_score = score;
            best_prefix = tops[i].clone();
        }
    }
    assert(names.take(names.len() as int) =~= names);
    if best_score >= 10 {
        Some(best_prefix)
    } else {
        None
    }
}

/// The strings that `distinct` keeps.
pub proof fn lemma_kept_by_distinct(s: Seq<Seq<char>>, x: Seq<char>)
    ensures
        distinct(s).contains(x) <==> s.contains(x) && x.len() > 0,
    decreases s.len(),
{
    if s.len() > 0 {
        let rest = s.drop_last();
        let before = distinct(rest);
        lemma_kept_by_distinct(rest, x);
        assert(s =~= rest.push(s.last()));
        assert(s.contains(x) <==> rest.contains(x) || x == s.last()) by {
            if rest.contains(x) {
                let k = choose|k: int| 0 <= k < rest.len() && rest[k] == x;
                assert(s[k] == x);
            }
            if x == s.last() {
                assert(s[s.len() - 1] == x);
            }
            if s.contains(x) && x != s.last() {
                let k = choose|k: int| 0 <= k < s.len() && s[k] == x;
                assert(rest[k] == x);
            }
        }
        let more = before.push(s.last());
        assert(more.contains(x) <==> before.contains(x) || x == s.last()) by {
            if before.contains(x) {
                let k = choose|k: int| 0 <= k < before.len() && before[k] == x;
                assert(more[k] == x);
            }
            assert(more[before.len() as int] == s.last());
            if more.contains(x) && x != s.last() {
                let k = choose|k: int| 0 <= k < more.len() && more[k] == x;
                assert(before[k] == x);
            }
        }
    } else {
        assert(distinct(s) =~= s);
    }
}

/// A child's points are part of the total.
pub proof fn lemma_points_are_counted(children: Seq<Seq<char>>, i: int, archives: bool)
    requires
        0 <= i < children.len(),
    ensures
        total_points(children, archives) >= points(children[i], archives),
    decreases children.len(),
{
    lemma_points_nonnegative(children.drop_last(), archives);
    if i < children.len() - 1 {
        lemma_points_are_counted(children.drop_last(), i, archives);
        assert(children.drop_last()[i] == children[i]);
    }
}

/// The names through which the paths lead out of the archive root.
spec fn root_children(paths: Seq<Seq<char>>) -> Seq<Seq<char>> {
    distinct(
        paths.map_values(|p: Seq<char>| first_piece(trimmed_start(normalized_lowercase(p), '/'))),
    )
}

proof fn lemma_root_score(paths: Seq<Seq<char>>)
    ensures
        data_root_score_owned(Seq::empty(), paths) == capped(
            total_points(root_children(paths), true),
        ),
{
    let none = Seq::<char>::empty();
    assert(with_slashes(none) =~= none);
    assert(normalized_lowercase(none) =~= none);
    reveal_strlit("data");
    assert(last_segment(trimmed_end(none, '/')).len() == 0);
    let norms = paths.map_values(|p: Seq<char>| normalized_lowercase(p));
    assert(norms.map_values(|p: Seq<char>| child_through(p, none)) =~= paths.map_values(
        |p: Seq<char>| first_piece(trimmed_start(normalized_lowercase(p), '/')),
    ));
}

/// Where a top-level name indicates data, the archive root scores enough.
proof fn lemma_indicated_root(paths: Seq<Seq<char>>, i: int)
    requires
        0 <= i < top_level_names(paths).len(),
        indicates_data(top_level_names(paths)[i]),
    ensures
        data_root_score_owned(Seq::empty(), paths) >= 10,
{
    let name = top_level_names(paths)[i];
    let firsts = paths.map_values(|p: Seq<char>| first_piece(normalized_lowercase(p)));
    let behind = paths.map_values(
        |p: Seq<char>| first_piece(trimmed_start(normalized_lowercase(p), '/')),
    );
    assert(distinct(firsts).contains(name));
    lemma_kept_by_distinct(firsts, name);
    let k = choose|k: int| 0 <= k < firsts.len() && firsts[k] == name;
    let norm = normalized_lowercase(paths[k]);
    assert(norm.len() > 0 && norm[0] != '/');
    assert(behind[k] == name);
    lemma_kept_by_distinct(behind, name);
    let j = choose|j: int| 0 <= j < root_children(paths).len() && root_children(paths)[j] == name;
    lemma_points_are_counted(root_children(paths), j, true);
    lemma_root_score(paths);
}

proof fn lemma_best_candidate(names: Seq<Seq<char>>, paths: Seq<Seq<char>>)
    ensures
        ({
            let best = best_candidate(names, paths);
            let root = data_root_score_owned(Seq::empty(), paths);
            &&& best.0 == data_root_score_owned(best.1, paths)
            &&& best.1.len() == 0 || names.contains(best.1)
            &&& root <= best.0
            &&& root == best.0 ==> best.1.len() == 0
            &&& forall|i: int|
                0 <= i < names.len() ==> data_root_score_owned(#[trigger] names[i], paths) <= best.0
        }),
    decreases names.len(),
{
    if names.len() > 0 {
        let rest = names.drop_last();
        let before = best_candidate(rest, paths);
        lemma_best_candidate(rest, paths);
        assert(names.contains(names.last())) by {
            assert(names[names.len() - 1] == names.last());
        }
        if rest.contains(before.1) {
            let k = choose|k: int| 0 <= k < rest.len() && rest[k] == before.1;
            assert(names[k] == before.1);
        }
        assert forall|i: int| 0 <= i < names.len() implies data_root_score_owned(
            #[trigger] names[i],
            paths,
        ) <= best_candidate(names, paths).0 by {
            if i < rest.len() {
                assert(rest[i] == names[i]);
            }
        }
        if before.1.len() == 0 {
            assert(before.1 =~= Seq::empty());
        }
    }
}

/// No path starts with a slash.
pub open spec fn none_starts_with_slash(paths: Seq<Seq<char>>) -> bool {
    forall|i: int|
        0 <= i < paths.len() ==> !has_prefix(normalized_lowercase(#[trigger] paths[i]), "/"@)
}

/// Without slashes in front, the archive root has no children but the
/// top-level names.
proof fn lemma_root_children_are_top_level(paths: Seq<Seq<char>>)
    requires
        none_starts_with_slash(paths),
    ensures
        root_children(paths) == top_level_names(paths),
{
    let firsts = paths.map_values(|p: Seq<char>| first_piece(normalized_lowercase(p)));
    let behind = paths.map_values(
        |p: Seq<char>| first_piece(trimmed_start(normalized_lowercase(p), '/')),
    );
    reveal_strlit("/");
    assert forall|i: int| 0 <= i < paths.len() implies firsts[i] == #[trigger] behind[i] by {
        let norm = normalized_lowercase(paths[i]);
        if norm.len() > 0 && norm[0] == '/' {
            assert(norm.take(1) =~= "/"@);
        }
    }
    assert(firsts =~= behind);
}

/// The detected data root is the best candidate.
///
/// The candidates are the archive root and the top-level names.  One is found
/// exactly if some candidate scores 10, and the one found does.  Where a
/// top-level name indicates data it is the archive root.  Else no top-level name
/// scores higher than the one found, and the archive root scores lower unless
/// it is the one found.  Of the latter there is one exception: a lone top-level
/// name that scores 10 is taken, even if the archive root scores as much by
/// paths that start with a slash.
pub proof fn detected_root_is_best(paths: Seq<Seq<char>>)
    ensures
        ({
            let tops = top_level_names(paths);
            let found = detected_data_root(paths);
            let indicated = exists|i: int| 0 <= i < tops.len() && indicates_data(#[trigger] tops[i]);
            let root_score = data_root_score_owned(Seq::empty(), paths);
            &&& found is None <==> root_score < 10 && forall|i: int|
                0 <= i < tops.len() ==> data_root_score_owned(#[trigger] tops[i], paths) < 10
            &&& found is Some ==> {
                &&& found->0 == Seq::<char>::empty() || tops.contains(found->0)
                &&& data_root_score_owned(found->0, paths) >= 10
            }
            &&& indicated ==> found == Some(Seq::<char>::empty())
            &&& !indicated && found is Some ==> forall|i: int|
                0 <= i < tops.len() ==> data_root_score_owned(#[trigger] tops[i], paths)
                    <= data_root_score_owned(found->0, paths)
            &&& !indicated && found is Some && (tops.len() != 1 || none_starts_with_slash(paths)
                || data_root_score_owned(tops[0], paths) < 10 || root_score
                < data_root_score_owned(tops[0], paths)) ==> {
                &&& root_score <= data_root_score_owned(found->0, paths)
                &&& root_score == data_root_score_owned(found->0, paths) ==> found->0 == Seq::<
                    char,
                >::empty()
            }
        }),
{
    let tops = top_level_names(paths);
    let best = best_candidate(tops, paths);
    let none = Seq::<char>::empty();
    lemma_best_candidate(tops, paths);
    if best.1.len() == 0 {
        assert(best.1 =~= none);
    }
    if exists|i: int| 0 <= i < tops.len() && indicates_data(#[trigger] tops[i]) {
        let i = choose|i: int| 0 <= i < tops.len() && indicates_data(#[trigger] tops[i]);
        lemma_indicated_root(paths, i);
        let firsts = paths.map_values(|p: Seq<char>| first_piece(normalized_lowercase(p)));
        assert(distinct(firsts).contains(tops[i]));
        lemma_kept_by_distinct(firsts, tops[i]);
        assert(paths.len() == firsts.len());
    } else if paths.len() == 0 {
        lemma_root_score(paths);
        assert(root_children(paths) =~= Seq::empty());
        assert(tops =~= Seq::empty());
    } else if tops.len() == 1 {
        assert(tops.contains(tops[0]));
        if none_starts_with_slash(paths) {
            lemma_root_children_are_top_level(paths);
            lemma_root_score(paths);
            assert(tops.drop_last() =~= Seq::empty());
            assert(total_points(tops.drop_last(), true) == 0);
            assert(!indicates_data(tops[0]));
        }
    }
}

// ── FOMOD layouts ───────────────────────────────────────────────────────────

/// The lowercase path with forward slashes is that of a FOMOD configuration.
pub open spec fn is_config_path(lower: Seq<char>) -> bool {
    lower == "fomod/moduleconfig.xml"@ || has_suffix(lower, "/fomod/moduleconfig.xml"@)
}

/// Whether a lowercase path with forward slashes is that of a FOMOD
/// configuration.
pub fn is_fomod_config_path(lower: &str) -> (r: bool)
    ensures
        r == is_config_path(lower@),
{
    same(lower, "fomod/moduleconfig.xml") || ends_with(lower, "/fomod/moduleconfig.xml")
}

/// The path without its last segment and the slash before it.
pub open spec fn without_last(s: Seq<char>) -> Seq<char> {
    if after_last(s, '/') == 0 {
        Seq::empty()
    } else {
        s.take(after_last(s, '/') - 1)
    }
}

fn drop_last_component(s: &str) -> (r: String)
    ensures
        r@ == without_last(s@),
{
    let v = chars_of(s);
    let mut k: usize = v.len();
    assert(v@.take(k as int) =~= v@);
    while k > 0 && v[k - 1] != '/'
        invariant
            k <= v@.len(),
            after_last(v@, '/') == after_last(v@.take(k as int), '/'),
        decreases k,
    {
        assert(v@.take(k as int).drop_last() =~= v@.take(k - 1));
        k -= 1;
    }
    if k == 0 {
        String::new()
    } else {
        let r = string_between(&v, 0, k - 1);
        assert(r@ =~= s@.take(k - 1));
        r
    }
}

/// The directory that contains the `fomod/` directory of the configuration
/// with the given path.
pub open spec fn config_parent(path: Seq<char>) -> Seq<char> {
    without_last(without_last(trimmed_start(with_slashes(path), '/')))
}

/// The path is that of a FOMOD configuration, in whatever case and with
/// whatever slashes.
pub open spec fn names_config(path: Seq<char>) -> bool {
    is_config_path(trimmed_start(lower_slashes(path), '/'))
}

/// The index of the first path that names a FOMOD configuration, or the number
/// of paths.
pub open spec fn config_index(paths: Seq<Seq<char>>) -> int
    decreases paths.len(),
{
    if paths.len() == 0 {
        0
    } else if names_config(paths[0]) {
        0
    } else {
        1 + config_index(paths.skip(1))
    }
}

/// The directory that contains `fomod/`, empty for the archive root.
pub open spec fn fomod_parent(paths: Seq<Seq<char>>) -> Option<Seq<char>> {
    let i = config_index(paths);
    if i < paths.len() {
        if trimmed_start(lower_slashes(paths[i]), '/') == "fomod/moduleconfig.xml"@ {
            Some(Seq::empty())
        } else {
            Some(config_parent(paths[i]))
        }
    } else {
        None
    }
}

/// Finds the directory that directly contains the `fomod/` subdirectory.
pub fn find_fomod_parent_dir(paths: &[&str]) -> (r: Option<String>)
    ensures
        r.deep_view() == fomod_parent(paths.deep_view()),
{
    let ghost all = paths.deep_view();
    let mut i: usize = 0;
    assert(all.skip(0) =~= all);
    while i < paths.len()
        invariant
            i <= paths@.len(),
            all == paths.deep_view(),
            config_index(all) == i + config_index(all.skip(i as int)),
        decreases paths@.len() - i,
    {
        assert(all.skip(i as int)[0] == paths@[i as int]@);
        let norm = trim_start_matches(to_lower_slashes(paths[i]).as_str(), '/');
        if same(norm.as_str(), "fomod/moduleconfig.xml") {
            return Some(String::new());
        }
        if ends_with(norm.as_str(), "/fomod/moduleconfig.xml") {
            let orig = trim_start_matches(replace_char(paths[i], '\\', '/').as_str(), '/');
            let fomod_dir = drop_last_component(orig.as_str());
            return Some(drop_last_component(fomod_dir.as_str()));
        }
        assert(all.skip(i as int).skip(1) =~= all.skip(i + 1));
        i += 1;
    }
    None
}

// ── Wrapper directories ─────────────────────────────────────────────────────

/// Top-level entries that packing tools leave behind, in lowercase.
pub open spec fn junk_toplevel_entries() -> Seq<Seq<char>> {
    seq!["__macosx"@]
}

/// A top-level name counts for the wrapper directory.
pub open spec fn counts_as_top(top: Seq<char>) -> bool {
    top.len() > 0 && !junk_toplevel_entries().contains(lowercase(top))
}

/// Every top-level name that counts is `first`, whatever its case.
pub open spec fn all_named(tops: Seq<Seq<char>>, first: Seq<char>) -> bool {
    forall|i: int|
        0 <= i < tops.len() && counts_as_top(#[trigger] tops[i]) ==> lowercase(tops[i])
            == lowercase(first)
}

/// The index of the first top-level name that counts, or their number.
pub open spec fn first_counting(tops: Seq<Seq<char>>) -> int
    decreases tops.len(),
{
    if tops.len() == 0 || counts_as_top(tops[0]) {
        0
    } else {
        1 + first_counting(tops.skip(1))
    }
}

/// The directory, with a slash at its end, that wraps everything in an archive
/// with the given top-level names; empty if there is none or only one entry.
pub open spec fn wrapper_of(tops: Seq<Seq<char>>) -> Seq<char> {
    let i = first_counting(tops);
    if tops.len() > 1 && i < tops.len() && all_named(tops, tops[i]) {
        tops[i] + "/"@
    } else {
        Seq::empty()
    }
}

/// Whether a top-level name counts for the wrapper directory.
pub fn is_kept_top(top: &str) -> (r: bool)
    ensures
        r == counts_as_top(top@),
{
    let junk: Vec<&'static str> = vec!["__macosx"];
    assert(junk.deep_view() =~= junk_toplevel_entries());
    !top.is_empty() && !is_among(&junk, to_lowercase(top).as_str())
}

/// The directory that wraps everything in an archive with the given top-level
/// names.
pub fn wrapper_prefix(tops: &Vec<String>) -> (r: String)
    ensures
        r@ == wrapper_of(tops.deep_view()),
{
    let ghost all = tops.deep_view();
    let mut i: usize = 0;
    assert(all.skip(0) =~= all);
    while i < tops.len() && !is_kept_top(tops[i].as_str())
        invariant
            i <= tops@.len(),
            all == tops.deep_view(),
            first_counting(all) == i + first_counting(all.skip(i as int)),
            forall|j: int| 0 <= j < i ==> !counts_as_top(#[trigger] all[j]),
        decreases tops@.len() - i,
    {
        assert(all.skip(i as int)[0] == tops@[i as int]@);
        assert(all[i as int] == tops@[i as int]@);
        assert(all.skip(i as int).skip(1) =~= all.skip(i + 1));
        i += 1;
    }
    if tops.len() <= 1 || i == tops.len() {
        return String::new();
    }
    assert(all.skip(i as int)[0] == tops@[i as int]@);
    let first = to_lowercase(tops[i].as_str());
    for j in i..tops.len()
        invariant
            i < tops@.len(),
            all == tops.deep_view(),
            first_counting(all) == i,
            first@ == lowercase(all[i as int]),
            forall|k: int|
                0 <= k < j && counts_as_top(#[trigger] all[k]) ==> lowercase(all[k]) == first@,
    {
        assert(all[j as int] == tops@[j as int]@);
        if is_kept_top(tops[j].as_str()) && !same(to_lowercase(tops[j].as_str()).as_str(),
            first.as_str()) {
            assert(!all_named(all, all[i as int]));
            return String::new();
        }
    }
    assert(all[i as int] == tops@[i as int]@);
    concat2(tops[i].as_str(), "/")
}

/// The top-level name of a path in an archive.
pub open spec fn top_name(path: Seq<char>) -> Seq<char> {
    first_piece(trimmed_start(with_slashes(path), '/'))
}

/// The top-level name of a path.
pub fn top_of(path: &str) -> (r: String)
    ensures
        r@ == top_name(path@),
{
    first_component(trim_start_matches(replace_char(path, '\\', '/').as_str(), '/').as_str())
}

/// Computes the top-level directory that wraps all paths, with a slash at its
/// end.
///
/// Entries that packing tools leave behind (`__MACOSX/`) are ignored, and
/// names compare in lowercase.
pub fn find_common_prefix_from_paths(paths: &[&str]) -> (r: String)
    ensures
        r@ == wrapper_of(paths.deep_view().map_values(|p: Seq<char>| top_name(p))),
{
    let ghost all = paths.deep_view();
    let mut tops: Vec<String> = Vec::new();
    for i in 0..paths.len()
        invariant
            all == paths.deep_view(),
            tops.deep_view() == all.take(i as int).map_values(|p: Seq<char>| top_name(p)),
    {
        let ghost before = tops.deep_view();
        assert(all[i as int] == paths@[i as int]@);
        let top = top_of(paths[i]);
        let ghost tv = top@;
        tops.push(top);
        assert(tops.deep_view() =~= before.push(tv));
        assert(tops.deep_view() =~= all.take(i + 1).map_values(|p: Seq<char>| top_name(p)));
    }
    assert(all.take(all.len() as int) =~= all);
    wrapper_prefix(&tops)
}

/// Computes the top-level directory that wraps all names of a zip archive, in
/// which forward slashes separate the segments.
pub fn find_common_prefix(names: &[String]) -> (r: String)
    ensures
        r@ == wrapper_of(names.deep_view().map_values(|p: Seq<char>| first_piece(p))),
{
    let ghost all = names.deep_view();
    let mut tops: Vec<String> = Vec::new();
    for i in 0..names.len()
        invariant
            all == names.deep_view(),
            tops.deep_view() == all.take(i as int).map_values(|p: Seq<char>| first_piece(p)),
    {
        let ghost before = tops.deep_view();
        assert(all[i as int] == names@[i as int]@);
        let top = first_component(names[i].as_str());
        let ghost tv = top@;
        tops.push(top);
        assert(tops.deep_view() =~= before.push(tv));
        assert(tops.deep_view() =~= all.take(i + 1).map_values(|p: Seq<char>| first_piece(p)));
    }
    assert(all.take(all.len() as int) =~= all);
    wrapper_prefix(&tops)
}

// ── The prefix to strip ─────────────────────────────────────────────────────

/// A directory as a prefix: with a slash at its end, empty for the root.
pub open spec fn as_prefix(dir: Seq<char>) -> Seq<char> {
    if dir.len() == 0 {
        Seq::empty()
    } else {
        dir + "/"@
    }
}

fn to_prefix(dir: &str) -> (r: String)
    ensures
        r@ == as_prefix(dir@),
{
    if dir.is_empty() {
        String::new()
    } else {
        concat2(dir, "/")
    }
}

/// The prefix to strip from the paths of an archive: the parent of a FOMOD
/// configuration, else the detected data root, else the wrapper directory.
pub open spec fn strip_prefix_of(paths: Seq<Seq<char>>) -> Seq<char> {
    match fomod_parent(paths) {
        Some(parent) => as_prefix(parent),
        None => match detected_data_root(paths) {
            Some(root) => as_prefix(root),
            None => wrapper_of(paths.map_values(|p: Seq<char>| top_name(p))),
        },
    }
}

fn owned_paths(paths: &[&str]) -> (r: Vec<String>)
    ensures
        r.deep_view() == paths.deep_view(),
{
    let ghost all = paths.deep_view();
    let mut r: Vec<String> = Vec::new();
    for i in 0..paths.len()
        invariant
            all == paths.deep_view(),
            r.deep_view() == all.take(i as int),
    {
        let ghost before = r.deep_view();
        assert(all[i as int] == paths@[i as int]@);
        r.push(owned(paths[i]));
        assert(r.deep_view() =~= before.push(all[i as int]));
        assert(all.take(i + 1) =~= all.take(i as int).push(all[i as int]));
    }
    assert(all.take(all.len() as int) =~= all);
    r
}

/// Scans all paths of an archive and returns the prefix to strip.
pub fn find_data_root_in_paths(paths: &[&str]) -> (r: String)
    ensures
        r@ == strip_prefix_of(paths.deep_view()),
{
    match find_fomod_parent_dir(paths) {
        Some(parent) => to_prefix(parent.as_str()),
        None => {
            let all = owned_paths(paths);
            let slice = all.as_slice();
            assert(slice.deep_view() =~= paths.deep_view());
            match detect_data_root(slice) {
                Some(root) => to_prefix(root.as_str()),
                None => find_common_prefix_from_paths(paths),
            }
        },
    }
}

// ── Content for the game root ───────────────────────────────────────────────

/// The lowercase top-level name belongs next to the game executable.
pub open spec fn belongs_to_game_root(top: Seq<char>) -> bool {
    ||| top == "enbseries"@
    ||| top == "reshade-shaders"@
    ||| top == "reshade"@
    ||| has_suffix(top, ".dll"@)
    ||| has_suffix(top, ".asi"@)
}

/// One of the paths belongs next to the game executable.
pub open spec fn has_root_content(paths: Seq<Seq<char>>) -> bool {
    exists|i: int|
        0 <= i < paths.len() && belongs_to_game_root(
            first_piece(trimmed_start(lower_slashes(#[trigger] paths[i]), '/')),
        )
}

/// Whether the paths look like content for the game root.
pub fn looks_like_root_level_mod(paths: &Vec<String>) -> (r: bool)
    ensures
        r == has_root_content(paths.deep_view()),
{
    let ghost all = paths.deep_view();
    for i in 0..paths.len()
        invariant
            all == paths.deep_view(),
            forall|j: int|
                0 <= j < i ==> !belongs_to_game_root(
                    first_piece(trimmed_start(lower_slashes(#[trigger] all[j]), '/')),
                ),
    {
        assert(all[i as int] == paths@[i as int]@);
        let p = trim_start_matches(to_lower_slashes(paths[i].as_str()).as_str(), '/');
        let top = first_component(p.as_str());
        if same(top.as_str(), "enbseries") || same(top.as_str(), "reshade-shaders") || same(
            top.as_str(),
            "reshade",
        ) || ends_with(top.as_str(), ".dll") || ends_with(top.as_str(), ".asi") {
            return true;
        }
    }
    false
}

// ── BAIN packages ───────────────────────────────────────────────────────────

/// The name is that of a BAIN package: two digits and a space or an
/// underscore.
pub open spec fn is_bain_name(d: Seq<char>) -> bool {
    &&& d.len() >= 3
    &&& is_ascii_digit(d[0])
    &&& is_ascii_digit(d[1])
    &&& (d[2] == ' ' || d[2] == '_')
}

/// Whether a directory is named as a BAIN package.
pub fn has_bain_name(d: &str) -> (r: bool)
    ensures
        r == is_bain_name(d@),
{
    let v = chars_of(d);
    v.len() >= 3 && is_digit(v[0]) && is_digit(v[1]) && (v[2] == ' ' || v[2] == '_')
}

/// The top-level name of a path in lowercase, or nothing.
pub open spec fn lower_top(path: Seq<char>) -> Seq<char> {
    if top_name(path).len() == 0 {
        Seq::empty()
    } else {
        lowercase(top_name(path))
    }
}

/// At least two top-level entries, all of them named as BAIN packages.
pub open spec fn is_bain(paths: Seq<Seq<char>>) -> bool {
    let tops = distinct(paths.map_values(|p: Seq<char>| lower_top(p)));
    &&& tops.len() >= 2
    &&& forall|i: int| 0 <= i < tops.len() ==> is_bain_name(#[trigger] tops[i])
}

/// Returns `true` if the archive follows BAIN package conventions.
pub fn is_bain_archive(paths: &[&str]) -> (r: bool)
    ensures
        r == is_bain(paths.deep_view()),
{
    let ghost all = paths.deep_view();
    let ghost lowers = all.map_values(|p: Seq<char>| lower_top(p));
    let mut tops: Vec<String> = Vec::new();
    assert(distinct(lowers.take(0)) =~= tops.deep_view());
    for i in 0..paths.len()
        invariant
            all == paths.deep_view(),
            lowers == all.map_values(|p: Seq<char>| lower_top(p)),
            tops.deep_view() == distinct(lowers.take(i as int)),
    {
        assert(all[i as int] == paths@[i as int]@);
        let top = top_of(paths[i]);
        let lower = if top.as_str().is_empty() {
            String::new()
        } else {
            to_lowercase(top.as_str())
        };
        assert(lower@ =~= lowers[i as int]);
        assert(lowers.take(i + 1).drop_last() =~= lowers.take(i as int));
        let added = add_distinct(&mut tops, lower);
    }
    assert(lowers.take(lowers.len() as int) =~= lowers);
    let ghost names = tops.deep_view();
    if tops.len() < 2 {
        return false;
    }
    for i in 0..tops.len()
        invariant
            names == tops.deep_view(),
            names == distinct(paths.deep_view().map_values(|p: Seq<char>| lower_top(p))),
            forall|j: int| 0 <= j < i ==> is_bain_name(#[trigger] names[j]),
    {
        assert(names[i as int] == tops@[i as int]@);
        if !has_bain_name(tops[i].as_str()) {
            return false;
        }
    }
    true
}

/// The name of the BAIN package that a path lies in, or nothing.
pub open spec fn package_of(path: Seq<char>) -> Seq<char> {
    if is_bain_name(first_piece(lowercase(trimmed_start(with_slashes(path), '/')))) {
        top_name(path)
    } else {
        Seq::empty()
    }
}

/// The names of the BAIN packages, each once, in order.
pub open spec fn bain_top_dirs(paths: Seq<Seq<char>>) -> Seq<Seq<char>> {
    stably_sorted(
        distinct(paths.map_values(|p: Seq<char>| package_of(p))),
        |a: Seq<char>, b: Seq<char>| not_after(a, b),
    )
}

/// Returns the sorted list of BAIN package directory names.
pub fn collect_bain_top_dirs(paths: &[&str]) -> (r: Vec<String>)
    ensures
        r.deep_view() == bain_top_dirs(paths.deep_view()),
{
    let ghost all = paths.deep_view();
    let ghost packages = all.map_values(|p: Seq<char>| package_of(p));
    let mut dirs: Vec<String> = Vec::new();
    assert(distinct(packages.take(0)) =~= dirs.deep_view());
    for i in 0..paths.len()
        invariant
            all == paths.deep_view(),
            packages == all.map_values(|p: Seq<char>| package_of(p)),
            dirs.deep_view() == distinct(packages.take(i as int)),
    {
        assert(all[i as int] == paths@[i as int]@);
        let p = trim_start_matches(replace_char(paths[i], '\\', '/').as_str(), '/');
        let lower = to_lowercase(p.as_str());
        let package = if has_bain_name(first_component(lower.as_str()).as_str()) {
            first_component(p.as_str())
        } else {
            String::new()
        };
        assert(package@ =~= packages[i as int]);
        assert(packages.take(i + 1).drop_last() =~= packages.take(i as int));
        let added = add_distinct(&mut dirs, package);
    }
    assert(packages.take(packages.len() as int) =~= packages);
    let in_place = |a: &String, b: &String| -> (ok: bool)
        ensures
            ok == not_after(a@, b@),
    {
        !less(b.as_str(), a.as_str())
    };
    sort_stably(dirs, in_place, Ghost(|a: Seq<char>, b: Seq<char>| not_after(a, b)))
}

// ── The plan for a plain archive ────────────────────────────────────────────

/// The path below the wrapper directory, or nothing if it does not lie there.
pub open spec fn below_wrapper(path: Seq<char>, wrapper: Seq<char>) -> Option<Seq<char>> {
    let p = trimmed_start(lower_slashes(path), '/');
    if wrapper.len() == 0 {
        Some(p)
    } else if has_prefix(p, lowercase(wrapper)) {
        Some(p.skip(lowercase(wrapper).len() as int))
    } else {
        None
    }
}

/// The paths below the wrapper directory.
pub open spec fn all_below_wrapper(paths: Seq<Seq<char>>, wrapper: Seq<char>) -> Seq<Seq<char>>
    decreases paths.len(),
{
    if paths.len() == 0 {
        Seq::empty()
    } else {
        let before = all_below_wrapper(paths.drop_last(), wrapper);
        match below_wrapper(paths.last(), wrapper) {
            Some(p) => before.push(p),
            None => before,
        }
    }
}

/// Where the files of an archive go, given the prefix of its data root and its
/// wrapper directory: BAIN packages are taken apart; files with a recognised
/// data root go below `Data/`; others go next to it if they look like content
/// for the game root.
pub open spec fn plan_for_roots(
    paths: Seq<Seq<char>>,
    root: Seq<char>,
    wrapper: Seq<char>,
) -> DataArchivePlanView {
    if is_bain(paths) {
        DataArchivePlanView::Bain { top_dirs: bain_top_dirs(paths) }
    } else if data_root_score(trimmed_end(root, '/'), paths) > 0 {
        DataArchivePlanView::ExtractToData { strip_prefix: root }
    } else if has_root_content(all_below_wrapper(paths, wrapper)) {
        DataArchivePlanView::ExtractToModRoot { strip_prefix: wrapper }
    } else {
        DataArchivePlanView::ExtractToData { strip_prefix: wrapper }
    }
}

/// Where the files of an archive go.
pub open spec fn data_plan(paths: Seq<Seq<char>>) -> DataArchivePlanView {
    plan_for_roots(
        paths,
        strip_prefix_of(paths),
        wrapper_of(paths.map_values(|p: Seq<char>| top_name(p))),
    )
}

/// Plans where the files of an archive go, given the prefix of its data root
/// and its wrapper directory.
pub fn plan_with_roots(path_refs: &[&str], root: String, wrapper: String) -> (r: DataArchivePlan)
    ensures
        r.deep_view() == plan_for_roots(path_refs.deep_view(), root@, wrapper@),
{
    let ghost all = path_refs.deep_view();
    if is_bain_archive(path_refs) {
        return DataArchivePlan::Bain { top_dirs: collect_bain_top_dirs(path_refs) };
    }
    let trimmed = trim_end_matches(root.as_str(), '/');
    if score_as_data_root(trimmed.as_str(), path_refs) > 0 {
        return DataArchivePlan::ExtractToData { strip_prefix: root };
    }
    let lower = to_lowercase(wrapper.as_str());
    let mut stripped: Vec<String> = Vec::new();
    assert(all_below_wrapper(all.take(0), wrapper@) =~= stripped.deep_view());
    for i in 0..path_refs.len()
        invariant
            all == path_refs.deep_view(),
            lower@ == lowercase(wrapper@),
            stripped.deep_view() == all_below_wrapper(all.take(i as int), wrapper@),
    {
        let ghost before = stripped.deep_view();
        assert(all[i as int] == path_refs@[i as int]@);
        assert(all.take(i + 1).drop_last() =~= all.take(i as int));
        let p = trim_start_matches(to_lower_slashes(path_refs[i]).as_str(), '/');
        let below = if wrapper.as_str().is_empty() {
            Some(p)
        } else {
            strip_prefix(p.as_str(), lower.as_str())
        };
        assert(below.deep_view() == below_wrapper(all[i as int], wrapper@));
        match below {
            Some(b) => {
                let ghost bv = b@;
                stripped.push(b);
                assert(stripped.deep_view() =~= before.push(bv));
            },
            None => {},
        }
    }
    assert(all.take(all.len() as int) =~= all);
    if looks_like_root_level_mod(&stripped) {
        DataArchivePlan::ExtractToModRoot { strip_prefix: wrapper }
    } else {
        DataArchivePlan::ExtractToData { strip_prefix: wrapper }
    }
}

/// Plans where the files of an archive without a FOMOD configuration go.
pub fn build_data_archive_plan(path_refs: &[&str]) -> (r: DataArchivePlan)
    ensures
        r.deep_view() == data_plan(path_refs.deep_view()),
{
    plan_with_roots(
        path_refs,
        find_data_root_in_paths(path_refs),
        find_common_prefix_from_paths(path_refs),
    )
}

// ── FOMOD archives ──────────────────────────────────────────────────────────

/// The lowercase text of an XML file is that of a FOMOD configuration.
pub open spec fn is_config_text(lower: Seq<char>) -> bool {
    &&& has_infix(lower, "<modulename>"@)
    &&& has_infix(lower, "<installsteps>"@) || has_infix(lower, "<requiredinstallfiles>"@)
}

/// Whether the lowercase text of an XML file is that of a FOMOD configuration.
pub fn looks_like_fomod_config(lower: &str) -> (r: bool)
    ensures
        r == is_config_text(lower@),
{
    contains(lower, "<modulename>") && (contains(lower, "<installsteps>") || contains(
        lower,
        "<requiredinstallfiles>",
    ))
}

/// An entry has the path of a FOMOD configuration.
pub open spec fn lists_config(entries: Seq<Seq<char>>) -> bool {
    exists|i: int| 0 <= i < entries.len() && is_config_path(lower_slashes(#[trigger] entries[i]))
}

/// One of the documents is UTF-8 text with what a FOMOD configuration has.
pub open spec fn holds_config(contents: Seq<Seq<u8>>) -> bool {
    exists|i: int|
        0 <= i < contents.len() && valid_utf8(#[trigger] contents[i]) && is_config_text(
            lowercase(decode_utf8(contents[i])),
        )
}

/// Whether an archive has an entry with the path of a FOMOD configuration.
pub fn has_fomod_config_entry(entries: &[String]) -> (r: bool)
    ensures
        r == lists_config(entries.deep_view()),
{
    let ghost all = entries.deep_view();
    for i in 0..entries.len()
        invariant
            all == entries.deep_view(),
            forall|j: int| 0 <= j < i ==> !is_config_path(lower_slashes(#[trigger] all[j])),
    {
        assert(all[i as int] == entries@[i as int]@);
        if is_fomod_config_path(to_lower_slashes(entries[i].as_str()).as_str()) {
            return true;
        }
    }
    false
}

/// The entries of an archive that are XML files.
pub open spec fn xml_entries_of(entries: Seq<Seq<char>>) -> Seq<Seq<char>> {
    entries.filter(|e: Seq<char>| has_suffix(lowercase(e), ".xml"@))
}

/// The entries of an archive that are XML files: the ones to read where no
/// entry has the path of a FOMOD configuration.
pub fn xml_entries(entries: &[String]) -> (r: Vec<String>)
    ensures
        r.deep_view() == xml_entries_of(entries.deep_view()),
{
    let ghost all = entries.deep_view();
    let ghost is_xml = |e: Seq<char>| has_suffix(lowercase(e), ".xml"@);
    let mut r: Vec<String> = Vec::new();
    assert(all.take(0).filter(is_xml) =~= r.deep_view()) by {
        reveal(Seq::filter);
    }
    for i in 0..entries.len()
        invariant
            all == entries.deep_view(),
            is_xml == (|e: Seq<char>| has_suffix(lowercase(e), ".xml"@)),
            r.deep_view() == all.take(i as int).filter(is_xml),
    {
        let ghost before = r.deep_view();
        assert(all[i as int] == entries@[i as int]@);
        assert(all.take(i + 1).drop_last() =~= all.take(i as int));
        let keep = ends_with(to_lowercase(entries[i].as_str()).as_str(), ".xml");
        if keep {
            r.push(entries[i].clone());
            assert(r.deep_view() =~= before.push(all[i as int]));
        }
        assert(r.deep_view() == all.take(i + 1).filter(is_xml)) by {
            reveal(Seq::filter);
        }
    }
    assert(all.take(all.len() as int) =~= all);
    r
}

/// Whether an archive is a FOMOD installer, given its entries and the contents
/// of its XML files, as far as they could be read.
pub fn is_fomod_archive(entries: &[String], xml_contents: &Vec<Vec<u8>>) -> (r: bool)
    ensures
        r == (lists_config(entries.deep_view()) || holds_config(xml_contents.deep_view())),
{
    if has_fomod_config_entry(entries) {
        return true;
    }
    let ghost all = xml_contents.deep_view();
    for i in 0..xml_contents.len()
        invariant
            all == xml_contents.deep_view(),
            forall|j: int|
                0 <= j < i ==> !(valid_utf8(#[trigger] all[j]) && is_config_text(
                    lowercase(decode_utf8(all[j])),
                )),
    {
        assert(all[i as int] =~= xml_contents@[i as int]@);
        match utf8_text(xml_contents[i].clone()) {
            Some(content) => {
                if looks_like_fomod_config(to_lowercase(content.as_str()).as_str()) {
                    return true;
                }
            },
            None => {},
        }
    }
    false
}

/// Determines the install strategy for an archive, given its entries and the
/// contents of its XML files.
pub fn detect_strategy(entries: &[String], xml_contents: &Vec<Vec<u8>>) -> (r: InstallStrategy)
    ensures
        r.deep_view() == if lists_config(entries.deep_view()) || holds_config(
            xml_contents.deep_view(),
        ) {
            InstallStrategyView::Fomod(Seq::empty())
        } else {
            InstallStrategyView::Data
        },
{
    if is_fomod_archive(entries, xml_contents) {
        let files: Vec<FomodFile> = Vec::new();
        assert(files.deep_view() =~= Seq::empty());
        InstallStrategy::Fomod(files)
    } else {
        InstallStrategy::Data
    }
}

/// The path without one slash in front.
pub open spec fn without_slash(p: Seq<char>) -> Seq<char> {
    if has_prefix(p, "/"@) {
        p.skip(1)
    } else {
        p
    }
}

/// The name without the prefix, if it has it.
pub open spec fn without_prefix(name: Seq<char>, prefix: Seq<char>) -> Seq<char> {
    if prefix.len() > 0 && has_prefix(name, prefix) {
        name.skip(prefix.len() as int)
    } else {
        name
    }
}

/// Behind the prefix one of the names starts with a `Data` folder.
pub open spec fn data_folder_behind(names: Seq<Seq<char>>, prefix: Seq<char>) -> bool {
    exists|i: int|
        0 <= i < names.len() && first_piece(
            without_slash(lowercase(without_prefix(#[trigger] names[i], prefix))),
        ) == "data"@
}

/// Below its wrapper directory the archive has a `Data` folder.
pub open spec fn has_data_folder(names: Seq<Seq<char>>) -> bool {
    data_folder_behind(names, wrapper_of(names.map_values(|p: Seq<char>| first_piece(p))))
}

/// Whether one of the names starts with a `Data` folder behind the prefix.
pub fn has_data_folder_behind(names: &[String], prefix: &str) -> (r: bool)
    ensures
        r == data_folder_behind(names.deep_view(), prefix@),
{
    let ghost all = names.deep_view();
    proof {
        reveal_strlit("/");
    }
    for i in 0..names.len()
        invariant
            all == names.deep_view(),
            "/"@.len() == 1,
            forall|j: int|
                0 <= j < i ==> first_piece(
                    without_slash(lowercase(without_prefix(#[trigger] all[j], prefix@))),
                ) != "data"@,
    {
        assert(all[i as int] == names@[i as int]@);
        let name = names[i].as_str();
        let rel = if prefix.is_empty() {
            owned(name)
        } else {
            match strip_prefix(name, prefix) {
                Some(r) => r,
                None => owned(name),
            }
        };
        assert(rel@ == without_prefix(all[i as int], prefix@));
        let lower = to_lowercase(rel.as_str());
        let stripped = match strip_prefix(lower.as_str(), "/") {
            Some(s) => s,
            None => lower,
        };
        if same(first_component(stripped.as_str()).as_str(), "data") {
            return true;
        }
    }
    false
}

/// Returns `true` when the archive contains a `Data/` folder after its wrapper
/// directory is stripped.
pub fn archive_has_data_folder(names: &[String]) -> (r: bool)
    ensures
        r == has_data_folder(names.deep_view()),
{
    has_data_folder_behind(names, find_common_prefix(names).as_str())
}

// ── Laws ────────────────────────────────────────────────────────────────────

/// The prefix to strip is empty or ends in a slash.
pub proof fn strip_prefix_ends_in_slash(paths: Seq<Seq<char>>)
    ensures
        strip_prefix_of(paths).len() > 0 ==> strip_prefix_of(paths).last() == '/',
{
    reveal_strlit("/");
}

/// A FOMOD configuration in the archive decides the prefix to strip: it is the
/// directory that contains `fomod/`, whatever else the archive holds.
pub proof fn fomod_parent_decides_prefix(paths: Seq<Seq<char>>)
    requires
        exists|i: int| 0 <= i < paths.len() && names_config(#[trigger] paths[i]),
    ensures
        fomod_parent(paths) is Some,
        strip_prefix_of(paths) == as_prefix(fomod_parent(paths)->0),
{
    lemma_config_index(paths);
}

pub proof fn lemma_config_index(paths: Seq<Seq<char>>)
    ensures
        config_index(paths) < paths.len() <==> exists|i: int|
            0 <= i < paths.len() && names_config(#[trigger] paths[i]),
        0 <= config_index(paths) <= paths.len(),
    decreases paths.len(),
{
    if paths.len() > 0 && !names_config(paths[0]) {
        lemma_config_index(paths.skip(1));
        if exists|i: int| 0 <= i < paths.len() && names_config(#[trigger] paths[i]) {
            let i = choose|i: int| 0 <= i < paths.len() && names_config(#[trigger] paths[i]);
            assert(paths.skip(1)[i - 1] == paths[i]);
        }
    }
}

/// How many of the names are such.
spec fn count(names: Seq<Seq<char>>, f: spec_fn(Seq<char>) -> bool) -> int {
    names.filter(f).len() as int
}

proof fn lemma_count(names: Seq<Seq<char>>, f: spec_fn(Seq<char>) -> bool)
    requires
        names.len() > 0,
    ensures
        count(names, f) == count(names.drop_last(), f) + if f(names.last()) {
            1int
        } else {
            0
        },
{
    reveal(Seq::filter);
}

/// A directory scores ten points for each known directory in it, fifteen for
/// each plugin and, where they count, five for each archive of a game.
pub proof fn points_are_counted_by_kind(children: Seq<Seq<char>>, archives: bool)
    ensures
        total_points(children, archives) == 10 * children.filter(
            |c: Seq<char>| known_data_subdirs().contains(c),
        ).len() + 15 * children.filter(
            |c: Seq<char>|
                ".esp"@.is_suffix_of(c) || ".esm"@.is_suffix_of(c) || ".esl"@.is_suffix_of(c),
        ).len() + if archives {
            5 * children.filter(
                |c: Seq<char>| ".bsa"@.is_suffix_of(c) || ".ba2"@.is_suffix_of(c),
            ).len()
        } else {
            0
        },
    decreases children.len(),
{
    let known = |c: Seq<char>| known_data_subdirs().contains(c);
    let plugin = |c: Seq<char>|
        ".esp"@.is_suffix_of(c) || ".esm"@.is_suffix_of(c) || ".esl"@.is_suffix_of(c);
    let packed = |c: Seq<char>| ".bsa"@.is_suffix_of(c) || ".ba2"@.is_suffix_of(c);
    if children.len() > 0 {
        points_are_counted_by_kind(children.drop_last(), archives);
        lemma_count(children, known);
        lemma_count(children, plugin);
        lemma_count(children, packed);
        let c = children.last();
        assert(is_plugin_name(c) == plugin(c));
        assert(is_game_archive_name(c) == packed(c));
    } else {
        reveal(Seq::filter);
    }
}

/// A text is that of a configuration if it names the module and lists steps or
/// required files.
pub proof fn configurations_are_told_by_their_tags(a: Seq<char>, b: Seq<char>, c: Seq<char>)
    ensures
        is_config_text(a + "<modulename>"@ + b + "<installsteps>"@ + c),
        is_config_text(a + "<modulename>"@ + b + "<requiredinstallfiles>"@ + c),
        !has_infix(a, "<modulename>"@) ==> !is_config_text(a),
        !has_infix(a, "<installsteps>"@) && !has_infix(a, "<requiredinstallfiles>"@)
            ==> !is_config_text(a),
{
    let m = "<modulename>"@;
    let n = a.len() as int;
    let s = a + m + b + "<installsteps>"@ + c;
    assert(s.subrange(n, n + m.len()) =~= m);
    assert(occurs_at(s, m, n));
    let k = (a + m + b).len() as int;
    assert(s.subrange(k, k + "<installsteps>"@.len()) =~= "<installsteps>"@);
    assert(occurs_at(s, "<installsteps>"@, k));
    let t = a + m + b + "<requiredinstallfiles>"@ + c;
    assert(t.subrange(n, n + m.len()) =~= m);
    assert(occurs_at(t, m, n));
    assert(t.subrange(k, k + "<requiredinstallfiles>"@.len()) =~= "<requiredinstallfiles>"@);
    assert(occurs_at(t, "<requiredinstallfiles>"@, k));
}

/// The entries that are looked at for a configuration are exactly those that end
/// in `.xml`.
pub proof fn xml_entries_are_looked_at(entries: Seq<Seq<char>>, e: Seq<char>)
    ensures
        xml_entries_of(entries).contains(e) <==> entries.contains(e) && ".xml"@.is_suffix_of(
            lowercase(e),
        ),
{
    let keep = |e: Seq<char>| has_suffix(lowercase(e), ".xml"@);
    let kept = entries.filter(keep);
    if kept.contains(e) {
        let i = choose|i: int| 0 <= i < kept.len() && kept[i] == e;
        entries.lemma_filter_contains_rev(keep, e);
        entries.lemma_filter_pred(keep, i);
    }
    if entries.contains(e) && ".xml"@.is_suffix_of(lowercase(e)) {
        let i = choose|i: int| 0 <= i < entries.len() && entries[i] == e;
        assert(keep(e));
        entries.lemma_filter_contains(keep, i);
    }
}

} // verus!
