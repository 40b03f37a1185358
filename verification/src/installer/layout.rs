//! How the layout of an archive decides where its files go.
use vstd::prelude::*;

use crate::installer::extract::{
    guarded, tail_behind, tree_placement, zip_placement, zip_tail, PlacementView,
};
use crate::installer::heuristics::{
    all_below_wrapper, all_named, as_prefix, belongs_to_game_root, best_candidate, child_through,
    config_index, config_parent, counts_as_top, data_folder_behind, data_plan, data_root_score,
    data_root_score_owned, detected_data_root, directory_score, first_counting, fomod_parent,
    has_root_content, indicates_data, is_bain, is_bain_name, is_config_path, is_plugin_name,
    junk_toplevel_entries, known_data_subdirs, last_segment, lemma_config_index,
    lemma_kept_by_distinct, lemma_points_are_counted, lists_config, lower_slashes, lower_top,
    names_config, package_of, plan_for_roots, points, strip_prefix_of, top_level_names, top_name,
    total_points, without_last, without_prefix, without_slash, wrapper_of,
};
use crate::installer::paths::{
    is_clean, normalized_lowercase, paths_stay_below_that_climb_no_higher, stays_below,
    with_slashes,
};
use crate::installer::types::DataArchivePlanView;
use crate::nxm::interspersed;
use crate::paths::{is_name, is_written, parts_of};
use crate::text::{
    after_last, all_ascii, ascii_lower, ascii_lowercase, byte_len, distinct, first_index, first_piece,
    has_prefix, has_suffix, is_ascii_char, is_ascii_digit, lemma_after_last, lemma_ascii_concat,
    lemma_ascii_rest, lemma_first_index, lemma_first_index_is, lemma_not_after_transitive,
    lemma_precedes_total, lemma_stably_sorted, lowercase, not_after, precedes, stably_sorted,
    total_preorder, trimmed_end, trimmed_start,
};

verus! {

// ── What is stripped ────────────────────────────────────────────────────────

/// A path in ASCII with forward slashes, made of names.
pub open spec fn is_plain(path: Seq<char>) -> bool {
    all_ascii(path) && !path.contains('\\') && exists|names: Seq<Seq<char>>| is_written(names, path)
}

/// A path without a backslash is its own form with forward slashes.
pub proof fn lemma_without_backslash(s: Seq<char>)
    requires
        !s.contains('\\'),
    ensures
        with_slashes(s) == s,
        with_slashes(ascii_lowercase(s)) == ascii_lowercase(s),
{
    assert forall|i: int| 0 <= i < s.len() implies s[i] != '\\' && ascii_lower(s[i]) != '\\' by {
        assert(s.contains(s[i]));
    }
    assert(with_slashes(s) =~= s);
    assert(with_slashes(ascii_lowercase(s)) =~= ascii_lowercase(s));
}

/// What a plain path looks like, and that it may be written to.
pub proof fn lemma_plain(path: Seq<char>)
    requires
        is_plain(path),
    ensures
        is_clean(path),
        path.len() > 0,
        with_slashes(path) == path,
        stays_below(parts_of(path)),
        guarded(path) == PlacementView::Put(path),
{
    let names = choose|names: Seq<Seq<char>>| is_written(names, path);
    lemma_without_backslash(path);
    let none = Seq::<Seq<char>>::empty();
    paths_stay_below_that_climb_no_higher(names, 0, none);
    assert(names + Seq::new(0, |i: int| seq!['.', '.']) + none =~= names);
    crate::paths::written_ends_are_no_slashes(names, path);
}

/// An entry whose name starts with the prefix, in whatever case, is placed at
/// what follows the prefix.
pub proof fn prefix_is_taken_off(front: Seq<char>, rel: Seq<char>, prefix: Seq<char>)
    requires
        all_ascii(front),
        ascii_lowercase(front) == ascii_lowercase(prefix),
        !front.contains('\\'),
        is_plain(rel),
        front.len() + rel.len() <= usize::MAX,
    ensures
        zip_placement(front + rel, prefix) == PlacementView::Put(rel),
        tree_placement(front + rel, prefix) == PlacementView::Put(rel),
{
    let name = front + rel;
    lemma_plain(rel);
    lemma_same_ascii(front, prefix);
    lemma_ascii_concat(front, rel);
    lemma_ascii_rest(front, rel);
    lemma_ascii_concat(rel, rel);
    let low = ascii_lowercase(name);
    let key = ascii_lowercase(prefix);
    assert(lowercase(name) == low && lowercase(prefix) == key);
    assert(low.subrange(0, key.len() as int) =~= key);
    assert(low.skip(key.len() as int) =~= ascii_lowercase(rel));
    lemma_ascii_rest(Seq::empty(), ascii_lowercase(rel));
    assert(byte_len(ascii_lowercase(rel)) == rel.len());
    // As a zip names it.
    if prefix.len() == 0 {
        assert(name =~= rel);
    } else if has_prefix(name, prefix) {
        assert(name.skip(prefix.len() as int) =~= rel);
    }
    assert(zip_tail(name, prefix) == Some(rel));
    reveal_strlit("/");
    assert(rel[0] != '/');
    // As a directory tree names it.
    assert(!name.contains('\\')) by {
        assert forall|i: int| 0 <= i < name.len() implies name[i] != '\\' by {
            if i < front.len() {
                assert(front.contains(front[i]));
            } else {
                assert(rel.contains(rel[i - front.len()]));
            }
        }
    }
    lemma_without_backslash(name);
    assert(!prefix.contains('\\')) by {
        assert forall|i: int| 0 <= i < prefix.len() implies prefix[i] != '\\' by {
            assert(ascii_lowercase(prefix)[i] == ascii_lower(prefix[i]));
            assert(ascii_lowercase(front)[i] == ascii_lower(front[i]));
            assert(front.contains(front[i]));
        }
    }
    lemma_without_backslash(prefix);
    assert(tail_behind(name, prefix) == Some(rel));
    assert(trimmed_start(rel, '/') == rel);
}

/// Strings that are the same in lowercase are ASCII together.
proof fn lemma_same_ascii(a: Seq<char>, b: Seq<char>)
    requires
        ascii_lowercase(a) == ascii_lowercase(b),
        all_ascii(a),
    ensures
        all_ascii(b),
        a.len() == b.len(),
{
    assert(ascii_lowercase(a).len() == a.len());
    assert(ascii_lowercase(b).len() == b.len());
    assert forall|i: int| 0 <= i < b.len() implies is_ascii_char(#[trigger] b[i]) by {
        assert(ascii_lowercase(a)[i] == ascii_lower(a[i]));
        assert(ascii_lowercase(b)[i] == ascii_lower(b[i]));
        assert(is_ascii_char(a[i]));
    }
}

/// An entry that lies outside the prefix is left out.
pub proof fn what_lies_elsewhere_is_left_out(name: Seq<char>, prefix: Seq<char>)
    requires
        all_ascii(name),
        all_ascii(prefix),
        !name.contains('\\'),
        !prefix.contains('\\'),
        prefix.len() > 0,
        !ascii_lowercase(prefix).is_prefix_of(ascii_lowercase(name)),
    ensures
        zip_placement(name, prefix) == PlacementView::Skip,
        tree_placement(name, prefix) == PlacementView::Skip,
{
    lemma_without_backslash(name);
    lemma_without_backslash(prefix);
    let low = ascii_lowercase(name);
    let key = ascii_lowercase(prefix);
    assert(key.len() == prefix.len() && low.len() == name.len());
    if has_prefix(low, key) {
        assert(low.subrange(0, key.len() as int) == key);
        assert(key.is_prefix_of(low));
    }
    if has_prefix(name, prefix) {
        assert forall|i: int| 0 <= i < key.len() implies key[i] == low[i] by {
            assert(name.subrange(0, prefix.len() as int)[i] == name[i]);
        }
        assert(key =~= low.subrange(0, key.len() as int));
        assert(key.is_prefix_of(low));
    }
}

/// An entry that would lead above where it is placed is refused.
pub proof fn climbing_entries_are_refused(down: Seq<Seq<char>>, up: nat, last: Seq<char>)
    requires
        forall|i: int| 0 <= i < down.len() ==> is_name(#[trigger] down[i]),
        is_name(last),
        up > down.len(),
        ({
            let path = interspersed(
                down + Seq::new(up, |i: int| seq!['.', '.']) + seq![last],
                '/',
            );
            !path.contains('\\')
        }),
    ensures
        ({
            let path = interspersed(
                down + Seq::new(up, |i: int| seq!['.', '.']) + seq![last],
                '/',
            );
            &&& guarded(path) == PlacementView::Unsafe(path)
            &&& guarded(seq!['/'] + path) == PlacementView::Unsafe(seq!['/'] + path)
        }),
{
    let path = interspersed(down + Seq::new(up, |i: int| seq!['.', '.']) + seq![last], '/');
    paths_stay_below_that_climb_no_higher(down, up, seq![last]);
    lemma_without_backslash(path);
    assert(!(seq!['/'] + path).contains('\\')) by {
        assert forall|i: int| 0 <= i < (seq!['/'] + path).len() implies (seq!['/'] + path)[i]
            != '\\' by {
            if i > 0 {
                assert(path.contains(path[i - 1]));
            }
        }
    }
    lemma_without_backslash(seq!['/'] + path);
}

/// Where the archive is no BAIN package and what lies below the root scores, the
/// plan extracts to the data directory and strips exactly the root: a path below
/// the root is placed at what stands behind it, in whatever case the root is
/// written.
pub proof fn scoring_root_is_stripped(
    paths: Seq<Seq<char>>,
    root: Seq<char>,
    wrapper: Seq<char>,
    front: Seq<char>,
    rel: Seq<char>,
)
    requires
        !is_bain(paths),
        data_root_score(root, paths) > 0,
        root.len() > 0 ==> root.last() != '/',
        all_ascii(front),
        !front.contains('\\'),
        ascii_lowercase(front) == ascii_lowercase(root),
        is_plain(rel),
        front.len() + 1 + rel.len() <= usize::MAX,
    ensures
        ({
            let plan = plan_for_roots(paths, as_prefix(root), wrapper);
            let path = if root.len() == 0 {
                rel
            } else {
                front + seq!['/'] + rel
            };
            &&& plan is ExtractToData
            &&& zip_placement(path, plan->ExtractToData_strip_prefix) == PlacementView::Put(rel)
            &&& tree_placement(path, plan->ExtractToData_strip_prefix) == PlacementView::Put(rel)
        }),
{
    reveal_strlit("/");
    let slash = seq!['/'];
    assert("/"@ =~= slash);
    assert(ascii_lowercase(front).len() == front.len());
    assert(ascii_lowercase(root).len() == root.len());
    if root.len() == 0 {
        assert(root =~= Seq::<char>::empty());
        prefix_is_taken_off(Seq::empty(), rel, Seq::empty());
        assert(Seq::<char>::empty() + rel =~= rel);
    } else {
        assert((root + slash).drop_last() =~= root);
        reveal_with_fuel(trimmed_end, 2);
        assert(trimmed_end(root + slash, '/') == root);
        lemma_ascii_concat(front, slash);
        lemma_ascii_concat(root, slash);
        assert(!(front + slash).contains('\\')) by {
            assert forall|i: int| 0 <= i < (front + slash).len() implies (front + slash)[i]
                != '\\' by {
                if i < front.len() {
                    assert(front.contains(front[i]));
                }
            }
        }
        assert(all_ascii(slash));
        prefix_is_taken_off(front + slash, rel, root + slash);
    }
}

/// The same of the plan for an archive: the data root that was detected in it is
/// what is stripped.
pub proof fn detected_root_is_stripped(
    paths: Seq<Seq<char>>,
    root: Seq<char>,
    front: Seq<char>,
    rel: Seq<char>,
)
    requires
        !is_bain(paths),
        fomod_parent(paths) is None,
        detected_data_root(paths) == Some(root),
        data_root_score(root, paths) > 0,
        root.len() > 0 ==> root.last() != '/',
        all_ascii(front),
        !front.contains('\\'),
        ascii_lowercase(front) == ascii_lowercase(root),
        is_plain(rel),
        front.len() + 1 + rel.len() <= usize::MAX,
    ensures
        ({
            let plan = data_plan(paths);
            let path = if root.len() == 0 {
                rel
            } else {
                front + seq!['/'] + rel
            };
            &&& plan is ExtractToData
            &&& zip_placement(path, plan->ExtractToData_strip_prefix) == PlacementView::Put(rel)
            &&& tree_placement(path, plan->ExtractToData_strip_prefix) == PlacementView::Put(rel)
        }),
{
    let wrapper = wrapper_of(paths.map_values(|p: Seq<char>| top_name(p)));
    scoring_root_is_stripped(paths, root, wrapper, front, rel);
}

// ── What is recognised ──────────────────────────────────────────────────────

/// A path in ASCII with forward slashes that does not start with one.
pub open spec fn is_listed_path(path: Seq<char>) -> bool {
    all_ascii(path) && !path.contains('\\') && path.len() > 0 && path[0] != '/'
}

/// The path goes through `first`: it is that name, or a slash follows the name.
pub open spec fn goes_through(path: Seq<char>, first: Seq<char>) -> bool {
    &&& first.len() > 0
    &&& !first.contains('/')
    &&& path == first || (first + seq!['/']).is_prefix_of(path)
}

/// The path is written `top`, a slash, `rest`.
pub open spec fn is_split(path: Seq<char>, top: Seq<char>, rest: Seq<char>) -> bool {
    &&& path == top + seq!['/'] + rest
    &&& top.len() > 0
    &&& !top.contains('/')
    &&& rest.len() > 0
    &&& rest[0] != '/'
}

/// A directory that games keep in their data directory, or a plugin.
pub open spec fn is_data_content(name: Seq<char>) -> bool {
    let low = ascii_lowercase(name);
    ||| known_data_subdirs().contains(low)
    ||| seq!['.', 'e', 's', 'p'].is_suffix_of(low)
    ||| seq!['.', 'e', 's', 'm'].is_suffix_of(low)
    ||| seq!['.', 'e', 's', 'l'].is_suffix_of(low)
}

/// No path ends in that of a FOMOD configuration.
pub open spec fn hold_no_config(paths: Seq<Seq<char>>) -> bool {
    forall|i: int|
        0 <= i < paths.len() ==> !"fomod/moduleconfig.xml"@.is_suffix_of(
            ascii_lowercase(#[trigger] paths[i]),
        )
}

/// The names of the directories that are kept in a data directory.
pub proof fn data_directories_are_known()
    ensures
        known_data_subdirs().contains("meshes"@),
        known_data_subdirs().contains("textures"@),
        known_data_subdirs().contains("scripts"@),
        known_data_subdirs().contains("sound"@),
        known_data_subdirs().contains("music"@),
        known_data_subdirs().contains("shaders"@),
        known_data_subdirs().contains("lodsettings"@),
        known_data_subdirs().contains("seq"@),
        known_data_subdirs().contains("interface"@),
        known_data_subdirs().contains("skse"@),
        known_data_subdirs().contains("f4se"@),
        known_data_subdirs().contains("nvse"@),
        known_data_subdirs().contains("obse"@),
        known_data_subdirs().contains("fose"@),
        known_data_subdirs().contains("mwse"@),
        known_data_subdirs().contains("xnvse"@),
        known_data_subdirs().contains("strings"@),
        known_data_subdirs().contains("video"@),
        known_data_subdirs().contains("facegen"@),
        known_data_subdirs().contains("grass"@),
        known_data_subdirs().contains("shadersfx"@),
        known_data_subdirs().contains("terrain"@),
        known_data_subdirs().contains("dialogueviews"@),
        known_data_subdirs().contains("vis"@),
        known_data_subdirs().contains("lightingtemplate"@),
        known_data_subdirs().contains("distantlod"@),
        known_data_subdirs().contains("lod"@),
        known_data_subdirs().contains("trees"@),
        known_data_subdirs().contains("fxmaster"@),
        known_data_subdirs().contains("sky"@),
{
    let k = known_data_subdirs();
    assert(k[0] == "meshes"@ && k[1] == "textures"@ && k[2] == "scripts"@ && k[3] == "sound"@);
    assert(k[4] == "music"@ && k[5] == "shaders"@ && k[6] == "lodsettings"@ && k[7] == "seq"@);
    assert(k[8] == "interface"@ && k[9] == "skse"@ && k[10] == "f4se"@ && k[11] == "nvse"@);
    assert(k[12] == "obse"@ && k[13] == "fose"@ && k[14] == "mwse"@ && k[15] == "xnvse"@);
    assert(k[16] == "strings"@ && k[17] == "video"@ && k[18] == "facegen"@ && k[19] == "grass"@);
    assert(k[20] == "shadersfx"@ && k[21] == "terrain"@ && k[22] == "dialogueviews"@);
    assert(k[23] == "vis"@ && k[24] == "lightingtemplate"@ && k[25] == "distantlod"@);
    assert(k[26] == "lod"@ && k[27] == "trees"@ && k[28] == "fxmaster"@ && k[29] == "sky"@);
}

/// The forms that a listed path takes while it is looked at.
proof fn lemma_forms(path: Seq<char>)
    requires
        is_listed_path(path),
    ensures
        with_slashes(path) == path,
        trimmed_start(path, '/') == path,
        lowercase(path) == ascii_lowercase(path),
        normalized_lowercase(path) == ascii_lowercase(path),
        lower_slashes(path) == ascii_lowercase(path),
        trimmed_start(lower_slashes(path), '/') == ascii_lowercase(path),
        top_name(path) == first_piece(path),
        ascii_lowercase(path).len() > 0,
        ascii_lowercase(path)[0] != '/',
{
    lemma_without_backslash(path);
    assert(ascii_lowercase(path)[0] == ascii_lower(path[0]));
}

/// The first piece of a path that goes through a name is the name.
pub proof fn lemma_goes_through(path: Seq<char>, first: Seq<char>)
    requires
        goes_through(path, first),
    ensures
        first_piece(path) == first,
        goes_through(ascii_lowercase(path), ascii_lowercase(first)),
        first_piece(ascii_lowercase(path)) == ascii_lowercase(first),
        path.len() > 0,
        path[0] != '/',
{
    lemma_goes_through_piece(path, first);
    let slash = seq!['/'];
    assert(ascii_lowercase(slash) =~= slash);
    lemma_ascii_concat(first, slash);
    let lp = ascii_lowercase(path);
    let lf = ascii_lowercase(first);
    assert forall|i: int| 0 <= i < lf.len() implies lf[i] != '/' by {
        assert(lf[i] == ascii_lower(first[i]));
        assert(first.contains(first[i]));
    }
    assert(first.contains(first[0]));
    if path != first {
        let head = first + slash;
        assert(path.subrange(0, head.len() as int) == head);
        assert(lp.subrange(0, head.len() as int) =~= ascii_lowercase(head)) by {
            assert forall|i: int| 0 <= i < head.len() implies lp.subrange(0, head.len() as int)[i]
                == ascii_lowercase(head)[i] by {
                assert(path.subrange(0, head.len() as int)[i] == path[i]);
            }
        }
        assert((lf + slash).is_prefix_of(lp));
        assert(path[0] == head[0]);
    }
    lemma_goes_through_piece(lp, lf);
}

proof fn lemma_goes_through_piece(path: Seq<char>, first: Seq<char>)
    requires
        goes_through(path, first),
    ensures
        first_piece(path) == first,
{
    let n = first.len() as int;
    if path == first {
        lemma_first_index(path, '/');
        assert(path.take(n) =~= first);
    } else {
        let head = first + seq!['/'];
        assert(path.subrange(0, head.len() as int) == head);
        assert forall|i: int| 0 <= i < n implies path[i] != '/' by {
            assert(path.subrange(0, head.len() as int)[i] == path[i]);
            assert(first.contains(first[i]));
        }
        assert(path.subrange(0, head.len() as int)[n] == path[n]);
        lemma_first_index_is(path, '/', n);
        assert(path.take(n) =~= first);
    }
}

/// Content of a data directory is worth ten points at least.
proof fn lemma_content_points(name: Seq<char>, archives: bool)
    requires
        is_data_content(name),
    ensures
        points(ascii_lowercase(name), archives) >= 10,
        indicates_data(ascii_lowercase(name)),
{
    reveal_strlit(".esp");
    reveal_strlit(".esm");
    reveal_strlit(".esl");
    assert(".esp"@ =~= seq!['.', 'e', 's', 'p']);
    assert(".esm"@ =~= seq!['.', 'e', 's', 'm']);
    assert(".esl"@ =~= seq!['.', 'e', 's', 'l']);
}

/// A child that scores makes its directory score.
proof fn lemma_scoring_child(
    named_data: bool,
    norms: Seq<Seq<char>>,
    search: Seq<char>,
    archives: bool,
    k: int,
)
    requires
        0 <= k < norms.len(),
        child_through(norms[k], search).len() > 0,
        points(child_through(norms[k], search), archives) >= 10,
    ensures
        directory_score(named_data, norms, search, archives) >= 10,
{
    let f = |p: Seq<char>| child_through(p, search);
    let all = norms.map_values(f);
    assert(all[k] == child_through(norms[k], search));
    let children = distinct(all);
    lemma_kept_by_distinct(all, all[k]);
    let i = choose|i: int| 0 <= i < children.len() && children[i] == all[k];
    lemma_points_are_counted(children, i, archives);
}

/// Where all strings are one, that is what is distinct.
proof fn lemma_all_one(s: Seq<Seq<char>>, x: Seq<char>)
    requires
        s.len() > 0,
        x.len() > 0,
        forall|i: int| 0 <= i < s.len() ==> #[trigger] s[i] == x,
    ensures
        distinct(s) == seq![x],
    decreases s.len(),
{
    let rest = s.drop_last();
    if rest.len() > 0 {
        assert forall|i: int| 0 <= i < rest.len() implies #[trigger] rest[i] == x by {
            assert(rest[i] == s[i]);
        }
        lemma_all_one(rest, x);
        assert(distinct(rest)[0] == x);
    } else {
        assert(distinct(rest) =~= Seq::empty());
        assert(distinct(s) =~= seq![x]);
    }
}

/// Paths that end in no configuration's path have no FOMOD parent.
proof fn lemma_no_config(paths: Seq<Seq<char>>)
    requires
        hold_no_config(paths),
        forall|i: int| 0 <= i < paths.len() ==> is_listed_path(#[trigger] paths[i]),
    ensures
        fomod_parent(paths) is None,
{
    lemma_config_index(paths);
    reveal_strlit("fomod/moduleconfig.xml");
    reveal_strlit("/fomod/moduleconfig.xml");
    let c = "fomod/moduleconfig.xml"@;
    let d = "/fomod/moduleconfig.xml"@;
    assert(d =~= seq!['/'] + c);
    assert forall|i: int| 0 <= i < paths.len() implies !names_config(#[trigger] paths[i]) by {
        lemma_forms(paths[i]);
        let low = ascii_lowercase(paths[i]);
        if low == c {
            assert(c.is_suffix_of(low));
        }
        if has_suffix(low, d) {
            let n = low.len() as int;
            assert(low.subrange(n - c.len(), n) =~= c) by {
                assert forall|j: int| 0 <= j < c.len() implies low.subrange(n - c.len(), n)[j]
                    == c[j] by {
                    assert(low.subrange(n - d.len(), n)[j + 1] == d[j + 1]);
                }
            }
            assert(c.is_suffix_of(low));
        }
    }
}

/// An archive whose paths all lie below one directory, with content of a data
/// directory right below it, is extracted to the data directory without that
/// directory: each entry is placed at what stands behind it.
pub proof fn wrapped_data_is_unwrapped(
    paths: Seq<Seq<char>>,
    tops: Seq<Seq<char>>,
    rests: Seq<Seq<char>>,
    wrap: Seq<char>,
    k: int,
    child: Seq<char>,
)
    requires
        tops.len() == paths.len(),
        rests.len() == paths.len(),
        forall|i: int|
            0 <= i < paths.len() ==> is_listed_path(#[trigger] paths[i]) && is_split(
                paths[i],
                tops[i],
                rests[i],
            ) && ascii_lowercase(tops[i]) == ascii_lowercase(wrap),
        !is_data_content(wrap),
        hold_no_config(paths),
        0 <= k < paths.len(),
        goes_through(rests[k], child),
        is_data_content(child),
    ensures
        data_plan(paths) == (DataArchivePlanView::ExtractToData {
            strip_prefix: ascii_lowercase(wrap) + seq!['/'],
        }),
        forall|i: int|
            #![trigger paths[i]]
            0 <= i < paths.len() && is_plain(rests[i]) && paths[i].len() <= usize::MAX ==> {
                let prefix = data_plan(paths)->ExtractToData_strip_prefix;
                &&& zip_placement(paths[i], prefix) == PlacementView::Put(rests[i])
                &&& tree_placement(paths[i], prefix) == PlacementView::Put(rests[i])
            },
{
    let w = ascii_lowercase(wrap);
    let slash = seq!['/'];
    reveal_strlit("/");
    assert("/"@ =~= slash);
    assert(is_listed_path(paths[k]) && is_split(paths[k], tops[k], rests[k]));
    lemma_ascii_concat(tops[k], slash);
    lemma_ascii_concat(tops[k] + slash, rests[k]);
    assert(ascii_lowercase(slash) =~= slash);
    lemma_ascii_concat(wrap, wrap);
    assert forall|i: int| 0 <= i < paths.len() implies {
        &&& ascii_lowercase(#[trigger] paths[i]) == w + slash + ascii_lowercase(rests[i])
        &&& first_piece(ascii_lowercase(paths[i])) == w
        &&& lower_top(paths[i]) == w
        &&& normalized_lowercase(paths[i]) == ascii_lowercase(paths[i])
        &&& trimmed_start(lower_slashes(paths[i]), '/') == ascii_lowercase(paths[i])
    } by {
        assert(is_split(paths[i], tops[i], rests[i]));
        lemma_forms(paths[i]);
        lemma_split(paths[i], tops[i], rests[i]);
    }
    assert(w.len() > 0 && all_ascii(w) && !w.contains('\\') && !w.contains('/')) by {
        lemma_split(paths[k], tops[k], rests[k]);
        lemma_lower_name(tops[k]);
    }
    lemma_no_config(paths);
    // The names at the top.
    let firsts = paths.map_values(|p: Seq<char>| first_piece(normalized_lowercase(p)));
    assert forall|i: int| 0 <= i < firsts.len() implies #[trigger] firsts[i] == w by {
        assert(firsts[i] == first_piece(normalized_lowercase(paths[i])));
    }
    lemma_all_one(firsts, w);
    let lows = paths.map_values(|p: Seq<char>| lower_top(p));
    assert forall|i: int| 0 <= i < lows.len() implies #[trigger] lows[i] == w by {
        assert(lows[i] == lower_top(paths[i]));
    }
    lemma_all_one(lows, w);
    assert(top_level_names(paths) == seq![w]);
    assert(!is_bain(paths));
    assert(!indicates_data(w)) by {
        lemma_no_content(wrap);
    }
    // The score of the directory.
    lemma_wrapped_score(paths, rests, w, k, child);
    assert(detected_data_root(paths) == Some(w));
    assert(strip_prefix_of(paths) == w + slash);
    assert((w + slash).drop_last() =~= w);
    assert(w.last() != '/') by {
        assert(w.contains(w.last()));
    }
    reveal_with_fuel(trimmed_end, 2);
    assert(trimmed_end(w + slash, '/') == w);
    assert forall|i: int|
        #![trigger paths[i]]
        0 <= i < paths.len() && is_plain(rests[i]) && paths[i].len() <= usize::MAX implies {
        &&& zip_placement(paths[i], w + slash) == PlacementView::Put(rests[i])
        &&& tree_placement(paths[i], w + slash) == PlacementView::Put(rests[i])
    } by {
        assert(is_split(paths[i], tops[i], rests[i]));
        let front = tops[i] + slash;
        lemma_ascii_concat(front, rests[i]);
        lemma_ascii_concat(tops[i], slash);
        lemma_ascii_concat(w, slash);
        lemma_front_of(paths[i], front, rests[i]);
        prefix_is_taken_off(front, rests[i], w + slash);
    }
}

proof fn lemma_front_of(path: Seq<char>, front: Seq<char>, rest: Seq<char>)
    requires
        path == front + rest,
        !path.contains('\\'),
    ensures
        !front.contains('\\'),
        !rest.contains('\\'),
{
    if front.contains('\\') {
        let i = choose|i: int| 0 <= i < front.len() && front[i] == '\\';
        assert(path[i] == '\\');
    }
    if rest.contains('\\') {
        let i = choose|i: int| 0 <= i < rest.len() && rest[i] == '\\';
        assert(path[front.len() + i] == '\\');
    }
}

proof fn lemma_lower_name(name: Seq<char>)
    requires
        name.len() > 0,
        all_ascii(name),
        !name.contains('/'),
        !name.contains('\\'),
    ensures
        ascii_lowercase(name).len() > 0,
        all_ascii(ascii_lowercase(name)),
        !ascii_lowercase(name).contains('/'),
        !ascii_lowercase(name).contains('\\'),
{
    lemma_ascii_concat(name, name);
    assert forall|i: int| 0 <= i < name.len() implies ascii_lowercase(name)[i] != '/'
        && ascii_lowercase(name)[i] != '\\' by {
        assert(name.contains(name[i]));
        assert(ascii_lowercase(name)[i] == ascii_lower(name[i]));
    }
}

/// The lowercase form of a split path, and its top.
proof fn lemma_split(path: Seq<char>, top: Seq<char>, rest: Seq<char>)
    requires
        is_listed_path(path),
        is_split(path, top, rest),
    ensures
        all_ascii(top),
        all_ascii(rest),
        !top.contains('\\'),
        !rest.contains('\\'),
        goes_through(path, top),
        first_piece(path) == top,
        top_name(path) == top,
        lowercase(top) == ascii_lowercase(top),
        lower_top(path) == ascii_lowercase(top),
        ascii_lowercase(path) == ascii_lowercase(top) + seq!['/'] + ascii_lowercase(rest),
        first_piece(ascii_lowercase(path)) == ascii_lowercase(top),
{
    let slash = seq!['/'];
    lemma_ascii_concat(top, slash);
    lemma_ascii_concat(top + slash, rest);
    assert(ascii_lowercase(slash) =~= slash);
    lemma_front_of(path, top + slash, rest);
    lemma_front_of(top + slash, top, slash);
    assert(path.subrange(0, (top + slash).len() as int) =~= top + slash);
    lemma_goes_through(path, top);
    lemma_forms(path);
}

/// What is no content of a data directory does not indicate one.
proof fn lemma_no_content(name: Seq<char>)
    requires
        !is_data_content(name),
    ensures
        !indicates_data(ascii_lowercase(name)),
        !known_data_subdirs().contains(ascii_lowercase(name)),
        !is_plugin_name(ascii_lowercase(name)),
{
    reveal_strlit(".esp");
    reveal_strlit(".esm");
    reveal_strlit(".esl");
    assert(".esp"@ =~= seq!['.', 'e', 's', 'p']);
    assert(".esm"@ =~= seq!['.', 'e', 's', 'm']);
    assert(".esl"@ =~= seq!['.', 'e', 's', 'l']);
    let low = ascii_lowercase(name);
    if has_suffix(low, ".esp"@) {
        assert(seq!['.', 'e', 's', 'p'].is_suffix_of(low));
    }
    if has_suffix(low, ".esm"@) {
        assert(seq!['.', 'e', 's', 'm'].is_suffix_of(low));
    }
    if has_suffix(low, ".esl"@) {
        assert(seq!['.', 'e', 's', 'l'].is_suffix_of(low));
    }
}

/// A directory with content of a data directory right below it scores.
proof fn lemma_wrapped_score(
    paths: Seq<Seq<char>>,
    rests: Seq<Seq<char>>,
    w: Seq<char>,
    k: int,
    child: Seq<char>,
)
    requires
        0 <= k < paths.len(),
        w.len() > 0,
        all_ascii(w),
        ascii_lowercase(w) == w,
        !w.contains('/'),
        !w.contains('\\'),
        ascii_lowercase(paths[k]) == w + seq!['/'] + ascii_lowercase(rests[k]),
        normalized_lowercase(paths[k]) == ascii_lowercase(paths[k]),
        trimmed_start(lower_slashes(paths[k]), '/') == ascii_lowercase(paths[k]),
        goes_through(rests[k], child),
        is_data_content(child),
    ensures
        data_root_score_owned(w, paths) >= 10,
        data_root_score(w, paths) >= 10,
{
    let slash = seq!['/'];
    reveal_strlit("/");
    assert("/"@ =~= slash);
    lemma_without_backslash(w);
    let search = w + slash;
    let low = ascii_lowercase(paths[k]);
    let lr = ascii_lowercase(rests[k]);
    lemma_goes_through(rests[k], child);
    assert(lr[0] == ascii_lower(rests[k][0]));
    assert(low.subrange(0, search.len() as int) =~= search);
    assert(low.skip(search.len() as int) =~= lr);
    assert(trimmed_start(lr, '/') == lr);
    let c = ascii_lowercase(child);
    assert(child_through(low, search) == c);
    assert(w.last() != '/') by {
        assert(w.contains(w.last()));
    }
    assert(trimmed_end(w, '/') == w);
    lemma_content_points(child, true);
    lemma_content_points(child, false);
    assert(normalized_lowercase(w) == w);
    assert(lower_slashes(w) == w);
    let a = paths.map_values(|p: Seq<char>| normalized_lowercase(p));
    assert(a[k] == low);
    let b = paths.map_values(|p: Seq<char>| trimmed_start(lower_slashes(p), '/'));
    assert(b[k] == low);
    lemma_scoring_child(last_segment(w) == "data"@, a, search, true, k);
    lemma_scoring_child(last_segment(w) == "data"@, b, search, false, k);
}

/// An archive with content of a data directory at its top is extracted to the
/// data directory as it is.
pub proof fn data_at_the_top_stays_where_it_is(paths: Seq<Seq<char>>, k: int, child: Seq<char>)
    requires
        forall|i: int| 0 <= i < paths.len() ==> is_listed_path(#[trigger] paths[i]),
        hold_no_config(paths),
        0 <= k < paths.len(),
        goes_through(paths[k], child),
        is_data_content(child),
        !is_ascii_digit(child[0]),
    ensures
        data_plan(paths) == (DataArchivePlanView::ExtractToData { strip_prefix: Seq::empty() }),
        forall|i: int|
            #![trigger paths[i]]
            0 <= i < paths.len() && is_plain(paths[i]) && paths[i].len() <= usize::MAX ==> {
                let prefix = data_plan(paths)->ExtractToData_strip_prefix;
                &&& zip_placement(paths[i], prefix) == PlacementView::Put(paths[i])
                &&& tree_placement(paths[i], prefix) == PlacementView::Put(paths[i])
            },
{
    let none = Seq::<char>::empty();
    let c = ascii_lowercase(child);
    lemma_no_config(paths);
    lemma_forms(paths[k]);
    lemma_goes_through(paths[k], child);
    lemma_content_points(child, false);
    let low = ascii_lowercase(paths[k]);
    assert(is_listed_path(paths[k]));
    assert(all_ascii(child)) by {
        assert forall|i: int| 0 <= i < child.len() implies is_ascii_char(#[trigger] child[i]) by {
            if paths[k] != child {
                let head = child + seq!['/'];
                assert(paths[k].subrange(0, head.len() as int)[i] == head[i]);
                assert(paths[k][i] == child[i]);
            }
        }
    }
    assert(c.len() > 0);
    // A data directory is indicated at the top.
    let firsts = paths.map_values(|p: Seq<char>| first_piece(normalized_lowercase(p)));
    assert(firsts[k] == c);
    lemma_kept_by_distinct(firsts, c);
    let tops = top_level_names(paths);
    let i = choose|i: int| 0 <= i < tops.len() && tops[i] == c;
    assert(indicates_data(tops[i]));
    assert(detected_data_root(paths) == Some(none));
    assert(strip_prefix_of(paths) == none);
    // The packages of a BAIN archive have numbers.
    let lows = paths.map_values(|p: Seq<char>| lower_top(p));
    assert(lows[k] == lower_top(paths[k]));
    assert(lower_top(paths[k]) == c);
    lemma_kept_by_distinct(lows, c);
    let j = choose|j: int| 0 <= j < distinct(lows).len() && distinct(lows)[j] == c;
    assert(c[0] == ascii_lower(child[0]));
    assert(!is_bain_name(distinct(lows)[j]));
    assert(!is_bain(paths));
    // The top scores.
    let b = paths.map_values(|p: Seq<char>| trimmed_start(lower_slashes(p), '/'));
    assert(b[k] == low);
    assert(low[0] != '/');
    assert(child_through(low, none) == c);
    assert(trimmed_end(none, '/') == none);
    assert(lower_slashes(none) =~= none);
    lemma_scoring_child(last_segment(none) == "data"@, b, none, false, k);
    assert forall|i: int|
        #![trigger paths[i]]
        0 <= i < paths.len() && is_plain(paths[i]) && paths[i].len() <= usize::MAX implies {
        &&& zip_placement(paths[i], none) == PlacementView::Put(paths[i])
        &&& tree_placement(paths[i], none) == PlacementView::Put(paths[i])
    } by {
        prefix_is_taken_off(none, paths[i], none);
        assert(none + paths[i] =~= paths[i]);
    }
}

// ── Other layouts ───────────────────────────────────────────────────────────

/// The name starts with a number of two digits and a space or an underscore.
pub open spec fn is_numbered(name: Seq<char>) -> bool {
    &&& name.len() >= 3
    &&& '0' <= name[0] <= '9'
    &&& '0' <= name[1] <= '9'
    &&& name[2] == ' ' || name[2] == '_'
}

proof fn lemma_distinct_once(s: Seq<Seq<char>>)
    ensures
        distinct(s).no_duplicates(),
    decreases s.len(),
{
    if s.len() > 0 {
        let rest = distinct(s.drop_last());
        lemma_distinct_once(s.drop_last());
        if !(s.last().len() == 0 || rest.contains(s.last())) {
            let all = rest.push(s.last());
            assert forall|i: int, j: int| 0 <= i < all.len() && 0 <= j < all.len() && i != j implies all[i]
                != all[j] by {
                if i < rest.len() && j < rest.len() {
                    assert(rest[i] != rest[j]);
                } else if i < rest.len() {
                    assert(rest.contains(rest[i]));
                } else {
                    assert(rest.contains(rest[j]));
                }
            }
        }
    }
}

proof fn lemma_not_after_is_an_order()
    ensures
        total_preorder(|a: Seq<char>, b: Seq<char>| not_after(a, b)),
{
    let leq = |a: Seq<char>, b: Seq<char>| not_after(a, b);
    assert forall|a: Seq<char>, b: Seq<char>| #[trigger] leq(a, b) || leq(b, a) by {
        lemma_precedes_total(a, b);
    }
    assert forall|a: Seq<char>, b: Seq<char>, c: Seq<char>| #[trigger]
        leq(a, b) && #[trigger] leq(b, c) implies leq(a, c) by {
        lemma_not_after_transitive(a, b, c);
    }
}

/// An archive whose directories at the top are all numbered, two of them at
/// least, is a BAIN package of exactly these directories, in order.
pub proof fn numbered_directories_are_packages(
    paths: Seq<Seq<char>>,
    tops: Seq<Seq<char>>,
    rests: Seq<Seq<char>>,
    a: int,
    b: int,
)
    requires
        tops.len() == paths.len(),
        rests.len() == paths.len(),
        forall|i: int|
            0 <= i < paths.len() ==> is_listed_path(#[trigger] paths[i]) && is_split(
                paths[i],
                tops[i],
                rests[i],
            ) && is_numbered(tops[i]),
        0 <= a < paths.len(),
        0 <= b < paths.len(),
        ascii_lowercase(tops[a]) != ascii_lowercase(tops[b]),
    ensures
        data_plan(paths) is Bain,
        ({
            let dirs = data_plan(paths)->Bain_top_dirs;
            &&& dirs.no_duplicates()
            &&& forall|x: Seq<char>| dirs.contains(x) <==> tops.contains(x)
            &&& forall|i: int, j: int|
                0 <= i < j < dirs.len() ==> precedes(#[trigger] dirs[i], #[trigger] dirs[j])
        }),
{
    let lows = paths.map_values(|p: Seq<char>| lower_top(p));
    let packs = paths.map_values(|p: Seq<char>| package_of(p));
    assert forall|i: int| 0 <= i < paths.len() implies #[trigger] lows[i] == ascii_lowercase(
        tops[i],
    ) && is_bain_name(lows[i]) && packs[i] == tops[i] by {
        assert(is_listed_path(paths[i]) && is_split(paths[i], tops[i], rests[i]));
        lemma_split(paths[i], tops[i], rests[i]);
        lemma_forms(paths[i]);
        let low = ascii_lowercase(tops[i]);
        assert(low[0] == ascii_lower(tops[i][0]));
        assert(low[1] == ascii_lower(tops[i][1]));
        assert(low[2] == ascii_lower(tops[i][2]));
        assert(lows[i] == lower_top(paths[i]));
        assert(packs[i] == package_of(paths[i]));
    }
    let kept = distinct(lows);
    lemma_kept_by_distinct(lows, lows[a]);
    lemma_kept_by_distinct(lows, lows[b]);
    assert(lows.contains(lows[a]) && lows.contains(lows[b]));
    assert(is_bain_name(lows[a]) && is_bain_name(lows[b]));
    let i = choose|i: int| 0 <= i < kept.len() && kept[i] == lows[a];
    let j = choose|j: int| 0 <= j < kept.len() && kept[j] == lows[b];
    assert(kept.len() >= 2);
    assert forall|i: int| 0 <= i < kept.len() implies is_bain_name(#[trigger] kept[i]) by {
        assert(kept.contains(kept[i]));
        lemma_kept_by_distinct(lows, kept[i]);
        let k = choose|k: int| 0 <= k < lows.len() && lows[k] == kept[i];
        assert(is_bain_name(lows[k]));
    }
    assert(is_bain(paths));
    let leq = |a: Seq<char>, b: Seq<char>| not_after(a, b);
    let once = distinct(packs);
    let dirs = stably_sorted(once, leq);
    lemma_not_after_is_an_order();
    lemma_stably_sorted(once, leq);
    lemma_distinct_once(packs);
    broadcast use vstd::seq_lib::group_to_multiset_ensures;

    assert forall|x: Seq<char>| dirs.contains(x) <==> tops.contains(x) by {
        assert(dirs.contains(x) <==> dirs.to_multiset().count(x) > 0);
        assert(once.contains(x) <==> once.to_multiset().count(x) > 0);
        lemma_kept_by_distinct(packs, x);
        if packs.contains(x) {
            let k = choose|k: int| 0 <= k < packs.len() && packs[k] == x;
            assert(lows[k] == ascii_lowercase(tops[k]));
            assert(tops[k] == x);
        }
        if tops.contains(x) {
            let k = choose|k: int| 0 <= k < tops.len() && tops[k] == x;
            assert(lows[k] == ascii_lowercase(tops[k]));
            assert(is_numbered(tops[k])) by {
                assert(is_listed_path(paths[k]));
            }
            assert(packs[k] == x);
        }
    }
    assert(dirs.no_duplicates()) by {
        once.lemma_multiset_has_no_duplicates();
        dirs.lemma_multiset_has_no_duplicates_conv();
    }
    assert forall|i: int, j: int| 0 <= i < j < dirs.len() implies precedes(
        #[trigger] dirs[i],
        #[trigger] dirs[j],
    ) by {
        assert(leq(dirs[i], dirs[j]));
        assert(dirs[i] != dirs[j]);
        lemma_precedes_total(dirs[i], dirs[j]);
    }
}

/// A FOMOD configuration names the directory to strip: that which holds the
/// directory `fomod` with it, whatever else the archive holds.
pub proof fn configuration_names_what_is_stripped(
    paths: Seq<Seq<char>>,
    k: int,
    parent: Seq<char>,
    fomod: Seq<char>,
    config: Seq<char>,
)
    requires
        forall|i: int| 0 <= i < paths.len() ==> is_listed_path(#[trigger] paths[i]),
        0 <= k < paths.len(),
        hold_no_config(paths.take(k)),
        ascii_lowercase(fomod) == "fomod"@,
        ascii_lowercase(config) == "moduleconfig.xml"@,
        paths[k] == if parent.len() == 0 {
            fomod + seq!['/'] + config
        } else {
            parent + seq!['/'] + fomod + seq!['/'] + config
        },
    ensures
        fomod_parent(paths) == Some(parent),
        strip_prefix_of(paths) == if parent.len() == 0 {
            Seq::empty()
        } else {
            parent + seq!['/']
        },
{
    reveal_strlit("/");
    reveal_strlit("fomod");
    reveal_strlit("moduleconfig.xml");
    reveal_strlit("fomod/moduleconfig.xml");
    reveal_strlit("/fomod/moduleconfig.xml");
    let slash = seq!['/'];
    assert("/"@ =~= slash);
    assert(ascii_lowercase(slash) =~= slash);
    let c = "fomod/moduleconfig.xml"@;
    let d = "/fomod/moduleconfig.xml"@;
    assert(c =~= "fomod"@ + slash + "moduleconfig.xml"@);
    assert(d =~= slash + c);
    assert(fomod.len() == ascii_lowercase(fomod).len());
    assert(config.len() == ascii_lowercase(config).len());
    let path = paths[k];
    let low = ascii_lowercase(path);
    lemma_forms(path);
    lemma_ascii_concat(fomod, slash);
    lemma_ascii_concat(fomod + slash, config);
    let tail = fomod + slash + config;
    assert(ascii_lowercase(tail) == c);
    if parent.len() > 0 {
        assert(path =~= parent + (slash + tail));
        lemma_ascii_concat(parent, slash + tail);
        lemma_ascii_concat(slash, tail);
        assert(low == ascii_lowercase(parent) + d);
        assert(low.subrange(low.len() - d.len(), low.len() as int) =~= d);
        assert(low.len() > c.len());
    }
    assert(names_config(path));
    lemma_no_config(paths.take(k));
    lemma_config_index_is(paths, k);
    if parent.len() == 0 {
        assert(parent =~= Seq::<char>::empty());
    } else {
        assert(config_parent(path) == parent) by {
            let head = parent + slash + fomod;
            assert(path =~= head + slash + config);
            assert forall|i: int| 0 <= i < config.len() implies config[i] != '/' by {
                assert(ascii_lowercase(config)[i] == ascii_lower(config[i]));
                assert("moduleconfig.xml"@[i] != '/');
            }
            assert forall|i: int| 0 <= i < fomod.len() implies fomod[i] != '/' by {
                assert(ascii_lowercase(fomod)[i] == ascii_lower(fomod[i]));
                assert("fomod"@[i] != '/');
            }
            lemma_without_last(head, config);
            lemma_without_last(parent, fomod);
        }
    }
}

proof fn lemma_without_last(head: Seq<char>, name: Seq<char>)
    requires
        forall|i: int| 0 <= i < name.len() ==> name[i] != '/',
    ensures
        without_last(head + seq!['/'] + name) == head,
{
    let s = head + seq!['/'] + name;
    lemma_after_last(s, '/');
    let k = after_last(s, '/');
    assert(s[head.len() as int] == '/');
    if k > head.len() + 1 {
        assert(s[k - 1] == name[k - 1 - head.len() - 1]);
    }
    assert(k == head.len() + 1);
    assert(s.take(k - 1) =~= head);
}

proof fn lemma_config_index_is(paths: Seq<Seq<char>>, k: int)
    requires
        0 <= k < paths.len(),
        names_config(paths[k]),
        fomod_parent(paths.take(k)) is None,
    ensures
        config_index(paths) == k,
    decreases paths.len(),
{
    lemma_config_index(paths.take(k));
    assert(config_index(paths.take(k)) == k);
    lemma_config_index_extends(paths, k);
}

proof fn lemma_config_index_extends(paths: Seq<Seq<char>>, k: int)
    requires
        0 <= k < paths.len(),
        names_config(paths[k]),
        config_index(paths.take(k)) == k,
    ensures
        config_index(paths) == k,
    decreases paths.len(),
{
    if k > 0 {
        assert(paths.take(k)[0] == paths[0]);
        assert(!names_config(paths[0])) by {
            if names_config(paths[0]) {
                assert(config_index(paths.take(k)) == 0);
            }
        }
        assert(paths.take(k).skip(1) =~= paths.skip(1).take(k - 1));
        lemma_config_index_extends(paths.skip(1), k - 1);
    }
}

/// Content that belongs beside the game rather than in its data directory.
pub open spec fn is_game_root_content(name: Seq<char>) -> bool {
    let low = ascii_lowercase(name);
    ||| low == "enbseries"@
    ||| low == "reshade-shaders"@
    ||| low == "reshade"@
    ||| seq!['.', 'd', 'l', 'l'].is_suffix_of(low)
    ||| seq!['.', 'a', 's', 'i'].is_suffix_of(low)
}

/// Nothing that speaks for a data directory: neither one of its directories nor
/// a plugin nor an archive of a game.
pub open spec fn is_indifferent(name: Seq<char>) -> bool {
    let low = ascii_lowercase(name);
    &&& !is_data_content(name)
    &&& !seq!['.', 'b', 's', 'a'].is_suffix_of(low)
    &&& !seq!['.', 'b', 'a', '2'].is_suffix_of(low)
}

proof fn lemma_indifferent(name: Seq<char>, archives: bool)
    requires
        is_indifferent(name),
    ensures
        points(ascii_lowercase(name), archives) == 0,
        !indicates_data(ascii_lowercase(name)),
{
    reveal_strlit(".bsa");
    reveal_strlit(".ba2");
    assert(".bsa"@ =~= seq!['.', 'b', 's', 'a']);
    assert(".ba2"@ =~= seq!['.', 'b', 'a', '2']);
    lemma_no_content(name);
    let low = ascii_lowercase(name);
    if has_suffix(low, ".bsa"@) {
        assert(seq!['.', 'b', 's', 'a'].is_suffix_of(low));
    }
    if has_suffix(low, ".ba2"@) {
        assert(seq!['.', 'b', 'a', '2'].is_suffix_of(low));
    }
}

proof fn lemma_no_points(children: Seq<Seq<char>>, archives: bool)
    requires
        forall|i: int| 0 <= i < children.len() ==> points(#[trigger] children[i], archives) == 0,
    ensures
        total_points(children, archives) == 0,
    decreases children.len(),
{
    if children.len() > 0 {
        let rest = children.drop_last();
        assert forall|i: int| 0 <= i < rest.len() implies points(#[trigger] rest[i], archives)
            == 0 by {
            assert(rest[i] == children[i]);
        }
        lemma_no_points(rest, archives);
        assert(points(children[children.len() - 1], archives) == 0);
    }
}

proof fn lemma_no_score(norms: Seq<Seq<char>>, search: Seq<char>, archives: bool)
    requires
        forall|i: int|
            0 <= i < norms.len() ==> {
                let c = child_through(#[trigger] norms[i], search);
                c.len() == 0 || points(c, archives) == 0
            },
    ensures
        directory_score(false, norms, search, archives) == 0,
{
    let all = norms.map_values(|p: Seq<char>| child_through(p, search));
    let children = distinct(all);
    assert forall|i: int| 0 <= i < children.len() implies points(#[trigger] children[i], archives)
        == 0 by {
        assert(children.contains(children[i]));
        lemma_kept_by_distinct(all, children[i]);
        let k = choose|k: int| 0 <= k < all.len() && all[k] == children[i];
        assert(all[k] == child_through(norms[k], search));
    }
    lemma_no_points(children, archives);
}

/// An archive of two or more paths below one directory, in which nothing speaks
/// for a data directory: the directory is stripped, and what is left goes beside
/// the game if some of it belongs there, else to the data directory.
pub proof fn wrapped_content_goes_where_it_belongs(
    paths: Seq<Seq<char>>,
    tops: Seq<Seq<char>>,
    rests: Seq<Seq<char>>,
    children: Seq<Seq<char>>,
    wrap: Seq<char>,
)
    requires
        paths.len() >= 2,
        tops.len() == paths.len(),
        rests.len() == paths.len(),
        children.len() == paths.len(),
        forall|i: int|
            0 <= i < paths.len() ==> is_listed_path(#[trigger] paths[i]) && is_split(
                paths[i],
                tops[i],
                rests[i],
            ) && ascii_lowercase(tops[i]) == ascii_lowercase(wrap) && goes_through(
                rests[i],
                children[i],
            ) && is_indifferent(children[i]),
        is_indifferent(wrap),
        ascii_lowercase(wrap) != "data"@,
        ascii_lowercase(wrap) != "__macosx"@,
        hold_no_config(paths),
    ensures
        (exists|k: int| 0 <= k < paths.len() && is_game_root_content(#[trigger] children[k]))
            ==> data_plan(paths) == (DataArchivePlanView::ExtractToModRoot {
            strip_prefix: tops[0] + seq!['/'],
        }),
        (forall|k: int| 0 <= k < paths.len() ==> !is_game_root_content(#[trigger] children[k]))
            ==> data_plan(paths) == (DataArchivePlanView::ExtractToData {
            strip_prefix: tops[0] + seq!['/'],
        }),
{
    let w = ascii_lowercase(wrap);
    let slash = seq!['/'];
    reveal_strlit("/");
    assert("/"@ =~= slash);
    assert(ascii_lowercase(slash) =~= slash);
    lemma_ascii_concat(wrap, wrap);
    assert forall|i: int| 0 <= i < paths.len() implies {
        &&& ascii_lowercase(#[trigger] paths[i]) == w + slash + ascii_lowercase(rests[i])
        &&& first_piece(ascii_lowercase(paths[i])) == w
        &&& lower_top(paths[i]) == w
        &&& top_name(paths[i]) == tops[i]
        &&& lowercase(tops[i]) == w
        &&& normalized_lowercase(paths[i]) == ascii_lowercase(paths[i])
        &&& trimmed_start(lower_slashes(paths[i]), '/') == ascii_lowercase(paths[i])
    } by {
        assert(is_split(paths[i], tops[i], rests[i]));
        lemma_forms(paths[i]);
        lemma_split(paths[i], tops[i], rests[i]);
    }
    assert(w.len() > 0 && all_ascii(w) && !w.contains('\\') && !w.contains('/')) by {
        assert(is_split(paths[0], tops[0], rests[0]));
        lemma_split(paths[0], tops[0], rests[0]);
        lemma_lower_name(tops[0]);
    }
    lemma_no_config(paths);
    let firsts = paths.map_values(|p: Seq<char>| first_piece(normalized_lowercase(p)));
    assert forall|i: int| 0 <= i < firsts.len() implies #[trigger] firsts[i] == w by {
        assert(firsts[i] == first_piece(normalized_lowercase(paths[i])));
    }
    lemma_all_one(firsts, w);
    let lows = paths.map_values(|p: Seq<char>| lower_top(p));
    assert forall|i: int| 0 <= i < lows.len() implies #[trigger] lows[i] == w by {
        assert(lows[i] == lower_top(paths[i]));
    }
    lemma_all_one(lows, w);
    let names = top_level_names(paths);
    assert(names == seq![w]);
    assert(!is_bain(paths));
    lemma_indifferent(wrap, true);
    lemma_indifferent(wrap, false);
    lemma_wrapped_no_score(paths, rests, children, w);
    // Nothing is detected, so the wrapper is what is stripped.
    assert(names.drop_last() =~= Seq::empty());
    reveal_with_fuel(best_candidate, 2);
    assert(detected_data_root(paths) is None);
    let named = paths.map_values(|p: Seq<char>| top_name(p));
    assert(junk_toplevel_entries() =~= seq!["__macosx"@]);
    assert forall|i: int| 0 <= i < named.len() implies #[trigger] named[i] == tops[i]
        && counts_as_top(named[i]) by {
        assert(named[i] == top_name(paths[i]));
        if junk_toplevel_entries().contains(w) {
            assert(w == "__macosx"@);
        }
    }
    assert(counts_as_top(named[0]));
    assert(first_counting(named) == 0);
    assert(all_named(named, named[0])) by {
        assert forall|i: int| 0 <= i < named.len() implies lowercase(#[trigger] named[i])
            == lowercase(named[0]) by {
            assert(named[i] == tops[i] && named[0] == tops[0]);
            assert(lowercase(tops[i]) == w) by {
                assert(ascii_lowercase(paths[i]) == w + slash + ascii_lowercase(rests[i]));
            }
        }
    }
    let wrapper = tops[0] + slash;
    assert(wrapper_of(named) == wrapper);
    assert(strip_prefix_of(paths) == wrapper);
    assert(is_split(paths[0], tops[0], rests[0]));
    lemma_split(paths[0], tops[0], rests[0]);
    assert(wrapper.drop_last() =~= tops[0]);
    assert(tops[0].last() != '/') by {
        assert(tops[0].contains(tops[0].last()));
    }
    reveal_with_fuel(trimmed_end, 2);
    assert(trimmed_end(wrapper, '/') == tops[0]);
    lemma_same_score(tops[0], w, paths);
    lemma_ascii_concat(tops[0], slash);
    assert(all_ascii(slash));
    assert forall|i: int| 0 <= i < paths.len() implies trimmed_start(
        lower_slashes(#[trigger] paths[i]),
        '/',
    ) == w + slash + ascii_lowercase(rests[i]) && is_listed_path(rests[i]) && goes_through(
        rests[i],
        children[i],
    ) by {
        assert(is_split(paths[i], tops[i], rests[i]));
        lemma_split(paths[i], tops[i], rests[i]);
    }
    lemma_below_wrapper(paths, rests, children, wrapper, w);
}

proof fn lemma_same_score(top: Seq<char>, w: Seq<char>, paths: Seq<Seq<char>>)
    requires
        lowercase(top) == w,
        lowercase(w) == w,
    ensures
        data_root_score(top, paths) == data_root_score(w, paths),
{
}

/// Below the wrapper lies what stands behind it.
proof fn lemma_below_wrapper(
    paths: Seq<Seq<char>>,
    rests: Seq<Seq<char>>,
    children: Seq<Seq<char>>,
    wrapper: Seq<char>,
    w: Seq<char>,
)
    requires
        paths.len() == rests.len(),
        paths.len() == children.len(),
        wrapper.len() > 0,
        lowercase(wrapper) == w + seq!['/'],
        forall|i: int|
            0 <= i < paths.len() ==> trimmed_start(lower_slashes(#[trigger] paths[i]), '/') == w
                + seq!['/'] + ascii_lowercase(rests[i]) && is_listed_path(rests[i])
                && goes_through(rests[i], children[i]),
    ensures
        has_root_content(all_below_wrapper(paths, wrapper)) <==> exists|k: int|
            0 <= k < paths.len() && is_game_root_content(#[trigger] children[k]),
{
    lemma_below_wrapper_is(paths, rests, wrapper, w);
    let below = all_below_wrapper(paths, wrapper);
    assert forall|i: int| 0 <= i < below.len() implies belongs_to_game_root(
        first_piece(trimmed_start(lower_slashes(#[trigger] below[i]), '/')),
    ) == is_game_root_content(children[i]) by {
        assert(below[i] == ascii_lowercase(rests[i]));
        assert(is_listed_path(rests[i]) && goes_through(rests[i], children[i])) by {
            assert(trimmed_start(lower_slashes(paths[i]), '/') == w + seq!['/'] + ascii_lowercase(
                rests[i],
            ));
        }
        lemma_goes_through(rests[i], children[i]);
        lemma_ascii_concat(rests[i], rests[i]);
        lemma_forms(rests[i]);
        let low = ascii_lowercase(rests[i]);
        assert(!low.contains('\\')) by {
            assert forall|j: int| 0 <= j < low.len() implies low[j] != '\\' by {
                assert(low[j] == ascii_lower(rests[i][j]));
                assert(rests[i].contains(rests[i][j]));
            }
        }
        lemma_forms(low);
        lemma_game_root(children[i]);
    }
    if has_root_content(below) {
        let i = choose|i: int|
            0 <= i < below.len() && belongs_to_game_root(
                first_piece(trimmed_start(lower_slashes(#[trigger] below[i]), '/')),
            );
        assert(is_game_root_content(children[i]));
    }
    if exists|k: int| 0 <= k < paths.len() && is_game_root_content(#[trigger] children[k]) {
        let k = choose|k: int| 0 <= k < paths.len() && is_game_root_content(#[trigger] children[k]);
        assert(belongs_to_game_root(
            first_piece(trimmed_start(lower_slashes(below[k]), '/')),
        ));
    }
}

proof fn lemma_game_root(name: Seq<char>)
    ensures
        belongs_to_game_root(ascii_lowercase(name)) == is_game_root_content(name),
{
    reveal_strlit(".dll");
    reveal_strlit(".asi");
    assert(".dll"@ =~= seq!['.', 'd', 'l', 'l']);
    assert(".asi"@ =~= seq!['.', 'a', 's', 'i']);
}

proof fn lemma_below_wrapper_is(
    paths: Seq<Seq<char>>,
    rests: Seq<Seq<char>>,
    wrapper: Seq<char>,
    w: Seq<char>,
)
    requires
        paths.len() == rests.len(),
        wrapper.len() > 0,
        lowercase(wrapper) == w + seq!['/'],
        forall|i: int|
            0 <= i < paths.len() ==> trimmed_start(lower_slashes(#[trigger] paths[i]), '/') == w
                + seq!['/'] + ascii_lowercase(rests[i]),
    ensures
        all_below_wrapper(paths, wrapper).len() == paths.len(),
        forall|i: int|
            0 <= i < paths.len() ==> #[trigger] all_below_wrapper(paths, wrapper)[i]
                == ascii_lowercase(rests[i]),
    decreases paths.len(),
{
    if paths.len() > 0 {
        let (ps, rs) = (paths.drop_last(), rests.drop_last());
        assert forall|i: int| 0 <= i < ps.len() implies trimmed_start(
            lower_slashes(#[trigger] ps[i]),
            '/',
        ) == w + seq!['/'] + ascii_lowercase(rs[i]) by {
            assert(ps[i] == paths[i]);
        }
        lemma_below_wrapper_is(ps, rs, wrapper, w);
        let n = paths.len() - 1;
        let p = trimmed_start(lower_slashes(paths[n]), '/');
        let key = w + seq!['/'];
        assert(p.subrange(0, key.len() as int) =~= key);
        assert(p.skip(key.len() as int) =~= ascii_lowercase(rests[n]));
        assert forall|i: int| 0 <= i < paths.len() implies #[trigger] all_below_wrapper(
            paths,
            wrapper,
        )[i] == ascii_lowercase(rests[i]) by {
            if i < n {
                assert(all_below_wrapper(ps, wrapper)[i] == ascii_lowercase(rs[i]));
            }
        }
    }
}

/// Neither the directory nor the top scores where nothing in it does.
proof fn lemma_wrapped_no_score(
    paths: Seq<Seq<char>>,
    rests: Seq<Seq<char>>,
    children: Seq<Seq<char>>,
    w: Seq<char>,
)
    requires
        paths.len() == rests.len(),
        paths.len() == children.len(),
        w.len() > 0,
        all_ascii(w),
        ascii_lowercase(w) == w,
        !w.contains('/'),
        !w.contains('\\'),
        w != "data"@,
        points(w, true) == 0,
        forall|i: int|
            0 <= i < paths.len() ==> {
                &&& ascii_lowercase(#[trigger] paths[i]) == w + seq!['/'] + ascii_lowercase(
                    rests[i],
                )
                &&& first_piece(ascii_lowercase(paths[i])) == w
                &&& normalized_lowercase(paths[i]) == ascii_lowercase(paths[i])
                &&& trimmed_start(lower_slashes(paths[i]), '/') == ascii_lowercase(paths[i])
                &&& goes_through(rests[i], children[i])
                &&& is_indifferent(children[i])
            },
    ensures
        data_root_score_owned(w, paths) == 0,
        data_root_score(w, paths) == 0,
        data_root_score_owned(Seq::empty(), paths) == 0,
{
    let slash = seq!['/'];
    let none = Seq::<char>::empty();
    reveal_strlit("/");
    reveal_strlit("data");
    assert("/"@ =~= slash);
    lemma_without_backslash(w);
    let search = w + slash;
    let a = paths.map_values(|p: Seq<char>| normalized_lowercase(p));
    let b = paths.map_values(|p: Seq<char>| trimmed_start(lower_slashes(p), '/'));
    assert(w[0] != '/') by {
        assert(w.contains(w[0]));
    }
    assert forall|i: int| 0 <= i < paths.len() implies {
        let c = ascii_lowercase(children[i]);
        &&& #[trigger] a[i] == ascii_lowercase(paths[i])
        &&& b[i] == a[i]
        &&& child_through(a[i], search) == c
        &&& child_through(a[i], none) == w
        &&& points(c, true) == 0
        &&& points(c, false) == 0
    } by {
        assert(a[i] == normalized_lowercase(paths[i]));
        assert(b[i] == trimmed_start(lower_slashes(paths[i]), '/'));
        let low = ascii_lowercase(paths[i]);
        let lr = ascii_lowercase(rests[i]);
        assert(goes_through(rests[i], children[i]));
        lemma_goes_through(rests[i], children[i]);
        assert(lr[0] == ascii_lower(rests[i][0]));
        assert(low.subrange(0, search.len() as int) =~= search);
        assert(low.skip(search.len() as int) =~= lr);
        assert(trimmed_start(lr, '/') == lr);
        assert(low[0] == w[0]);
        lemma_indifferent(children[i], true);
        lemma_indifferent(children[i], false);
    }
    assert(w.last() != '/') by {
        assert(w.contains(w.last()));
    }
    assert(trimmed_end(w, '/') == w);
    assert(normalized_lowercase(w) == w);
    assert(lower_slashes(w) == w);
    lemma_after_last(w, '/');
    if after_last(w, '/') > 0 {
        assert(w.contains(w[after_last(w, '/') - 1]));
    }
    assert(last_segment(w) =~= w);
    assert forall|i: int| 0 <= i < a.len() implies {
        let c = child_through(#[trigger] a[i], search);
        c.len() == 0 || points(c, true) == 0
    } by {}
    lemma_no_score(a, search, true);
    assert forall|i: int| 0 <= i < b.len() implies {
        let c = child_through(#[trigger] b[i], search);
        c.len() == 0 || points(c, false) == 0
    } by {
        assert(b[i] == a[i]);
    }
    lemma_no_score(b, search, false);
    assert forall|i: int| 0 <= i < a.len() implies {
        let c = child_through(#[trigger] a[i], none);
        c.len() == 0 || points(c, true) == 0
    } by {}
    lemma_no_score(a, none, true);
    assert(normalized_lowercase(none) =~= none);
    assert(trimmed_end(none, '/') == none);
    assert(last_segment(none) =~= none);
}

proof fn lemma_first_piece_is(path: Seq<char>, name: Seq<char>)
    requires
        name.len() > 0,
        !name.contains('/'),
    ensures
        first_piece(path) == name <==> goes_through(path, name),
{
    if goes_through(path, name) {
        lemma_goes_through_piece(path, name);
    }
    if first_piece(path) == name {
        lemma_first_index(path, '/');
        let k = first_index(path, '/');
        assert(path.take(k).len() == k);
        if k < path.len() {
            let head = name + seq!['/'];
            assert(path.subrange(0, head.len() as int) =~= head) by {
                assert forall|i: int| 0 <= i < head.len() implies path.subrange(
                    0,
                    head.len() as int,
                )[i] == head[i] by {
                    if i < k {
                        assert(path.take(k)[i] == path[i]);
                    }
                }
            }
            assert(head.is_prefix_of(path));
        } else {
            assert(path.take(k) =~= path);
        }
    }
}

/// An archive has a data folder behind a prefix if one of its paths goes through
/// one there, in whatever case.
pub proof fn data_folder_is_found_behind_its_prefix(
    names: Seq<Seq<char>>,
    prefix: Seq<char>,
    rests: Seq<Seq<char>>,
)
    requires
        names.len() == rests.len(),
        forall|i: int|
            0 <= i < names.len() ==> names[i] == prefix + #[trigger] rests[i] && is_listed_path(
                rests[i],
            ),
    ensures
        data_folder_behind(names, prefix) <==> exists|i: int|
            0 <= i < rests.len() && goes_through(
                ascii_lowercase(#[trigger] rests[i]),
                seq!['d', 'a', 't', 'a'],
            ),
{
    reveal_strlit("data");
    reveal_strlit("/");
    let data = seq!['d', 'a', 't', 'a'];
    assert("data"@ =~= data);
    assert(!data.contains('/'));
    assert forall|i: int| 0 <= i < names.len() implies (first_piece(
        without_slash(lowercase(without_prefix(#[trigger] names[i], prefix))),
    ) == data) == goes_through(ascii_lowercase(rests[i]), data) by {
        assert(names[i] == prefix + rests[i] && is_listed_path(rests[i]));
        if prefix.len() == 0 {
            assert(names[i] =~= rests[i]);
        } else {
            assert(names[i].subrange(0, prefix.len() as int) =~= prefix);
            assert(names[i].skip(prefix.len() as int) =~= rests[i]);
        }
        lemma_forms(rests[i]);
        let low = ascii_lowercase(rests[i]);
        if has_prefix(low, "/"@) {
            assert(low.subrange(0, 1)[0] == low[0]);
        }
        lemma_first_piece_is(low, data);
    }
    if data_folder_behind(names, prefix) {
        let i = choose|i: int|
            0 <= i < names.len() && first_piece(
                without_slash(lowercase(without_prefix(#[trigger] names[i], prefix))),
            ) == "data"@;
        assert(goes_through(ascii_lowercase(rests[i]), data));
    }
    if exists|i: int|
        0 <= i < rests.len() && goes_through(ascii_lowercase(#[trigger] rests[i]), data) {
        let i = choose|i: int|
            0 <= i < rests.len() && goes_through(ascii_lowercase(#[trigger] rests[i]), data);
        assert(first_piece(without_slash(lowercase(without_prefix(names[i], prefix)))) == data);
    }
}

/// An archive lists a configuration if one of its paths is that of one or ends
/// in it behind a slash, in whatever case.
pub proof fn listed_configurations_are_found(entries: Seq<Seq<char>>)
    requires
        forall|i: int| 0 <= i < entries.len() ==> is_listed_path(#[trigger] entries[i]),
    ensures
        lists_config(entries) <==> exists|i: int|
            0 <= i < entries.len() && (ascii_lowercase(#[trigger] entries[i])
                == "fomod/moduleconfig.xml"@ || "/fomod/moduleconfig.xml"@.is_suffix_of(
                ascii_lowercase(entries[i]),
            )),
{
    assert forall|i: int| 0 <= i < entries.len() implies is_config_path(
        lower_slashes(#[trigger] entries[i]),
    ) == (ascii_lowercase(entries[i]) == "fomod/moduleconfig.xml"@
        || "/fomod/moduleconfig.xml"@.is_suffix_of(ascii_lowercase(entries[i]))) by {
        lemma_forms(entries[i]);
    }
    if lists_config(entries) {
        let i = choose|i: int|
            0 <= i < entries.len() && is_config_path(lower_slashes(#[trigger] entries[i]));
        assert(is_config_path(lower_slashes(entries[i])));
    }
    if exists|i: int|
        0 <= i < entries.len() && (ascii_lowercase(#[trigger] entries[i])
            == "fomod/moduleconfig.xml"@ || "/fomod/moduleconfig.xml"@.is_suffix_of(
            ascii_lowercase(entries[i]),
        )) {
        let i = choose|i: int|
            0 <= i < entries.len() && (ascii_lowercase(#[trigger] entries[i])
                == "fomod/moduleconfig.xml"@ || "/fomod/moduleconfig.xml"@.is_suffix_of(
                ascii_lowercase(entries[i]),
            ));
        assert(is_config_path(lower_slashes(entries[i])));
    }
}

} // verus!
