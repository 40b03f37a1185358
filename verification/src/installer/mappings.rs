//! What the file mappings of a FOMOD configuration install, and where.
use vstd::prelude::*;

use crate::installer::heuristics::{junk_toplevel_entries, strip_prefix_of};
use crate::installer::install::{
    archive_candidates, archive_destination, as_candidate, around, by_priority, chosen,
    data_destination, extracted_plan, fomod_plan, is_selected, lies_at, mapping_plan,
    mapping_plans, placed_from_archive, placed_from_tree, priority_order, relative_to, respelled,
    selection, tree_candidates, tree_destination, tree_mapping_plan, tree_mapping_plans, under,
    CandidateView, PlannedFileView,
};
use crate::installer::layout::{
    configuration_names_what_is_stripped, goes_through, hold_no_config, is_listed_path, is_plain,
    lemma_goes_through, lemma_plain,
};
use crate::installer::linked::{lemma_data_lower, lemma_not_in_data};
use crate::installer::paths::{
    is_clean, is_data_name, is_in_data, leading_data_is_dropped, normalized,
    normalized_has_clean_ends, spelled_from, spelling_does_not_matter, spells,
};
use crate::installer::scored::{directory_plan, zip_plan};
use crate::installer::types::FomodFileView;
use crate::paths::{
    file_name_of, file_name_stands_behind_the_last_slash, is_name, is_written,
    written_slashes_stand_alone,
};
use crate::text::{
    all_ascii, ascii_lower, ascii_lowercase, byte_len, from_byte, has_infix, has_prefix,
    insertion_point, lemma_ascii_bytes, lemma_ascii_concat, lemma_ascii_rest, lemma_sorted_keeps,
    lowercase, occurs_at, trimmed_end, trimmed_start, what_follows_bytes_is_a_tail,
};

verus! {

// ── How a destination is written ────────────────────────────────────────────

/// The text names the place below the data directory: it spells the place, or a
/// leading data directory and the place below it.
pub open spec fn names_place(s: Seq<char>, place: Seq<char>) -> bool {
    &&& all_ascii(place)
    &&& is_clean(place)
    &&& !is_in_data(place)
    &&& spells(s, place) || exists|data: Seq<char>| #[trigger]
        is_data_name(data) && spells(s, below(data, place))
}

/// What stands below a directory; the directory itself where that is nothing.
pub open spec fn below(directory: Seq<char>, path: Seq<char>) -> Seq<char> {
    if path.len() == 0 {
        directory
    } else if directory.len() == 0 {
        path
    } else {
        directory + seq!['/'] + path
    }
}

/// A mapping's files go to the place that its destination names.
pub proof fn destination_is_the_named_place(f: FomodFileView, place: Seq<char>)
    requires
        names_place(f.destination, place),
    ensures
        data_destination(f) == place,
{
    let s = f.destination;
    let four = seq!['d', 'a', 't', 'a'];
    assert(ascii_lowercase(four) =~= four);
    leading_data_is_dropped(four, place);
    if spells(s, place) {
        spelling_does_not_matter(s, place);
    } else {
        let data = choose|data: Seq<char>| #[trigger]
            is_data_name(data) && spells(s, below(data, place));
        let path = below(data, place);
        assert(data.len() == ascii_lowercase(data).len());
        assert forall|i: int| 0 <= i < data.len() implies data[i] != '/' && data[i] != '\\' by {
            assert(ascii_lowercase(data)[i] == ascii_lower(data[i]));
        }
        assert(is_clean(path)) by {
            assert forall|i: int| 0 <= i < path.len() implies path[i] != '\\' by {
                if i > 4 {
                    assert(place.contains(place[i - 5]));
                }
            }
            if place.len() > 0 {
                assert(path.last() == place.last());
                assert(path[0] == data[0]);
            }
        }
        spelling_does_not_matter(s, path);
        leading_data_is_dropped(data, place);
        if place.len() == 0 {
            assert(place =~= Seq::<char>::empty());
        }
    }
}

/// The two mappings install alike: each takes the same source to the same place,
/// with the same priority, however the paths are spelled.
pub open spec fn installs_alike(
    a: FomodFileView,
    b: FomodFileView,
    source: Seq<char>,
    place: Seq<char>,
) -> bool {
    &&& is_clean(source)
    &&& spells(a.source, source)
    &&& spells(b.source, source)
    &&& names_place(a.destination, place)
    &&& names_place(b.destination, place)
    &&& a.priority == b.priority
}

spec fn alike(a: FomodFileView, b: FomodFileView) -> bool {
    &&& a.priority == b.priority
    &&& normalized(a.source) == normalized(b.source)
    &&& data_destination(a) == data_destination(b)
}

spec fn all_alike(a: Seq<FomodFileView>, b: Seq<FomodFileView>) -> bool {
    a.len() == b.len() && forall|i: int| 0 <= i < a.len() ==> alike(#[trigger] a[i], b[i])
}

proof fn lemma_alike_insertion(
    a: Seq<FomodFileView>,
    b: Seq<FomodFileView>,
    x: FomodFileView,
    y: FomodFileView,
)
    requires
        all_alike(a, b),
        alike(x, y),
    ensures
        insertion_point(a, x, priority_order()) == insertion_point(b, y, priority_order()),
        0 <= insertion_point(a, x, priority_order()) <= a.len(),
    decreases a.len(),
{
    if a.len() > 0 {
        assert(alike(a[a.len() - 1], b[b.len() - 1]));
        assert(all_alike(a.drop_last(), b.drop_last())) by {
            assert forall|i: int| 0 <= i < a.drop_last().len() implies alike(
                #[trigger] a.drop_last()[i],
                b.drop_last()[i],
            ) by {
                assert(alike(a[i], b[i]));
            }
        }
        lemma_alike_insertion(a.drop_last(), b.drop_last(), x, y);
    }
}

proof fn lemma_alike_sorted(a: Seq<FomodFileView>, b: Seq<FomodFileView>)
    requires
        all_alike(a, b),
    ensures
        all_alike(by_priority(a), by_priority(b)),
    decreases a.len(),
{
    if a.len() > 0 {
        let (p, q) = (a.drop_last(), b.drop_last());
        assert(all_alike(p, q)) by {
            assert forall|i: int| 0 <= i < p.len() implies alike(#[trigger] p[i], q[i]) by {
                assert(alike(a[i], b[i]));
            }
        }
        lemma_alike_sorted(p, q);
        let (s, t) = (by_priority(p), by_priority(q));
        let (x, y) = (a.last(), b.last());
        assert(alike(a[a.len() - 1], b[b.len() - 1]));
        lemma_alike_insertion(s, t, x, y);
        let k = insertion_point(s, x, priority_order());
        assert forall|i: int| 0 <= i < by_priority(a).len() implies alike(
            #[trigger] by_priority(a)[i],
            by_priority(b)[i],
        ) by {
            if i < k {
                assert(alike(s[i], t[i]));
            } else if i > k {
                assert(alike(s[i - 1], t[i - 1]));
            }
        }
    }
}

proof fn lemma_alike_plans(
    norms: Seq<Seq<char>>,
    prefix: Seq<char>,
    a: Seq<FomodFileView>,
    b: Seq<FomodFileView>,
)
    requires
        all_alike(a, b),
    ensures
        mapping_plans(norms, prefix, a) == mapping_plans(norms, prefix, b),
    decreases a.len(),
{
    if a.len() > 0 {
        let (p, q) = (a.drop_last(), b.drop_last());
        assert(all_alike(p, q)) by {
            assert forall|i: int| 0 <= i < p.len() implies alike(#[trigger] p[i], q[i]) by {
                assert(alike(a[i], b[i]));
            }
        }
        lemma_alike_plans(norms, prefix, p, q);
        assert(alike(a[a.len() - 1], b[b.len() - 1]));
    }
}

proof fn lemma_alike_tree_plans(
    names: Seq<Seq<char>>,
    directories: Seq<bool>,
    prefix: Seq<char>,
    prefix_lower: Seq<char>,
    a: Seq<FomodFileView>,
    b: Seq<FomodFileView>,
)
    requires
        all_alike(a, b),
    ensures
        tree_mapping_plans(names, directories, prefix, prefix_lower, a) == tree_mapping_plans(
            names,
            directories,
            prefix,
            prefix_lower,
            b,
        ),
    decreases a.len(),
{
    if a.len() > 0 {
        let (p, q) = (a.drop_last(), b.drop_last());
        assert(all_alike(p, q)) by {
            assert forall|i: int| 0 <= i < p.len() implies alike(#[trigger] p[i], q[i]) by {
                assert(alike(a[i], b[i]));
            }
        }
        lemma_alike_tree_plans(names, directories, prefix, prefix_lower, p, q);
        assert(alike(a[a.len() - 1], b[b.len() - 1]));
    }
}

/// How a mapping spells its source and its destination does not matter: the
/// kind of the slashes, slashes in front and behind, and a leading data
/// directory in the destination change nothing in any plan.
pub proof fn spelling_of_mappings_does_not_matter(
    entries: Seq<Seq<char>>,
    directories: Seq<bool>,
    a: Seq<FomodFileView>,
    b: Seq<FomodFileView>,
    sources: Seq<Seq<char>>,
    places: Seq<Seq<char>>,
)
    requires
        a.len() == b.len(),
        forall|i: int|
            0 <= i < a.len() ==> installs_alike(#[trigger] a[i], b[i], sources[i], places[i]),
    ensures
        fomod_plan(entries, a) == fomod_plan(entries, b),
        extracted_plan(entries, directories, a) == extracted_plan(entries, directories, b),
        zip_plan(entries, directories, a) == zip_plan(entries, directories, b),
        directory_plan(entries, directories, a) == directory_plan(entries, directories, b),
{
    assert forall|i: int| 0 <= i < a.len() implies alike(#[trigger] a[i], b[i]) by {
        assert(installs_alike(a[i], b[i], sources[i], places[i]));
        spelling_does_not_matter(a[i].source, sources[i]);
        spelling_does_not_matter(b[i].source, sources[i]);
        destination_is_the_named_place(a[i], places[i]);
        destination_is_the_named_place(b[i], places[i]);
    }
    lemma_alike_sorted(a, b);
    let (s, t) = (by_priority(a), by_priority(b));
    assert forall|norms: Seq<Seq<char>>, prefix: Seq<char>| #[trigger]
        mapping_plans(norms, prefix, s) == mapping_plans(norms, prefix, t) by {
        lemma_alike_plans(norms, prefix, s, t);
    }
    assert forall|names: Seq<Seq<char>>, prefix: Seq<char>, lower: Seq<char>| #[trigger]
        tree_mapping_plans(names, directories, prefix, lower, s) == tree_mapping_plans(
        names,
        directories,
        prefix,
        lower,
        t,
    ) by {
        lemma_alike_tree_plans(names, directories, prefix, lower, s, t);
    }
}

// ── What a mapping takes, and where it puts it ──────────────────────────────

/// The path is that of the source or lies below it, whatever the case.
pub open spec fn is_at(path: Seq<char>, source: Seq<char>) -> bool {
    ascii_lowercase(path) == ascii_lowercase(source) || (ascii_lowercase(source)
        + seq!['/']).is_prefix_of(ascii_lowercase(path))
}

/// Where a path at the source goes when the source goes to the place.
pub open spec fn moved(path: Seq<char>, source: Seq<char>, place: Seq<char>) -> Seq<char> {
    if path.len() == source.len() {
        place
    } else {
        below(place, path.skip(source.len() + 1int))
    }
}

/// Where a path at the source goes when the source is put below the place: what
/// stands behind the source keeps its path, and a file that is the source itself
/// its name.
pub open spec fn goes_below(
    path: Seq<char>,
    source: Seq<char>,
    place: Seq<char>,
    goal: Seq<char>,
) -> bool {
    if path.len() == source.len() {
        exists|name: Seq<char>|
            #[trigger] ends_in_name(path, name) && goal == below(place, name)
    } else {
        goal == below(place, path.skip(source.len() + 1int))
    }
}

/// The path ends in the name.
pub open spec fn ends_in_name(path: Seq<char>, name: Seq<char>) -> bool {
    is_name(name) && (path == name || (seq!['/'] + name).is_suffix_of(path))
}

/// The entries spell the paths, which are ASCII.
pub open spec fn spell_all(entries: Seq<Seq<char>>, paths: Seq<Seq<char>>) -> bool {
    &&& entries.len() == paths.len()
    &&& forall|i: int|
        0 <= i < paths.len() ==> is_clean(#[trigger] paths[i]) && all_ascii(paths[i]) && spells(
            entries[i],
            paths[i],
        )
}

/// The mapping takes the source to the place.
pub open spec fn maps(f: FomodFileView, source: Seq<char>, place: Seq<char>) -> bool {
    &&& is_clean(source)
    &&& source.len() > 0
    &&& all_ascii(source)
    &&& spells(f.source, source)
    &&& names_place(f.destination, place)
}

/// Some path lies at the source.
pub open spec fn is_present(paths: Seq<Seq<char>>, source: Seq<char>) -> bool {
    exists|i: int| 0 <= i < paths.len() && is_at(#[trigger] paths[i], source)
}

proof fn lemma_norms(entries: Seq<Seq<char>>, paths: Seq<Seq<char>>)
    requires
        spell_all(entries, paths),
    ensures
        entries.map_values(|e: Seq<char>| normalized(e)) == paths,
{
    let norms = entries.map_values(|e: Seq<char>| normalized(e));
    assert forall|i: int| 0 <= i < paths.len() implies norms[i] == paths[i] by {
        assert(is_clean(paths[i]) && spells(entries[i], paths[i]));
        spelling_does_not_matter(entries[i], paths[i]);
    }
    assert(norms =~= paths);
}

proof fn lemma_selection(lowers: Seq<Seq<char>>, key: Option<Seq<char>>, i: usize)
    requires
        lowers.len() <= usize::MAX,
    ensures
        selection(lowers, key).contains(i) <==> i < lowers.len() && is_selected(
            lowers[i as int],
            key,
        ),
    decreases lowers.len(),
{
    if lowers.len() > 0 {
        let rest = lowers.drop_last();
        lemma_selection(rest, key, i);
        let before = selection(rest, key);
        let n = (lowers.len() - 1) as usize;
        if is_selected(lowers.last(), key) {
            let after = before.push(n);
            assert(after[before.len() as int] == n);
            if before.contains(i) {
                let j = choose|j: int| 0 <= j < before.len() && before[j] == i;
                assert(after[j] == i);
            }
            if after.contains(i) && i != n {
                let j = choose|j: int| 0 <= j < after.len() && after[j] == i;
                assert(before[j] == i);
            }
        }
    }
}

proof fn lemma_lies_at(path: Seq<char>, source: Seq<char>)
    requires
        is_clean(path),
        all_ascii(path),
        all_ascii(source),
    ensures
        lies_at(lowercase(path), lowercase(source)) <==> is_at(path, source),
        has_prefix(lowercase(path), lowercase(source) + "/"@) <==> (ascii_lowercase(source)
            + seq!['/']).is_prefix_of(ascii_lowercase(path)),
{
    reveal_strlit("/");
    reveal_strlit("\\");
    assert("/"@ =~= seq!['/']);
    assert("\\"@ =~= seq!['\\']);
    let low = ascii_lowercase(path);
    let key = ascii_lowercase(source);
    let n = key.len() as int;
    if has_prefix(low, key + seq!['\\']) {
        assert(low.subrange(0, n + 1)[n] == low[n]);
        assert(low[n] == ascii_lower(path[n]));
        assert(path.contains(path[n]));
        assert(false);
    }
    if has_prefix(low, key + seq!['/']) {
        assert((key + seq!['/']).is_prefix_of(low));
    }
    if (key + seq!['/']).is_prefix_of(low) {
        assert(low.subrange(0, n + 1) =~= key + seq!['/']);
    }
}

/// The first candidate is taken where something lies at the source.
proof fn lemma_first_candidate(
    paths: Seq<Seq<char>>,
    source: Seq<char>,
    candidates: Seq<CandidateView>,
    i: usize,
)
    requires
        paths.len() <= usize::MAX,
        forall|i: int| 0 <= i < paths.len() ==> is_clean(#[trigger] paths[i]) && all_ascii(paths[i]),
        all_ascii(source),
        candidates.len() > 0,
        candidates[0] == as_candidate(source),
        is_present(paths, source),
    ensures
        ({
            let lowers = paths.map_values(|e: Seq<char>| lowercase(e));
            &&& chosen(lowers, candidates) == Some(as_candidate(source))
            &&& selection(lowers, Some(lowercase(source))).contains(i) <==> i < paths.len()
                && is_at(paths[i as int], source)
        }),
{
    let lowers = paths.map_values(|e: Seq<char>| lowercase(e));
    let key = Some(lowercase(source));
    let k = choose|k: int| 0 <= k < paths.len() && is_at(#[trigger] paths[k], source);
    lemma_lies_at(paths[k], source);
    assert(lowers[k] == lowercase(paths[k]));
    lemma_selection(lowers, key, k as usize);
    assert(selection(lowers, key).contains(k as usize));
    lemma_selection(lowers, key, i);
    if i < paths.len() {
        lemma_lies_at(paths[i as int], source);
        assert(lowers[i as int] == lowercase(paths[i as int]));
    }
}

proof fn lemma_placed_from_archive(
    norms: Seq<Seq<char>>,
    indices: Seq<usize>,
    matched: Seq<char>,
    destination: Seq<char>,
    p: PlannedFileView,
)
    ensures
        placed_from_archive(norms, indices, matched, destination).contains(p) <==> indices.contains(
            p.index,
        ) && archive_destination(
            norms[p.index as int],
            lowercase(norms[p.index as int]),
            lowercase(matched),
            destination,
        ) == Some(p.destination),
    decreases indices.len(),
{
    if indices.len() > 0 {
        let rest = indices.drop_last();
        lemma_placed_from_archive(norms, rest, matched, destination, p);
        let i = indices.last();
        assert(indices.contains(p.index) <==> rest.contains(p.index) || p.index == i) by {
            assert(indices =~= rest.push(i));
            assert(indices[rest.len() as int] == i);
            if rest.contains(p.index) {
                let j = choose|j: int| 0 <= j < rest.len() && rest[j] == p.index;
                assert(indices[j] == p.index);
            }
            if indices.contains(p.index) && p.index != i {
                let j = choose|j: int| 0 <= j < indices.len() && indices[j] == p.index;
                assert(rest[j] == p.index);
            }
        }
        let before = placed_from_archive(norms, rest, matched, destination);
        let entry = norms[i as int];
        match archive_destination(entry, lowercase(entry), lowercase(matched), destination) {
            Some(d) => {
                lemma_pushed(before, PlannedFileView { index: i, destination: d }, p);
            },
            None => {},
        }
    }
}

proof fn lemma_pushed(s: Seq<PlannedFileView>, x: PlannedFileView, p: PlannedFileView)
    ensures
        s.push(x).contains(p) <==> s.contains(p) || p == x,
{
    let t = s.push(x);
    assert(t[s.len() as int] == x);
    if s.contains(p) {
        let j = choose|j: int| 0 <= j < s.len() && s[j] == p;
        assert(t[j] == p);
    }
    if t.contains(p) && p != x {
        let j = choose|j: int| 0 <= j < t.len() && t[j] == p;
        assert(s[j] == p);
    }
}

proof fn lemma_placed_from_tree(
    names: Seq<Seq<char>>,
    directories: Seq<bool>,
    indices: Seq<usize>,
    matched: Seq<char>,
    destination: Seq<char>,
    p: PlannedFileView,
)
    ensures
        placed_from_tree(names, directories, indices, matched, destination).contains(p)
            <==> indices.contains(p.index) && !directories[p.index as int] && tree_destination(
            names[p.index as int],
            lowercase(names[p.index as int]),
            matched,
            lowercase(matched),
            destination,
        ) == Some(p.destination),
    decreases indices.len(),
{
    if indices.len() > 0 {
        let rest = indices.drop_last();
        lemma_placed_from_tree(names, directories, rest, matched, destination, p);
        let i = indices.last();
        assert(indices.contains(p.index) <==> rest.contains(p.index) || p.index == i) by {
            assert(indices =~= rest.push(i));
            assert(indices[rest.len() as int] == i);
            if rest.contains(p.index) {
                let j = choose|j: int| 0 <= j < rest.len() && rest[j] == p.index;
                assert(indices[j] == p.index);
            }
            if indices.contains(p.index) && p.index != i {
                let j = choose|j: int| 0 <= j < indices.len() && indices[j] == p.index;
                assert(rest[j] == p.index);
            }
        }
        let before = placed_from_tree(names, directories, rest, matched, destination);
        let entry = names[i as int];
        if !directories[i as int] {
            match tree_destination(
                entry,
                lowercase(entry),
                matched,
                lowercase(matched),
                destination,
            ) {
                Some(d) => {
                    lemma_pushed(before, PlannedFileView { index: i, destination: d }, p);
                },
                None => {},
            }
        }
    }
}

proof fn lemma_joined(s: Seq<PlannedFileView>, t: Seq<PlannedFileView>, p: PlannedFileView)
    ensures
        (s + t).contains(p) <==> s.contains(p) || t.contains(p),
{
    if s.contains(p) {
        let j = choose|j: int| 0 <= j < s.len() && s[j] == p;
        assert((s + t)[j] == p);
    }
    if t.contains(p) {
        let j = choose|j: int| 0 <= j < t.len() && t[j] == p;
        assert((s + t)[s.len() + j] == p);
    }
    if (s + t).contains(p) {
        let j = choose|j: int| 0 <= j < (s + t).len() && (s + t)[j] == p;
        if j < s.len() {
            assert(s[j] == p);
        } else {
            assert(t[j - s.len()] == p);
        }
    }
}

/// What is planned is what one of the mappings plans.
proof fn lemma_planned(
    norms: Seq<Seq<char>>,
    prefix: Seq<char>,
    files: Seq<FomodFileView>,
    p: PlannedFileView,
)
    ensures
        mapping_plans(norms, prefix, files).contains(p) <==> exists|m: int|
            0 <= m < files.len() && (#[trigger] mapping_plan(norms, prefix, files[m])).contains(p),
    decreases files.len(),
{
    if files.len() > 0 {
        let rest = files.drop_last();
        let last = mapping_plan(norms, prefix, files.last());
        lemma_planned(norms, prefix, rest, p);
        lemma_joined(mapping_plans(norms, prefix, rest), last, p);
        if mapping_plans(norms, prefix, rest).contains(p) {
            let m = choose|m: int|
                0 <= m < rest.len() && (#[trigger] mapping_plan(norms, prefix, rest[m])).contains(
                    p,
                );
            assert(mapping_plan(norms, prefix, files[m]).contains(p));
        }
        if last.contains(p) {
            assert(mapping_plan(norms, prefix, files[files.len() - 1]).contains(p));
        }
        if exists|m: int|
            0 <= m < files.len() && (#[trigger] mapping_plan(norms, prefix, files[m])).contains(
                p,
            ) {
            let m = choose|m: int|
                0 <= m < files.len() && (#[trigger] mapping_plan(norms, prefix, files[m])).contains(
                    p,
                );
            if m < rest.len() {
                assert(mapping_plan(norms, prefix, rest[m]).contains(p));
            }
        }
    }
}

proof fn lemma_planned_in_tree(
    names: Seq<Seq<char>>,
    directories: Seq<bool>,
    prefix: Seq<char>,
    lower: Seq<char>,
    files: Seq<FomodFileView>,
    p: PlannedFileView,
)
    ensures
        tree_mapping_plans(names, directories, prefix, lower, files).contains(p) <==> exists|m: int|
            0 <= m < files.len() && (#[trigger] tree_mapping_plan(
                names,
                directories,
                prefix,
                lower,
                files[m],
            )).contains(p),
    decreases files.len(),
{
    if files.len() > 0 {
        let rest = files.drop_last();
        let last = tree_mapping_plan(names, directories, prefix, lower, files.last());
        lemma_planned_in_tree(names, directories, prefix, lower, rest, p);
        let before = tree_mapping_plans(names, directories, prefix, lower, rest);
        lemma_joined(before, last, p);
        if before.contains(p) {
            let m = choose|m: int|
                0 <= m < rest.len() && (#[trigger] tree_mapping_plan(
                    names,
                    directories,
                    prefix,
                    lower,
                    rest[m],
                )).contains(p);
            assert(tree_mapping_plan(names, directories, prefix, lower, files[m]).contains(p));
        }
        if last.contains(p) {
            let m = files.len() - 1;
            assert(tree_mapping_plan(names, directories, prefix, lower, files[m]).contains(p));
        }
        if exists|m: int|
            0 <= m < files.len() && (#[trigger] tree_mapping_plan(
                names,
                directories,
                prefix,
                lower,
                files[m],
            )).contains(p) {
            let m = choose|m: int|
                0 <= m < files.len() && (#[trigger] tree_mapping_plan(
                    names,
                    directories,
                    prefix,
                    lower,
                    files[m],
                )).contains(p);
            if m < rest.len() {
                assert(tree_mapping_plan(names, directories, prefix, lower, rest[m]).contains(p));
            }
        }
    }
}

/// Sorting by priority keeps the mappings.
proof fn lemma_sorted_holds(files: Seq<FomodFileView>, f: FomodFileView)
    ensures
        by_priority(files).contains(f) <==> files.contains(f),
{
    broadcast use vstd::seq_lib::group_to_multiset_ensures;

    lemma_sorted_keeps(files, priority_order());
    assert(by_priority(files).to_multiset().count(f) == files.to_multiset().count(f));
}

/// Where the archive's path at the source goes.
proof fn lemma_archive_destination(path: Seq<char>, source: Seq<char>, place: Seq<char>)
    requires
        is_clean(path),
        all_ascii(path),
        path.len() <= usize::MAX,
        all_ascii(source),
        source.len() > 0,
        is_at(path, source),
    ensures
        ({
            let d = archive_destination(path, lowercase(path), lowercase(source), place);
            &&& d is Some ==> d->0 == moved(path, source, place)
            &&& is_plain(moved(path, source, place)) ==> d is Some
        }),
{
    reveal_strlit("/");
    assert("/"@ =~= seq!['/']);
    let low = ascii_lowercase(path);
    let key = ascii_lowercase(source);
    assert(low.len() == path.len() && key.len() == source.len());
    lemma_lies_at(path, source);
    let goal = moved(path, source, place);
    if low != key {
        let n = source.len() + 1;
        assert((key + seq!['/']).is_prefix_of(low));
        if path.len() == source.len() {
            assert(false);
        }
        let front = path.take(n as int);
        let rest = path.skip(n as int);
        assert(path =~= front + rest);
        lemma_ascii_concat(front, rest);
        lemma_ascii_rest(front, rest);
        lemma_ascii_concat(source, seq!['/']);
        lemma_ascii_concat(key, seq!['/']);
        assert(all_ascii(seq!['/']));
        lemma_ascii_concat(source, source);
        lemma_ascii_bytes(key + seq!['/']);
        assert(byte_len(lowercase(source) + "/"@) == n);
        assert(from_byte(path, n as int) == Some(rest));
        if rest.len() == 0 {
            assert(path.last() == path[n - 1]);
            assert(low.subrange(0, n as int)[n - 1] == low[n - 1]);
            assert(low[n - 1] == ascii_lower(path[n - 1]));
            assert(false);
        }
        assert(under(place, rest) == goal);
    }
    if is_plain(goal) {
        lemma_plain(goal);
    }
}

/// What is planned from an archive by a mapping: the entries at its source, each
/// at the place that the destination names, and nothing else.
proof fn lemma_mapping(
    entries: Seq<Seq<char>>,
    paths: Seq<Seq<char>>,
    prefix: Seq<char>,
    f: FomodFileView,
    source: Seq<char>,
    place: Seq<char>,
    p: PlannedFileView,
)
    requires
        spell_all(entries, paths),
        paths.len() <= usize::MAX,
        forall|i: int| 0 <= i < paths.len() ==> (#[trigger] paths[i]).len() <= usize::MAX,
        maps(f, source, place),
        is_present(paths, source),
    ensures
        mapping_plan(paths, prefix, f).contains(p) ==> p.index < paths.len() && is_at(
            paths[p.index as int],
            source,
        ) && p.destination == moved(paths[p.index as int], source, place),
        p.index < paths.len() && is_at(paths[p.index as int], source) && p.destination == moved(
            paths[p.index as int],
            source,
            place,
        ) && is_plain(p.destination) ==> mapping_plan(paths, prefix, f).contains(p),
{
    spelling_does_not_matter(f.source, source);
    destination_is_the_named_place(f, place);
    let candidates = archive_candidates(source, prefix);
    assert(candidates[0] == as_candidate(source));
    assert forall|i: int| 0 <= i < paths.len() implies is_clean(#[trigger] paths[i]) && all_ascii(
        paths[i],
    ) by {}
    lemma_first_candidate(paths, source, candidates, p.index);
    let lowers = paths.map_values(|e: Seq<char>| lowercase(e));
    let indices = selection(lowers, Some(lowercase(source)));
    lemma_placed_from_archive(paths, indices, source, place, p);
    if p.index < paths.len() && is_at(paths[p.index as int], source) {
        assert(paths[p.index as int].len() <= usize::MAX);
        lemma_archive_destination(paths[p.index as int], source, place);
    }
}

/// Each entry at a mapping's source is installed at what the destination names,
/// followed by what stands behind the source.
pub proof fn entries_at_the_source_are_installed(
    entries: Seq<Seq<char>>,
    paths: Seq<Seq<char>>,
    files: Seq<FomodFileView>,
    m: int,
    source: Seq<char>,
    place: Seq<char>,
    i: usize,
)
    requires
        spell_all(entries, paths),
        paths.len() <= usize::MAX,
        forall|i: int| 0 <= i < paths.len() ==> (#[trigger] paths[i]).len() <= usize::MAX,
        0 <= m < files.len(),
        maps(files[m], source, place),
        i < paths.len(),
        is_at(paths[i as int], source),
        is_plain(moved(paths[i as int], source, place)),
    ensures
        fomod_plan(entries, files).contains(
            PlannedFileView { index: i, destination: moved(paths[i as int], source, place) },
        ),
{
    let p = PlannedFileView { index: i, destination: moved(paths[i as int], source, place) };
    lemma_norms(entries, paths);
    let prefix = normalized(strip_prefix_of(entries));
    lemma_mapping(entries, paths, prefix, files[m], source, place, p);
    lemma_sorted_holds(files, files[m]);
    let sorted = by_priority(files);
    let k = choose|k: int| 0 <= k < sorted.len() && sorted[k] == files[m];
    assert(mapping_plan(paths, prefix, sorted[k]).contains(p));
    lemma_planned(paths, prefix, sorted, p);
}

/// Where each mapping's source is in the archive, nothing is installed but the
/// entries at the sources, each at the place of a mapping that takes it there.
pub proof fn nothing_else_is_installed(
    entries: Seq<Seq<char>>,
    paths: Seq<Seq<char>>,
    files: Seq<FomodFileView>,
    sources: Seq<Seq<char>>,
    places: Seq<Seq<char>>,
    w: int,
)
    requires
        spell_all(entries, paths),
        paths.len() <= usize::MAX,
        forall|i: int| 0 <= i < paths.len() ==> (#[trigger] paths[i]).len() <= usize::MAX,
        forall|m: int|
            0 <= m < files.len() ==> maps(#[trigger] files[m], sources[m], places[m]) && is_present(
                paths,
                sources[m],
            ),
        0 <= w < fomod_plan(entries, files).len(),
    ensures
        ({
            let p = fomod_plan(entries, files)[w];
            &&& p.index < paths.len()
            &&& exists|m: int|
                0 <= m < files.len() && is_at(paths[p.index as int], #[trigger] sources[m])
                    && p.destination == moved(paths[p.index as int], sources[m], places[m])
        }),
{
    let p = fomod_plan(entries, files)[w];
    lemma_norms(entries, paths);
    let prefix = normalized(strip_prefix_of(entries));
    let sorted = by_priority(files);
    assert(mapping_plans(paths, prefix, sorted).contains(p));
    lemma_planned(paths, prefix, sorted, p);
    let k = choose|k: int|
        0 <= k < sorted.len() && (#[trigger] mapping_plan(paths, prefix, sorted[k])).contains(p);
    assert(sorted.contains(sorted[k]));
    lemma_sorted_holds(files, sorted[k]);
    let m = choose|m: int| 0 <= m < files.len() && files[m] == sorted[k];
    assert(maps(files[m], sources[m], places[m]) && is_present(paths, sources[m]));
    lemma_mapping(entries, paths, prefix, files[m], sources[m], places[m], p);
}

/// Where a tree's path at the source goes.
proof fn lemma_tree_destination(path: Seq<char>, source: Seq<char>, place: Seq<char>)
    requires
        is_plain(path),
        path.len() <= usize::MAX,
        all_ascii(source),
        source.len() > 0,
        is_at(path, source),
    ensures
        ({
            let d = tree_destination(path, lowercase(path), source, lowercase(source), place);
            &&& d is Some ==> goes_below(path, source, place, d->0)
            &&& forall|goal: Seq<char>|
                #[trigger] goes_below(path, source, place, goal) && is_plain(goal) ==> d == Some(
                    goal,
                )
        }),
{
    reveal_strlit("/");
    assert("/"@ =~= seq!['/']);
    let low = ascii_lowercase(path);
    let key = ascii_lowercase(source);
    assert(low.len() == path.len() && key.len() == source.len());
    lemma_plain(path);
    lemma_lies_at(path, source);
    let rel = relative_to(path, lowercase(path), source, lowercase(source));
    if low == key {
        assert(file_name_of(path) is Some ==> ends_in_name(path, file_name_of(path)->0)) by {
            lemma_plain_name(path);
        }
        assert forall|name: Seq<char>| ends_in_name(path, name) implies file_name_of(path) == Some(
            name,
        ) by {
            lemma_name_of(path, name);
        }
        lemma_plain_name(path);
        assert(rel == file_name_of(path)->0);
        assert(under(place, rel) == below(place, rel));
    } else {
        let n = source.len() as int;
        if path.len() == source.len() {
            assert(false);
        }
        let front = path.take(n);
        let rest = path.skip(n);
        assert(path =~= front + rest);
        lemma_ascii_concat(front, rest);
        lemma_ascii_rest(front, rest);
        lemma_ascii_bytes(source);
        assert(low.subrange(0, n + 1)[n] == low[n]);
        assert(low[n] == ascii_lower(path[n]));
        assert(path[n] == '/');
        let names = choose|names: Seq<Seq<char>>| is_written(names, path);
        written_slashes_stand_alone(names, path, n);
        assert(rest[0] == '/');
        assert(rest.skip(1) =~= path.skip(n + 1));
        assert(rest.skip(1)[0] == path[n + 1]);
        reveal_with_fuel(trimmed_start, 2);
        assert(rel == path.skip(n + 1));
        assert(under(place, rel) == below(place, rel));
    }
    let goal = below(place, rel);
    assert(goes_below(path, source, place, goal));
    assert forall|other: Seq<char>| #[trigger] goes_below(path, source, place, other) implies other
        == goal by {}
    if is_plain(goal) {
        lemma_plain(goal);
    }
}

/// A path ends in the name that it was written with last.
proof fn lemma_plain_name(path: Seq<char>)
    requires
        is_plain(path),
    ensures
        file_name_of(path) is Some,
        ends_in_name(path, file_name_of(path)->0),
{
    let names = choose|names: Seq<Seq<char>>| is_written(names, path);
    let name = names.last();
    assert(is_name(names[names.len() - 1]));
    if names.len() > 1 {
        let dir = crate::nxm::interspersed(names.drop_last(), '/');
        assert(path =~= dir + seq!['/'] + name);
        file_name_stands_behind_the_last_slash(dir, name);
        assert(path.subrange(path.len() - (name.len() + 1), path.len() as int) =~= seq!['/']
            + name);
    } else {
        file_name_stands_behind_the_last_slash(path, name);
    }
}

proof fn lemma_name_of(path: Seq<char>, name: Seq<char>)
    requires
        ends_in_name(path, name),
    ensures
        file_name_of(path) == Some(name),
{
    if path == name {
        file_name_stands_behind_the_last_slash(path, name);
    } else {
        let n = path.len() - (name.len() + 1);
        let dir = path.take(n);
        assert(path.subrange(n, path.len() as int) == seq!['/'] + name);
        assert(path =~= dir + seq!['/'] + name) by {
            assert forall|i: int| 0 <= i < path.len() implies path[i] == (dir + seq!['/'] + name)[i] by {
                if i >= n {
                    assert(path.subrange(n, path.len() as int)[i - n] == path[i]);
                }
            }
        }
        file_name_stands_behind_the_last_slash(dir, name);
    }
}

/// The plan comes from a directory tree whose entries have the given paths: the
/// mappings in the order of their priority, with any prefix around the sources.
pub open spec fn is_tree_plan(
    plan: Seq<PlannedFileView>,
    paths: Seq<Seq<char>>,
    directories: Seq<bool>,
    files: Seq<FomodFileView>,
) -> bool {
    exists|prefix: Seq<char>, lower: Seq<char>|
        plan == #[trigger] tree_mapping_plans(
            paths,
            directories,
            prefix,
            lower,
            by_priority(files),
        )
}

/// An extracted archive is planned for as a directory tree, and so is a zip
/// whose names are clean.
proof fn lemma_tree_plans(
    entries: Seq<Seq<char>>,
    paths: Seq<Seq<char>>,
    directories: Seq<bool>,
    files: Seq<FomodFileView>,
)
    requires
        spell_all(entries, paths),
    ensures
        is_tree_plan(extracted_plan(entries, directories, files), paths, directories, files),
        is_tree_plan(directory_plan(entries, directories, files), paths, directories, files),
        is_tree_plan(zip_plan(paths, directories, files), paths, directories, files),
{
    lemma_norms(entries, paths);
}

proof fn lemma_tree_mapping(
    paths: Seq<Seq<char>>,
    directories: Seq<bool>,
    prefix: Seq<char>,
    lower: Seq<char>,
    f: FomodFileView,
    source: Seq<char>,
    place: Seq<char>,
    p: PlannedFileView,
)
    requires
        paths.len() <= usize::MAX,
        forall|i: int|
            0 <= i < paths.len() ==> is_plain(#[trigger] paths[i]) && paths[i].len() <= usize::MAX,
        maps(f, source, place),
        is_present(paths, source),
    ensures
        tree_mapping_plan(paths, directories, prefix, lower, f).contains(p) ==> p.index
            < paths.len() && !directories[p.index as int] && is_at(paths[p.index as int], source)
            && goes_below(paths[p.index as int], source, place, p.destination),
        p.index < paths.len() && !directories[p.index as int] && is_at(
            paths[p.index as int],
            source,
        ) && goes_below(paths[p.index as int], source, place, p.destination) && is_plain(
            p.destination,
        ) ==> tree_mapping_plan(paths, directories, prefix, lower, f).contains(p),
{
    spelling_does_not_matter(f.source, source);
    destination_is_the_named_place(f, place);
    let candidates = tree_candidates(source, prefix, lower);
    assert(candidates[0] == as_candidate(source));
    assert forall|i: int| 0 <= i < paths.len() implies is_clean(#[trigger] paths[i]) && all_ascii(
        paths[i],
    ) by {
        lemma_plain(paths[i]);
    }
    lemma_first_candidate(paths, source, candidates, p.index);
    let lowers = paths.map_values(|e: Seq<char>| lowercase(e));
    let indices = selection(lowers, Some(lowercase(source)));
    lemma_placed_from_tree(paths, directories, indices, source, place, p);
    if p.index < paths.len() && is_at(paths[p.index as int], source) {
        assert(is_plain(paths[p.index as int]));
        lemma_tree_destination(paths[p.index as int], source, place);
    }
}

/// Each file of an extracted archive at a mapping's source is installed below
/// what the destination names, at what stands behind the source, or under its
/// own name where it is the source itself.
pub proof fn files_at_the_source_are_installed(
    entries: Seq<Seq<char>>,
    paths: Seq<Seq<char>>,
    directories: Seq<bool>,
    files: Seq<FomodFileView>,
    m: int,
    source: Seq<char>,
    place: Seq<char>,
    i: usize,
    goal: Seq<char>,
)
    requires
        spell_all(entries, paths),
        paths.len() <= usize::MAX,
        forall|i: int|
            0 <= i < paths.len() ==> is_plain(#[trigger] paths[i]) && paths[i].len() <= usize::MAX,
        0 <= m < files.len(),
        maps(files[m], source, place),
        i < paths.len(),
        !directories[i as int],
        is_at(paths[i as int], source),
        goes_below(paths[i as int], source, place, goal),
        is_plain(goal),
    ensures
        ({
            let p = PlannedFileView { index: i, destination: goal };
            &&& extracted_plan(entries, directories, files).contains(p)
            &&& directory_plan(entries, directories, files).contains(p)
            &&& zip_plan(paths, directories, files).contains(p)
        }),
{
    let p = PlannedFileView { index: i, destination: goal };
    lemma_tree_plans(entries, paths, directories, files);
    lemma_sorted_holds(files, files[m]);
    let sorted = by_priority(files);
    let k = choose|k: int| 0 <= k < sorted.len() && sorted[k] == files[m];
    assert forall|prefix: Seq<char>, lower: Seq<char>| #[trigger]
        tree_mapping_plans(paths, directories, prefix, lower, sorted).contains(p) by {
        lemma_tree_mapping(paths, directories, prefix, lower, files[m], source, place, p);
        assert(tree_mapping_plan(paths, directories, prefix, lower, sorted[k]).contains(p));
        lemma_planned_in_tree(paths, directories, prefix, lower, sorted, p);
    }
}

/// The planned file comes from the source of one of the mappings and goes below
/// the place of that mapping.
pub open spec fn comes_from_a_mapping(
    p: PlannedFileView,
    paths: Seq<Seq<char>>,
    directories: Seq<bool>,
    sources: Seq<Seq<char>>,
    places: Seq<Seq<char>>,
) -> bool {
    &&& p.index < paths.len()
    &&& !directories[p.index as int]
    &&& exists|m: int|
        0 <= m < sources.len() && is_at(paths[p.index as int], #[trigger] sources[m]) && goes_below(
            paths[p.index as int],
            sources[m],
            places[m],
            p.destination,
        )
}

/// Where each mapping's source is in an extracted archive, nothing is installed
/// but the files at the sources, each below the place of a mapping that takes it
/// there; no directory is.
pub proof fn nothing_else_is_installed_from_a_tree(
    entries: Seq<Seq<char>>,
    paths: Seq<Seq<char>>,
    directories: Seq<bool>,
    files: Seq<FomodFileView>,
    sources: Seq<Seq<char>>,
    places: Seq<Seq<char>>,
    p: PlannedFileView,
)
    requires
        spell_all(entries, paths),
        paths.len() <= usize::MAX,
        forall|i: int|
            0 <= i < paths.len() ==> is_plain(#[trigger] paths[i]) && paths[i].len() <= usize::MAX,
        sources.len() == files.len(),
        forall|m: int|
            0 <= m < files.len() ==> maps(#[trigger] files[m], sources[m], places[m]) && is_present(
                paths,
                sources[m],
            ),
    ensures
        extracted_plan(entries, directories, files).contains(p) || directory_plan(
            entries,
            directories,
            files,
        ).contains(p) || zip_plan(paths, directories, files).contains(p) ==> comes_from_a_mapping(
            p,
            paths,
            directories,
            sources,
            places,
        ),
{
    lemma_tree_plans(entries, paths, directories, files);
    let sorted = by_priority(files);
    assert forall|prefix: Seq<char>, lower: Seq<char>| #[trigger]
        tree_mapping_plans(paths, directories, prefix, lower, sorted).contains(
            p,
        ) implies comes_from_a_mapping(p, paths, directories, sources, places) by {
        lemma_planned_in_tree(paths, directories, prefix, lower, sorted, p);
        let k = choose|k: int|
            0 <= k < sorted.len() && (#[trigger] tree_mapping_plan(
                paths,
                directories,
                prefix,
                lower,
                sorted[k],
            )).contains(p);
        assert(sorted.contains(sorted[k]));
        lemma_sorted_holds(files, sorted[k]);
        let m = choose|m: int| 0 <= m < files.len() && files[m] == sorted[k];
        assert(maps(files[m], sources[m], places[m]) && is_present(paths, sources[m]));
        lemma_tree_mapping(paths, directories, prefix, lower, files[m], sources[m], places[m], p);
    }
}

// ── What no destination holds ───────────────────────────────────────────────

spec fn no_backslash(plan: Seq<PlannedFileView>) -> bool {
    forall|i: int| 0 <= i < plan.len() ==> !(#[trigger] plan[i]).destination.contains('\\')
}

proof fn lemma_tail_has_none(s: Seq<char>, t: Seq<char>)
    requires
        !s.contains('\\'),
        t.is_suffix_of(s),
    ensures
        !t.contains('\\'),
{
    assert forall|i: int| 0 <= i < t.len() implies t[i] != '\\' by {
        assert(s.subrange(s.len() - t.len(), s.len() as int)[i] == s[s.len() - t.len() + i]);
        assert(s.contains(s[s.len() - t.len() + i]));
    }
}

proof fn lemma_under_has_none(d: Seq<char>, p: Seq<char>)
    requires
        !d.contains('\\'),
        !p.contains('\\'),
    ensures
        !under(d, p).contains('\\'),
{
    reveal_strlit("/");
    let r = under(d, p);
    assert forall|i: int| 0 <= i < r.len() implies r[i] != '\\' by {
        if d.len() == 0 {
            assert(p.contains(p[i]));
        } else if i < d.len() {
            assert(d.contains(d[i]));
        } else if i > d.len() {
            assert(p.contains(p[i - d.len() - 1]));
        }
    }
}

proof fn lemma_destination_has_none(f: FomodFileView)
    ensures
        !data_destination(f).contains('\\'),
{
    let d = normalized(f.destination);
    normalized_has_clean_ends(f.destination);
    let r = data_destination(f);
    assert(r.is_suffix_of(d)) by {
        if r.len() == 0 {
            assert(d.subrange(d.len() as int, d.len() as int) =~= r);
        } else if r == d {
            assert(d.subrange(0, d.len() as int) =~= d);
        } else {
            let k = crate::text::first_index(d, '/');
            crate::text::lemma_first_index(d, '/');
            assert(r == d.skip(k + 1));
            assert(d.subrange(d.len() - r.len(), d.len() as int) =~= r);
        }
    }
    lemma_tail_has_none(d, r);
}

proof fn lemma_placed_have_none(
    norms: Seq<Seq<char>>,
    indices: Seq<usize>,
    matched: Seq<char>,
    destination: Seq<char>,
)
    requires
        forall|i: int| 0 <= i < norms.len() ==> !(#[trigger] norms[i]).contains('\\'),
        forall|j: int| 0 <= j < indices.len() ==> #[trigger] indices[j] < norms.len(),
        !destination.contains('\\'),
    ensures
        no_backslash(placed_from_archive(norms, indices, matched, destination)),
    decreases indices.len(),
{
    if indices.len() > 0 {
        let rest = indices.drop_last();
        assert forall|j: int| 0 <= j < rest.len() implies #[trigger] rest[j] < norms.len() by {
            assert(rest[j] == indices[j]);
        }
        lemma_placed_have_none(norms, rest, matched, destination);
        assert(indices[indices.len() - 1] < norms.len());
        let entry = norms[indices.last() as int];
        let key = lowercase(matched);
        assert(!entry.contains('\\'));
        lemma_under_has_none(destination, entry);
        match from_byte(entry, byte_len(key + "/"@) as int) {
            Some(t) => {
                what_follows_bytes_is_a_tail(entry, byte_len(key + "/"@) as int, t);
                lemma_tail_has_none(entry, t);
                lemma_under_has_none(destination, t);
            },
            None => {},
        }
    }
}

proof fn lemma_selected_in_range(lowers: Seq<Seq<char>>, key: Option<Seq<char>>)
    requires
        lowers.len() <= usize::MAX,
    ensures
        forall|j: int|
            0 <= j < selection(lowers, key).len() ==> #[trigger] selection(lowers, key)[j]
                < lowers.len(),
{
    let s = selection(lowers, key);
    assert forall|j: int| 0 <= j < s.len() implies #[trigger] s[j] < lowers.len() by {
        assert(s.contains(s[j]));
        lemma_selection(lowers, key, s[j]);
    }
}

proof fn lemma_plans_have_none(
    norms: Seq<Seq<char>>,
    prefix: Seq<char>,
    files: Seq<FomodFileView>,
)
    requires
        norms.len() <= usize::MAX,
        forall|i: int| 0 <= i < norms.len() ==> !(#[trigger] norms[i]).contains('\\'),
    ensures
        no_backslash(mapping_plans(norms, prefix, files)),
    decreases files.len(),
{
    if files.len() > 0 {
        let f = files.last();
        lemma_plans_have_none(norms, prefix, files.drop_last());
        lemma_destination_has_none(f);
        let lowers = norms.map_values(|e: Seq<char>| lowercase(e));
        match chosen(lowers, archive_candidates(normalized(f.source), prefix)) {
            Some(c) => {
                lemma_selected_in_range(lowers, c.key);
                lemma_placed_have_none(
                    norms,
                    selection(lowers, c.key),
                    c.matched,
                    data_destination(f),
                );
            },
            None => {},
        }
        let a = mapping_plans(norms, prefix, files.drop_last());
        let b = mapping_plan(norms, prefix, f);
        assert forall|i: int| 0 <= i < (a + b).len() implies !(#[trigger] (a
            + b)[i]).destination.contains('\\') by {
            if i < a.len() {
                assert((a + b)[i] == a[i]);
            } else {
                assert((a + b)[i] == b[i - a.len()]);
            }
        }
    }
}

proof fn lemma_tree_placed_have_none(
    names: Seq<Seq<char>>,
    directories: Seq<bool>,
    indices: Seq<usize>,
    matched: Seq<char>,
    destination: Seq<char>,
)
    requires
        forall|i: int| 0 <= i < names.len() ==> !(#[trigger] names[i]).contains('\\'),
        forall|j: int| 0 <= j < indices.len() ==> #[trigger] indices[j] < names.len(),
        !destination.contains('\\'),
    ensures
        no_backslash(placed_from_tree(names, directories, indices, matched, destination)),
    decreases indices.len(),
{
    if indices.len() > 0 {
        let rest = indices.drop_last();
        assert forall|j: int| 0 <= j < rest.len() implies #[trigger] rest[j] < names.len() by {
            assert(rest[j] == indices[j]);
        }
        lemma_tree_placed_have_none(names, directories, rest, matched, destination);
        assert(indices[indices.len() - 1] < names.len());
        let entry = names[indices.last() as int];
        assert(!entry.contains('\\'));
        let rel = relative_to(entry, lowercase(entry), matched, lowercase(matched));
        assert(!rel.contains('\\')) by {
            match from_byte(entry, byte_len(matched) as int) {
                Some(t) => {
                    what_follows_bytes_is_a_tail(entry, byte_len(matched) as int, t);
                    lemma_tail_has_none(entry, t);
                    lemma_trimmed_has_none(t);
                },
                None => {},
            }
            lemma_file_name_has_none(entry);
        }
        lemma_under_has_none(destination, rel);
    }
}

proof fn lemma_trimmed_has_none(s: Seq<char>)
    requires
        !s.contains('\\'),
    ensures
        !trimmed_start(s, '/').contains('\\'),
    decreases s.len(),
{
    if s.len() > 0 && s[0] == '/' {
        assert(s.subrange(1, s.len() as int) =~= s.skip(1));
        lemma_tail_has_none(s, s.skip(1));
        lemma_trimmed_has_none(s.skip(1));
    }
}

proof fn lemma_file_name_has_none(s: Seq<char>)
    requires
        !s.contains('\\'),
    ensures
        file_name_of(s) is Some ==> !file_name_of(s)->0.contains('\\'),
{
    let base = crate::paths::without_tail(s);
    lemma_without_tail_has_none(s);
    let k = crate::text::after_last(base, '/');
    crate::text::lemma_after_last(base, '/');
    let n = base.skip(k);
    assert(base.subrange(k, base.len() as int) =~= n);
    lemma_tail_has_none(base, n);
}

proof fn lemma_without_tail_has_none(s: Seq<char>)
    requires
        !s.contains('\\'),
    ensures
        !crate::paths::without_tail(s).contains('\\'),
    decreases s.len(),
{
    let t = s.drop_last();
    if s.len() > 1 {
        assert forall|i: int| 0 <= i < t.len() implies t[i] != '\\' by {
            assert(s.contains(s[i]));
        }
        lemma_without_tail_has_none(t);
    }
}

proof fn lemma_tree_plans_have_none(
    names: Seq<Seq<char>>,
    directories: Seq<bool>,
    prefix: Seq<char>,
    lower: Seq<char>,
    files: Seq<FomodFileView>,
)
    requires
        names.len() <= usize::MAX,
        forall|i: int| 0 <= i < names.len() ==> !(#[trigger] names[i]).contains('\\'),
    ensures
        no_backslash(tree_mapping_plans(names, directories, prefix, lower, files)),
    decreases files.len(),
{
    if files.len() > 0 {
        let f = files.last();
        lemma_tree_plans_have_none(names, directories, prefix, lower, files.drop_last());
        lemma_destination_has_none(f);
        let lowers = names.map_values(|e: Seq<char>| lowercase(e));
        match chosen(lowers, tree_candidates(normalized(f.source), prefix, lower)) {
            Some(c) => {
                lemma_selected_in_range(lowers, c.key);
                lemma_tree_placed_have_none(
                    names,
                    directories,
                    selection(lowers, c.key),
                    c.matched,
                    data_destination(f),
                );
            },
            None => {},
        }
        let a = tree_mapping_plans(names, directories, prefix, lower, files.drop_last());
        let b = tree_mapping_plan(names, directories, prefix, lower, f);
        assert forall|i: int| 0 <= i < (a + b).len() implies !(#[trigger] (a
            + b)[i]).destination.contains('\\') by {
            if i < a.len() {
                assert((a + b)[i] == a[i]);
            } else {
                assert((a + b)[i] == b[i - a.len()]);
            }
        }
    }
}

/// No file is installed at a path with a backslash in it, whatever slashes the
/// archive and the configuration are written with; of a zip that holds while its
/// own names have none.
pub proof fn no_destination_holds_a_backslash(
    entries: Seq<Seq<char>>,
    directories: Seq<bool>,
    files: Seq<FomodFileView>,
    p: PlannedFileView,
)
    requires
        entries.len() <= usize::MAX,
        fomod_plan(entries, files).contains(p) || extracted_plan(
            entries,
            directories,
            files,
        ).contains(p) || directory_plan(entries, directories, files).contains(p) || (zip_plan(
            entries,
            directories,
            files,
        ).contains(p) && forall|i: int|
            0 <= i < entries.len() ==> !(#[trigger] entries[i]).contains('\\')),
    ensures
        !p.destination.contains('\\'),
{
    let norms = entries.map_values(|e: Seq<char>| normalized(e));
    assert forall|i: int| 0 <= i < norms.len() implies !(#[trigger] norms[i]).contains('\\') by {
        normalized_has_clean_ends(entries[i]);
    }
    let sorted = by_priority(files);
    assert forall|prefix: Seq<char>| no_backslash(#[trigger] mapping_plans(norms, prefix, sorted)) by {
        lemma_plans_have_none(norms, prefix, sorted);
    }
    assert forall|prefix: Seq<char>, lower: Seq<char>|
        no_backslash(
            #[trigger] tree_mapping_plans(norms, directories, prefix, lower, sorted),
        ) by {
        lemma_tree_plans_have_none(norms, directories, prefix, lower, sorted);
    }
    if forall|i: int| 0 <= i < entries.len() ==> !(#[trigger] entries[i]).contains('\\') {
        assert forall|prefix: Seq<char>, lower: Seq<char>|
            no_backslash(
                #[trigger] tree_mapping_plans(entries, directories, prefix, lower, sorted),
            ) by {
            lemma_tree_plans_have_none(entries, directories, prefix, lower, sorted);
        }
    }
}

// ── Sources that are not where the mapping says ─────────────────────────────

/// A candidate at which nothing lies is passed over.
proof fn lemma_next_candidate(
    paths: Seq<Seq<char>>,
    source: Seq<char>,
    candidates: Seq<CandidateView>,
)
    requires
        paths.len() <= usize::MAX,
        forall|i: int| 0 <= i < paths.len() ==> is_clean(#[trigger] paths[i]) && all_ascii(paths[i]),
        all_ascii(source),
        candidates.len() > 0,
        candidates[0] == as_candidate(source),
        !is_present(paths, source),
    ensures
        ({
            let lowers = paths.map_values(|e: Seq<char>| lowercase(e));
            chosen(lowers, candidates) == chosen(lowers, candidates.skip(1))
        }),
{
    let lowers = paths.map_values(|e: Seq<char>| lowercase(e));
    let key = Some(lowercase(source));
    let s = selection(lowers, key);
    if s.len() > 0 {
        let i = s[0];
        assert(s.contains(i));
        lemma_selection(lowers, key, i);
        lemma_lies_at(paths[i as int], source);
        assert(lowers[i as int] == lowercase(paths[i as int]));
        assert(is_at(paths[i as int], source));
    }
}

/// The entries are paths as they are listed.
pub open spec fn are_listed(paths: Seq<Seq<char>>) -> bool {
    forall|i: int|
        0 <= i < paths.len() ==> is_listed_path(#[trigger] paths[i]) && is_clean(paths[i])
            && paths[i].len() <= usize::MAX
}

proof fn lemma_listed_norms(paths: Seq<Seq<char>>)
    requires
        are_listed(paths),
    ensures
        paths.map_values(|e: Seq<char>| normalized(e)) == paths,
{
    let norms = paths.map_values(|e: Seq<char>| normalized(e));
    assert forall|i: int| 0 <= i < paths.len() implies norms[i] == paths[i] by {
        assert(is_clean(paths[i]));
        lemma_clean_spells_itself(paths[i]);
    }
    assert(norms =~= paths);
}

proof fn lemma_clean_spells_itself(path: Seq<char>)
    requires
        is_clean(path),
    ensures
        normalized(path) == path,
{
    assert(spelled_from(path, path, 0));
    spelling_does_not_matter(path, path);
}

/// What a mapping plans from the second candidate on.
proof fn lemma_from_candidates(
    paths: Seq<Seq<char>>,
    prefix: Seq<char>,
    f: FomodFileView,
    source: Seq<char>,
    place: Seq<char>,
    found: Seq<char>,
    p: PlannedFileView,
)
    requires
        are_listed(paths),
        paths.len() <= usize::MAX,
        maps(f, source, place),
        all_ascii(found),
        found.len() > 0,
        ({
            let lowers = paths.map_values(|e: Seq<char>| lowercase(e));
            chosen(lowers, archive_candidates(source, prefix)) == Some(as_candidate(found))
        }),
        p.index < paths.len(),
        is_at(paths[p.index as int], found),
        p.destination == moved(paths[p.index as int], found, place),
        is_plain(p.destination),
    ensures
        mapping_plan(paths, prefix, f).contains(p),
{
    spelling_does_not_matter(f.source, source);
    destination_is_the_named_place(f, place);
    let lowers = paths.map_values(|e: Seq<char>| lowercase(e));
    let i = p.index as int;
    assert(is_listed_path(paths[i]) && is_clean(paths[i]));
    lemma_selection(lowers, Some(lowercase(found)), p.index);
    lemma_lies_at(paths[i], found);
    assert(lowers[i] == lowercase(paths[i]));
    let indices = selection(lowers, Some(lowercase(found)));
    lemma_placed_from_archive(paths, indices, found, place, p);
    lemma_archive_destination(paths[i], found, place);
}

/// Where nothing lies at a mapping's source, but something lies at the source
/// below the directory that holds the configuration, that is installed.
pub proof fn sources_are_looked_for_beside_the_configuration(
    paths: Seq<Seq<char>>,
    k: int,
    parent: Seq<char>,
    fomod: Seq<char>,
    config: Seq<char>,
    files: Seq<FomodFileView>,
    m: int,
    source: Seq<char>,
    place: Seq<char>,
    i: usize,
)
    requires
        are_listed(paths),
        paths.len() <= usize::MAX,
        0 <= k < paths.len(),
        hold_no_config(paths.take(k)),
        ascii_lowercase(fomod) == "fomod"@,
        ascii_lowercase(config) == "moduleconfig.xml"@,
        parent.len() > 0,
        is_clean(parent),
        all_ascii(parent),
        paths[k] == parent + seq!['/'] + fomod + seq!['/'] + config,
        0 <= m < files.len(),
        maps(files[m], source, place),
        !is_present(paths, source),
        i < paths.len(),
        is_at(paths[i as int], parent + seq!['/'] + source),
        is_plain(moved(paths[i as int], parent + seq!['/'] + source, place)),
    ensures
        fomod_plan(paths, files).contains(
            PlannedFileView {
                index: i,
                destination: moved(paths[i as int], parent + seq!['/'] + source, place),
            },
        ),
{
    reveal_strlit("/");
    let slash = seq!['/'];
    assert("/"@ =~= slash);
    let found = parent + slash + source;
    let p = PlannedFileView { index: i, destination: moved(paths[i as int], found, place) };
    lemma_listed_norms(paths);
    assert forall|j: int| 0 <= j < paths.len() implies is_listed_path(#[trigger] paths[j]) by {}
    configuration_names_what_is_stripped(paths, k, parent, fomod, config);
    let strip = strip_prefix_of(paths);
    assert(spelled_from(strip, parent, 0));
    spelling_does_not_matter(strip, parent);
    let prefix = normalized(strip);
    assert(prefix == parent);
    assert(trimmed_end(parent, '/') == parent);
    assert(is_clean(found)) by {
        assert forall|j: int| 0 <= j < found.len() implies found[j] != '\\' by {
            if j < parent.len() {
                assert(parent.contains(parent[j]));
            } else if j > parent.len() {
                assert(source.contains(source[j - parent.len() - 1]));
            }
        }
        assert(found.last() == source.last());
        assert(found[0] == parent[0]);
    }
    lemma_clean_spells_itself(found);
    lemma_ascii_concat(parent, slash);
    lemma_ascii_concat(parent + slash, source);
    assert(all_ascii(slash));
    let candidates = archive_candidates(source, prefix);
    assert(candidates[0] == as_candidate(source));
    assert(candidates[1] == as_candidate(found));
    lemma_next_candidate(paths, source, candidates);
    let rest = candidates.skip(1);
    assert(rest[0] == candidates[1]);
    assert(is_present(paths, found));
    lemma_first_candidate(paths, found, rest, i);
    lemma_from_candidates(paths, prefix, files[m], source, place, found, p);
    lemma_sorted_holds(files, files[m]);
    let sorted = by_priority(files);
    let n = choose|n: int| 0 <= n < sorted.len() && sorted[n] == files[m];
    assert(mapping_plan(paths, prefix, sorted[n]).contains(p));
    lemma_planned(paths, prefix, sorted, p);
}

/// Where an archive has no prefix to strip and nothing lies at a mapping's
/// source, the source is looked for with a data directory in front of it, or
/// without the one that it has.
pub proof fn sources_are_looked_for_with_and_without_data(
    paths: Seq<Seq<char>>,
    files: Seq<FomodFileView>,
    m: int,
    source: Seq<char>,
    found: Seq<char>,
    place: Seq<char>,
    i: usize,
)
    requires
        are_listed(paths),
        paths.len() <= usize::MAX,
        strip_prefix_of(paths) == Seq::<char>::empty(),
        0 <= m < files.len(),
        maps(files[m], source, place),
        !is_present(paths, source),
        is_clean(found),
        found.len() > 0,
        all_ascii(found),
        (!is_in_data(source) && found == seq!['d', 'a', 't', 'a', '/'] + source) || (exists|
            data: Seq<char>,
        | #[trigger] is_data_name(data) && source == data + seq!['/'] + found),
        i < paths.len(),
        is_at(paths[i as int], found),
        is_plain(moved(paths[i as int], found, place)),
    ensures
        fomod_plan(paths, files).contains(
            PlannedFileView { index: i, destination: moved(paths[i as int], found, place) },
        ),
{
    let none = Seq::<char>::empty();
    let p = PlannedFileView { index: i, destination: moved(paths[i as int], found, place) };
    lemma_listed_norms(paths);
    lemma_clean_spells_itself(none);
    lemma_respelled(source, found);
    let candidates = archive_candidates(source, none);
    assert(candidates[0] == as_candidate(source));
    assert(candidates[1] == as_candidate(found));
    lemma_next_candidate(paths, source, candidates);
    let rest = candidates.skip(1);
    assert(rest[0] == candidates[1]);
    assert(is_present(paths, found));
    lemma_first_candidate(paths, found, rest, i);
    lemma_from_candidates(paths, none, files[m], source, place, found, p);
    lemma_sorted_holds(files, files[m]);
    let sorted = by_priority(files);
    let n = choose|n: int| 0 <= n < sorted.len() && sorted[n] == files[m];
    assert(mapping_plan(paths, none, sorted[n]).contains(p));
    lemma_planned(paths, none, sorted, p);
}

proof fn lemma_respelled(source: Seq<char>, found: Seq<char>)
    requires
        all_ascii(source),
        source.len() > 0,
        all_ascii(found),
        found.len() > 0,
        (!is_in_data(source) && found == seq!['d', 'a', 't', 'a', '/'] + source) || (exists|
            data: Seq<char>,
        | #[trigger] is_data_name(data) && source == data + seq!['/'] + found),
    ensures
        respelled(source) == Some(found),
{
    reveal_strlit("data");
    reveal_strlit("data/");
    let four = seq!['d', 'a', 't', 'a'];
    assert("data"@ =~= four);
    assert("data/"@ =~= four + seq!['/']);
    assert("data/"@ =~= seq!['d', 'a', 't', 'a', '/']);
    if !is_in_data(source) && found == seq!['d', 'a', 't', 'a', '/'] + source {
        lemma_not_in_data(source);
    } else {
        let data = choose|data: Seq<char>| #[trigger]
            is_data_name(data) && source == data + seq!['/'] + found;
        leading_data_is_dropped(data, found);
        lemma_data_lower(data, found);
        assert(found.len() < source.len());
    }
}

/// The path leads neither to a directory `fomod` at the top nor through one
/// anywhere.
pub open spec fn is_outside_fomod(path: Seq<char>) -> bool {
    let low = ascii_lowercase(path);
    &&& low != seq!['f', 'o', 'm', 'o', 'd']
    &&& !seq!['f', 'o', 'm', 'o', 'd', '/'].is_prefix_of(low)
    &&& forall|a: Seq<char>, b: Seq<char>|
        low != #[trigger] (a + "/fomod/"@ + b)
}

proof fn lemma_outside_fomod(path: Seq<char>)
    requires
        all_ascii(path),
    ensures
        is_selected(lowercase(path), None) <==> is_outside_fomod(path),
{
    reveal_strlit("fomod");
    reveal_strlit("fomod/");
    reveal_strlit("/fomod/");
    let low = ascii_lowercase(path);
    let word = "/fomod/"@;
    assert("fomod"@ =~= seq!['f', 'o', 'm', 'o', 'd']);
    assert("fomod/"@ =~= seq!['f', 'o', 'm', 'o', 'd', '/']);
    assert(word.len() == 7);
    if has_infix(low, word) {
        let i = choose|i: int| occurs_at(low, word, i);
        let a = low.take(i);
        let b = low.skip(i + 7);
        assert(low =~= a + word + b) by {
            assert forall|j: int| 0 <= j < low.len() implies low[j] == (a + word + b)[j] by {
                if i <= j < i + 7 {
                    assert(low.subrange(i, i + 7)[j - i] == word[j - i]);
                }
            }
        }
        assert(!is_outside_fomod(path));
    }
    assert forall|a: Seq<char>, b: Seq<char>| low == #[trigger] (a + "/fomod/"@
        + b) implies has_infix(low, word) by {
        let n = a.len() as int;
        assert(low.subrange(n, n + 7) =~= word);
        assert(occurs_at(low, word, n));
    }
}

/// A mapping from the data directory, in an archive that has none and no prefix
/// to strip, installs every entry outside the configuration at its own path
/// below the place, and no entry of the configuration.
pub proof fn mapping_from_data_installs_everything(
    paths: Seq<Seq<char>>,
    f: FomodFileView,
    data: Seq<char>,
    place: Seq<char>,
    i: usize,
)
    requires
        are_listed(paths),
        paths.len() <= usize::MAX,
        strip_prefix_of(paths) == Seq::<char>::empty(),
        maps(f, data, place),
        is_data_name(data),
        !is_present(paths, data),
        i < paths.len(),
    ensures
        is_outside_fomod(paths[i as int]) && is_plain(below(place, paths[i as int])) ==> fomod_plan(
            paths,
            seq![f],
        ).contains(PlannedFileView { index: i, destination: below(place, paths[i as int]) }),
        !is_outside_fomod(paths[i as int]) ==> forall|p: PlannedFileView| #[trigger]
            fomod_plan(paths, seq![f]).contains(p) ==> p.index != i,
{
    reveal_strlit("/");
    reveal_strlit("data");
    reveal_strlit("data/");
    assert("/"@ =~= seq!['/']);
    assert("data"@ =~= seq!['d', 'a', 't', 'a']);
    let none = Seq::<char>::empty();
    let path = paths[i as int];
    assert(is_listed_path(path) && is_clean(path));
    lemma_listed_norms(paths);
    lemma_clean_spells_itself(none);
    spelling_does_not_matter(f.source, data);
    destination_is_the_named_place(f, place);
    let lowers = paths.map_values(|e: Seq<char>| lowercase(e));
    let candidates = archive_candidates(data, none);
    let last = CandidateView { key: None, matched: none };
    assert(candidates =~= seq![as_candidate(data), last]);
    lemma_next_candidate(paths, data, candidates);
    let rest = candidates.skip(1);
    assert(rest[0] == last);
    assert(rest.skip(1) =~= Seq::empty());
    let indices = selection(lowers, None);
    reveal_with_fuel(chosen, 2);
    lemma_selection(lowers, None, i);
    lemma_outside_fomod(path);
    assert(lowers[i as int] == lowercase(path));
    let goal = PlannedFileView { index: i, destination: below(place, path) };
    let sorted = by_priority(seq![f]);
    assert(by_priority(seq![f]) =~= seq![f]) by {
        lemma_sorted_keeps(seq![f], priority_order());
        lemma_sorted_holds(seq![f], f);
        assert(seq![f].contains(seq![f][0]));
        assert(sorted.contains(f));
    }
    if is_outside_fomod(path) && is_plain(goal.destination) {
        assert(indices.contains(i));
        lemma_placed_from_archive(paths, indices, none, place, goal);
        lemma_plain(goal.destination);
        assert(lowercase(none) =~= none);
        assert(under(place, path) == below(place, path));
        assert(mapping_plan(paths, none, sorted[0]).contains(goal));
        lemma_planned(paths, none, sorted, goal);
    }
    if !is_outside_fomod(path) {
        assert forall|p: PlannedFileView| #[trigger]
            fomod_plan(paths, seq![f]).contains(p) implies p.index != i by {
            lemma_planned(paths, none, sorted, p);
            if p.index == i {
                let k = choose|k: int|
                    0 <= k < sorted.len() && (#[trigger] mapping_plan(
                        paths,
                        none,
                        sorted[k],
                    )).contains(p);
                assert(sorted[k] == f);
                lemma_placed_from_archive(paths, indices, none, place, p);
            }
        }
    }
}

/// Of what is planned the files are written; of a zip, those are left out that
/// lie in the directory that macOS puts into archives.
pub proof fn planned_files_are_written(
    p: PlannedFileView,
    names: Seq<Seq<char>>,
    directories: Seq<bool>,
    top: Seq<char>,
)
    requires
        p.index < names.len(),
        p.index < directories.len(),
        is_listed_path(names[p.index as int]),
        is_clean(names[p.index as int]),
        goes_through(names[p.index as int], top),
    ensures
        crate::installer::install::is_written(p, names, directories, false)
            <==> !directories[p.index as int],
        crate::installer::install::is_written(p, names, directories, true)
            <==> !directories[p.index as int] && ascii_lowercase(top) != "__macosx"@,
{
    let name = names[p.index as int];
    lemma_clean_spells_itself(name);
    lemma_goes_through(name, top);
    let junk = junk_toplevel_entries();
    assert(junk =~= seq!["__macosx"@]);
    assert(junk[0] == "__macosx"@);
}

} // verus!
