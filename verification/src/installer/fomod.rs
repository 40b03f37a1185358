//! Reading FOMOD configurations and settling what they install.
use vstd::prelude::*;

use crate::installer::decode::{decode_fomod_xml, decoded};
use crate::installer::heuristics::{is_config_path, is_fomod_config_path, lower_slashes};
use crate::installer::parser::{config_from_events, config_of_events, config_result};
use crate::installer::paths::{normalize_path_lowercase, normalized_lowercase};
use crate::installer::types::{FomodConfig, FomodConfigView, FomodFile, FomodFileView};
use crate::installer::xml::{read_events, xml_events};
use crate::paths::{
    file_name_of, file_name_stands_behind_the_last_slash, file_stem,
    names_split_at_their_last_dot, stem_of,
};
use crate::text::{
    ends_with, has_suffix, is_listed, lemma_precedes_total, lemma_precedes_transitive,
    lemma_stably_sorted, less, lowercase, owned, precedes, replace_char, same, sort_stably,
    stably_sorted, to_lowercase, total_preorder,
};

verus! {

// ── Configurations ──────────────────────────────────────────────────────────

/// The configuration that the bytes of a `ModuleConfig.xml` declare.
pub open spec fn parsed_config(raw: Seq<u8>) -> Result<FomodConfigView, Seq<char>> {
    match decoded(raw) {
        Ok(text) => config_of_events(xml_events(text)),
        Err(e) => Err(e),
    }
}

/// Parses the bytes of a `ModuleConfig.xml`.
pub fn parse_fomod_xml(xml_bytes: &[u8]) -> (r: Result<FomodConfig, String>)
    ensures
        config_result(r) == parsed_config(xml_bytes@),
{
    match decode_fomod_xml(xml_bytes) {
        Ok(text) => config_from_events(&read_events(text.as_str())),
        Err(e) => Err(e),
    }
}

/// The name of an archive without its extension.
pub open spec fn archive_stem(archive_name: Seq<char>) -> Seq<char> {
    match file_name_of(archive_name) {
        Some(n) => stem_of(n),
        None => archive_name,
    }
}

/// A configuration without a module name is named after its archive.
pub open spec fn named_after(config: FomodConfigView, archive_name: Seq<char>) -> FomodConfigView {
    if config.mod_name is None && archive_name.len() > 0 {
        FomodConfigView { mod_name: Some(archive_stem(archive_name)), ..config }
    } else {
        config
    }
}

/// Names a configuration without a module name after its archive.
pub fn name_after_archive(config: FomodConfig, archive_name: &str) -> (r: FomodConfig)
    ensures
        r.deep_view() == named_after(config.deep_view(), archive_name@),
{
    let mut r = config;
    if r.mod_name.is_none() && !archive_name.is_empty() {
        let stem = match file_stem(archive_name) {
            Some(s) => s,
            None => owned(archive_name),
        };
        r.mod_name = Some(stem);
    }
    assert(r.deep_view() =~= named_after(config.deep_view(), archive_name@));
    r
}

/// Parses the configuration of an archive from its bytes.
pub fn parse_fomod_from_archive(archive_name: &str, xml_bytes: &[u8]) -> (r: Result<
    FomodConfig,
    String,
>)
    ensures
        config_result(r) == match parsed_config(xml_bytes@) {
            Ok(c) => Ok(named_after(c, archive_name@)),
            Err(e) => Err(e),
        },
{
    match parse_fomod_xml(xml_bytes) {
        Ok(c) => Ok(name_after_archive(c, archive_name)),
        Err(e) => Err(e),
    }
}

/// The index of the first entry that is a FOMOD configuration, or the number
/// of entries.
pub open spec fn config_entry_index(entries: Seq<Seq<char>>) -> int
    decreases entries.len(),
{
    if entries.len() == 0 || is_config_path(lower_slashes(entries[0])) {
        0
    } else {
        1 + config_entry_index(entries.skip(1))
    }
}

/// Finds the entry that is the FOMOD configuration of an archive.
pub fn find_fomod_entry(entries: &[String]) -> (r: Result<String, String>)
    ensures
        match r {
            Ok(e) => config_entry_index(entries.deep_view()) < entries.deep_view().len() && e@
                == entries.deep_view()[config_entry_index(entries.deep_view())],
            Err(m) => config_entry_index(entries.deep_view()) == entries.deep_view().len() && m@
                == "No fomod/ModuleConfig.xml found in archive"@,
        },
{
    let ghost all = entries.deep_view();
    let mut i: usize = 0;
    assert(all.skip(0) =~= all);
    while i < entries.len()
        invariant
            i <= entries@.len(),
            all == entries.deep_view(),
            config_entry_index(all) == i + config_entry_index(all.skip(i as int)),
        decreases entries@.len() - i,
    {
        assert(all.skip(i as int)[0] == entries@[i as int]@);
        let lower = replace_char(to_lowercase(entries[i].as_str()).as_str(), '\\', '/');
        if is_fomod_config_path(lower.as_str()) {
            return Ok(entries[i].clone());
        }
        assert(all.skip(i as int).skip(1) =~= all.skip(i + 1));
        i += 1;
    }
    Err(owned("No fomod/ModuleConfig.xml found in archive"))
}

/// Parses the configuration of a zip archive, given the names of its entries
/// and the bytes of the entry that [`find_fomod_entry`] finds, or why they
/// could not be read.
pub fn parse_fomod_from_zip(entries: &[String], xml_bytes: Result<Vec<u8>, String>) -> (r: Result<
    FomodConfig,
    String,
>)
    ensures
        config_result(r) == (if config_entry_index(entries.deep_view()) == entries@.len() {
            Err("No fomod/ModuleConfig.xml found in archive"@)
        } else {
            match xml_bytes {
                Ok(bytes) => parsed_config(bytes@),
                Err(e) => Err(e@),
            }
        }),
{
    match find_fomod_entry(entries) {
        Ok(_) => {},
        Err(e) => {
            return Err(e);
        },
    }
    match xml_bytes {
        Ok(bytes) => parse_fomod_xml(bytes.as_slice()),
        Err(e) => Err(e),
    }
}

/// Finds the entry of an extracted archive that is its FOMOD configuration.
pub fn find_extracted_config(entries: &[String]) -> (r: Result<String, String>)
    ensures
        ({
            let i = config_entry_index(entries.deep_view());
            match r {
                Ok(name) => i < entries@.len() && name@ == entries.deep_view()[i],
                Err(e) => i >= entries@.len() && e@
                    == "No fomod/ModuleConfig.xml found in extracted archive"@,
            }
        }),
{
    match find_fomod_entry(entries) {
        Ok(name) => Ok(name),
        Err(_) => Err(owned("No fomod/ModuleConfig.xml found in extracted archive")),
    }
}

/// Parses the configuration of an extracted archive from its bytes.
pub fn parse_fomod_from_extracted(archive_name: &str, xml_bytes: &[u8]) -> (r: Result<
    FomodConfig,
    String,
>)
    ensures
        config_result(r) == match parsed_config(xml_bytes@) {
            Ok(c) => Ok(named_after(c, archive_name@)),
            Err(e) => Err(e),
        },
{
    parse_fomod_from_archive(archive_name, xml_bytes)
}

/// The index of the first file that ends in the name of a FOMOD configuration,
/// or the number of files.
pub open spec fn config_file_index(files: Seq<Seq<char>>) -> int
    decreases files.len(),
{
    if files.len() == 0 || has_suffix(lowercase(files[0]), "fomod/moduleconfig.xml"@) {
        0
    } else {
        1 + config_file_index(files.skip(1))
    }
}

/// Finds the FOMOD configuration among the files below a directory, given by
/// their paths with forward slashes in the order in which they are met.
pub fn find_fomod_config_in_dir(files: &[String]) -> (r: Option<String>)
    ensures
        ({
            let i = config_file_index(files.deep_view());
            match r {
                Some(f) => i < files@.len() && f@ == files.deep_view()[i],
                None => i >= files@.len(),
            }
        }),
{
    let ghost all = files.deep_view();
    let mut i: usize = 0;
    assert(all.skip(0) =~= all);
    while i < files.len()
        invariant
            all == files.deep_view(),
            i <= files@.len(),
            config_file_index(all) == i + config_file_index(all.skip(i as int)),
        decreases files@.len() - i,
    {
        assert(all[i as int] == files@[i as int]@);
        assert(all.skip(i as int).skip(1) =~= all.skip(i + 1));
        if ends_with(to_lowercase(files[i].as_str()).as_str(), "fomod/moduleconfig.xml") {
            return Some(owned(files[i].as_str()));
        }
        i += 1;
    }
    None
}

// ── Conflicts ───────────────────────────────────────────────────────────────

/// The destination by which files are held against each other.
pub open spec fn destination_key(f: FomodFileView) -> Seq<char> {
    normalized_lowercase(f.destination)
}

/// The files with their positions.
pub open spec fn with_positions(files: Seq<FomodFileView>) -> Seq<(usize, FomodFileView)> {
    Seq::new(files.len(), |i: int| (i as usize, files[i]))
}

/// By destination; for one destination a higher priority comes first, and of
/// equal priorities the later position.
pub open spec fn ranks_before(a: (usize, FomodFileView), b: (usize, FomodFileView)) -> bool {
    let ka = destination_key(a.1);
    let kb = destination_key(b.1);
    if ka != kb {
        precedes(ka, kb)
    } else if a.1.priority != b.1.priority {
        a.1.priority > b.1.priority
    } else {
        a.0 >= b.0
    }
}

/// The first entry for each destination.
pub open spec fn first_per_destination(s: Seq<(usize, FomodFileView)>) -> Seq<
    (usize, FomodFileView),
>
    decreases s.len(),
{
    if s.len() == 0 {
        s
    } else {
        let before = first_per_destination(s.drop_last());
        if holds_destination(before, destination_key(s.last().1)) {
            before
        } else {
            before.push(s.last())
        }
    }
}

/// One of the entries has the destination.
pub open spec fn holds_destination(s: Seq<(usize, FomodFileView)>, key: Seq<char>) -> bool {
    exists|i: int| 0 <= i < s.len() && destination_key((#[trigger] s[i]).1) == key
}

/// The winners among files with their ranks, by destination.
pub open spec fn ranked_winners(ranked: Seq<(usize, FomodFileView)>) -> Seq<
    (usize, FomodFileView),
> {
    first_per_destination(
        stably_sorted(
            ranked,
            |a: (usize, FomodFileView), b: (usize, FomodFileView)| ranks_before(a, b),
        ),
    )
}

/// The winners with their positions, by destination.
pub open spec fn winners(files: Seq<FomodFileView>) -> Seq<(usize, FomodFileView)> {
    ranked_winners(with_positions(files))
}

/// The files that remain once conflicts are resolved.
pub open spec fn resolved(files: Seq<FomodFileView>) -> Seq<FomodFileView> {
    winners(files).map_values(|p: (usize, FomodFileView)| p.1)
}

fn ranks_first(a: &(usize, FomodFile), b: &(usize, FomodFile)) -> (r: bool)
    ensures
        r == ranks_before(a.deep_view(), b.deep_view()),
{
    let ka = normalize_path_lowercase(a.1.destination.as_str());
    let kb = normalize_path_lowercase(b.1.destination.as_str());
    if !same(ka.as_str(), kb.as_str()) {
        less(ka.as_str(), kb.as_str())
    } else if a.1.priority != b.1.priority {
        a.1.priority > b.1.priority
    } else {
        a.0 >= b.0
    }
}

/// Resolves conflicts among files with their ranks: of those with one
/// destination the one with the higher priority stays, and of equal priorities
/// the one with the higher rank.  The result is ordered by destination.
pub fn resolve_ranked(ranked: Vec<(usize, FomodFile)>) -> (r: Vec<(usize, FomodFile)>)
    ensures
        r.deep_view() == ranked_winners(ranked.deep_view()),
{
    let in_place = |a: &(usize, FomodFile), b: &(usize, FomodFile)| -> (ok: bool)
        ensures
            ok == ranks_before(a.deep_view(), b.deep_view()),
    {
        ranks_first(a, b)
    };
    let ghost leq = |a: (usize, FomodFileView), b: (usize, FomodFileView)| ranks_before(a, b);
    let sorted = sort_stably(ranked, in_place, Ghost(leq));
    let ghost ordered = sorted.deep_view();
    let mut seen: Vec<String> = Vec::new();
    let mut r: Vec<(usize, FomodFile)> = Vec::new();
    assert(first_per_destination(ordered.take(0)) =~= r.deep_view());
    for i in 0..sorted.len()
        invariant
            ordered == sorted.deep_view(),
            r.deep_view() == first_per_destination(ordered.take(i as int)),
            seen.deep_view() == r.deep_view().map_values(
                |p: (usize, FomodFileView)| destination_key(p.1),
            ),
    {
        let ghost item = ordered[i as int];
        let ghost kept = r.deep_view();
        assert(item == sorted@[i as int].deep_view());
        assert(ordered.take(i + 1).drop_last() =~= ordered.take(i as int));
        let file = &sorted[i].1;
        let key = normalize_path_lowercase(file.destination.as_str());
        let ghost keys = seen.deep_view();
        let known = is_listed(&seen, key.as_str());
        proof {
            if known {
                let j = choose|j: int| 0 <= j < keys.len() && keys[j] == key@;
                assert(destination_key(kept[j].1) == key@);
                assert(holds_destination(kept, key@));
            } else if holds_destination(kept, key@) {
                let j = choose|j: int|
                    0 <= j < kept.len() && destination_key((#[trigger] kept[j]).1) == key@;
                assert(keys[j] == key@);
            }
        }
        if !known {
            let ghost kv = key@;
            seen.push(key);
            r.push((sorted[i].0, file.clone()));
            proof {
                assert(r.deep_view() =~= kept.push(item));
                assert(seen.deep_view() =~= keys.push(kv));
                assert(seen.deep_view() =~= r.deep_view().map_values(
                    |p: (usize, FomodFileView)| destination_key(p.1),
                ));
            }
        }
    }
    assert(ordered.take(ordered.len() as int) =~= ordered);
    r
}

/// Resolves conflicts within a file installation list.
///
/// When several files target one destination, the one with the higher priority
/// wins, and of equal priorities the later one.  The result is ordered by
/// destination.
pub fn resolve_file_conflicts(files: Vec<FomodFile>) -> (r: Vec<FomodFile>)
    ensures
        r.deep_view() == resolved(files.deep_view()),
{
    let ghost all = files.deep_view();
    let mut indexed: Vec<(usize, FomodFile)> = Vec::new();
    for i in 0..files.len()
        invariant
            all == files.deep_view(),
            indexed.deep_view() == with_positions(all).take(i as int),
    {
        let ghost before = indexed.deep_view();
        assert(all[i as int] == files@[i as int].deep_view());
        indexed.push((i, files[i].clone()));
        assert(indexed.deep_view() =~= before.push((i, all[i as int])));
        assert(indexed.deep_view() =~= with_positions(all).take(i + 1));
    }
    assert(with_positions(all).take(all.len() as int) =~= with_positions(all));
    let won = resolve_ranked(indexed);
    let ghost ws = won.deep_view();
    let mut r: Vec<FomodFile> = Vec::new();
    for i in 0..won.len()
        invariant
            ws == won.deep_view(),
            r@.len() == i,
            forall|j: int| 0 <= j < i ==> #[trigger] r@[j].deep_view() == ws[j].1,
    {
        assert(ws[i as int] == won@[i as int].deep_view());
        r.push(won[i].1.clone());
    }
    assert(r.deep_view() =~= resolved(all));
    r
}

// ── Laws ────────────────────────────────────────────────────────────────────

proof fn lemma_ranking()
    ensures
        total_preorder(
            |a: (usize, FomodFileView), b: (usize, FomodFileView)| ranks_before(a, b),
        ),
{
    let leq = |a: (usize, FomodFileView), b: (usize, FomodFileView)| ranks_before(a, b);
    assert forall|a: (usize, FomodFileView), b: (usize, FomodFileView)| #[trigger] leq(a, b)
        || leq(b, a) by {
        lemma_precedes_total(destination_key(a.1), destination_key(b.1));
    }
    assert forall|
        a: (usize, FomodFileView),
        b: (usize, FomodFileView),
        c: (usize, FomodFileView),
    | #[trigger] leq(a, b) && #[trigger] leq(b, c) implies leq(a, c) by {
        let (x, y, z) = (destination_key(a.1), destination_key(b.1), destination_key(c.1));
        if x != y && y != z {
            lemma_precedes_transitive(x, y, z);
            lemma_precedes_total(x, z);
        }
    }
}

/// What is kept are entries of `s`.
proof fn lemma_kept_from(s: Seq<(usize, FomodFileView)>, i: int) -> (b: int)
    requires
        0 <= i < first_per_destination(s).len(),
    ensures
        0 <= b < s.len(),
        s[b] == first_per_destination(s)[i],
    decreases s.len(),
{
    let rest = s.drop_last();
    let before = first_per_destination(rest);
    if i < before.len() {
        let b = lemma_kept_from(rest, i);
        assert(s[b] == rest[b]);
        b
    } else {
        s.len() - 1
    }
}

/// What is kept has different destinations.
proof fn lemma_kept_differ(s: Seq<(usize, FomodFileView)>, i: int, j: int)
    requires
        0 <= i < j < first_per_destination(s).len(),
    ensures
        destination_key(first_per_destination(s)[i].1) != destination_key(
            first_per_destination(s)[j].1,
        ),
    decreases s.len(),
{
    let rest = s.drop_last();
    let before = first_per_destination(rest);
    if j < before.len() {
        lemma_kept_differ(rest, i, j);
    } else {
        assert(destination_key(before[i].1) != destination_key(s.last().1)) by {
            if destination_key(before[i].1) == destination_key(s.last().1) {
                assert(holds_destination(before, destination_key(s.last().1)));
            }
        }
    }
}

/// For every entry one with its destination is kept that does not stand behind
/// it: its index among what is kept, and in `s`.
proof fn lemma_kept_for(s: Seq<(usize, FomodFileView)>, a: int) -> (r: (int, int))
    requires
        0 <= a < s.len(),
    ensures
        0 <= r.0 < first_per_destination(s).len(),
        0 <= r.1 <= a,
        first_per_destination(s)[r.0] == s[r.1],
        destination_key(s[r.1].1) == destination_key(s[a].1),
    decreases s.len(),
{
    let rest = s.drop_last();
    let before = first_per_destination(rest);
    if a < s.len() - 1 {
        let r = lemma_kept_for(rest, a);
        assert(s[a] == rest[a] && s[r.1] == rest[r.1]);
        r
    } else if holds_destination(before, destination_key(s.last().1)) {
        let k = choose|k: int|
            0 <= k < before.len() && destination_key((#[trigger] before[k]).1) == destination_key(
                s.last().1,
            );
        let b = lemma_kept_from(rest, k);
        assert(s[b] == rest[b]);
        (k, b)
    } else {
        (before.len() as int, a)
    }
}

/// No two of the winners have one destination.
pub proof fn winners_differ(ranked: Seq<(usize, FomodFileView)>, i: int, j: int)
    requires
        0 <= i < j < ranked_winners(ranked).len(),
    ensures
        destination_key(ranked_winners(ranked)[i].1) != destination_key(
            ranked_winners(ranked)[j].1,
        ),
{
    lemma_kept_differ(
        stably_sorted(
            ranked,
            |a: (usize, FomodFileView), b: (usize, FomodFileView)| ranks_before(a, b),
        ),
        i,
        j,
    );
}

/// No two of the remaining files have one destination.
pub proof fn resolved_destinations_differ(files: Seq<FomodFileView>, i: int, j: int)
    requires
        0 <= i < j < resolved(files).len(),
    ensures
        destination_key(resolved(files)[i]) != destination_key(resolved(files)[j]),
{
    winners_differ(with_positions(files), i, j);
}

/// The entry `w` outranks the entry `a` for their common destination, or is on
/// a par with it.
pub open spec fn outranks(w: (usize, FomodFileView), a: (usize, FomodFileView)) -> bool {
    &&& destination_key(w.1) == destination_key(a.1)
    &&& w.1.priority > a.1.priority || (w.1.priority == a.1.priority && w.0 >= a.0)
}

/// Every destination keeps one of the entries given, and none of the others
/// outranks it.
pub proof fn winner_is_kept(ranked: Seq<(usize, FomodFileView)>, i: int)
    requires
        0 <= i < ranked.len(),
    ensures
        exists|k: int, w: int|
            0 <= k < ranked_winners(ranked).len() && 0 <= w < ranked.len()
                && #[trigger] ranked_winners(ranked)[k] == ranked[w] && #[trigger] outranks(
                ranked[w],
                ranked[i],
            ),
{
    let leq = |a: (usize, FomodFileView), b: (usize, FomodFileView)| ranks_before(a, b);
    let s = stably_sorted(ranked, leq);
    lemma_ranking();
    lemma_stably_sorted(ranked, leq);
    let a = lemma_same_elements(ranked, s, i);
    let (k, b) = lemma_kept_for(s, a);
    assert(leq(s[b], s[a]));
    let w = lemma_same_elements(s, ranked, b);
    assert(ranked_winners(ranked)[k] == ranked[w]);
    assert(outranks(ranked[w], ranked[i]));
}

/// The file at `w` outranks the file at `i` for their common destination, or
/// is that file.
pub open spec fn wins_over(files: Seq<FomodFileView>, w: int, i: int) -> bool {
    &&& 0 <= w < files.len()
    &&& destination_key(files[w]) == destination_key(files[i])
    &&& files[w].priority > files[i].priority || (files[w].priority == files[i].priority && w >= i)
}

/// Every destination keeps a file, and the file that it keeps is one of those
/// given: none of the others has a higher priority or, with the same priority,
/// a later position.
pub proof fn resolved_keeps_the_winner(files: Seq<FomodFileView>, i: int)
    requires
        0 <= i < files.len(),
        files.len() <= usize::MAX,
    ensures
        exists|k: int, w: int|
            0 <= k < resolved(files).len() && #[trigger] resolved(files)[k] == files[w]
                && #[trigger] wins_over(files, w, i),
{
    let all = with_positions(files);
    winner_is_kept(all, i);
    let (k, w) = choose|k: int, w: int|
        0 <= k < ranked_winners(all).len() && 0 <= w < all.len()
            && #[trigger] ranked_winners(all)[k] == all[w] && #[trigger] outranks(all[w], all[i]);
    assert(all[i] == (i as usize, files[i]));
    assert(all[w] == (w as usize, files[w]));
    assert(resolved(files)[k] == files[w]);
    assert(wins_over(files, w, i));
}

/// Sequences with the same elements: where an element of one stands in the
/// other.
proof fn lemma_same_elements<A>(s: Seq<A>, t: Seq<A>, i: int) -> (j: int)
    requires
        s.to_multiset() == t.to_multiset(),
        0 <= i < s.len(),
    ensures
        0 <= j < t.len(),
        t[j] == s[i],
{
    broadcast use vstd::seq_lib::group_to_multiset_ensures;

    assert(s.contains(s[i]));
    assert(s.to_multiset().count(s[i]) > 0);
    assert(t.contains(s[i]));
    choose|j: int| 0 <= j < t.len() && t[j] == s[i]
}

/// What is left after resolving are mappings that were there.
pub proof fn resolved_mappings_were_there(files: Seq<FomodFileView>, k: int)
    requires
        0 <= k < resolved(files).len(),
    ensures
        files.contains(resolved(files)[k]),
{
    let ranked = with_positions(files);
    let leq = |a: (usize, FomodFileView), b: (usize, FomodFileView)| ranks_before(a, b);
    let sorted = stably_sorted(ranked, leq);
    lemma_ranking();
    lemma_stably_sorted(ranked, leq);
    let b = lemma_kept_from(sorted, k);
    let j = lemma_same_elements(sorted, ranked, b);
    assert(resolved(files)[k] == winners(files)[k].1);
    assert(files[j] == ranked[j].1);
}

/// A configuration without a name is named after its archive, without the
/// archive's directory and extension; one with a name keeps it.
pub proof fn configuration_is_named_after_its_archive(
    config: FomodConfigView,
    dir: Seq<char>,
    stem: Seq<char>,
    ext: Seq<char>,
)
    requires
        stem.len() > 0,
        !stem.contains('/'),
        !ext.contains('/'),
        !ext.contains('.'),
        ext.len() > 0,
    ensures
        ({
            let archive = dir + seq!['/'] + (stem + seq!['.'] + ext);
            let named = named_after(config, archive);
            &&& config.mod_name is None ==> named.mod_name == Some(stem)
            &&& config.mod_name is Some ==> named == config
            &&& (FomodConfigView { mod_name: config.mod_name, ..named }) == config
        }),
{
    let name = stem + seq!['.'] + ext;
    assert forall|i: int| 0 <= i < name.len() implies name[i] != '/' by {
        if i < stem.len() {
            assert(stem.contains(stem[i]));
        } else if i > stem.len() {
            assert(ext.contains(ext[i - stem.len() - 1]));
        }
    }
    assert(name.len() >= 3);
    assert(seq!['.'].len() == 1 && seq!['.', '.'].len() == 2);
    file_name_stands_behind_the_last_slash(dir, name);
    names_split_at_their_last_dot(stem, ext);
}

/// The configuration's entry is the first that ends in its path, in whatever
/// case and with slashes of either kind.
pub proof fn first_configuration_is_found(entries: Seq<Seq<char>>, i: int)
    requires
        0 <= i < entries.len(),
        is_config_path(lower_slashes(entries[i])),
        forall|j: int| 0 <= j < i ==> !is_config_path(lower_slashes(#[trigger] entries[j])),
    ensures
        config_entry_index(entries) == i,
    decreases entries.len(),
{
    if i > 0 {
        assert(!is_config_path(lower_slashes(entries[0])));
        let rest = entries.skip(1);
        assert forall|j: int| 0 <= j < i - 1 implies !is_config_path(
            lower_slashes(#[trigger] rest[j]),
        ) by {
            assert(rest[j] == entries[j + 1]);
        }
        first_configuration_is_found(rest, i - 1);
    }
}

} // verus!
