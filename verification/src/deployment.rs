//! Linking the files of mods into a game, and taking the links away again.
use vstd::prelude::*;

use crate::games::{Game, GameView};
use crate::mods::{generate_mod_uuid, mod_uuid, without_mod, Mod, ModDatabase, UuidSeed};
use crate::paths::{join, joined, path_same, same_path};
use crate::text::{
    ascii_lowercase, chars_of, concat2, concat3, first_component, first_index, first_piece,
    index_from, lemma_first_index, owned, same, string_between, to_ascii_lowercase,
};

verus! {

// ── Where files go ──────────────────────────────────────────────────────────

/// The name is that of a data directory, in whatever case.
pub open spec fn names_data(name: Seq<char>) -> bool {
    ascii_lowercase(name) == "data"@
}

/// What lies behind the first component of a path, if there is more than one.
pub open spec fn behind_component(path: Seq<char>) -> Option<Seq<char>> {
    let k = first_index(path, '/');
    if k < path.len() {
        Some(path.skip(k + 1))
    } else {
        None
    }
}

fn after_component(path: &str) -> (r: Option<String>)
    ensures
        r.deep_view() == behind_component(path@),
        r is Some ==> r->0@.len() < path@.len(),
{
    let v = chars_of(path);
    let k = index_from(&v, '/', 0);
    assert(v@.skip(0) =~= path@);
    proof {
        lemma_first_index(path@, '/');
    }
    if k < v.len() {
        let r = string_between(&v, k + 1, v.len());
        assert(r@ =~= path@.skip(k + 1));
        Some(r)
    } else {
        None
    }
}

/// Where a file of a mod's data directory goes below the game's: data
/// directories at its top are dissolved.
pub open spec fn flattened(path: Seq<char>) -> Seq<char>
    decreases path.len(),
{
    match behind_component(path) {
        Some(rest) => if names_data(first_piece(path)) && rest.len() < path.len() {
            flattened(rest)
        } else {
            path
        },
        None => path,
    }
}

/// Where a file of a mod's data directory goes below the game's.
///
/// A data directory inside it, which comes of archives that hold one or of
/// mappings that name it, is dissolved, so that nothing ends up in a data
/// directory inside the game's.
pub fn link_mod_data(path: &str) -> (r: String)
    ensures
        r@ == flattened(path@),
    decreases path@.len(),
{
    match after_component(path) {
        Some(rest) => {
            let top = to_ascii_lowercase(first_component(path).as_str());
            if same(top.as_str(), "data") {
                link_mod_data(rest.as_str())
            } else {
                owned(path)
            }
        },
        None => owned(path),
    }
}

/// No file of a mod goes into a data directory inside the game's.
pub proof fn flattened_paths_do_not_nest(path: Seq<char>)
    ensures
        behind_component(flattened(path)) is Some ==> !names_data(first_piece(flattened(path))),
    decreases path.len(),
{
    lemma_first_index(path, '/');
    match behind_component(path) {
        Some(rest) => {
            if names_data(first_piece(path)) {
                flattened_paths_do_not_nest(rest);
            }
        },
        None => {},
    }
}

/// Whether a file of a mod lies beside its data directory and goes next to the
/// game's executable.
pub fn link_items_alongside_data(path: &str) -> (r: bool)
    ensures
        r == !names_data(first_piece(path@)),
{
    !same(to_ascii_lowercase(first_component(path).as_str()).as_str(), "data")
}

/// A link to be made, or to be taken away.
pub struct PlannedLink {
    pub source: String,
    pub target: String,
}

/// A [`PlannedLink`] as a mathematical value.
#[verifier::ext_equal]
pub ghost struct PlannedLinkView {
    pub source: Seq<char>,
    pub target: Seq<char>,
}

impl DeepView for PlannedLink {
    type V = PlannedLinkView;

    open spec fn deep_view(&self) -> PlannedLinkView {
        PlannedLinkView { source: self.source@, target: self.target@ }
    }
}

/// One of the files lies in the mod's data directory.
pub open spec fn has_data_dir(files: Seq<Seq<char>>) -> bool {
    exists|i: int|
        0 <= i < files.len() && first_piece(#[trigger] files[i]) == "Data"@ && behind_component(
            files[i],
        ) is Some
}

/// The link for a file of a mod: below the game's data directory if it lies in
/// the mod's data directory or the mod has none, else next to the executable.
/// There is none for a file in another directory whose name is `data` but for
/// case.
pub open spec fn link_for(
    game: GameView,
    source_dir: Seq<char>,
    file: Seq<char>,
    with_data: bool,
) -> Option<PlannedLinkView> {
    let source = joined(source_dir, file);
    if !with_data {
        Some(PlannedLinkView { source, target: joined(game.data_path, flattened(file)) })
    } else if first_piece(file) == "Data"@ && behind_component(file) is Some {
        Some(
            PlannedLinkView {
                source,
                target: joined(game.data_path, flattened(behind_component(file)->0)),
            },
        )
    } else if !names_data(first_piece(file)) {
        Some(PlannedLinkView { source, target: joined(game.root_path, file) })
    } else {
        None
    }
}

/// The links for the files of a mod.
pub open spec fn links_for(
    game: GameView,
    source_dir: Seq<char>,
    files: Seq<Seq<char>>,
    with_data: bool,
) -> Seq<PlannedLinkView>
    decreases files.len(),
{
    if files.len() == 0 {
        Seq::empty()
    } else {
        let before = links_for(game, source_dir, files.drop_last(), with_data);
        match link_for(game, source_dir, files.last(), with_data) {
            Some(l) => before.push(l),
            None => before,
        }
    }
}

fn lies_in_data(file: &str) -> (r: bool)
    ensures
        r == (first_piece(file@) == "Data"@ && behind_component(file@) is Some),
{
    same(first_component(file).as_str(), "Data") && after_component(file).is_some()
}

fn find_data_dir(files: &Vec<String>) -> (r: bool)
    ensures
        r == has_data_dir(files.deep_view()),
{
    let ghost all = files.deep_view();
    for i in 0..files.len()
        invariant
            all == files.deep_view(),
            forall|j: int|
                0 <= j < i ==> !(first_piece(#[trigger] all[j]) == "Data"@ && behind_component(
                    all[j],
                ) is Some),
    {
        assert(all[i as int] == files@[i as int]@);
        if lies_in_data(files[i].as_str()) {
            return true;
        }
    }
    false
}

fn plan_link(game: &Game, source_dir: &str, file: &str, with_data: bool) -> (r: Option<PlannedLink>)
    ensures
        r.deep_view() == link_for(game.deep_view(), source_dir@, file@, with_data),
{
    let source = join(source_dir, file);
    if !with_data {
        let target = join(game.data_path.as_str(), link_mod_data(file).as_str());
        return Some(PlannedLink { source, target });
    }
    if lies_in_data(file) {
        match after_component(file) {
            Some(rest) => {
                let flat = link_mod_data(rest.as_str());
                let target = join(game.data_path.as_str(), flat.as_str());
                return Some(PlannedLink { source, target });
            },
            None => {},
        }
    }
    if link_items_alongside_data(file) {
        let target = join(game.root_path.as_str(), file);
        Some(PlannedLink { source, target })
    } else {
        None
    }
}

fn plan_links(game: &Game, source_dir: &str, files: &Vec<String>) -> (r: Vec<PlannedLink>)
    ensures
        r.deep_view() == links_for(
            game.deep_view(),
            source_dir@,
            files.deep_view(),
            has_data_dir(files.deep_view()),
        ),
{
    let with_data = find_data_dir(files);
    let ghost all = files.deep_view();
    let mut r: Vec<PlannedLink> = Vec::new();
    assert(links_for(game.deep_view(), source_dir@, all.take(0), with_data) =~= r.deep_view());
    for i in 0..files.len()
        invariant
            all == files.deep_view(),
            r.deep_view() == links_for(
                game.deep_view(),
                source_dir@,
                all.take(i as int),
                with_data,
            ),
    {
        let ghost before = r.deep_view();
        assert(all.take(i + 1).drop_last() =~= all.take(i as int));
        assert(all[i as int] == files@[i as int]@);
        match plan_link(game, source_dir, files[i].as_str(), with_data) {
            Some(l) => {
                let ghost lv = l.deep_view();
                r.push(l);
                assert(r.deep_view() =~= before.push(lv));
            },
            None => {},
        }
    }
    assert(all.take(all.len() as int) =~= all);
    r
}

// ── Making and taking away links ────────────────────────────────────────────

/// What stands at the target of a link.
pub enum Destination {
    Missing,
    /// A link, and whether what it leads to exists.
    Link { leads_to: String, alive: bool },
    /// A file or a directory of its own.
    Other,
}

/// A [`Destination`] as a mathematical value.
#[verifier::ext_equal]
pub ghost enum DestinationView {
    Missing,
    Link { leads_to: Seq<char>, alive: bool },
    Other,
}

impl DeepView for Destination {
    type V = DestinationView;

    open spec fn deep_view(&self) -> DestinationView {
        match self {
            Destination::Missing => DestinationView::Missing,
            Destination::Link { leads_to, alive } => DestinationView::Link {
                leads_to: leads_to@,
                alive: *alive,
            },
            Destination::Other => DestinationView::Other,
        }
    }
}

/// What is done to make a link.
#[derive(Clone, Copy, Debug, PartialEq, Eq, Structural)]
pub enum LinkStep {
    /// The link is made.
    Create,
    /// A dead link is taken away, then the link is made.
    Replace,
    /// Something stands there already and stays.
    Skip,
}

/// The step that makes a link where `found` stands.
pub open spec fn link_step(found: DestinationView) -> LinkStep {
    match found {
        DestinationView::Missing => LinkStep::Create,
        DestinationView::Link { alive, .. } => if alive {
            LinkStep::Skip
        } else {
            LinkStep::Replace
        },
        DestinationView::Other => LinkStep::Skip,
    }
}

/// Decides how a link is made where `found` stands: only a dead link makes
/// room.
pub fn link_directory_contents(found: &Destination) -> (r: LinkStep)
    ensures
        r == link_step(found.deep_view()),
{
    match found {
        Destination::Missing => LinkStep::Create,
        Destination::Link { leads_to: _, alive } => {
            if *alive {
                LinkStep::Skip
            } else {
                LinkStep::Replace
            }
        },
        Destination::Other => LinkStep::Skip,
    }
}

/// The link that stands there is the one for `source`.
pub open spec fn is_own_link(found: DestinationView, source: Seq<char>) -> bool {
    match found {
        DestinationView::Link { leads_to, .. } => path_same(leads_to, source),
        _ => false,
    }
}

/// Decides whether what stands there is taken away with the link for `source`:
/// only if it is that link.
pub fn unlink_directory_contents(found: &Destination, source: &str) -> (r: bool)
    ensures
        r == is_own_link(found.deep_view(), source@),
{
    match found {
        Destination::Link { leads_to, alive: _ } => same_path(leads_to.as_str(), source),
        _ => false,
    }
}

/// What stands where, in a directory.
pub type Standing = Map<Seq<char>, DestinationView>;

/// What stands at a path.
pub open spec fn standing_at(m: Standing, path: Seq<char>) -> DestinationView {
    if m.contains_key(path) {
        m[path]
    } else {
        DestinationView::Missing
    }
}

/// What stands where after a link was made.
pub open spec fn after_link(m: Standing, l: PlannedLinkView) -> Standing {
    match link_step(standing_at(m, l.target)) {
        LinkStep::Skip => m,
        _ => m.insert(l.target, DestinationView::Link { leads_to: l.source, alive: true }),
    }
}

/// What stands where after links were made one after the other.
pub open spec fn after_links(m: Standing, links: Seq<PlannedLinkView>) -> Standing
    decreases links.len(),
{
    if links.len() == 0 {
        m
    } else {
        after_link(after_links(m, links.drop_last()), links.last())
    }
}

/// What stands where after a link was taken away.
pub open spec fn after_unlink(m: Standing, l: PlannedLinkView) -> Standing {
    if is_own_link(standing_at(m, l.target), l.source) {
        m.remove(l.target)
    } else {
        m
    }
}

/// What stands where after links were taken away one after the other.
pub open spec fn after_unlinks(m: Standing, links: Seq<PlannedLinkView>) -> Standing
    decreases links.len(),
{
    if links.len() == 0 {
        m
    } else {
        after_unlink(after_unlinks(m, links.drop_last()), links.last())
    }
}

/// Making links leaves everything that is not a dead link as it stood.
pub proof fn linking_keeps_what_stands(
    m: Standing,
    links: Seq<PlannedLinkView>,
    path: Seq<char>,
)
    requires
        link_step(standing_at(m, path)) == LinkStep::Skip,
    ensures
        standing_at(after_links(m, links), path) == standing_at(m, path),
    decreases links.len(),
{
    if links.len() > 0 {
        linking_keeps_what_stands(m, links.drop_last(), path);
    }
}

proof fn lemma_links_elsewhere(m: Standing, links: Seq<PlannedLinkView>, path: Seq<char>)
    requires
        forall|i: int| 0 <= i < links.len() ==> (#[trigger] links[i]).target != path,
    ensures
        standing_at(after_links(m, links), path) == standing_at(m, path),
        after_links(m, links).contains_key(path) == m.contains_key(path),
    decreases links.len(),
{
    if links.len() > 0 {
        let rest = links.drop_last();
        assert forall|i: int| 0 <= i < rest.len() implies (#[trigger] rest[i]).target != path by {
            assert(links[i] == rest[i]);
        }
        lemma_links_elsewhere(m, rest, path);
        assert(links[links.len() - 1].target != path);
    }
}

/// Each target is linked from one source only.
pub open spec fn targets_differ(links: Seq<PlannedLinkView>) -> bool {
    forall|i: int, j: int|
        0 <= i < j < links.len() ==> (#[trigger] links[i]).target != (#[trigger] links[j]).target
}

/// Nothing that stands at a target is a dead link or a link to one of the
/// sources.
pub open spec fn no_remains(m: Standing, links: Seq<PlannedLinkView>) -> bool {
    forall|i: int|
        #![trigger links[i]]
        0 <= i < links.len() ==> {
            &&& link_step(standing_at(m, links[i].target)) != LinkStep::Replace
            &&& !is_own_link(standing_at(m, links[i].target), links[i].source)
            &&& (m.contains_key(links[i].target) ==> m[links[i].target]
                != DestinationView::Missing)
        }
}

proof fn lemma_unlink_one(m: Standing, links: Seq<PlannedLinkView>, n: int, path: Seq<char>)
    requires
        0 <= n <= links.len(),
        targets_differ(links),
        no_remains(m, links),
    ensures
        ({
            let after = after_unlinks(after_links(m, links), links.take(n));
            let touched = exists|i: int| 0 <= i < n && (#[trigger] links[i]).target == path;
            if touched {
                after.contains_key(path) == m.contains_key(path) && (m.contains_key(path)
                    ==> after[path] == m[path])
            } else {
                after.contains_key(path) == after_links(m, links).contains_key(path)
                    && standing_at(after, path) == standing_at(after_links(m, links), path)
            }
        }),
    decreases n,
{
    let linked = after_links(m, links);
    if n > 0 {
        lemma_unlink_one(m, links, n - 1, path);
        let l = links[n - 1];
        assert(links.take(n).drop_last() =~= links.take(n - 1));
        let before = after_unlinks(linked, links.take(n - 1));
        if l.target == path {
            assert forall|i: int| 0 <= i < n - 1 implies (#[trigger] links[i]).target != path by {
                assert(links[i].target != links[n - 1].target);
            }
            assert(standing_at(before, path) == standing_at(linked, path));
            lemma_linked_at(m, links, n - 1);
        } else {
            if exists|i: int| 0 <= i < n && (#[trigger] links[i]).target == path {
                let i = choose|i: int| 0 <= i < n && (#[trigger] links[i]).target == path;
                assert(0 <= i < n - 1 && links[i].target == path);
            }
        }
    }
}

proof fn lemma_linked_at(m: Standing, links: Seq<PlannedLinkView>, k: int)
    requires
        0 <= k < links.len(),
        targets_differ(links),
    ensures
        standing_at(after_links(m, links), links[k].target) == (if link_step(
            standing_at(m, links[k].target),
        ) == LinkStep::Skip {
            standing_at(m, links[k].target)
        } else {
            DestinationView::Link { leads_to: links[k].source, alive: true }
        }),
        after_links(m, links).contains_key(links[k].target) == (m.contains_key(links[k].target)
            || link_step(standing_at(m, links[k].target)) != LinkStep::Skip),
    decreases links.len(),
{
    let rest = links.drop_last();
    if k < links.len() - 1 {
        assert forall|i: int, j: int| 0 <= i < j < rest.len() implies (
        #[trigger] rest[i]).target != (#[trigger] rest[j]).target by {
            assert(links[i] == rest[i] && links[j] == rest[j]);
        }
        lemma_linked_at(m, rest, k);
        assert(rest[k] == links[k]);
        assert(links[k].target != links[links.len() - 1].target);
    } else {
        assert forall|i: int| 0 <= i < rest.len() implies (#[trigger] rest[i]).target
            != links[k].target by {
            assert(links[i] == rest[i]);
        }
        lemma_links_elsewhere(m, rest, links[k].target);
    }
}

/// Taking links away undoes making them, as long as they have different
/// targets and no remains of earlier links stand there.
pub proof fn unlinking_undoes_linking(m: Standing, links: Seq<PlannedLinkView>)
    requires
        targets_differ(links),
        no_remains(m, links),
    ensures
        after_unlinks(after_links(m, links), links) == m,
{
    let after = after_unlinks(after_links(m, links), links);
    assert(links.take(links.len() as int) =~= links);
    assert forall|path: Seq<char>|
        #![trigger after.dom().contains(path)]
        #![trigger m.dom().contains(path)]
        after.dom().contains(path) == m.dom().contains(path) && (m.dom().contains(path)
            ==> after[path] == m[path]) by {
        lemma_unlink_one(m, links, links.len() as int, path);
        if !(exists|i: int| 0 <= i < links.len() && (#[trigger] links[i]).target == path) {
            lemma_links_elsewhere(m, links, path);
        }
    }
    assert(after =~= m);
}

// ── Mods ────────────────────────────────────────────────────────────────────

/// What is done to take a mod out of a game: the links that are taken away, and
/// the data directory inside the game's that is cleared of links.
pub struct Undeployment {
    pub links: Vec<PlannedLink>,
    pub nested_data_dir: Option<String>,
}

/// The decisions about whole mods.
pub struct ModManager;

impl ModManager {
    /// The links that put a mod into a game, given the files of the mod.
    pub fn enable_mod(game: &Game, mod_entry: &Mod, files: &Vec<String>) -> (r: Vec<PlannedLink>)
        ensures
            r.deep_view() == links_for(
                game.deep_view(),
                mod_entry.deep_view().source_path,
                files.deep_view(),
                has_data_dir(files.deep_view()),
            ),
    {
        plan_links(game, mod_entry.source_path.as_str(), files)
    }

    /// What takes a mod out of a game, given the files of the mod.
    pub fn disable_mod(game: &Game, mod_entry: &Mod, files: &Vec<String>) -> (r: Undeployment)
        ensures
            r.links.deep_view() == links_for(
                game.deep_view(),
                mod_entry.deep_view().source_path,
                files.deep_view(),
                has_data_dir(files.deep_view()),
            ),
            r.nested_data_dir.deep_view() == Some(joined(game.deep_view().data_path, "Data"@)),
    {
        let links = plan_links(game, mod_entry.source_path.as_str(), files);
        let nested = ModManager::purge_legacy_nested_data_dir(game);
        Undeployment { links, nested_data_dir: Some(nested) }
    }

    /// What takes a mod out of a game when many are taken out and the data
    /// directory inside the game's is cleared once afterwards.
    pub fn disable_mod_without_legacy_cleanup(
        game: &Game,
        mod_entry: &Mod,
        files: &Vec<String>,
    ) -> (r: Undeployment)
        ensures
            r.links.deep_view() == links_for(
                game.deep_view(),
                mod_entry.deep_view().source_path,
                files.deep_view(),
                has_data_dir(files.deep_view()),
            ),
            r.nested_data_dir is None,
    {
        let links = plan_links(game, mod_entry.source_path.as_str(), files);
        Undeployment { links, nested_data_dir: None }
    }

    /// The data directory inside the game's, which is cleared of links.
    pub fn purge_legacy_nested_data_dir(game: &Game) -> (r: String)
        ensures
            r@ == joined(game.deep_view().data_path, "Data"@),
    {
        join(game.data_path.as_str(), "Data")
    }

    /// The directory of a new mod, given the directory of all mods.
    pub fn create_mod_directory(mods_dir: &str, seed: UuidSeed) -> (r: String)
        ensures
            r@ == joined(mods_dir@, mod_uuid(seed)),
    {
        join(mods_dir, generate_mod_uuid(seed).as_str())
    }

    /// Removes a mod from the database once its files are gone; a failure to
    /// delete them is reported and leaves the database as it is.
    pub fn uninstall_mod(
        db: &mut ModDatabase,
        mod_entry: &Mod,
        deleted: Result<(), String>,
    ) -> (r: Result<(), String>)
        ensures
            match deleted {
                Ok(_) => r is Ok && final(db).deep_view() == without_mod(
                    old(db).deep_view(),
                    mod_entry.deep_view().id,
                ),
                Err(e) => r is Err && r->Err_0@ == "Failed to delete mod files for '"@
                    + mod_entry.name@ + "': "@ + e@ && final(db).deep_view() == old(
                    db,
                ).deep_view(),
            },
    {
        match deleted {
            Ok(_) => {
                db.remove_mod(mod_entry.id.as_str());
                Ok(())
            },
            Err(e) => {
                let head = concat3(
                    "Failed to delete mod files for '",
                    mod_entry.name.as_str(),
                    "': ",
                );
                Err(concat2(head.as_str(), e.as_str()))
            },
        }
    }
}

// ── Laws ────────────────────────────────────────────────────────────────────

/// The name is that of a data directory, whatever the case of its letters.
pub open spec fn is_data_word(name: Seq<char>) -> bool {
    ascii_lowercase(name) == seq!['d', 'a', 't', 'a']
}

/// The path is written `top`, a slash, `rest`.
pub open spec fn is_below_top(path: Seq<char>, top: Seq<char>, rest: Seq<char>) -> bool {
    path == top + seq!['/'] + rest && !top.contains('/')
}

/// The path does not lead through a data directory at its start.
pub open spec fn starts_outside_data(path: Seq<char>) -> bool {
    forall|top: Seq<char>, rest: Seq<char>|
        #[trigger] is_below_top(path, top, rest) ==> !is_data_word(top)
}

/// The path starts with `Data/`, written exactly so.
pub open spec fn starts_with_data(path: Seq<char>) -> bool {
    seq!['D', 'a', 't', 'a', '/'].is_prefix_of(path)
}

proof fn lemma_top(path: Seq<char>, top: Seq<char>, rest: Seq<char>)
    requires
        is_below_top(path, top, rest),
    ensures
        first_piece(path) == top,
        behind_component(path) == Some(rest),
        rest.len() < path.len(),
{
    let n = top.len() as int;
    assert forall|i: int| 0 <= i < n implies path[i] != '/' by {
        assert(path[i] == top[i]);
        assert(top.contains(top[i]));
    }
    crate::text::lemma_first_index_is(path, '/', n);
    assert(path.take(n) =~= top);
    assert(path.skip(n + 1) =~= rest);
}

proof fn lemma_flat(path: Seq<char>)
    requires
        starts_outside_data(path),
    ensures
        flattened(path) == path,
{
    reveal_strlit("data");
    assert("data"@ =~= seq!['d', 'a', 't', 'a']);
    lemma_first_index(path, '/');
    let k = first_index(path, '/');
    if k < path.len() {
        let top = path.take(k);
        let rest = path.skip(k + 1);
        assert(path =~= top + seq!['/'] + rest);
        assert(is_below_top(path, top, rest));
    }
}

proof fn lemma_flat_below(path: Seq<char>, top: Seq<char>, rest: Seq<char>)
    requires
        is_below_top(path, top, rest),
        is_data_word(top),
        starts_outside_data(rest),
    ensures
        flattened(path) == rest,
{
    reveal_strlit("data");
    assert("data"@ =~= seq!['d', 'a', 't', 'a']);
    lemma_top(path, top, rest);
    lemma_flat(rest);
}

proof fn lemma_linked_file(
    game: GameView,
    source_dir: Seq<char>,
    files: Seq<Seq<char>>,
    with_data: bool,
    l: PlannedLinkView,
)
    ensures
        links_for(game, source_dir, files, with_data).contains(l) <==> exists|k: int|
            0 <= k < files.len() && #[trigger] link_for(game, source_dir, files[k], with_data)
                == Some(l),
    decreases files.len(),
{
    if files.len() > 0 {
        let rest = files.drop_last();
        lemma_linked_file(game, source_dir, rest, with_data, l);
        let before = links_for(game, source_dir, rest, with_data);
        let all = links_for(game, source_dir, files, with_data);
        let n = files.len() - 1;
        let last = link_for(game, source_dir, files[n], with_data);
        if before.contains(l) {
            let k = choose|k: int|
                0 <= k < rest.len() && #[trigger] link_for(game, source_dir, rest[k], with_data)
                    == Some(l);
            assert(link_for(game, source_dir, files[k], with_data) == Some(l));
            let j = choose|j: int| 0 <= j < before.len() && before[j] == l;
            assert(all[j] == l);
        }
        if last == Some(l) {
            assert(all[before.len() as int] == l);
        }
        if all.contains(l) && last != Some(l) {
            let j = choose|j: int| 0 <= j < all.len() && all[j] == l;
            assert(before[j] == l);
        }
        if exists|k: int|
            0 <= k < files.len() && #[trigger] link_for(game, source_dir, files[k], with_data)
                == Some(l) {
            let k = choose|k: int|
                0 <= k < files.len() && #[trigger] link_for(game, source_dir, files[k], with_data)
                    == Some(l);
            if k < n {
                assert(link_for(game, source_dir, rest[k], with_data) == Some(l));
            }
        }
    }
}

proof fn lemma_has_data_dir(files: Seq<Seq<char>>)
    ensures
        has_data_dir(files) <==> exists|i: int|
            0 <= i < files.len() && starts_with_data(#[trigger] files[i]),
{
    reveal_strlit("Data");
    let word = seq!['D', 'a', 't', 'a'];
    assert("Data"@ =~= word);
    assert forall|i: int| 0 <= i < files.len() implies (first_piece(#[trigger] files[i]) == word
        && behind_component(files[i]) is Some) == starts_with_data(files[i]) by {
        let f = files[i];
        lemma_starts_with_data(f);
    }
    if has_data_dir(files) {
        let i = choose|i: int|
            0 <= i < files.len() && first_piece(#[trigger] files[i]) == "Data"@ && behind_component(
                files[i],
            ) is Some;
        assert(starts_with_data(files[i]));
    }
    if exists|i: int| 0 <= i < files.len() && starts_with_data(#[trigger] files[i]) {
        let i = choose|i: int| 0 <= i < files.len() && starts_with_data(#[trigger] files[i]);
        assert(first_piece(files[i]) == "Data"@);
    }
}

proof fn lemma_starts_with_data(f: Seq<char>)
    ensures
        starts_with_data(f) <==> first_piece(f) == seq!['D', 'a', 't', 'a'] && behind_component(
            f,
        ) is Some,
        starts_with_data(f) ==> is_below_top(f, seq!['D', 'a', 't', 'a'], f.skip(5)),
{
    let word = seq!['D', 'a', 't', 'a'];
    let head = seq!['D', 'a', 't', 'a', '/'];
    if starts_with_data(f) {
        assert(f.subrange(0, 5) == head);
        assert(f =~= word + seq!['/'] + f.skip(5)) by {
            assert forall|i: int| 0 <= i < f.len() implies f[i] == (word + seq!['/'] + f.skip(5))[i] by {
                if i < 5 {
                    assert(f.subrange(0, 5)[i] == f[i]);
                }
            }
        }
        assert(!word.contains('/'));
        lemma_top(f, word, f.skip(5));
    }
    if first_piece(f) == word && behind_component(f) is Some {
        lemma_first_index(f, '/');
        let k = first_index(f, '/');
        assert(k == 4) by {
            assert(f.take(k).len() == k);
        }
        assert(f.subrange(0, 5) =~= head) by {
            assert forall|i: int| 0 <= i < 5 implies f.subrange(0, 5)[i] == head[i] by {
                if i < 4 {
                    assert(f.take(4)[i] == f[i]);
                }
            }
        }
    }
}

/// Where a mod has a directory `Data`, what lies in it is linked into the game's
/// data directory and what lies beside it into the game's own directory; where
/// it has none, everything is linked into the data directory. A data directory
/// inside is not repeated.
pub proof fn files_are_linked_where_they_belong(
    game: GameView,
    source_dir: Seq<char>,
    files: Seq<Seq<char>>,
    k: int,
    top: Seq<char>,
    rest: Seq<char>,
)
    requires
        0 <= k < files.len(),
    ensures
        ({
            let links = links_for(game, source_dir, files, has_data_dir(files));
            let source = joined(source_dir, files[k]);
            let split = exists|i: int| 0 <= i < files.len() && starts_with_data(#[trigger] files[i]);
            &&& split && starts_with_data(files[k]) && starts_outside_data(files[k].skip(5))
                ==> links.contains(
                PlannedLinkView { source, target: joined(game.data_path, files[k].skip(5)) },
            )
            &&& split && starts_outside_data(files[k]) && !is_data_word(files[k])
                ==> links.contains(
                PlannedLinkView { source, target: joined(game.root_path, files[k]) },
            )
            &&& !split && starts_outside_data(files[k]) ==> links.contains(
                PlannedLinkView { source, target: joined(game.data_path, files[k]) },
            )
            &&& !split && is_below_top(files[k], top, rest) && is_data_word(top)
                && starts_outside_data(rest) ==> links.contains(
                PlannedLinkView { source, target: joined(game.data_path, rest) },
            )
        }),
{
    reveal_strlit("data");
    reveal_strlit("Data");
    let word = seq!['D', 'a', 't', 'a'];
    assert("Data"@ =~= word);
    assert("data"@ =~= seq!['d', 'a', 't', 'a']);
    let f = files[k];
    let with_data = has_data_dir(files);
    lemma_has_data_dir(files);
    lemma_starts_with_data(f);
    assert forall|l: PlannedLinkView| link_for(game, source_dir, f, with_data) == Some(
        l,
    ) implies #[trigger] links_for(game, source_dir, files, with_data).contains(l) by {
        lemma_linked_file(game, source_dir, files, with_data, l);
    }
    if starts_with_data(f) && starts_outside_data(f.skip(5)) {
        lemma_top(f, word, f.skip(5));
        lemma_flat(f.skip(5));
    }
    if starts_outside_data(f) {
        lemma_flat(f);
        if starts_with_data(f) {
            assert(ascii_lowercase(word) =~= seq!['d', 'a', 't', 'a']);
            assert(is_data_word(word));
            assert(false);
        }
        lemma_first_index(f, '/');
        let i = first_index(f, '/');
        if i < f.len() {
            assert(f =~= f.take(i) + seq!['/'] + f.skip(i + 1));
            assert(is_below_top(f, f.take(i), f.skip(i + 1)));
        } else {
            assert(f.take(i) =~= f);
        }
    }
    if is_below_top(f, top, rest) && is_data_word(top) && starts_outside_data(rest) {
        lemma_flat_below(f, top, rest);
    }
}

/// Every link comes from a file of the mod.
pub proof fn links_come_from_the_mod(
    game: GameView,
    source_dir: Seq<char>,
    files: Seq<Seq<char>>,
    with_data: bool,
    l: PlannedLinkView,
)
    requires
        links_for(game, source_dir, files, with_data).contains(l),
    ensures
        exists|k: int| 0 <= k < files.len() && l.source == joined(source_dir, #[trigger] files[k]),
{
    lemma_linked_file(game, source_dir, files, with_data, l);
    let k = choose|k: int|
        0 <= k < files.len() && #[trigger] link_for(game, source_dir, files[k], with_data) == Some(
            l,
        );
    assert(l.source == joined(source_dir, files[k]));
}

/// Linking makes each link whose place is free or taken by a dead link; a file
/// and a link that leads somewhere stay.
pub proof fn linking_fills_what_is_free(m: Standing, links: Seq<PlannedLinkView>, k: int)
    requires
        0 <= k < links.len(),
        targets_differ(links),
    ensures
        ({
            let path = links[k].target;
            let after = after_links(m, links);
            let free = !m.contains_key(path) || m[path] is Missing || (m[path] is Link
                && !m[path]->alive);
            &&& after.contains_key(path)
            &&& free ==> after[path] == (DestinationView::Link {
                leads_to: links[k].source,
                alive: true,
            })
            &&& !free ==> after[path] == m[path]
        }),
{
    lemma_linked_at(m, links, k);
}

/// Unlinking takes away no file and no link that leads elsewhere.
pub proof fn unlinking_keeps_what_is_not_its_own(
    m: Standing,
    links: Seq<PlannedLinkView>,
    path: Seq<char>,
)
    requires
        m.contains_key(path),
        m[path] is Link ==> forall|i: int|
            0 <= i < links.len() && (#[trigger] links[i]).target == path ==> !path_same(
                m[path]->leads_to,
                links[i].source,
            ),
    ensures
        after_unlinks(m, links).contains_key(path),
        after_unlinks(m, links)[path] == m[path],
    decreases links.len(),
{
    if links.len() > 0 {
        let rest = links.drop_last();
        assert forall|i: int|
            0 <= i < rest.len() && (#[trigger] rest[i]).target == path && m[path] is Link implies !path_same(
            m[path]->leads_to,
            rest[i].source,
        ) by {
            assert(rest[i] == links[i]);
        }
        unlinking_keeps_what_is_not_its_own(m, rest, path);
        let l = links[links.len() - 1];
        assert(l.target == path && m[path] is Link ==> !path_same(m[path]->leads_to, l.source));
    }
}

} // verus!
