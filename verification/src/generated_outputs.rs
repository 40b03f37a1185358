//! Keeping track of the files that tools generate.
use vstd::prelude::*;

use crate::mods::{
    GeneratedOutputPackage, GeneratedOutputPackageView, ModDatabase, ModDatabaseView,
    OwnedGeneratedFile, OwnedGeneratedFileView,
};
use crate::paths::{join, joined};
use crate::table::{NameSet, Table};
use crate::text::{concat2, concat3, is_listed, owned, same};

verus! {

// ── Snapshots ───────────────────────────────────────────────────────────────

/// A run of a tool in one of its profiles.
#[derive(Debug)]
pub struct ToolRunContext {
    pub tool_id: String,
    pub run_profile: String,
}

/// The files of a directory, by their relative paths, with what they hold.
pub struct FolderSnapshot {
    entries: Table<Vec<u8>>,
}

impl FolderSnapshot {
    /// The files and what they hold.
    pub closed spec fn files(&self) -> Map<Seq<char>, Seq<u8>> {
        self.entries.map()
    }

    /// A snapshot of an empty directory.
    pub fn new() -> (r: Self)
        ensures
            r.files() == Map::<Seq<char>, Seq<u8>>::empty(),
    {
        FolderSnapshot { entries: Table::new() }
    }

    /// Adds a file.
    pub fn add_file(&mut self, path: &str, bytes: Vec<u8>)
        ensures
            final(self).files() == old(self).files().insert(path@, bytes@),
    {
        assert(bytes.deep_view() =~= bytes@);
        self.entries.insert(path, bytes);
    }
}

/// The files, each with what it holds; of two with one path the later counts.
pub open spec fn files_of(listing: Seq<(Seq<char>, Seq<u8>)>) -> Map<Seq<char>, Seq<u8>>
    decreases listing.len(),
{
    if listing.len() == 0 {
        Map::empty()
    } else {
        files_of(listing.drop_last()).insert(listing.last().0, listing.last().1)
    }
}

/// The snapshot of a game's data directory, given its files.
pub fn snapshot_game_data(listing: Vec<(String, Vec<u8>)>) -> (r: FolderSnapshot)
    ensures
        r.files() == files_of(listing.deep_view()),
{
    let ghost all = listing.deep_view();
    let mut r = FolderSnapshot::new();
    for i in 0..listing.len()
        invariant
            all == listing.deep_view(),
            r.files() == files_of(all.take(i as int)),
    {
        assert(all.take(i + 1).drop_last() =~= all.take(i as int));
        assert(all[i as int] == (listing@[i as int].0@, listing@[i as int].1.deep_view()));
        assert(listing@[i as int].1.deep_view() =~= listing@[i as int].1@);
        r.add_file(listing[i].0.as_str(), copy_bytes(&listing[i].1));
    }
    assert(all.take(all.len() as int) =~= all);
    r
}

fn copy_bytes(v: &Vec<u8>) -> (r: Vec<u8>)
    ensures
        r@ == v@,
{
    let mut r: Vec<u8> = Vec::new();
    for i in 0..v.len()
        invariant
            r@ == v@.take(i as int),
    {
        r.push(v[i]);
        assert(r@ =~= v@.take(i + 1));
    }
    assert(v@.take(v@.len() as int) =~= v@);
    r
}

fn same_bytes(a: &Vec<u8>, b: &Vec<u8>) -> (r: bool)
    ensures
        r == (a@ == b@),
{
    if a.len() != b.len() {
        return false;
    }
    for i in 0..a.len()
        invariant
            a@.len() == b@.len(),
            forall|j: int| 0 <= j < i ==> a@[j] == b@[j],
    {
        if a[i] != b[i] {
            return false;
        }
    }
    assert(a@ =~= b@);
    true
}

// ── Differences ─────────────────────────────────────────────────────────────

/// The paths that a run of a tool has changed.
pub struct SnapshotDiff {
    pub created_or_modified: NameSet,
    pub deleted: NameSet,
}

/// The paths that are new or hold something else.
pub open spec fn changed_paths(
    before: Map<Seq<char>, Seq<u8>>,
    after: Map<Seq<char>, Seq<u8>>,
) -> Set<Seq<char>> {
    Set::new(
        |p: Seq<char>|
            after.contains_key(p) && !(before.contains_key(p) && before[p] == after[p]),
    )
}

/// The paths that are gone.
pub open spec fn deleted_paths(
    before: Map<Seq<char>, Seq<u8>>,
    after: Map<Seq<char>, Seq<u8>>,
) -> Set<Seq<char>> {
    Set::new(|p: Seq<char>| before.contains_key(p) && !after.contains_key(p))
}

/// The paths whose contents differ between two snapshots.
pub fn diff_snapshots(before: &FolderSnapshot, after: &FolderSnapshot) -> (r: SnapshotDiff)
    ensures
        r.created_or_modified.set() == changed_paths(before.files(), after.files()),
        r.deleted.set() == deleted_paths(before.files(), after.files()),
{
    let ghost b = before.files();
    let ghost a = after.files();
    let mut created_or_modified = NameSet::new();
    let count: usize = after.entries.len();
    for i in 0..count
        invariant
            count == after.entries.rows().len(),
            b == before.entries.map(),
            a == after.entries.map(),
            forall|p: Seq<char>| #[trigger]
                created_or_modified.set().contains(p) == (changed_paths(b, a).contains(p)
                    && exists|j: int| 0 <= j < i && (#[trigger] after.entries.rows()[j]).0 == p),
    {
        let ghost known = created_or_modified.set();
        let path = after.entries.key_at(i);
        proof {
            after.entries.lemma_row(i as int);
        }
        let changed = match (before.entries.get(path), after.entries.get(path)) {
            (Some(x), Some(y)) => {
                assert(x.deep_view() =~= x@);
                assert(y.deep_view() =~= y@);
                !same_bytes(x, y)
            },
            _ => true,
        };
        assert(changed == changed_paths(b, a).contains(path@));
        if changed {
            created_or_modified.insert(path);
        }
        assert forall|p: Seq<char>| #[trigger]
            created_or_modified.set().contains(p) == (changed_paths(b, a).contains(p)
                && exists|j: int| 0 <= j < i + 1 && (#[trigger] after.entries.rows()[j]).0 == p) by {
            assert(known.contains(p) == (changed_paths(b, a).contains(p) && exists|j: int|
                0 <= j < i && (#[trigger] after.entries.rows()[j]).0 == p));
            if p == path@ {
                assert(after.entries.rows()[i as int].0 == p);
            }
        }
    }
    assert forall|p: Seq<char>| #[trigger]
        created_or_modified.set().contains(p) == changed_paths(b, a).contains(p) by {
        if a.contains_key(p) {
            after.entries.lemma_key_has_row(p);
        }
    }
    let mut deleted = NameSet::new();
    let count: usize = before.entries.len();
    for i in 0..count
        invariant
            count == before.entries.rows().len(),
            b == before.entries.map(),
            a == after.entries.map(),
            forall|p: Seq<char>| #[trigger]
                deleted.set().contains(p) == (deleted_paths(b, a).contains(p) && exists|j: int|
                    0 <= j < i && (#[trigger] before.entries.rows()[j]).0 == p),
    {
        let ghost known = deleted.set();
        let path = before.entries.key_at(i);
        proof {
            before.entries.lemma_row(i as int);
        }
        let gone = after.entries.get(path).is_none();
        assert(gone == deleted_paths(b, a).contains(path@));
        if gone {
            deleted.insert(path);
        }
        assert forall|p: Seq<char>| #[trigger]
            deleted.set().contains(p) == (deleted_paths(b, a).contains(p) && exists|j: int|
                0 <= j < i + 1 && (#[trigger] before.entries.rows()[j]).0 == p) by {
            assert(known.contains(p) == (deleted_paths(b, a).contains(p) && exists|j: int|
                0 <= j < i && (#[trigger] before.entries.rows()[j]).0 == p));
            if p == path@ {
                assert(before.entries.rows()[i as int].0 == p);
            }
        }
    }
    assert forall|p: Seq<char>| #[trigger]
        deleted.set().contains(p) == deleted_paths(b, a).contains(p) by {
        if b.contains_key(p) {
            before.entries.lemma_key_has_row(p);
        }
    }
    assert(created_or_modified.set() =~= changed_paths(b, a));
    assert(deleted.set() =~= deleted_paths(b, a));
    SnapshotDiff { created_or_modified, deleted }
}

// ── Capturing what a tool has generated ─────────────────────────────────────

/// A step that brings a directory back to what it was.
pub enum RestoreStep {
    Write { path: String, bytes: Vec<u8> },
    Remove { path: String },
}

/// A [`RestoreStep`] as a mathematical value.
#[verifier::ext_equal]
pub ghost enum RestoreStepView {
    Write { path: Seq<char>, bytes: Seq<u8> },
    Remove { path: Seq<char> },
}

impl DeepView for RestoreStep {
    type V = RestoreStepView;

    open spec fn deep_view(&self) -> RestoreStepView {
        match self {
            RestoreStep::Write { path, bytes } => RestoreStepView::Write {
                path: path@,
                bytes: bytes@,
            },
            RestoreStep::Remove { path } => RestoreStepView::Remove { path: path@ },
        }
    }
}

/// What a directory holds after a step.
pub open spec fn after_step(files: Map<Seq<char>, Seq<u8>>, step: RestoreStepView) -> Map<
    Seq<char>,
    Seq<u8>,
> {
    match step {
        RestoreStepView::Write { path, bytes } => files.insert(path, bytes),
        RestoreStepView::Remove { path } => files.remove(path),
    }
}

/// What a directory holds after several steps.
pub open spec fn after_steps(files: Map<Seq<char>, Seq<u8>>, steps: Seq<RestoreStepView>) -> Map<
    Seq<char>,
    Seq<u8>,
>
    decreases steps.len(),
{
    if steps.len() == 0 {
        files
    } else {
        after_step(after_steps(files, steps.drop_last()), steps.last())
    }
}

/// The path that a step touches.
pub open spec fn touched_path(step: RestoreStepView) -> Seq<char> {
    match step {
        RestoreStepView::Write { path, .. } => path,
        RestoreStepView::Remove { path } => path,
    }
}

/// What is done with the changes of a tool: the files that are copied into the
/// package, and the steps that bring the data directory back to what it was.
pub struct CapturePlan {
    pub staged: NameSet,
    pub restore: Vec<RestoreStep>,
}

fn restore_one(before: &FolderSnapshot, path: &str) -> (r: RestoreStep)
    ensures
        r.deep_view() == (if before.files().contains_key(path@) {
            RestoreStepView::Write { path: path@, bytes: before.files()[path@] }
        } else {
            RestoreStepView::Remove { path: path@ }
        }),
{
    match before.entries.get(path) {
        Some(bytes) => {
            assert(bytes.deep_view() =~= bytes@);
            RestoreStep::Write { path: owned(path), bytes: copy_bytes(bytes) }
        },
        None => RestoreStep::Remove { path: owned(path) },
    }
}

/// The files that agree in two directories, and those that steps have brought
/// to agree.
spec fn agrees(
    now: Map<Seq<char>, Seq<u8>>,
    before: Map<Seq<char>, Seq<u8>>,
    p: Seq<char>,
) -> bool {
    now.contains_key(p) == before.contains_key(p) && (before.contains_key(p) ==> now[p]
        == before[p])
}

fn add_restore_steps(
    before: &FolderSnapshot,
    paths: &Vec<String>,
    steps: &mut Vec<RestoreStep>,
    Ghost(after): Ghost<Map<Seq<char>, Seq<u8>>>,
)
    ensures
        forall|p: Seq<char>| #[trigger]
            agrees(
                after_steps(after, final(steps).deep_view()),
                before.files(),
                p,
            ) || (!paths.deep_view().contains(p) && !agrees(
                after_steps(after, old(steps).deep_view()),
                before.files(),
                p,
            )),
        forall|i: int|
            0 <= i < final(steps)@.len() ==> (exists|j: int|
                0 <= j < old(steps)@.len() && touched_path(
                    #[trigger] old(steps)@[j].deep_view(),
                ) == touched_path((#[trigger] final(steps)@[i]).deep_view())) || paths.deep_view().contains(
                touched_path(final(steps)@[i].deep_view()),
            ),
{
    let ghost ps = paths.deep_view();
    let ghost start = steps.deep_view();
    let ghost first = steps@;
    for i in 0..paths.len()
        invariant
            ps == paths.deep_view(),
            start == old(steps).deep_view(),
            first == old(steps)@,
            forall|p: Seq<char>| #[trigger]
                agrees(after_steps(after, steps.deep_view()), before.files(), p) || (!ps.take(
                    i as int,
                ).contains(p) && !agrees(after_steps(after, start), before.files(), p)),
            forall|k: int|
                0 <= k < steps@.len() ==> (exists|j: int|
                    0 <= j < first.len() && touched_path(#[trigger] first[j].deep_view())
                        == touched_path((#[trigger] steps@[k]).deep_view())) || ps.contains(
                    touched_path(steps@[k].deep_view()),
                ),
    {
        let ghost known = steps.deep_view();
        let ghost seen = steps@;
        assert(ps[i as int] == paths@[i as int]@);
        let step = restore_one(before, paths[i].as_str());
        let ghost sv = step.deep_view();
        steps.push(step);
        assert(steps.deep_view() =~= known.push(sv));
        assert(known.push(sv).drop_last() =~= known);
        assert forall|p: Seq<char>| #[trigger]
            agrees(after_steps(after, steps.deep_view()), before.files(), p) || (!ps.take(
                i + 1,
            ).contains(p) && !agrees(after_steps(after, start), before.files(), p)) by {
            assert(agrees(after_steps(after, known), before.files(), p) || (!ps.take(
                i as int,
            ).contains(p) && !agrees(after_steps(after, start), before.files(), p)));
            if ps.take(i + 1).contains(p) && p != ps[i as int] {
                let some = ps.take(i + 1);
                let j = choose|j: int| 0 <= j < some.len() && some[j] == p;
                assert(ps.take(i as int)[j] == p);
            }
        }
        assert forall|k: int| 0 <= k < steps@.len() implies (exists|j: int|
            0 <= j < first.len() && touched_path(#[trigger] first[j].deep_view()) == touched_path(
                (#[trigger] steps@[k]).deep_view(),
            )) || ps.contains(touched_path(steps@[k].deep_view())) by {
            if k < seen.len() {
                assert(steps@[k] == seen[k]);
            } else {
                assert(ps[i as int] == touched_path(steps@[k].deep_view()));
            }
        }
    }
    assert(ps.take(ps.len() as int) =~= ps);
}

/// What is done with the changes that a tool has made to the data directory of
/// a game: what it has created or modified is staged, and the steps bring the
/// directory back to what it was before, touching nothing else.
pub fn capture_and_register_from_game_data_diff(
    before: &FolderSnapshot,
    after: &FolderSnapshot,
) -> (r: CapturePlan)
    ensures
        r.staged.set() == changed_paths(before.files(), after.files()),
        after_steps(after.files(), r.restore.deep_view()) == before.files(),
        forall|i: int|
            0 <= i < r.restore@.len() ==> {
                let p = touched_path((#[trigger] r.restore@[i]).deep_view());
                changed_paths(before.files(), after.files()).contains(p) || deleted_paths(
                    before.files(),
                    after.files(),
                ).contains(p)
            },
{
    let diff = diff_snapshots(before, after);
    let ghost b = before.files();
    let ghost a = after.files();
    let mut restore: Vec<RestoreStep> = Vec::new();
    assert(restore.deep_view() =~= Seq::<RestoreStepView>::empty());
    add_restore_steps(before, diff.created_or_modified.names(), &mut restore, Ghost(a));
    let ghost half = after_steps(a, restore.deep_view());
    add_restore_steps(before, diff.deleted.names(), &mut restore, Ghost(a));
    let ghost done = after_steps(a, restore.deep_view());
    assert forall|p: Seq<char>| #[trigger] agrees(done, b, p) by {
        if !agrees(half, b, p) {
            assert(!diff.created_or_modified.set().contains(p));
            assert(!agrees(a, b, p));
            assert(diff.deleted.set().contains(p));
        }
    }
    assert(done =~= b) by {
        assert forall|p: Seq<char>|
            #![trigger done.dom().contains(p)]
            #![trigger b.dom().contains(p)]
            done.dom().contains(p) == b.dom().contains(p) && (b.dom().contains(p) ==> done[p]
                == b[p]) by {
            assert(agrees(done, b, p));
        }
    }
    assert forall|i: int| 0 <= i < restore@.len() implies {
        let p = touched_path((#[trigger] restore@[i]).deep_view());
        changed_paths(b, a).contains(p) || deleted_paths(b, a).contains(p)
    } by {
        let p = touched_path(restore@[i].deep_view());
        assert(diff.deleted.set().contains(p) || diff.created_or_modified.set().contains(p));
    }
    CapturePlan { staged: diff.created_or_modified, restore }
}

// ── Packages ────────────────────────────────────────────────────────────────

/// Where a package of a tool's profile is kept.
pub open spec fn package_dir(mods_dir: Seq<char>, tool: Seq<char>, profile: Seq<char>) -> Seq<
    char,
> {
    joined(joined(mods_dir, "generated_outputs"@), tool + "__"@ + profile)
}

/// Where the changes of a tool are staged.
pub fn staging_dir(mods_dir: &str, tool: &ToolRunContext) -> (r: String)
    ensures
        r@ == joined(joined(mods_dir@, "generated_outputs"@), tool.tool_id@ + "_staging"@),
{
    join(
        join(mods_dir, "generated_outputs").as_str(),
        concat2(tool.tool_id.as_str(), "_staging").as_str(),
    )
}

/// Where files that a tool adopts are staged.
pub fn adoption_staging_dir(mods_dir: &str, tool: &ToolRunContext) -> (r: String)
    ensures
        r@ == joined(joined(mods_dir@, "generated_outputs"@), tool.tool_id@ + "_adopt_staging"@),
{
    join(
        join(mods_dir, "generated_outputs").as_str(),
        concat2(tool.tool_id.as_str(), "_adopt_staging").as_str(),
    )
}

/// The files of a package, as a tool has generated them at the given time.
pub open spec fn owned_by(files: Seq<Seq<char>>, tool: Seq<char>, now: u64) -> Seq<
    OwnedGeneratedFileView,
> {
    files.map_values(
        |f: Seq<char>|
            OwnedGeneratedFileView { relative_path: f, captured_at: now, source_tool: tool },
    )
}

fn enumerate_owned_files(files: &Vec<String>, tool_id: &str, now: u64) -> (r: Vec<
    OwnedGeneratedFile,
>)
    ensures
        r.deep_view() == owned_by(files.deep_view(), tool_id@, now),
{
    let ghost all = files.deep_view();
    let mut r: Vec<OwnedGeneratedFile> = Vec::new();
    for i in 0..files.len()
        invariant
            all == files.deep_view(),
            r@.len() == i,
            forall|j: int|
                0 <= j < i ==> #[trigger] r@[j].deep_view() == (OwnedGeneratedFileView {
                    relative_path: all[j],
                    captured_at: now,
                    source_tool: tool_id@,
                }),
    {
        assert(all[i as int] == files@[i as int]@);
        r.push(
            OwnedGeneratedFile {
                relative_path: owned(files[i].as_str()),
                captured_at: now,
                source_tool: owned(tool_id),
            },
        );
    }
    assert(r.deep_view() =~= owned_by(all, tool_id@, now));
    r
}

/// What a package is made of when a tool has run.
pub struct NewPackage<'a> {
    pub id: &'a str,
    pub name: &'a str,
    pub files: &'a Vec<String>,
    pub now: u64,
}

/// The package for a run of a tool.
pub open spec fn package_of(
    db: ModDatabaseView,
    mods_dir: Seq<char>,
    tool: ToolRunContext,
    new: NewPackage,
) -> GeneratedOutputPackageView {
    GeneratedOutputPackageView {
        id: new.id@,
        name: new.name@,
        tool_id: tool.tool_id@,
        run_profile: tool.run_profile@,
        manager_profile_id: db.active_profile_id,
        source_path: package_dir(mods_dir, tool.tool_id@, tool.run_profile@),
        owned_files: owned_by(new.files.deep_view(), tool.tool_id@, new.now),
        updated_at: new.now,
    }
}

/// The database with a package in place of an earlier one for the same tool and
/// profile.
pub open spec fn with_package(db: ModDatabaseView, package: GeneratedOutputPackageView) ->
    ModDatabaseView {
    ModDatabaseView {
        generated_outputs: db.generated_outputs.filter(
            |p: GeneratedOutputPackageView|
                !(p.tool_id == package.tool_id && p.run_profile == package.run_profile),
        ).push(package),
        ..db
    }
}

fn keep_packages<F: Fn(&GeneratedOutputPackage) -> bool>(
    packages: Vec<GeneratedOutputPackage>,
    keep: F,
    Ghost(kept): Ghost<spec_fn(GeneratedOutputPackageView) -> bool>,
) -> (r: Vec<GeneratedOutputPackage>)
    requires
        forall|p: &GeneratedOutputPackage| #[trigger] keep.requires((p,)),
        forall|p: &GeneratedOutputPackage, b: bool| #[trigger]
            keep.ensures((p,), b) ==> b == kept(p.deep_view()),
    ensures
        r.deep_view() == packages.deep_view().filter(kept),
{
    let ghost all = packages.deep_view();
    let mut rest = packages;
    let mut r: Vec<GeneratedOutputPackage> = Vec::new();
    let ghost mut n: int = 0;
    assert(all.skip(0) =~= all);
    assert(r.deep_view() =~= all.take(0).filter(kept)) by {
        reveal(Seq::filter);
    }
    while rest.len() > 0
        invariant
            forall|p: &GeneratedOutputPackage| #[trigger] keep.requires((p,)),
            forall|p: &GeneratedOutputPackage, b: bool| #[trigger]
                keep.ensures((p,), b) ==> b == kept(p.deep_view()),
            0 <= n <= all.len(),
            rest.deep_view() == all.skip(n),
            r.deep_view() == all.take(n).filter(kept),
        decreases rest@.len(),
    {
        let ghost before = r.deep_view();
        let ghost left = rest.deep_view();
        let p = rest.remove(0);
        let ghost pv = p.deep_view();
        assert(left[0] == pv);
        assert(rest.deep_view() =~= left.skip(1));
        assert(left.skip(1) =~= all.skip(n + 1));
        assert(all.take(n + 1).drop_last() =~= all.take(n));
        if keep(&p) {
            r.push(p);
            assert(r.deep_view() =~= before.push(pv));
        }
        assert(r.deep_view() == all.take(n + 1).filter(kept)) by {
            reveal(Seq::filter);
        }
        proof {
            n = n + 1;
        }
    }
    assert(rest.deep_view().len() == 0);
    assert(all.take(n) =~= all);
    r
}

fn replace_package_for_tool(
    db: &mut ModDatabase,
    mods_dir: &str,
    tool: &ToolRunContext,
    new: &NewPackage<'_>,
) -> (r: String)
    ensures
        r@ == new.id@,
        final(db).deep_view() == with_package(
            old(db).deep_view(),
            package_of(old(db).deep_view(), mods_dir@, *tool, *new),
        ),
{
    let dest = join(
        join(mods_dir, "generated_outputs").as_str(),
        concat3(tool.tool_id.as_str(), "__", tool.run_profile.as_str()).as_str(),
    );
    let mut package = GeneratedOutputPackage::new(
        owned(new.id),
        owned(new.name),
        owned(tool.tool_id.as_str()),
        owned(tool.run_profile.as_str()),
        owned(db.active_profile_id.as_str()),
        dest,
    );
    package.owned_files = enumerate_owned_files(new.files, tool.tool_id.as_str(), new.now);
    package.updated_at = new.now;
    let ghost pv = package.deep_view();
    assert(pv =~= package_of(old(db).deep_view(), mods_dir@, *tool, *new));
    let keep = |p: &GeneratedOutputPackage| -> (b: bool)
        ensures
            b == !(p.tool_id@ == tool.tool_id@ && p.run_profile@ == tool.run_profile@),
    {
        !(same(p.tool_id.as_str(), tool.tool_id.as_str()) && same(
            p.run_profile.as_str(),
            tool.run_profile.as_str(),
        ))
    };
    let ghost kept = |p: GeneratedOutputPackageView|
        !(p.tool_id == pv.tool_id && p.run_profile == pv.run_profile);
    let mut packages: Vec<GeneratedOutputPackage> = Vec::new();
    std::mem::swap(&mut packages, &mut db.generated_outputs);
    let mut others = keep_packages(packages, keep, Ghost(kept));
    let ghost before = others.deep_view();
    others.push(package);
    assert(others.deep_view() =~= before.push(pv));
    db.generated_outputs = others;
    assert(db.deep_view() =~= with_package(old(db).deep_view(), pv));
    owned(new.id)
}

/// Registers what a tool has written into an output directory of its own; the
/// package takes the place of an earlier one for the same tool and profile.
pub fn register_output_directory_package(
    db: &mut ModDatabase,
    mods_dir: &str,
    tool: &ToolRunContext,
    new: &NewPackage<'_>,
) -> (r: String)
    ensures
        r@ == new.id@,
        final(db).deep_view() == with_package(
            old(db).deep_view(),
            package_of(old(db).deep_view(), mods_dir@, *tool, *new),
        ),
{
    replace_package_for_tool(db, mods_dir, tool, new)
}

/// The files that are present, each once, in the order of the first list.
pub open spec fn present_files(files: Seq<Seq<char>>, present: Seq<Seq<char>>) -> Seq<Seq<char>>
    decreases files.len(),
{
    if files.len() == 0 {
        Seq::empty()
    } else {
        let before = present_files(files.drop_last(), present);
        if present.contains(files.last()) && !before.contains(files.last()) {
            before.push(files.last())
        } else {
            before
        }
    }
}

/// Adopted are the files of the list that are present, and each is moved and
/// owned once, however often it is listed.
pub proof fn adopted_files_differ(files: Seq<Seq<char>>, present: Seq<Seq<char>>)
    ensures
        present_files(files, present).no_duplicates(),
        forall|f: Seq<char>| #[trigger]
            present_files(files, present).contains(f) <==> files.contains(f) && present.contains(f),
    decreases files.len(),
{
    let all = present_files(files, present);
    if files.len() > 0 {
        let rest = files.drop_last();
        let before = present_files(rest, present);
        adopted_files_differ(rest, present);
        assert forall|f: Seq<char>| #[trigger] all.contains(f) <==> files.contains(f)
            && present.contains(f) by {
            assert(rest.push(files.last()) =~= files);
            assert(files.contains(f) <==> rest.contains(f) || f == files.last()) by {
                if rest.contains(f) {
                    let k = choose|k: int| 0 <= k < rest.len() && rest[k] == f;
                    assert(files[k] == f);
                }
                if files.contains(f) && f != files.last() {
                    let k = choose|k: int| 0 <= k < files.len() && files[k] == f;
                    assert(rest[k] == f);
                }
                assert(files[files.len() - 1] == files.last());
            }
            if all.len() > before.len() {
                assert(all.contains(f) <==> before.contains(f) || f == files.last()) by {
                    if before.contains(f) {
                        let k = choose|k: int| 0 <= k < before.len() && before[k] == f;
                        assert(all[k] == f);
                    }
                    if all.contains(f) && f != files.last() {
                        let k = choose|k: int| 0 <= k < all.len() && all[k] == f;
                        assert(before[k] == f);
                    }
                    assert(all[all.len() - 1] == files.last());
                }
            }
        }
        assert(before.contains(files.last()) <==> rest.contains(files.last()) && present.contains(
            files.last(),
        ));
        assert forall|i: int, j: int| 0 <= i < j < all.len() implies all[i] != all[j] by {
            if j == before.len() {
                assert(before.contains(before[i]));
            }
        }
    }
}

/// The files that a tool adopts out of the data directory of a game: those
/// that are there, each once.
pub fn files_to_adopt(files: &Vec<String>, present: &Vec<String>) -> (r: Vec<String>)
    ensures
        r.deep_view() == present_files(files.deep_view(), present.deep_view()),
{
    let ghost all = files.deep_view();
    let mut r: Vec<String> = Vec::new();
    assert(present_files(all.take(0), present.deep_view()) =~= r.deep_view());
    for i in 0..files.len()
        invariant
            all == files.deep_view(),
            r.deep_view() == present_files(all.take(i as int), present.deep_view()),
    {
        let ghost before = r.deep_view();
        assert(all.take(i + 1).drop_last() =~= all.take(i as int));
        assert(all[i as int] == files@[i as int]@);
        if is_listed(present, files[i].as_str()) && !is_listed(&r, files[i].as_str()) {
            r.push(owned(files[i].as_str()));
            assert(r.deep_view() =~= before.push(all[i as int]));
        }
    }
    assert(all.take(all.len() as int) =~= all);
    r
}

/// Registers files that were moved out of the data directory of a game, given
/// those to move and those that are there.
pub fn adopt_existing_game_data_files(
    db: &mut ModDatabase,
    mods_dir: &str,
    tool: &ToolRunContext,
    new: &NewPackage<'_>,
    present: &Vec<String>,
) -> (r: (String, Vec<String>))
    ensures
        r.0@ == new.id@,
        r.1.deep_view() == present_files(new.files.deep_view(), present.deep_view()),
        final(db).deep_view() == with_package(
            old(db).deep_view(),
            GeneratedOutputPackageView {
                owned_files: owned_by(
                    present_files(new.files.deep_view(), present.deep_view()),
                    tool.tool_id@,
                    new.now,
                ),
                ..package_of(old(db).deep_view(), mods_dir@, *tool, *new)
            },
        ),
{
    let moved = files_to_adopt(new.files, present);
    let package = NewPackage { id: new.id, name: new.name, files: &moved, now: new.now };
    let id = replace_package_for_tool(db, mods_dir, tool, &package);
    (id, moved)
}

/// The database without the package with the given identifier.
pub open spec fn without_package(db: ModDatabaseView, id: Seq<char>) -> ModDatabaseView {
    ModDatabaseView {
        generated_outputs: db.generated_outputs.filter(
            |p: GeneratedOutputPackageView| p.id != id,
        ),
        ..db
    }
}

/// Removes a package once its files are gone; a failure to delete them is
/// reported and leaves the database as it is.
pub fn remove_generated_output_package(
    db: &mut ModDatabase,
    package_id: &str,
    deleted: Result<(), String>,
) -> (r: Result<(), String>)
    ensures
        match deleted {
            Ok(_) => r is Ok && final(db).deep_view() == without_package(
                old(db).deep_view(),
                package_id@,
            ),
            Err(e) => r is Err && r->Err_0@
                == "Failed to remove generated output package data: "@ + e@
                && final(db).deep_view() == old(db).deep_view(),
        },
{
    match deleted {
        Ok(_) => {
            let keep = |p: &GeneratedOutputPackage| -> (b: bool)
                ensures
                    b == (p.id@ != package_id@),
            {
                !same(p.id.as_str(), package_id)
            };
            let ghost kept = |p: GeneratedOutputPackageView| p.id != package_id@;
            let mut packages: Vec<GeneratedOutputPackage> = Vec::new();
            std::mem::swap(&mut packages, &mut db.generated_outputs);
            let others = keep_packages(packages, keep, Ghost(kept));
            db.generated_outputs = others;
            assert(db.deep_view() =~= without_package(old(db).deep_view(), package_id@));
            Ok(())
        },
        Err(e) => Err(concat2("Failed to remove generated output package data: ", e.as_str())),
    }
}

/// Forgets packages whose directories are gone.
pub fn cleanup_stale_generated_outputs(db: &mut ModDatabase, existing: &Vec<String>)
    ensures
        final(db).deep_view() == (ModDatabaseView {
            generated_outputs: old(db).deep_view().generated_outputs.filter(
                |p: GeneratedOutputPackageView| existing.deep_view().contains(p.source_path),
            ),
            ..old(db).deep_view()
        }),
{
    let keep = |p: &GeneratedOutputPackage| -> (b: bool)
        ensures
            b == existing.deep_view().contains(p.source_path@),
    {
        is_listed(existing, p.source_path.as_str())
    };
    let ghost kept = |p: GeneratedOutputPackageView| existing.deep_view().contains(p.source_path);
    let mut packages: Vec<GeneratedOutputPackage> = Vec::new();
    std::mem::swap(&mut packages, &mut db.generated_outputs);
    let others = keep_packages(packages, keep, Ghost(kept));
    db.generated_outputs = others;
    assert(db.deep_view() =~= ModDatabaseView {
        generated_outputs: old(db).deep_view().generated_outputs.filter(kept),
        ..old(db).deep_view()
    });
}

/// After a run of a tool there is exactly one package for it and its profile:
/// the new one.
pub proof fn rerun_replaces_the_package(db: ModDatabaseView, package: GeneratedOutputPackageView)
    ensures
        with_package(db, package).generated_outputs.last() == package,
        forall|i: int|
            0 <= i < with_package(db, package).generated_outputs.len() - 1 ==> {
                let p = #[trigger] with_package(db, package).generated_outputs[i];
                !(p.tool_id == package.tool_id && p.run_profile == package.run_profile)
            },
{
    let kept = |p: GeneratedOutputPackageView|
        !(p.tool_id == package.tool_id && p.run_profile == package.run_profile);
    let a = db.generated_outputs.filter(kept);
    assert forall|i: int| 0 <= i < with_package(db, package).generated_outputs.len() - 1 implies {
        let p = #[trigger] with_package(db, package).generated_outputs[i];
        !(p.tool_id == package.tool_id && p.run_profile == package.run_profile)
    } by {
        assert(with_package(db, package).generated_outputs[i] == a[i]);
        db.generated_outputs.lemma_filter_pred(kept, i);
    }
}

/// What was changed and what was deleted is what differs: a path stands among
/// the one or the other if it leads to something else than before, among the
/// deleted ones if it now leads to nothing.
pub proof fn differences_are_found(
    before: Map<Seq<char>, Seq<u8>>,
    after: Map<Seq<char>, Seq<u8>>,
    p: Seq<char>,
)
    ensures
        changed_paths(before, after).contains(p) || deleted_paths(before, after).contains(p)
            <==> before.contains_key(p) != after.contains_key(p) || (before.contains_key(p)
            && before[p] != after[p]),
        changed_paths(before, after).contains(p) ==> after.contains_key(p),
        deleted_paths(before, after).contains(p) ==> !after.contains_key(p),
        changed_paths(before, before) == Set::<Seq<char>>::empty(),
        deleted_paths(before, before) == Set::<Seq<char>>::empty(),
{
    assert(changed_paths(before, before) =~= Set::empty());
    assert(deleted_paths(before, before) =~= Set::empty());
}

/// A snapshot holds for each path the bytes that the listing gives last.
pub proof fn snapshot_holds_what_is_listed(listing: Seq<(Seq<char>, Seq<u8>)>, i: int)
    requires
        0 <= i < listing.len(),
        forall|j: int| i < j < listing.len() ==> (#[trigger] listing[j]).0 != listing[i].0,
    ensures
        files_of(listing).contains_key(listing[i].0),
        files_of(listing)[listing[i].0] == listing[i].1,
    decreases listing.len(),
{
    let n = listing.len() - 1;
    if i < n {
        let rest = listing.drop_last();
        assert forall|j: int| i < j < rest.len() implies (#[trigger] rest[j]).0 != rest[i].0 by {
            assert(rest[j] == listing[j]);
        }
        snapshot_holds_what_is_listed(rest, i);
        assert(listing[n].0 != listing[i].0);
    }
}

/// A run of a tool keeps the packages of other runs, and nothing but packages
/// changes.
pub proof fn other_packages_are_kept(
    db: ModDatabaseView,
    package: GeneratedOutputPackageView,
    other: GeneratedOutputPackageView,
)
    requires
        other.tool_id != package.tool_id || other.run_profile != package.run_profile,
    ensures
        db.generated_outputs.contains(other) <==> with_package(
            db,
            package,
        ).generated_outputs.contains(other),
        ({
            let after = with_package(db, package);
            (ModDatabaseView { generated_outputs: db.generated_outputs, ..after }) == db
        }),
{
    let keep = |p: GeneratedOutputPackageView|
        !(p.tool_id == package.tool_id && p.run_profile == package.run_profile);
    let kept = db.generated_outputs.filter(keep);
    let all = kept.push(package);
    if kept.contains(other) {
        let i = choose|i: int| 0 <= i < kept.len() && kept[i] == other;
        assert(all[i] == other);
    }
    if all.contains(other) {
        let i = choose|i: int| 0 <= i < all.len() && all[i] == other;
        assert(kept[i] == other);
        db.generated_outputs.lemma_filter_contains_rev(keep, other);
    }
    if db.generated_outputs.contains(other) {
        let i = choose|i: int|
            0 <= i < db.generated_outputs.len() && db.generated_outputs[i] == other;
        db.generated_outputs.lemma_filter_contains(keep, i);
        let j = choose|j: int| 0 <= j < kept.len() && kept[j] == other;
        assert(all[j] == other);
    }
}

/// A package that is removed is gone, the others are kept, and nothing else
/// changes.
pub proof fn removing_a_package_keeps_the_others(
    db: ModDatabaseView,
    id: Seq<char>,
    other: GeneratedOutputPackageView,
)
    ensures
        without_package(db, id).generated_outputs.contains(other)
            <==> db.generated_outputs.contains(other) && other.id != id,
        (ModDatabaseView {
            generated_outputs: db.generated_outputs,
            ..without_package(db, id)
        }) == db,
{
    let keep = |p: GeneratedOutputPackageView| p.id != id;
    let kept = db.generated_outputs.filter(keep);
    if kept.contains(other) {
        let i = choose|i: int| 0 <= i < kept.len() && kept[i] == other;
        db.generated_outputs.lemma_filter_contains_rev(keep, other);
        db.generated_outputs.lemma_filter_pred(keep, i);
    }
    if db.generated_outputs.contains(other) && other.id != id {
        let i = choose|i: int|
            0 <= i < db.generated_outputs.len() && db.generated_outputs[i] == other;
        db.generated_outputs.lemma_filter_contains(keep, i);
    }
}

/// A package lies below the mods in a directory named by its tool and profile.
pub proof fn packages_lie_below_the_mods(
    mods_dir: Seq<char>,
    tool: Seq<char>,
    profile: Seq<char>,
)
    requires
        mods_dir.len() > 0,
        mods_dir.last() != '/',
        tool.len() > 0,
        tool[0] != '/',
    ensures
        package_dir(mods_dir, tool, profile) == mods_dir + "/generated_outputs/"@ + tool + seq![
            '_', '_',
        ] + profile,
{
    reveal_strlit("generated_outputs");
    reveal_strlit("/generated_outputs/");
    reveal_strlit("__");
    let a = joined(mods_dir, "generated_outputs"@);
    assert(a =~= mods_dir + seq!['/'] + "generated_outputs"@);
    assert("/generated_outputs/"@ =~= seq!['/'] + "generated_outputs"@ + seq!['/']);
    let name = tool + "__"@ + profile;
    assert(name[0] == tool[0]);
    assert(joined(a, name) =~= mods_dir + "/generated_outputs/"@ + tool + seq!['_', '_'] + profile);
}

/// Each file of a package is recorded with the tool that wrote it and the time.
pub proof fn owned_files_are_recorded_in_order(
    files: Seq<Seq<char>>,
    tool: Seq<char>,
    now: u64,
    i: int,
)
    requires
        0 <= i < files.len(),
    ensures
        owned_by(files, tool, now).len() == files.len(),
        owned_by(files, tool, now)[i].relative_path == files[i],
        owned_by(files, tool, now)[i].source_tool == tool,
        owned_by(files, tool, now)[i].captured_at == now,
{
}

} // verus!
