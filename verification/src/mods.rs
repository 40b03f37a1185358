//! Mods, their plugins, and the database that keeps track of them.
use vstd::prelude::*;

use crate::number::{
    digits, fixed_width_hex_has_its_width, hex_is_injective, hex_string, zero_padded,
};
use crate::paths::{join, joined};
use crate::table::{NameSet, Table};
use crate::text::{concat2, is_listed, owned, same};

verus! {

// ── Plugins ─────────────────────────────────────────────────────────────────

/// The kind of a plugin, which its extension tells.
#[derive(Clone, Copy, Debug, PartialEq, Eq, Structural)]
pub enum PluginKind {
    /// `.esm`: loads before regular plugins.
    Master,
    /// `.esl`: a light master.
    Light,
    /// `.esp`: a regular plugin.
    Plugin,
}

/// The rank of a kind of plugins: lower ones load earlier.
pub open spec fn rank_of(kind: PluginKind) -> u8 {
    match kind {
        PluginKind::Master => 0,
        PluginKind::Light => 1,
        PluginKind::Plugin => 2,
    }
}

impl PluginKind {
    /// The abbreviation of the kind.
    pub fn label(&self) -> (r: &'static str)
        ensures
            r@ == (match *self {
                PluginKind::Master => "ESM"@,
                PluginKind::Light => "ESL"@,
                PluginKind::Plugin => "ESP"@,
            }),
    {
        match self {
            PluginKind::Master => "ESM",
            PluginKind::Light => "ESL",
            PluginKind::Plugin => "ESP",
        }
    }

    /// The rank of the kind: lower ones load earlier.
    pub fn sort_priority(&self) -> (r: u8)
        ensures
            r == rank_of(*self),
    {
        match self {
            PluginKind::Master => 0,
            PluginKind::Light => 1,
            PluginKind::Plugin => 2,
        }
    }
}

/// A plugin in the data directory of a game.
#[derive(Debug)]
pub struct PluginFile {
    pub name: String,
    pub kind: PluginKind,
    pub enabled: bool,
    /// Whether it is a master that comes with the game.
    pub is_vanilla: bool,
}

/// A [`PluginFile`] as a mathematical value.
#[verifier::ext_equal]
pub ghost struct PluginFileView {
    pub name: Seq<char>,
    pub kind: PluginKind,
    pub enabled: bool,
    pub is_vanilla: bool,
}

impl DeepView for PluginFile {
    type V = PluginFileView;

    open spec fn deep_view(&self) -> PluginFileView {
        PluginFileView {
            name: self.name@,
            kind: self.kind,
            enabled: self.enabled,
            is_vanilla: self.is_vanilla,
        }
    }
}

impl Clone for PluginFile {
    fn clone(&self) -> (r: Self)
        ensures
            r.deep_view() == self.deep_view(),
    {
        PluginFile {
            name: owned(self.name.as_str()),
            kind: self.kind,
            enabled: self.enabled,
            is_vanilla: self.is_vanilla,
        }
    }
}

// ── Identifiers ─────────────────────────────────────────────────────────────

/// What an identifier of a mod is made of: the time, the process, and how many
/// identifiers the process has made before.
#[derive(Clone, Copy, Debug)]
pub struct UuidSeed {
    pub secs: u64,
    pub nanos: u32,
    pub pid: u32,
    pub seq: u32,
}

/// The hexadecimal notation of `n` with at least `width` digits.
pub open spec fn hex(n: u64, width: nat) -> Seq<char> {
    zero_padded(digits(n as nat, 16), width)
}

/// The first three groups of an identifier: the low half of the seconds and
/// the two halves of the nanoseconds.
pub open spec fn uuid_head(secs: u64, nanos: u32) -> Seq<char> {
    hex(secs & 0xffff_ffff, 8) + "-"@ + hex((nanos >> 16) as u64, 4) + "-"@ + hex(
        (nanos & 0xffff) as u64,
        4,
    ) + "-"@
}

/// The fourth group of an identifier: the process and the counter.
pub open spec fn uuid_mix(pid: u32, seq: u32) -> Seq<char> {
    hex(((pid & 0xffff) ^ (seq & 0xffff)) as u64, 4)
}

/// The identifier for a seed.
pub open spec fn mod_uuid(seed: UuidSeed) -> Seq<char> {
    uuid_head(seed.secs, seed.nanos) + uuid_mix(seed.pid, seed.seq) + "-"@ + hex(
        ((seed.secs >> 32) << 32) | ((seed.pid as u64) << 16) | (seed.seq as u64),
        12,
    )
}

/// The identifier for a seed, in the shape of a UUID.
pub fn generate_mod_uuid(seed: UuidSeed) -> (r: String)
    ensures
        r@ == mod_uuid(seed),
{
    let a = hex_string(seed.secs & 0xffff_ffff, 8);
    let b = hex_string((seed.nanos >> 16) as u64, 4);
    let c = hex_string((seed.nanos & 0xffff) as u64, 4);
    let d = hex_string(((seed.pid & 0xffff) ^ (seed.seq & 0xffff)) as u64, 4);
    let e = hex_string(
        ((seed.secs >> 32) << 32) | ((seed.pid as u64) << 16) | (seed.seq as u64),
        12,
    );
    let ab = concat2(concat2(a.as_str(), "-").as_str(), b.as_str());
    let abc = concat2(concat2(ab.as_str(), "-").as_str(), c.as_str());
    let abcd = concat2(concat2(abc.as_str(), "-").as_str(), d.as_str());
    concat2(concat2(abcd.as_str(), "-").as_str(), e.as_str())
}

/// The numbers that the five groups of an identifier hold.
pub open spec fn uuid_numbers(seed: UuidSeed) -> (u64, u32, u32, u32, u64) {
    (
        seed.secs & 0xffff_ffff,
        seed.nanos >> 16,
        seed.nanos & 0xffff,
        (seed.pid & 0xffff) ^ (seed.seq & 0xffff),
        ((seed.secs >> 32) << 32) | ((seed.pid as u64) << 16) | (seed.seq as u64),
    )
}

/// The widths of the first four groups.
proof fn lemma_uuid_widths(seed: UuidSeed)
    ensures
        hex(seed.secs & 0xffff_ffff, 8).len() == 8,
        hex((seed.nanos >> 16) as u64, 4).len() == 4,
        hex((seed.nanos & 0xffff) as u64, 4).len() == 4,
        uuid_mix(seed.pid, seed.seq).len() == 4,
{
    let secs = seed.secs;
    let nanos = seed.nanos;
    let mix = (seed.pid & 0xffff) ^ (seed.seq & 0xffff);
    assert(secs & 0xffff_ffff < 0x1_0000_0000) by (bit_vector);
    assert(nanos >> 16 < 0x1_0000 && nanos & 0xffff < 0x1_0000) by (bit_vector);
    assert(mix < 0x1_0000) by {
        let pid = seed.pid;
        let seq = seed.seq;
        assert((pid & 0xffff) ^ (seq & 0xffff) < 0x1_0000) by (bit_vector);
    }
    assert(vstd::arithmetic::power::pow(16, 4) == 0x1_0000 && vstd::arithmetic::power::pow(16, 8)
        == 0x1_0000_0000) by {
        reveal_with_fuel(vstd::arithmetic::power::pow, 9);
    }
    fixed_width_hex_has_its_width((secs & 0xffff_ffff) as nat, 8);
    fixed_width_hex_has_its_width((nanos >> 16) as nat, 4);
    fixed_width_hex_has_its_width((nanos & 0xffff) as nat, 4);
    fixed_width_hex_has_its_width(mix as nat, 4);
}

/// The groups of an identifier by their places.
proof fn lemma_uuid_groups(seed: UuidSeed)
    ensures
        mod_uuid(seed).subrange(0, 8) == hex(seed.secs & 0xffff_ffff, 8),
        mod_uuid(seed).subrange(9, 13) == hex((seed.nanos >> 16) as u64, 4),
        mod_uuid(seed).subrange(14, 18) == hex((seed.nanos & 0xffff) as u64, 4),
        mod_uuid(seed).subrange(19, 23) == uuid_mix(seed.pid, seed.seq),
        mod_uuid(seed).skip(24) == hex(uuid_numbers(seed).4, 12),
{
    lemma_uuid_widths(seed);
    reveal_strlit("-");
    let id = mod_uuid(seed);
    assert(id.subrange(0, 8) =~= hex(seed.secs & 0xffff_ffff, 8));
    assert(id.subrange(9, 13) =~= hex((seed.nanos >> 16) as u64, 4));
    assert(id.subrange(14, 18) =~= hex((seed.nanos & 0xffff) as u64, 4));
    assert(id.subrange(19, 23) =~= uuid_mix(seed.pid, seed.seq));
    assert(id.skip(24) =~= hex(uuid_numbers(seed).4, 12));
}

/// Two identifiers are the same exactly if their groups hold the same numbers.
pub proof fn uuid_tells_its_numbers(a: UuidSeed, b: UuidSeed)
    ensures
        mod_uuid(a) == mod_uuid(b) <==> uuid_numbers(a) == uuid_numbers(b),
{
    if mod_uuid(a) == mod_uuid(b) {
        lemma_uuid_groups(a);
        lemma_uuid_groups(b);
        let x = uuid_numbers(a);
        let y = uuid_numbers(b);
        hex_is_injective(x.0 as nat, y.0 as nat, 8);
        hex_is_injective(x.1 as nat, y.1 as nat, 4);
        hex_is_injective(x.2 as nat, y.2 as nat, 4);
        hex_is_injective(x.3 as nat, y.3 as nat, 4);
        hex_is_injective(x.4 as nat, y.4 as nat, 12);
    }
}

/// Mods that one process makes have different identifiers, whatever their names
/// and whenever they are made: the counter tells them apart, or the time does
/// once the lower sixteen bits of the counter have come round.
pub proof fn mods_of_a_process_differ(a: UuidSeed, b: UuidSeed)
    requires
        a.pid == b.pid,
        a.seq & 0xffff != b.seq & 0xffff || a.nanos != b.nanos || a.secs & 0xffff_ffff != b.secs
            & 0xffff_ffff || uuid_numbers(a).4 != uuid_numbers(b).4,
    ensures
        mod_uuid(a) != mod_uuid(b),
{
    uuid_tells_its_numbers(a, b);
    let p = a.pid;
    let s = a.seq;
    let t = b.seq;
    let m = a.nanos;
    let n = b.nanos;
    assert((p & 0xffff) ^ (s & 0xffff) == (p & 0xffff) ^ (t & 0xffff) ==> s & 0xffff == t & 0xffff)
        by (bit_vector);
    assert(m >> 16 == n >> 16 && m & 0xffff == n & 0xffff ==> m == n) by (bit_vector);
}

// ── Mods ────────────────────────────────────────────────────────────────────

/// An installed mod.
#[derive(Debug)]
pub struct Mod {
    pub id: String,
    pub name: String,
    pub version: Option<String>,
    pub enabled: bool,
    pub priority: i32,
    pub nexus_id: Option<u32>,
    pub source_path: String,
    /// Whether the mod was downloaded from Nexus Mods.
    pub installed_from_nexus: bool,
    /// The archive that the mod was installed from.
    pub archive_name: Option<String>,
}

/// A [`Mod`] as a mathematical value.
#[verifier::ext_equal]
pub ghost struct ModView {
    pub id: Seq<char>,
    pub name: Seq<char>,
    pub version: Option<Seq<char>>,
    pub enabled: bool,
    pub priority: i32,
    pub nexus_id: Option<u32>,
    pub source_path: Seq<char>,
    pub installed_from_nexus: bool,
    pub archive_name: Option<Seq<char>>,
}

impl DeepView for Mod {
    type V = ModView;

    open spec fn deep_view(&self) -> ModView {
        ModView {
            id: self.id@,
            name: self.name@,
            version: self.version.deep_view(),
            enabled: self.enabled,
            priority: self.priority,
            nexus_id: self.nexus_id,
            source_path: self.source_path@,
            installed_from_nexus: self.installed_from_nexus,
            archive_name: self.archive_name.deep_view(),
        }
    }
}

fn copy_optional(s: &Option<String>) -> (r: Option<String>)
    ensures
        r.deep_view() == s.deep_view(),
{
    match s {
        Some(s) => Some(owned(s.as_str())),
        None => None,
    }
}

impl Clone for Mod {
    fn clone(&self) -> (r: Self)
        ensures
            r.deep_view() == self.deep_view(),
    {
        Mod {
            id: owned(self.id.as_str()),
            name: owned(self.name.as_str()),
            version: copy_optional(&self.version),
            enabled: self.enabled,
            priority: self.priority,
            nexus_id: self.nexus_id,
            source_path: owned(self.source_path.as_str()),
            installed_from_nexus: self.installed_from_nexus,
            archive_name: copy_optional(&self.archive_name),
        }
    }
}

/// A mod that has just been made.
pub open spec fn fresh_mod(id: Seq<char>, name: Seq<char>, source: Seq<char>) -> ModView {
    ModView {
        id,
        name,
        version: None,
        enabled: false,
        priority: 0,
        nexus_id: None,
        source_path: source,
        installed_from_nexus: false,
        archive_name: None,
    }
}

impl Mod {
    /// A mod with a fresh identifier.
    pub fn new(name: &str, source_path: String, seed: UuidSeed) -> (r: Mod)
        ensures
            r.deep_view() == fresh_mod(mod_uuid(seed), name@, source_path@),
    {
        Mod {
            id: generate_mod_uuid(seed),
            name: owned(name),
            version: None,
            enabled: false,
            priority: 0,
            nexus_id: None,
            source_path,
            installed_from_nexus: false,
            archive_name: None,
        }
    }
}

// ── Generated outputs ───────────────────────────────────────────────────────

/// A file that a tool has generated.
#[derive(Debug)]
pub struct OwnedGeneratedFile {
    pub relative_path: String,
    pub captured_at: u64,
    pub source_tool: String,
}

/// An [`OwnedGeneratedFile`] as a mathematical value.
#[verifier::ext_equal]
pub ghost struct OwnedGeneratedFileView {
    pub relative_path: Seq<char>,
    pub captured_at: u64,
    pub source_tool: Seq<char>,
}

impl DeepView for OwnedGeneratedFile {
    type V = OwnedGeneratedFileView;

    open spec fn deep_view(&self) -> OwnedGeneratedFileView {
        OwnedGeneratedFileView {
            relative_path: self.relative_path@,
            captured_at: self.captured_at,
            source_tool: self.source_tool@,
        }
    }
}

/// What a tool has generated in one of its profiles.
#[derive(Debug)]
pub struct GeneratedOutputPackage {
    pub id: String,
    pub name: String,
    pub tool_id: String,
    pub run_profile: String,
    /// The profile of the game that the package belongs to.
    pub manager_profile_id: String,
    pub source_path: String,
    pub owned_files: Vec<OwnedGeneratedFile>,
    pub updated_at: u64,
}

/// A [`GeneratedOutputPackage`] as a mathematical value.
#[verifier::ext_equal]
pub ghost struct GeneratedOutputPackageView {
    pub id: Seq<char>,
    pub name: Seq<char>,
    pub tool_id: Seq<char>,
    pub run_profile: Seq<char>,
    pub manager_profile_id: Seq<char>,
    pub source_path: Seq<char>,
    pub owned_files: Seq<OwnedGeneratedFileView>,
    pub updated_at: u64,
}

impl DeepView for GeneratedOutputPackage {
    type V = GeneratedOutputPackageView;

    open spec fn deep_view(&self) -> GeneratedOutputPackageView {
        GeneratedOutputPackageView {
            id: self.id@,
            name: self.name@,
            tool_id: self.tool_id@,
            run_profile: self.run_profile@,
            manager_profile_id: self.manager_profile_id@,
            source_path: self.source_path@,
            owned_files: self.owned_files.deep_view(),
            updated_at: self.updated_at,
        }
    }
}

impl GeneratedOutputPackage {
    /// A package without files.
    pub fn new(
        id: String,
        name: String,
        tool_id: String,
        run_profile: String,
        manager_profile_id: String,
        source_path: String,
    ) -> (r: Self)
        ensures
            r.deep_view() == (GeneratedOutputPackageView {
                id: id@,
                name: name@,
                tool_id: tool_id@,
                run_profile: run_profile@,
                manager_profile_id: manager_profile_id@,
                source_path: source_path@,
                owned_files: Seq::empty(),
                updated_at: 0,
            }),
    {
        let owned_files: Vec<OwnedGeneratedFile> = Vec::new();
        assert(owned_files.deep_view() =~= Seq::empty());
        GeneratedOutputPackage {
            id,
            name,
            tool_id,
            run_profile,
            manager_profile_id,
            source_path,
            owned_files,
            updated_at: 0,
        }
    }
}

// ── The database ────────────────────────────────────────────────────────────

/// What is known of the mods of a game.
pub struct ModDatabase {
    pub mods: Vec<Mod>,
    /// The identifiers of the mods in order.
    pub load_order: Vec<String>,
    /// The names of the plugins in load order.
    pub plugin_load_order: Vec<String>,
    /// The names of the plugins that are switched off.
    pub plugin_disabled: NameSet,
    pub generated_outputs: Vec<GeneratedOutputPackage>,
    pub active_profile_id: String,
    /// For each profile, the paths that are not to be reviewed.
    pub profile_runtime_ignored: Table<NameSet>,
}

/// A [`ModDatabase`] as a mathematical value.
#[verifier::ext_equal]
pub ghost struct ModDatabaseView {
    pub mods: Seq<ModView>,
    pub load_order: Seq<Seq<char>>,
    pub plugin_load_order: Seq<Seq<char>>,
    pub plugin_disabled: Set<Seq<char>>,
    pub generated_outputs: Seq<GeneratedOutputPackageView>,
    pub active_profile_id: Seq<char>,
    pub profile_runtime_ignored: Map<Seq<char>, Set<Seq<char>>>,
}

impl DeepView for ModDatabase {
    type V = ModDatabaseView;

    open spec fn deep_view(&self) -> ModDatabaseView {
        ModDatabaseView {
            mods: self.mods.deep_view(),
            load_order: self.load_order.deep_view(),
            plugin_load_order: self.plugin_load_order.deep_view(),
            plugin_disabled: self.plugin_disabled.set(),
            generated_outputs: self.generated_outputs.deep_view(),
            active_profile_id: self.active_profile_id@,
            profile_runtime_ignored: self.profile_runtime_ignored.map(),
        }
    }
}

/// A database without anything in it.
pub open spec fn empty_database() -> ModDatabaseView {
    ModDatabaseView {
        mods: Seq::empty(),
        load_order: Seq::empty(),
        plugin_load_order: Seq::empty(),
        plugin_disabled: Set::empty(),
        generated_outputs: Seq::empty(),
        active_profile_id: "default"@,
        profile_runtime_ignored: Map::empty(),
    }
}

impl Default for ModDatabase {
    fn default() -> (r: Self)
        ensures
            r.deep_view() == empty_database(),
    {
        let r = ModDatabase {
            mods: Vec::new(),
            load_order: Vec::new(),
            plugin_load_order: Vec::new(),
            plugin_disabled: NameSet::new(),
            generated_outputs: Vec::new(),
            active_profile_id: owned("default"),
            profile_runtime_ignored: Table::new(),
        };
        assert(r.deep_view() =~= empty_database());
        r
    }
}

/// The mods whose directories exist.
pub open spec fn mods_in(mods: Seq<ModView>, directories: Seq<Seq<char>>) -> Seq<ModView> {
    mods.filter(|m: ModView| directories.contains(m.source_path))
}

/// The database after a mod was registered: one with the same name makes room.
pub open spec fn with_mod(db: ModDatabaseView, entry: ModView) -> ModDatabaseView {
    ModDatabaseView {
        mods: db.mods.filter(|m: ModView| m.name != entry.name).push(entry),
        ..db
    }
}

/// The database without the mod with the given identifier.
pub open spec fn without_mod(db: ModDatabaseView, id: Seq<char>) -> ModDatabaseView {
    ModDatabaseView { mods: db.mods.filter(|m: ModView| m.id != id), ..db }
}

fn keep_mods<F: Fn(&Mod) -> bool>(
    mods: &Vec<Mod>,
    keep: F,
    Ghost(kept): Ghost<spec_fn(ModView) -> bool>,
) -> (r: Vec<Mod>)
    requires
        forall|m: &Mod| #[trigger] keep.requires((m,)),
        forall|m: &Mod, b: bool| #[trigger] keep.ensures((m,), b) ==> b == kept(m.deep_view()),
    ensures
        r.deep_view() == mods.deep_view().filter(kept),
{
    let ghost all = mods.deep_view();
    let mut r: Vec<Mod> = Vec::new();
    assert(r.deep_view() =~= all.take(0).filter(kept)) by {
        reveal(Seq::filter);
    }
    for i in 0..mods.len()
        invariant
            forall|m: &Mod| #[trigger] keep.requires((m,)),
            forall|m: &Mod, b: bool| #[trigger] keep.ensures((m,), b) ==> b == kept(m.deep_view()),
            all == mods.deep_view(),
            r.deep_view() == all.take(i as int).filter(kept),
    {
        let ghost before = r.deep_view();
        let m = &mods[i];
        assert(all[i as int] == m.deep_view());
        assert(all.take(i + 1).drop_last() =~= all.take(i as int));
        if keep(m) {
            r.push(m.clone());
            assert(r.deep_view() =~= before.push(all[i as int]));
        }
        assert(r.deep_view() == all.take(i + 1).filter(kept)) by {
            reveal(Seq::filter);
        }
    }
    assert(all.take(all.len() as int) =~= all);
    r
}

impl ModDatabase {
    /// The file that holds the database, below the configuration directory of
    /// the game.
    pub fn db_path(config_dir: &str) -> (r: String)
        ensures
            r@ == joined(config_dir@, "mods.toml"@),
    {
        join(config_dir, "mods.toml")
    }

    /// Forgets mods whose directories are gone, unless the directory of all
    /// mods is not there.
    pub fn scan_mods_dir(&mut self, mods_dir_exists: bool, directories: &Vec<String>)
        ensures
            final(self).deep_view() == (if mods_dir_exists {
                ModDatabaseView {
                    mods: mods_in(old(self).deep_view().mods, directories.deep_view()),
                    ..old(self).deep_view()
                }
            } else {
                old(self).deep_view()
            }),
    {
        if !mods_dir_exists {
            return;
        }
        let keep = |m: &Mod| -> (b: bool)
            ensures
                b == directories.deep_view().contains(m.source_path@),
        {
            is_listed(directories, m.source_path.as_str())
        };
        let ghost kept = |m: ModView| directories.deep_view().contains(m.source_path);
        let mods = keep_mods(&self.mods, keep, Ghost(kept));
        self.mods = mods;
        assert(self.deep_view() =~= ModDatabaseView {
            mods: mods_in(old(self).deep_view().mods, directories.deep_view()),
            ..old(self).deep_view()
        });
    }

    /// Registers a mod; one with the same name makes room for it.
    pub fn register_mod(&mut self, entry: Mod)
        ensures
            final(self).deep_view() == with_mod(old(self).deep_view(), entry.deep_view()),
    {
        let name = owned(entry.name.as_str());
        let keep = |m: &Mod| -> (b: bool)
            ensures
                b == (m.name@ != name@),
        {
            !same(m.name.as_str(), name.as_str())
        };
        let ghost ev = entry.deep_view();
        let ghost kept = |m: ModView| m.name != ev.name;
        let mut mods = keep_mods(&self.mods, keep, Ghost(kept));
        let ghost before = mods.deep_view();
        mods.push(entry);
        assert(mods.deep_view() =~= before.push(ev));
        self.mods = mods;
        assert(self.deep_view() =~= with_mod(old(self).deep_view(), ev));
    }

    /// Removes the mod with the given identifier.
    pub fn remove_mod(&mut self, id: &str)
        ensures
            final(self).deep_view() == without_mod(old(self).deep_view(), id@),
    {
        let keep = |m: &Mod| -> (b: bool)
            ensures
                b == (m.id@ != id@),
        {
            !same(m.id.as_str(), id)
        };
        let ghost kept = |m: ModView| m.id != id@;
        let mods = keep_mods(&self.mods, keep, Ghost(kept));
        self.mods = mods;
        assert(self.deep_view() =~= without_mod(old(self).deep_view(), id@));
    }
}

/// Registering a mod leaves exactly one mod with its name, and removing it by
/// its identifier leaves none with that identifier.
pub proof fn registered_mod_is_the_only_one_of_its_name(db: ModDatabaseView, entry: ModView)
    ensures
        with_mod(db, entry).mods.last() == entry,
        forall|i: int|
            0 <= i < with_mod(db, entry).mods.len() - 1 ==> (#[trigger] with_mod(
                db,
                entry,
            ).mods[i]).name != entry.name,
        forall|i: int|
            0 <= i < without_mod(db, entry.id).mods.len() ==> (#[trigger] without_mod(
                db,
                entry.id,
            ).mods[i]).id != entry.id,
{
    let by_name = |m: ModView| m.name != entry.name;
    let by_id = |m: ModView| m.id != entry.id;
    let a = db.mods.filter(by_name);
    let b = db.mods.filter(by_id);
    assert forall|i: int| 0 <= i < a.len() implies (#[trigger] a[i]).name != entry.name by {
        db.mods.lemma_filter_pred(by_name, i);
    }
    assert forall|i: int| 0 <= i < with_mod(db, entry).mods.len() - 1 implies (
    #[trigger] with_mod(db, entry).mods[i]).name != entry.name by {
        assert(with_mod(db, entry).mods[i] == a[i]);
    }
    assert forall|i: int| 0 <= i < b.len() implies (#[trigger] b[i]).id != entry.id by {
        db.mods.lemma_filter_pred(by_id, i);
    }
}

/// Registering a mod keeps the mods of other names and removing one keeps those
/// of other identifiers; nothing but the list of mods changes.
pub proof fn other_mods_are_kept(db: ModDatabaseView, entry: ModView, other: ModView)
    ensures
        other.name != entry.name ==> (with_mod(db, entry).mods.contains(other)
            <==> db.mods.contains(other)),
        other.id != entry.id ==> (without_mod(db, entry.id).mods.contains(other)
            <==> db.mods.contains(other)),
        (ModDatabaseView { mods: db.mods, ..with_mod(db, entry) }) == db,
        (ModDatabaseView { mods: db.mods, ..without_mod(db, entry.id) }) == db,
{
    let by_name = |m: ModView| m.name != entry.name;
    let by_id = |m: ModView| m.id != entry.id;
    lemma_kept_mods(db.mods, by_name, other);
    lemma_kept_mods(db.mods, by_id, other);
    let kept = db.mods.filter(by_name);
    let all = kept.push(entry);
    if kept.contains(other) {
        let i = choose|i: int| 0 <= i < kept.len() && kept[i] == other;
        assert(all[i] == other);
    }
    if other.name != entry.name && all.contains(other) {
        let i = choose|i: int| 0 <= i < all.len() && all[i] == other;
        assert(kept[i] == other);
    }
}

proof fn lemma_kept_mods(mods: Seq<ModView>, keep: spec_fn(ModView) -> bool, m: ModView)
    ensures
        mods.filter(keep).contains(m) <==> mods.contains(m) && keep(m),
{
    let kept = mods.filter(keep);
    if kept.contains(m) {
        let i = choose|i: int| 0 <= i < kept.len() && kept[i] == m;
        mods.lemma_filter_contains_rev(keep, m);
        mods.lemma_filter_pred(keep, i);
    }
    if mods.contains(m) && keep(m) {
        let i = choose|i: int| 0 <= i < mods.len() && mods[i] == m;
        mods.lemma_filter_contains(keep, i);
    }
}

/// The mods that are there are those whose directory is.
pub proof fn mods_without_a_directory_are_left_out(
    mods: Seq<ModView>,
    directories: Seq<Seq<char>>,
    m: ModView,
)
    ensures
        mods_in(mods, directories).contains(m) <==> mods.contains(m) && directories.contains(
            m.source_path,
        ),
{
    lemma_kept_mods(mods, |m: ModView| directories.contains(m.source_path), m);
}

} // verus!
