//! The data of an installation: strategies, FOMOD configurations, plans.
use vstd::prelude::*;

use crate::text::{all_ascii, ascii_lowercase, lowercase, same, to_lowercase};

verus! {

// ── Install strategy ────────────────────────────────────────────────────────

/// How a mod archive should be installed.
#[derive(Debug)]
pub enum InstallStrategy {
    /// Extract under the `Data/` subdirectory of the mod folder.
    Data,
    /// Install the listed files, as a FOMOD configuration asks for.
    Fomod(Vec<FomodFile>),
}

#[verifier::ext_equal]
pub ghost enum InstallStrategyView {
    Data,
    Fomod(Seq<FomodFileView>),
}

impl DeepView for InstallStrategy {
    type V = InstallStrategyView;

    open spec fn deep_view(&self) -> InstallStrategyView {
        match self {
            InstallStrategy::Data => InstallStrategyView::Data,
            InstallStrategy::Fomod(files) => InstallStrategyView::Fomod(files.deep_view()),
        }
    }
}

// ── FOMOD types ─────────────────────────────────────────────────────────────

/// A single file or folder mapping inside a FOMOD configuration.
#[derive(Debug)]
pub struct FomodFile {
    pub source: String,
    pub destination: String,
    pub priority: i32,
}

#[verifier::ext_equal]
pub ghost struct FomodFileView {
    pub source: Seq<char>,
    pub destination: Seq<char>,
    pub priority: int,
}

impl DeepView for FomodFile {
    type V = FomodFileView;

    open spec fn deep_view(&self) -> FomodFileView {
        FomodFileView {
            source: self.source@,
            destination: self.destination@,
            priority: self.priority as int,
        }
    }
}

impl Clone for FomodFile {
    fn clone(&self) -> (r: Self)
        ensures
            r.deep_view() == self.deep_view(),
    {
        FomodFile {
            source: self.source.clone(),
            destination: self.destination.clone(),
            priority: self.priority,
        }
    }
}

/// Selection type for a FOMOD plugin group.
#[derive(Debug, Clone, Copy, PartialEq, Eq, Structural)]
pub enum FomodGroupType {
    SelectAtLeastOne,
    SelectAtMostOne,
    SelectExactlyOne,
    SelectAll,
    SelectAny,
}

/// Default selection state of a FOMOD plugin.
#[derive(Debug, Clone, Copy, PartialEq, Eq, Structural)]
pub enum FomodPluginType {
    Required,
    Optional,
    Recommended,
    NotUsable,
}

/// Condition flag contributed by a selected plugin.
#[derive(Debug, PartialEq, Eq)]
pub struct ConditionFlag {
    pub name: String,
    pub value: String,
}

#[verifier::ext_equal]
pub ghost struct ConditionFlagView {
    pub name: Seq<char>,
    pub value: Seq<char>,
}

impl DeepView for ConditionFlag {
    type V = ConditionFlagView;

    open spec fn deep_view(&self) -> ConditionFlagView {
        ConditionFlagView { name: self.name@, value: self.value@ }
    }
}

/// A single flag that a dependency asks for.
#[derive(Debug, PartialEq, Eq)]
pub struct FlagDependency {
    pub flag: String,
    pub value: String,
}

#[verifier::ext_equal]
pub ghost struct FlagDependencyView {
    pub flag: Seq<char>,
    pub value: Seq<char>,
}

impl DeepView for FlagDependency {
    type V = FlagDependencyView;

    open spec fn deep_view(&self) -> FlagDependencyView {
        FlagDependencyView { flag: self.flag@, value: self.value@ }
    }
}

/// Logical operator that joins the flags of a dependency.
#[derive(Debug, Clone, Copy, PartialEq, Eq, Structural)]
pub enum DependencyOperator {
    And,
    Or,
}

/// Dependencies on flags, declared for a plugin, a step or a pattern.
#[derive(Debug, PartialEq, Eq)]
pub struct PluginDependencies {
    pub operator: DependencyOperator,
    pub flags: Vec<FlagDependency>,
}

#[verifier::ext_equal]
pub ghost struct PluginDependenciesView {
    pub operator: DependencyOperator,
    pub flags: Seq<FlagDependencyView>,
}

impl DeepView for PluginDependencies {
    type V = PluginDependenciesView;

    open spec fn deep_view(&self) -> PluginDependenciesView {
        PluginDependenciesView { operator: self.operator, flags: self.flags.deep_view() }
    }
}

/// A single selectable plugin inside a FOMOD group.
#[derive(Debug)]
pub struct FomodPlugin {
    pub name: String,
    pub description: Option<String>,
    pub image_path: Option<String>,
    pub files: Vec<FomodFile>,
    pub type_descriptor: FomodPluginType,
    pub condition_flags: Vec<ConditionFlag>,
    pub dependencies: Option<PluginDependencies>,
}

#[verifier::ext_equal]
pub ghost struct FomodPluginView {
    pub name: Seq<char>,
    pub description: Option<Seq<char>>,
    pub image_path: Option<Seq<char>>,
    pub files: Seq<FomodFileView>,
    pub type_descriptor: FomodPluginType,
    pub condition_flags: Seq<ConditionFlagView>,
    pub dependencies: Option<PluginDependenciesView>,
}

impl DeepView for FomodPlugin {
    type V = FomodPluginView;

    open spec fn deep_view(&self) -> FomodPluginView {
        FomodPluginView {
            name: self.name@,
            description: self.description.deep_view(),
            image_path: self.image_path.deep_view(),
            files: self.files.deep_view(),
            type_descriptor: self.type_descriptor,
            condition_flags: self.condition_flags.deep_view(),
            dependencies: self.dependencies.deep_view(),
        }
    }
}

/// A group of plugins that the user must choose from.
#[derive(Debug)]
pub struct FomodPluginGroup {
    pub name: String,
    pub group_type: FomodGroupType,
    pub plugins: Vec<FomodPlugin>,
}

#[verifier::ext_equal]
pub ghost struct FomodPluginGroupView {
    pub name: Seq<char>,
    pub group_type: FomodGroupType,
    pub plugins: Seq<FomodPluginView>,
}

impl DeepView for FomodPluginGroup {
    type V = FomodPluginGroupView;

    open spec fn deep_view(&self) -> FomodPluginGroupView {
        FomodPluginGroupView {
            name: self.name@,
            group_type: self.group_type,
            plugins: self.plugins.deep_view(),
        }
    }
}

/// A single install step presented in the FOMOD wizard.
#[derive(Debug)]
pub struct FomodInstallStep {
    pub name: String,
    pub visible: Option<PluginDependencies>,
    pub groups: Vec<FomodPluginGroup>,
}

#[verifier::ext_equal]
pub ghost struct FomodInstallStepView {
    pub name: Seq<char>,
    pub visible: Option<PluginDependenciesView>,
    pub groups: Seq<FomodPluginGroupView>,
}

impl DeepView for FomodInstallStep {
    type V = FomodInstallStepView;

    open spec fn deep_view(&self) -> FomodInstallStepView {
        FomodInstallStepView {
            name: self.name@,
            visible: self.visible.deep_view(),
            groups: self.groups.deep_view(),
        }
    }
}

/// Files that `<conditionalFileInstalls>` selects by flags.
#[derive(Debug)]
pub struct ConditionalFileInstall {
    pub dependencies: PluginDependencies,
    pub files: Vec<FomodFile>,
}

#[verifier::ext_equal]
pub ghost struct ConditionalFileInstallView {
    pub dependencies: PluginDependenciesView,
    pub files: Seq<FomodFileView>,
}

impl DeepView for ConditionalFileInstall {
    type V = ConditionalFileInstallView;

    open spec fn deep_view(&self) -> ConditionalFileInstallView {
        ConditionalFileInstallView {
            dependencies: self.dependencies.deep_view(),
            files: self.files.deep_view(),
        }
    }
}

/// A FOMOD configuration.
#[derive(Debug)]
pub struct FomodConfig {
    pub mod_name: Option<String>,
    pub required_files: Vec<FomodFile>,
    pub steps: Vec<FomodInstallStep>,
    pub conditional_file_installs: Vec<ConditionalFileInstall>,
}

#[verifier::ext_equal]
pub ghost struct FomodConfigView {
    pub mod_name: Option<Seq<char>>,
    pub required_files: Seq<FomodFileView>,
    pub steps: Seq<FomodInstallStepView>,
    pub conditional_file_installs: Seq<ConditionalFileInstallView>,
}

impl DeepView for FomodConfig {
    type V = FomodConfigView;

    open spec fn deep_view(&self) -> FomodConfigView {
        FomodConfigView {
            mod_name: self.mod_name.deep_view(),
            required_files: self.required_files.deep_view(),
            steps: self.steps.deep_view(),
            conditional_file_installs: self.conditional_file_installs.deep_view(),
        }
    }
}

// ── Flags ───────────────────────────────────────────────────────────────────

/// The flags that the selected plugins have set: at most one value per name.
/// Names and values are kept in lowercase.
#[derive(Debug)]
pub struct ActiveFlags {
    entries: Vec<(String, String)>,
}

/// The value of the last entry for `name`.
pub open spec fn flag_value(entries: Seq<(Seq<char>, Seq<char>)>, name: Seq<char>) -> Option<
    Seq<char>,
>
    decreases entries.len(),
{
    if entries.len() == 0 {
        None
    } else if entries.last().0 == name {
        Some(entries.last().1)
    } else {
        flag_value(entries.drop_last(), name)
    }
}

impl ActiveFlags {
    /// The flags as a map from lowercase name to lowercase value.
    pub closed spec fn flags(&self) -> Map<Seq<char>, Seq<char>> {
        Map::new(
            |name: Seq<char>| flag_value(self.entries.deep_view(), name) is Some,
            |name: Seq<char>| flag_value(self.entries.deep_view(), name)->0,
        )
    }

    /// No flag is set.
    pub fn new() -> (r: Self)
        ensures
            r.flags() == Map::<Seq<char>, Seq<char>>::empty(),
    {
        let r = ActiveFlags { entries: Vec::new() };
        assert(r.flags() =~= Map::<Seq<char>, Seq<char>>::empty());
        r
    }

    /// Sets a flag; an earlier value is replaced.
    pub fn insert(&mut self, name: String, value: String)
        ensures
            final(self).flags() == old(self).flags().insert(lowercase(name@), lowercase(value@)),
    {
        let ghost before = self.entries.deep_view();
        let ghost pair = (lowercase(name@), lowercase(value@));
        self.entries.push((to_lowercase(name.as_str()), to_lowercase(value.as_str())));
        let ghost after = self.entries.deep_view();
        proof {
            assert(after =~= before.push(pair));
            assert(after.drop_last() =~= before);
            assert(self.flags() =~= old(self).flags().insert(pair.0, pair.1));
        }
    }

    /// Clears a flag.
    pub fn remove(&mut self, name: &str)
        ensures
            final(self).flags() == old(self).flags().remove(lowercase(name@)),
    {
        let key = to_lowercase(name);
        let ghost all = self.entries.deep_view();
        let mut kept: Vec<(String, String)> = Vec::new();
        for i in 0..self.entries.len()
            invariant
                all == self.entries.deep_view(),
                forall|n: Seq<char>| #[trigger]
                    flag_value(kept.deep_view(), n) == if n == key@ {
                        None
                    } else {
                        flag_value(all.take(i as int), n)
                    },
        {
            let ghost before = kept.deep_view();
            let pair = &self.entries[i];
            let ghost pv = (pair.0@, pair.1@);
            assert(all.take(i + 1).drop_last() =~= all.take(i as int));
            assert(all.take(i + 1).last() == pv);
            if !same(pair.0.as_str(), key.as_str()) {
                kept.push((pair.0.clone(), pair.1.clone()));
                assert(kept.deep_view() =~= before.push(pv));
                assert(kept.deep_view().drop_last() =~= before);
            }
            assert forall|n: Seq<char>| #[trigger]
                flag_value(kept.deep_view(), n) == if n == key@ {
                    None
                } else {
                    flag_value(all.take(i + 1), n)
                } by {
                assert(flag_value(before, n) == if n == key@ {
                    None
                } else {
                    flag_value(all.take(i as int), n)
                });
            }
        }
        assert(all.take(all.len() as int) =~= all);
        self.entries = kept;
        assert(self.flags() =~= old(self).flags().remove(key@));
    }

    /// The value of a flag, in lowercase.
    pub fn get(&self, name: &str) -> (r: Option<&String>)
        ensures
            match r {
                Some(v) => self.flags().contains_key(lowercase(name@)) && self.flags()[lowercase(
                    name@,
                )] == v@,
                None => !self.flags().contains_key(lowercase(name@)),
            },
    {
        let key = to_lowercase(name);
        let ghost all = self.entries.deep_view();
        let mut n: usize = self.entries.len();
        assert(all.take(n as int) =~= all);
        while n > 0
            invariant
                n <= self.entries@.len(),
                all == self.entries.deep_view(),
                key@ == lowercase(name@),
                flag_value(all, key@) == flag_value(all.take(n as int), key@),
            decreases n,
        {
            assert(all.take(n as int).drop_last() =~= all.take(n - 1));
            assert(all.take(n as int).last() == (
                self.entries@[n - 1].0@,
                self.entries@[n - 1].1@,
            ));
            if same(self.entries[n - 1].0.as_str(), key.as_str()) {
                return Some(&self.entries[n - 1].1);
            }
            n -= 1;
        }
        None
    }
}

/// One flag of a dependency holds: names and values compare in lowercase.
pub open spec fn flag_holds(dep: FlagDependencyView, flags: Map<Seq<char>, Seq<char>>) -> bool {
    flags.contains_key(lowercase(dep.flag)) && flags[lowercase(dep.flag)] == lowercase(dep.value)
}

/// A dependency holds: all of its flags do, or one of them, as its operator
/// says.
pub open spec fn dependencies_hold(
    deps: PluginDependenciesView,
    flags: Map<Seq<char>, Seq<char>>,
) -> bool {
    match deps.operator {
        DependencyOperator::And => forall|i: int|
            0 <= i < deps.flags.len() ==> flag_holds(#[trigger] deps.flags[i], flags),
        DependencyOperator::Or => exists|i: int|
            0 <= i < deps.flags.len() && flag_holds(#[trigger] deps.flags[i], flags),
    }
}

impl PluginDependencies {
    /// Checks if the dependencies are satisfied given the current flags.
    ///
    /// The comparison is case-insensitive on both flag names and values.
    pub fn evaluate(&self, active_flags: &ActiveFlags) -> (r: bool)
        ensures
            r == dependencies_hold(self.deep_view(), active_flags.flags()),
    {
        let ghost deps = self.deep_view();
        let ghost flags = active_flags.flags();
        for i in 0..self.flags.len()
            invariant
                deps == self.deep_view(),
                flags == active_flags.flags(),
                forall|j: int|
                    0 <= j < i ==> (flag_holds(#[trigger] deps.flags[j], flags) <==> deps.operator
                        == DependencyOperator::And),
        {
            let dep = &self.flags[i];
            assert(deps.flags[i as int] == dep.deep_view());
            let value = to_lowercase(dep.value.as_str());
            let matched = match active_flags.get(dep.flag.as_str()) {
                Some(v) => same(v.as_str(), value.as_str()),
                None => false,
            };
            assert(matched == flag_holds(deps.flags[i as int], flags));
            match self.operator {
                DependencyOperator::And => {
                    if !matched {
                        return false;
                    }
                },
                DependencyOperator::Or => {
                    if matched {
                        return true;
                    }
                },
            }
        }
        match self.operator {
            DependencyOperator::And => true,
            DependencyOperator::Or => false,
        }
    }
}

/// Whether a dependency holds does not depend on the case of its names and
/// values.
pub proof fn dependencies_ignore_case(
    a: PluginDependenciesView,
    b: PluginDependenciesView,
    flags: Map<Seq<char>, Seq<char>>,
)
    requires
        a.operator == b.operator,
        a.flags.len() == b.flags.len(),
        forall|i: int|
            0 <= i < a.flags.len() ==> lowercase((#[trigger] a.flags[i]).flag) == lowercase(
                b.flags[i].flag,
            ) && lowercase(a.flags[i].value) == lowercase(b.flags[i].value),
    ensures
        dependencies_hold(a, flags) == dependencies_hold(b, flags),
{
    assert forall|i: int| 0 <= i < a.flags.len() implies flag_holds(#[trigger] a.flags[i], flags)
        == flag_holds(b.flags[i], flags) by {}
    if let DependencyOperator::And = a.operator {
        if dependencies_hold(a, flags) {
            assert forall|i: int| 0 <= i < b.flags.len() implies flag_holds(
                #[trigger] b.flags[i],
                flags,
            ) by {
                assert(flag_holds(a.flags[i], flags));
            }
        }
    } else {
        if dependencies_hold(b, flags) {
            let i = choose|i: int|
                0 <= i < b.flags.len() && flag_holds(#[trigger] b.flags[i], flags);
            assert(flag_holds(a.flags[i], flags));
        }
    }
}

// ── Plans ───────────────────────────────────────────────────────────────────

/// Where the files of an archive without a FOMOD configuration go.
#[derive(Debug)]
pub enum DataArchivePlan {
    /// The archive is made of BAIN packages, in these directories.
    Bain { top_dirs: Vec<String> },
    /// The files go below `Data/`, without the given prefix.
    ExtractToData { strip_prefix: String },
    /// The files go next to `Data/`, without the given prefix.
    ExtractToModRoot { strip_prefix: String },
}

#[verifier::ext_equal]
pub ghost enum DataArchivePlanView {
    Bain { top_dirs: Seq<Seq<char>> },
    ExtractToData { strip_prefix: Seq<char> },
    ExtractToModRoot { strip_prefix: Seq<char> },
}

impl DeepView for DataArchivePlan {
    type V = DataArchivePlanView;

    open spec fn deep_view(&self) -> DataArchivePlanView {
        match self {
            DataArchivePlan::Bain { top_dirs } => DataArchivePlanView::Bain {
                top_dirs: top_dirs.deep_view(),
            },
            DataArchivePlan::ExtractToData { strip_prefix } => DataArchivePlanView::ExtractToData {
                strip_prefix: strip_prefix@,
            },
            DataArchivePlan::ExtractToModRoot { strip_prefix } =>
                DataArchivePlanView::ExtractToModRoot { strip_prefix: strip_prefix@ },
        }
    }
}

// ── Link type ───────────────────────────────────────────────────────────────

/// Type of link to create when deploying files.
#[derive(Debug, Clone, Copy, PartialEq, Eq, Structural)]
pub enum LinkKind {
    /// Symbolic link (works across filesystems).
    Symlink,
    /// Hard link (same filesystem only).
    Hardlink,
}

// ── Laws ────────────────────────────────────────────────────────────────────

/// Dependencies joined by "and" hold if each of them does: one more asks for
/// one more, and those on no flag always hold.
pub proof fn conditions_ask_for_each_flag(
    deps: PluginDependenciesView,
    x: FlagDependencyView,
    flags: Map<Seq<char>, Seq<char>>,
)
    requires
        deps.operator == DependencyOperator::And,
    ensures
        deps.flags.len() == 0 ==> dependencies_hold(deps, flags),
        dependencies_hold(
            PluginDependenciesView { flags: deps.flags.push(x), ..deps },
            flags,
        ) <==> dependencies_hold(deps, flags) && flag_holds(x, flags),
{
    let more = PluginDependenciesView { flags: deps.flags.push(x), ..deps };
    let n = deps.flags.len() as int;
    assert(more.flags[n] == x);
    if dependencies_hold(more, flags) {
        assert forall|i: int| 0 <= i < n implies flag_holds(#[trigger] deps.flags[i], flags) by {
            assert(more.flags[i] == deps.flags[i]);
        }
        assert(flag_holds(more.flags[n], flags));
    }
    if dependencies_hold(deps, flags) && flag_holds(x, flags) {
        assert forall|i: int| 0 <= i < more.flags.len() implies flag_holds(
            #[trigger] more.flags[i],
            flags,
        ) by {
            if i < n {
                assert(more.flags[i] == deps.flags[i]);
            }
        }
    }
}

/// Dependencies joined by "or" hold if one of them does: one more is one more
/// way to hold, and those on no flag never hold.
pub proof fn alternatives_ask_for_one_flag(
    deps: PluginDependenciesView,
    x: FlagDependencyView,
    flags: Map<Seq<char>, Seq<char>>,
)
    requires
        deps.operator == DependencyOperator::Or,
    ensures
        deps.flags.len() == 0 ==> !dependencies_hold(deps, flags),
        dependencies_hold(
            PluginDependenciesView { flags: deps.flags.push(x), ..deps },
            flags,
        ) <==> dependencies_hold(deps, flags) || flag_holds(x, flags),
{
    let more = PluginDependenciesView { flags: deps.flags.push(x), ..deps };
    let n = deps.flags.len() as int;
    assert(more.flags[n] == x);
    if dependencies_hold(deps, flags) {
        let i = choose|i: int| 0 <= i < n && flag_holds(#[trigger] deps.flags[i], flags);
        assert(more.flags[i] == deps.flags[i]);
        assert(flag_holds(more.flags[i], flags));
    }
    if flag_holds(x, flags) {
        assert(flag_holds(more.flags[n], flags));
    }
    if dependencies_hold(more, flags) && !flag_holds(x, flags) {
        let i = choose|i: int| 0 <= i < more.flags.len() && flag_holds(#[trigger] more.flags[i], flags);
        assert(more.flags[i] == deps.flags[i]);
    }
}

/// A flag is compared without regard to case: it holds if what is set under its
/// name in lowercase is its value in lowercase, and not if nothing is set.
pub proof fn flags_are_compared_in_any_case(
    dep: FlagDependencyView,
    flags: Map<Seq<char>, Seq<char>>,
)
    requires
        all_ascii(dep.flag),
        all_ascii(dep.value),
    ensures
        flag_holds(dep, flags) <==> flags.contains_key(ascii_lowercase(dep.flag))
            && flags[ascii_lowercase(dep.flag)] == ascii_lowercase(dep.value),
{
}

/// Of two values for a flag the later one counts.
pub proof fn later_flag_values_count(
    entries: Seq<(Seq<char>, Seq<char>)>,
    name: Seq<char>,
    i: int,
)
    ensures
        0 <= i < entries.len() && entries[i].0 == name && (forall|j: int|
            i < j < entries.len() ==> (#[trigger] entries[j]).0 != name) ==> flag_value(
            entries,
            name,
        ) == Some(entries[i].1),
        (forall|j: int| 0 <= j < entries.len() ==> (#[trigger] entries[j]).0 != name)
            ==> flag_value(entries, name) is None,
    decreases entries.len(),
{
    if entries.len() > 0 && entries.last().0 != name {
        let rest = entries.drop_last();
        later_flag_values_count(rest, name, i);
        assert(forall|j: int| 0 <= j < rest.len() ==> #[trigger] rest[j] == entries[j]);
    }
}

} // verus!
