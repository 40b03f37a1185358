//! How a FOMOD configuration is written as a document, and that it is read back.
use vstd::prelude::*;

use crate::installer::parser::{
    after_event, after_events, attribute, config_of_events, declared_file, declared_group_type,
    declared_operator, end_index, initial_parser, no_dependencies, FomodParserView,
};
use crate::installer::types::{
    ConditionFlagView, ConditionalFileInstallView, DependencyOperator, FlagDependencyView,
    FomodConfigView, FomodFileView, FomodGroupType, FomodInstallStepView, FomodPluginGroupView,
    FomodPluginType, FomodPluginView, PluginDependenciesView,
};
use crate::installer::xml::{XmlElementView, XmlEventView};
use crate::number::{numbers_are_read_back, signed_decimal};
use crate::text::{all_ascii, ascii_lower, ascii_lowercase, is_ascii_char, lowercase};

verus! {

// ── Attributes ──────────────────────────────────────────────────────────────

/// The attribute at `i` is the first with the given name.
pub open spec fn is_first_named(
    attributes: Seq<(Seq<char>, Seq<char>)>,
    name: Seq<char>,
    i: int,
) -> bool {
    &&& 0 <= i < attributes.len()
    &&& attributes[i].0 == name
    &&& forall|j: int| 0 <= j < i ==> (#[trigger] attributes[j]).0 != name
}

/// No attribute has the given name.
pub open spec fn none_named(attributes: Seq<(Seq<char>, Seq<char>)>, name: Seq<char>) -> bool {
    forall|j: int| 0 <= j < attributes.len() ==> (#[trigger] attributes[j]).0 != name
}

/// An attribute's value is that of the first attribute with its name.
pub proof fn first_attribute_of_a_name_counts(
    attributes: Seq<(Seq<char>, Seq<char>)>,
    name: Seq<char>,
    i: int,
)
    ensures
        is_first_named(attributes, name, i) ==> attribute(attributes, name) == Some(
            attributes[i].1,
        ),
        none_named(attributes, name) ==> attribute(attributes, name) is None,
    decreases attributes.len(),
{
    if attributes.len() > 0 && attributes[0].0 != name {
        let rest = attributes.skip(1);
        first_attribute_of_a_name_counts(rest, name, i - 1);
        if is_first_named(attributes, name, i) {
            assert(i > 0);
            assert forall|j: int| 0 <= j < i - 1 implies (#[trigger] rest[j]).0 != name by {
                assert(rest[j] == attributes[j + 1]);
            }
            assert(rest[i - 1] == attributes[i]);
        }
        if none_named(attributes, name) {
            assert forall|j: int| 0 <= j < rest.len() implies (#[trigger] rest[j]).0 != name by {
                assert(rest[j] == attributes[j + 1]);
            }
        }
    }
}

/// The text is the word, whatever the case of its letters.
pub open spec fn is_word(s: Seq<char>, word: Seq<char>) -> bool {
    ascii_lowercase(s) == word
}

/// What is a lowercase ASCII word up to case has it as its lowercase form, and
/// another ASCII text has not.
proof fn lemma_word(s: Seq<char>, word: Seq<char>)
    requires
        all_ascii(word),
    ensures
        is_word(s, word) ==> lowercase(s) == word && all_ascii(s),
        all_ascii(s) && !is_word(s, word) ==> lowercase(s) != word,
{
    if is_word(s, word) {
        assert(ascii_lowercase(s).len() == s.len());
        assert forall|i: int| 0 <= i < s.len() implies is_ascii_char(#[trigger] s[i]) by {
            assert(ascii_lowercase(s)[i] == ascii_lower(s[i]));
            assert(is_ascii_char(word[i]));
        }
    }
}

/// The dependencies that a tag has opened: those of the pattern, the step's
/// condition or the plugin that is being read.
pub open spec fn opened_dependencies(s: FomodParserView) -> Option<PluginDependenciesView> {
    if s.in_pattern {
        s.pattern_dependencies
    } else if s.in_visible {
        match s.step {
            Some(step) => step.visible,
            None => None,
        }
    } else {
        match s.plugin {
            Some(p) => p.dependencies,
            None => None,
        }
    }
}

/// Dependencies can be opened: something is being read that can have them.
pub open spec fn may_depend(s: FomodParserView) -> bool {
    s.in_pattern || (s.in_visible && s.step is Some) || (!s.in_visible && s.plugin is Some)
}

/// A dependencies tag whose attribute `operator` is "or", in whatever case,
/// opens dependencies that ask for one of their flags.
pub proof fn operator_or_opens_alternatives(s: FomodParserView, e: XmlElementView, i: int)
    requires
        is_word(e.name, seq!['d', 'e', 'p', 'e', 'n', 'd', 'e', 'n', 'c', 'i', 'e', 's']),
        is_first_named(e.attributes, seq!['o', 'p', 'e', 'r', 'a', 't', 'o', 'r'], i),
        is_word(e.attributes[i].1, seq!['o', 'r']),
        may_depend(s),
    ensures
        ({
            let opened = Some(
                PluginDependenciesView { operator: DependencyOperator::Or, flags: Seq::empty() },
            );
            &&& opened_dependencies(after_event(s, XmlEventView::Start(e))) == opened
            &&& opened_dependencies(after_event(s, XmlEventView::Empty(e))) == opened
        }),
{
    reveal_strlit("operator");
    reveal_strlit("or");
    assert("operator"@ =~= seq!['o', 'p', 'e', 'r', 'a', 't', 'o', 'r']);
    assert("or"@ =~= seq!['o', 'r']);
    first_attribute_of_a_name_counts(e.attributes, "operator"@, i);
    lemma_word(e.attributes[i].1, "or"@);
    lemma_dependencies_tag(s, e);
}

/// A dependencies tag whose attribute `operator` is anything else, or that has
/// none, opens dependencies that ask for all of their flags.
pub proof fn other_operators_open_conditions(s: FomodParserView, e: XmlElementView, i: int)
    requires
        is_word(e.name, seq!['d', 'e', 'p', 'e', 'n', 'd', 'e', 'n', 'c', 'i', 'e', 's']),
        none_named(e.attributes, seq!['o', 'p', 'e', 'r', 'a', 't', 'o', 'r']) || (is_first_named(
            e.attributes,
            seq!['o', 'p', 'e', 'r', 'a', 't', 'o', 'r'],
            i,
        ) && all_ascii(e.attributes[i].1) && !is_word(e.attributes[i].1, seq!['o', 'r'])),
        may_depend(s),
    ensures
        ({
            let opened = Some(
                PluginDependenciesView { operator: DependencyOperator::And, flags: Seq::empty() },
            );
            &&& opened_dependencies(after_event(s, XmlEventView::Start(e))) == opened
            &&& opened_dependencies(after_event(s, XmlEventView::Empty(e))) == opened
        }),
{
    reveal_strlit("operator");
    reveal_strlit("or");
    reveal_strlit("And");
    assert("operator"@ =~= seq!['o', 'p', 'e', 'r', 'a', 't', 'o', 'r']);
    assert("or"@ =~= seq!['o', 'r']);
    first_attribute_of_a_name_counts(e.attributes, "operator"@, i);
    if none_named(e.attributes, "operator"@) {
        assert(ascii_lowercase("And"@).len() == 3);
        lemma_word("And"@, "or"@);
    } else {
        lemma_word(e.attributes[i].1, "or"@);
    }
    lemma_dependencies_tag(s, e);
}

proof fn lemma_dependencies_tag(s: FomodParserView, e: XmlElementView)
    requires
        is_word(e.name, seq!['d', 'e', 'p', 'e', 'n', 'd', 'e', 'n', 'c', 'i', 'e', 's']),
        may_depend(s),
    ensures
        ({
            let opened = Some(
                PluginDependenciesView {
                    operator: declared_operator(e.attributes),
                    flags: Seq::empty(),
                },
            );
            &&& opened_dependencies(after_event(s, XmlEventView::Start(e))) == opened
            &&& opened_dependencies(after_event(s, XmlEventView::Empty(e))) == opened
        }),
{
    lemma_tags();
    lemma_word(e.name, "dependencies"@);
    assert("dependencies"@ =~= seq![
        'd', 'e', 'p', 'e', 'n', 'd', 'e', 'n', 'c', 'i', 'e', 's',
    ]);
}

/// The names of tags differ.
#[verifier::rlimit(60)]
proof fn lemma_tags()
    ensures
        "requiredinstallfiles"@.len() == 20,
        "installstep"@.len() == 11,
        "visible"@.len() == 7,
        "pattern"@.len() == 7,
        "group"@.len() == 5,
        "plugin"@.len() == 6,
        "flag"@.len() == 4,
        "file"@.len() == 4,
        "folder"@.len() == 6,
        "type"@.len() == 4,
        "dependencies"@.len() == 12,
        "image"@.len() == 5,
        "flagdependency"@.len() == 14,
        "modulename"@.len() == 10,
        "description"@.len() == 11,
        "files"@.len() == 5,
        "plugins"@.len() == 7,
        "conditionflags"@.len() == 14,
        "typedescriptor"@.len() == 14,
        "optionalfilegroups"@.len() == 18,
        "installsteps"@.len() == 12,
        "conditionalfileinstalls"@.len() == 23,
        "patterns"@.len() == 8,
        "flag"@ != "file"@,
        "flag"@ != "type"@,
        "file"@ != "type"@,
        "group"@ != "image"@,
        "group"@ != "files"@,
        "image"@ != "files"@,
        "plugin"@ != "folder"@,
        "visible"@ != "pattern"@,
        "visible"@ != "plugins"@,
        "pattern"@ != "plugins"@,
        "installstep"@ != "description"@,
        "dependencies"@ != "installsteps"@,
        "flagdependency"@ != "conditionflags"@,
        "flagdependency"@ != "typedescriptor"@,
        "conditionflags"@ != "typedescriptor"@,
        "dependencies"@ == seq!['d', 'e', 'p', 'e', 'n', 'd', 'e', 'n', 'c', 'i', 'e', 's'],
        all_ascii("dependencies"@),
{
    reveal_strlit("requiredinstallfiles");
    reveal_strlit("installstep");
    reveal_strlit("visible");
    reveal_strlit("pattern");
    reveal_strlit("group");
    reveal_strlit("plugin");
    reveal_strlit("flag");
    reveal_strlit("file");
    reveal_strlit("folder");
    reveal_strlit("type");
    reveal_strlit("dependencies");
    reveal_strlit("image");
    reveal_strlit("flagdependency");
    reveal_strlit("modulename");
    reveal_strlit("description");
    reveal_strlit("files");
    reveal_strlit("plugins");
    reveal_strlit("conditionflags");
    reveal_strlit("typedescriptor");
    reveal_strlit("optionalfilegroups");
    reveal_strlit("installsteps");
    reveal_strlit("conditionalfileinstalls");
    reveal_strlit("patterns");
    assert("flag"@[1] != "file"@[1]);
    assert("flag"@[0] != "type"@[0]);
    assert("file"@[0] != "type"@[0]);
    assert("group"@[0] != "image"@[0]);
    assert("group"@[0] != "files"@[0]);
    assert("image"@[0] != "files"@[0]);
    assert("plugin"@[0] != "folder"@[0]);
    assert("visible"@[0] != "pattern"@[0]);
    assert("visible"@[0] != "plugins"@[0]);
    assert("pattern"@[1] != "plugins"@[1]);
    assert("installstep"@[0] != "description"@[0]);
    assert("dependencies"@[0] != "installsteps"@[0]);
    assert("flagdependency"@[0] != "conditionflags"@[0]);
    assert("flagdependency"@[0] != "typedescriptor"@[0]);
    assert("conditionflags"@[0] != "typedescriptor"@[0]);
    assert("dependencies"@ =~= seq![
        'd', 'e', 'p', 'e', 'n', 'd', 'e', 'n', 'c', 'i', 'e', 's',
    ]);
}

/// The case of a tag's name does not matter.
pub proof fn tags_are_read_in_any_case(s: FomodParserView, e: XmlElementView, f: XmlElementView)
    requires
        all_ascii(e.name),
        all_ascii(f.name),
        ascii_lowercase(e.name) == ascii_lowercase(f.name),
        e.attributes == f.attributes,
    ensures
        after_event(s, XmlEventView::Start(e)) == after_event(s, XmlEventView::Start(f)),
        after_event(s, XmlEventView::Empty(e)) == after_event(s, XmlEventView::Empty(f)),
        after_event(s, XmlEventView::End(e.name)) == after_event(s, XmlEventView::End(f.name)),
{
}

/// Comments and declarations change nothing.
pub proof fn other_events_change_nothing(events: Seq<XmlEventView>, k: int)
    requires
        0 <= k <= events.len(),
    ensures
        after_events(events.insert(k, XmlEventView::Other)) == after_events(events),
    decreases events.len(),
{
    let more = events.insert(k, XmlEventView::Other);
    if k == events.len() {
        assert(more.drop_last() =~= events);
    } else {
        other_events_change_nothing(events.drop_last(), k);
        assert(more.drop_last() =~= events.drop_last().insert(k, XmlEventView::Other));
        assert(more.last() == events.last());
    }
}

// ── Writing a configuration ─────────────────────────────────────────────────

pub open spec fn opening(name: Seq<char>) -> XmlEventView {
    XmlEventView::Start(XmlElementView { name, attributes: Seq::empty() })
}

pub open spec fn opening_with(
    name: Seq<char>,
    attributes: Seq<(Seq<char>, Seq<char>)>,
) -> XmlEventView {
    XmlEventView::Start(XmlElementView { name, attributes })
}

pub open spec fn single(name: Seq<char>, attributes: Seq<(Seq<char>, Seq<char>)>) -> XmlEventView {
    XmlEventView::Empty(XmlElementView { name, attributes })
}

pub open spec fn closing(name: Seq<char>) -> XmlEventView {
    XmlEventView::End(name)
}

/// An element with the given content.
pub open spec fn element(name: Seq<char>, content: Seq<XmlEventView>) -> Seq<XmlEventView> {
    seq![opening(name)] + content + seq![closing(name)]
}

/// The parts one after another.
pub open spec fn gathered(parts: Seq<Seq<XmlEventView>>) -> Seq<XmlEventView>
    decreases parts.len(),
{
    if parts.len() == 0 {
        Seq::empty()
    } else {
        gathered(parts.drop_last()) + parts.last()
    }
}

pub open spec fn file_events(f: FomodFileView) -> Seq<XmlEventView> {
    seq![
        single(
            "file"@,
            seq![
                ("source"@, f.source),
                ("destination"@, f.destination),
                ("priority"@, signed_decimal(f.priority)),
            ],
        ),
    ]
}

pub open spec fn files_events(files: Seq<FomodFileView>) -> Seq<XmlEventView> {
    gathered(files.map_values(|f: FomodFileView| file_events(f)))
}

pub open spec fn flag_dependency_events(d: FlagDependencyView) -> Seq<XmlEventView> {
    seq![single("flagdependency"@, seq![("flag"@, d.flag), ("value"@, d.value)])]
}

/// Dependencies; none if they ask for no flag.
pub open spec fn dependencies_events(d: PluginDependenciesView) -> Seq<XmlEventView> {
    if d.flags.len() == 0 {
        Seq::empty()
    } else {
        seq![
            opening_with(
                "dependencies"@,
                seq![
                    (
                        "operator"@,
                        match d.operator {
                            DependencyOperator::And => "And"@,
                            DependencyOperator::Or => "Or"@,
                        },
                    ),
                ],
            ),
        ] + gathered(d.flags.map_values(|x: FlagDependencyView| flag_dependency_events(x))) + seq![
            closing("dependencies"@),
        ]
    }
}

pub open spec fn condition_flag_events(c: ConditionFlagView) -> Seq<XmlEventView> {
    seq![
        opening_with("flag"@, seq![("name"@, c.name)]),
        XmlEventView::Text(c.value),
        closing("flag"@),
    ]
}

pub open spec fn text_events(name: Seq<char>, text: Option<Seq<char>>) -> Seq<XmlEventView> {
    match text {
        Some(t) => seq![opening(name), XmlEventView::Text(t), closing(name)],
        None => Seq::empty(),
    }
}

pub open spec fn plugin_type_name(t: FomodPluginType) -> Seq<char> {
    match t {
        FomodPluginType::Required => "Required"@,
        FomodPluginType::Recommended => "Recommended"@,
        FomodPluginType::Optional => "Optional"@,
        FomodPluginType::NotUsable => "NotUsable"@,
    }
}

pub open spec fn group_type_name(t: FomodGroupType) -> Seq<char> {
    match t {
        FomodGroupType::SelectAtLeastOne => "SelectAtLeastOne"@,
        FomodGroupType::SelectAtMostOne => "SelectAtMostOne"@,
        FomodGroupType::SelectExactlyOne => "SelectExactlyOne"@,
        FomodGroupType::SelectAll => "SelectAll"@,
        FomodGroupType::SelectAny => "SelectAny"@,
    }
}

pub open spec fn plugin_events(p: FomodPluginView) -> Seq<XmlEventView> {
    seq![opening_with("plugin"@, seq![("name"@, p.name)])] + text_events(
        "description"@,
        p.description,
    ) + (match p.image_path {
        Some(i) => seq![single("image"@, seq![("path"@, i)])],
        None => Seq::empty(),
    }) + element("files"@, files_events(p.files)) + element(
        "conditionflags"@,
        gathered(p.condition_flags.map_values(|c: ConditionFlagView| condition_flag_events(c))),
    ) + (match p.dependencies {
        Some(d) => dependencies_events(d),
        None => Seq::empty(),
    }) + element(
        "typedescriptor"@,
        seq![single("type"@, seq![("name"@, plugin_type_name(p.type_descriptor))])],
    ) + seq![closing("plugin"@)]
}

pub open spec fn group_events(g: FomodPluginGroupView) -> Seq<XmlEventView> {
    seq![
        opening_with(
            "group"@,
            seq![("name"@, g.name), ("type"@, group_type_name(g.group_type))],
        ),
    ] + element(
        "plugins"@,
        gathered(g.plugins.map_values(|p: FomodPluginView| plugin_events(p))),
    ) + seq![closing("group"@)]
}

pub open spec fn step_events(s: FomodInstallStepView) -> Seq<XmlEventView> {
    seq![opening_with("installstep"@, seq![("name"@, s.name)])] + (match s.visible {
        Some(d) => element("visible"@, dependencies_events(d)),
        None => Seq::empty(),
    }) + element(
        "optionalfilegroups"@,
        gathered(s.groups.map_values(|g: FomodPluginGroupView| group_events(g))),
    ) + seq![closing("installstep"@)]
}

pub open spec fn pattern_events(c: ConditionalFileInstallView) -> Seq<XmlEventView> {
    element(
        "pattern"@,
        dependencies_events(c.dependencies) + element("files"@, files_events(c.files)),
    )
}

/// The events of a document that holds the configuration.
pub open spec fn config_events(c: FomodConfigView) -> Seq<XmlEventView> {
    text_events("modulename"@, c.mod_name) + element(
        "requiredinstallfiles"@,
        files_events(c.required_files),
    ) + element(
        "installsteps"@,
        gathered(c.steps.map_values(|s: FomodInstallStepView| step_events(s))),
    ) + element(
        "conditionalfileinstalls"@,
        element(
            "patterns"@,
            gathered(
                c.conditional_file_installs.map_values(
                    |p: ConditionalFileInstallView| pattern_events(p),
                ),
            ),
        ),
    )
}

// What a document can hold.
pub open spec fn may_be_file(f: FomodFileView) -> bool {
    i32::MIN <= f.priority <= i32::MAX
}

pub open spec fn may_be_files(files: Seq<FomodFileView>) -> bool {
    forall|i: int| 0 <= i < files.len() ==> may_be_file(#[trigger] files[i])
}

/// Each flag has a name, and dependencies on no flag are those on all of none.
pub open spec fn may_be_dependencies(d: PluginDependenciesView) -> bool {
    &&& forall|i: int| 0 <= i < d.flags.len() ==> (#[trigger] d.flags[i]).flag.len() > 0
    &&& d.flags.len() == 0 ==> d.operator == DependencyOperator::And
}

pub open spec fn may_be_text(t: Option<Seq<char>>) -> bool {
    match t {
        Some(s) => s.len() > 0,
        None => true,
    }
}

pub open spec fn may_be_optional(d: Option<PluginDependenciesView>) -> bool {
    match d {
        Some(x) => may_be_dependencies(x) && x.flags.len() > 0,
        None => true,
    }
}

pub open spec fn may_be_plugin(p: FomodPluginView) -> bool {
    &&& may_be_text(p.description)
    &&& may_be_files(p.files)
    &&& forall|i: int|
        0 <= i < p.condition_flags.len() ==> (#[trigger] p.condition_flags[i]).value.len() > 0
    &&& may_be_optional(p.dependencies)
}

pub open spec fn may_be_group(g: FomodPluginGroupView) -> bool {
    forall|i: int| 0 <= i < g.plugins.len() ==> may_be_plugin(#[trigger] g.plugins[i])
}

pub open spec fn may_be_step(s: FomodInstallStepView) -> bool {
    &&& may_be_optional(s.visible)
    &&& forall|i: int| 0 <= i < s.groups.len() ==> may_be_group(#[trigger] s.groups[i])
}

pub open spec fn may_be_pattern(c: ConditionalFileInstallView) -> bool {
    may_be_dependencies(c.dependencies) && may_be_files(c.files) && c.files.len() > 0
}

pub open spec fn may_be_config(c: FomodConfigView) -> bool {
    &&& may_be_text(c.mod_name)
    &&& may_be_files(c.required_files)
    &&& forall|i: int| 0 <= i < c.steps.len() ==> may_be_step(#[trigger] c.steps[i])
    &&& forall|i: int|
        0 <= i < c.conditional_file_installs.len() ==> may_be_pattern(
            #[trigger] c.conditional_file_installs[i],
        )
}

// ── Reading it back ─────────────────────────────────────────────────────────

spec fn run(s: FomodParserView, events: Seq<XmlEventView>) -> FomodParserView
    decreases events.len(),
{
    if events.len() == 0 {
        s
    } else {
        after_event(run(s, events.drop_last()), events.last())
    }
}

proof fn lemma_run_on(s: FomodParserView, a: Seq<XmlEventView>, b: Seq<XmlEventView>)
    ensures
        run(s, a + b) == run(run(s, a), b),
    decreases b.len(),
{
    if b.len() == 0 {
        assert(a + b =~= a);
    } else {
        lemma_run_on(s, a, b.drop_last());
        assert((a + b).drop_last() =~= a + b.drop_last());
        assert((a + b).last() == b.last());
    }
}

proof fn lemma_run_one(s: FomodParserView, e: XmlEventView)
    ensures
        run(s, seq![e]) == after_event(s, e),
{
    assert(seq![e].drop_last() =~= Seq::empty());
    assert(seq![e].last() == e);
    reveal_with_fuel(run, 2);
}

proof fn lemma_run_gathered(s: FomodParserView, parts: Seq<Seq<XmlEventView>>, n: int)
    requires
        0 <= n < parts.len(),
    ensures
        run(s, gathered(parts.take(n + 1))) == run(run(s, gathered(parts.take(n))), parts[n]),
{
    let t = parts.take(n + 1);
    assert(t.drop_last() =~= parts.take(n));
    assert(t.last() == parts[n]);
    lemma_run_on(s, gathered(parts.take(n)), parts[n]);
}

proof fn lemma_run_all(events: Seq<XmlEventView>)
    ensures
        after_events(events) == run(initial_parser(), events),
    decreases events.len(),
{
    if events.len() > 0 {
        lemma_run_all(events.drop_last());
    }
}

/// A tag in lowercase is its own lowercase form.
proof fn lemma_lower(s: Seq<char>)
    requires
        forall|i: int| 0 <= i < s.len() ==> 'a' <= #[trigger] s[i] <= 'z',
    ensures
        lowercase(s) == s,
{
    assert(ascii_lowercase(s) =~= s);
    assert(all_ascii(s));
}

proof fn lemma_lower_tags()
    ensures
        lowercase("requiredinstallfiles"@) == "requiredinstallfiles"@,
        lowercase("installstep"@) == "installstep"@,
        lowercase("visible"@) == "visible"@,
        lowercase("pattern"@) == "pattern"@,
        lowercase("group"@) == "group"@,
        lowercase("plugin"@) == "plugin"@,
        lowercase("flag"@) == "flag"@,
        lowercase("file"@) == "file"@,
        lowercase("type"@) == "type"@,
        lowercase("dependencies"@) == "dependencies"@,
        lowercase("image"@) == "image"@,
        lowercase("flagdependency"@) == "flagdependency"@,
        lowercase("modulename"@) == "modulename"@,
        lowercase("description"@) == "description"@,
        lowercase("files"@) == "files"@,
        lowercase("plugins"@) == "plugins"@,
        lowercase("conditionflags"@) == "conditionflags"@,
        lowercase("typedescriptor"@) == "typedescriptor"@,
        lowercase("optionalfilegroups"@) == "optionalfilegroups"@,
        lowercase("installsteps"@) == "installsteps"@,
        lowercase("conditionalfileinstalls"@) == "conditionalfileinstalls"@,
        lowercase("patterns"@) == "patterns"@,
{
    reveal_strlit("requiredinstallfiles");
    lemma_lower("requiredinstallfiles"@);
    reveal_strlit("installstep");
    lemma_lower("installstep"@);
    reveal_strlit("visible");
    lemma_lower("visible"@);
    reveal_strlit("pattern");
    lemma_lower("pattern"@);
    reveal_strlit("group");
    lemma_lower("group"@);
    reveal_strlit("plugin");
    lemma_lower("plugin"@);
    reveal_strlit("flag");
    lemma_lower("flag"@);
    reveal_strlit("file");
    lemma_lower("file"@);
    reveal_strlit("type");
    lemma_lower("type"@);
    reveal_strlit("dependencies");
    lemma_lower("dependencies"@);
    reveal_strlit("image");
    lemma_lower("image"@);
    reveal_strlit("flagdependency");
    lemma_lower("flagdependency"@);
    reveal_strlit("modulename");
    lemma_lower("modulename"@);
    reveal_strlit("description");
    lemma_lower("description"@);
    reveal_strlit("files");
    lemma_lower("files"@);
    reveal_strlit("plugins");
    lemma_lower("plugins"@);
    reveal_strlit("conditionflags");
    lemma_lower("conditionflags"@);
    reveal_strlit("typedescriptor");
    lemma_lower("typedescriptor"@);
    reveal_strlit("optionalfilegroups");
    lemma_lower("optionalfilegroups"@);
    reveal_strlit("installsteps");
    lemma_lower("installsteps"@);
    reveal_strlit("conditionalfileinstalls");
    lemma_lower("conditionalfileinstalls"@);
    reveal_strlit("patterns");
    lemma_lower("patterns"@);
}

/// A tag that only holds others changes nothing but the path while it is open.
spec fn is_frame(name: Seq<char>) -> bool {
    ||| name == "files"@
    ||| name == "plugins"@
    ||| name == "conditionflags"@
    ||| name == "typedescriptor"@
    ||| name == "optionalfilegroups"@
    ||| name == "installsteps"@
    ||| name == "conditionalfileinstalls"@
    ||| name == "patterns"@
}

spec fn within(s: FomodParserView, name: Seq<char>) -> FomodParserView {
    FomodParserView { path: s.path.push(name), ..s }
}

/// A frame whose content turns `within(s, name)` into `within(t, name)` turns
/// `s` into `t`, with the text since the last tag forgotten.
proof fn lemma_frame(
    s: FomodParserView,
    name: Seq<char>,
    content: Seq<XmlEventView>,
    t: FomodParserView,
)
    requires
        is_frame(name),
        run(within(s, name), content) == within(t, name),
    ensures
        run(s, element(name, content)) == (FomodParserView { text: Seq::empty(), ..t }),
{
    lemma_tags();
    lemma_lower_tags();
    let open = seq![opening(name)];
    let close = seq![closing(name)];
    lemma_run_on(s, open + content, close);
    lemma_run_on(s, open, content);
    lemma_run_one(s, opening(name));
    assert(after_event(s, opening(name)) == within(s, name));
    lemma_run_one(within(t, name), closing(name));
    assert(within(t, name).path.drop_last() =~= t.path);
}

// Files.
proof fn lemma_file_tag(s: FomodParserView, f: FomodFileView)
    requires
        may_be_file(f),
    ensures
        run(s, file_events(f)) == crate::installer::parser::with_file(s, f),
{
    lemma_tags();
    lemma_lower_tags();
    reveal_strlit("source");
    reveal_strlit("destination");
    reveal_strlit("priority");
    let attributes = seq![
        ("source"@, f.source),
        ("destination"@, f.destination),
        ("priority"@, signed_decimal(f.priority)),
    ];
    assert("source"@.len() == 6 && "destination"@.len() == 11 && "priority"@.len() == 8);
    first_attribute_of_a_name_counts(attributes, "source"@, 0);
    first_attribute_of_a_name_counts(attributes, "destination"@, 1);
    first_attribute_of_a_name_counts(attributes, "priority"@, 2);
    numbers_are_read_back(f.priority);
    assert(declared_file(attributes) == f);
    lemma_run_one(s, single("file"@, attributes));
    assert(file_events(f) =~= seq![single("file"@, attributes)]);
}

proof fn lemma_files(s: FomodParserView, files: Seq<FomodFileView>, n: int)
    requires
        0 <= n <= files.len(),
        may_be_files(files),
    ensures
        ({
            let t = run(
                s,
                gathered(files.map_values(|f: FomodFileView| file_events(f)).take(n)),
            );
            &&& s.in_pattern ==> t == (FomodParserView {
                pattern_files: s.pattern_files + files.take(n),
                ..s
            })
            &&& !s.in_pattern && s.in_required && s.plugin is None ==> t == (FomodParserView {
                config: FomodConfigView {
                    required_files: s.config.required_files + files.take(n),
                    ..s.config
                },
                ..s
            })
            &&& !s.in_pattern && s.plugin is Some ==> t == (FomodParserView {
                plugin: Some(
                    FomodPluginView {
                        files: s.plugin->0.files + files.take(n),
                        ..s.plugin->0
                    },
                ),
                ..s
            })
        }),
    decreases n,
{
    let parts = files.map_values(|f: FomodFileView| file_events(f));
    if n == 0 {
        assert(parts.take(0) =~= Seq::empty());
        assert(s.pattern_files + files.take(0) =~= s.pattern_files);
        assert(s.config.required_files + files.take(0) =~= s.config.required_files);
        if s.plugin is Some {
            assert(s.plugin->0.files + files.take(0) =~= s.plugin->0.files);
        }
    } else {
        lemma_files(s, files, n - 1);
        lemma_run_gathered(s, parts, n - 1);
        let before = run(s, gathered(parts.take(n - 1)));
        assert(parts[n - 1] == file_events(files[n - 1]));
        lemma_file_tag(before, files[n - 1]);
        let more = files.take(n - 1).push(files[n - 1]);
        assert(more =~= files.take(n));
        assert(s.pattern_files + more =~= (s.pattern_files + files.take(n - 1)).push(
            files[n - 1],
        ));
        assert(s.config.required_files + more =~= (s.config.required_files + files.take(
            n - 1,
        )).push(files[n - 1]));
        if s.plugin is Some {
            assert(s.plugin->0.files + more =~= (s.plugin->0.files + files.take(n - 1)).push(
                files[n - 1],
            ));
        }
    }
}

proof fn lemma_all_files(s: FomodParserView, files: Seq<FomodFileView>)
    requires
        may_be_files(files),
    ensures
        ({
            let t = run(s, files_events(files));
            &&& s.in_pattern ==> t == (FomodParserView {
                pattern_files: s.pattern_files + files,
                ..s
            })
            &&& !s.in_pattern && s.in_required && s.plugin is None ==> t == (FomodParserView {
                config: FomodConfigView {
                    required_files: s.config.required_files + files,
                    ..s.config
                },
                ..s
            })
            &&& !s.in_pattern && s.plugin is Some ==> t == (FomodParserView {
                plugin: Some(
                    FomodPluginView { files: s.plugin->0.files + files, ..s.plugin->0 },
                ),
                ..s
            })
        }),
{
    let parts = files.map_values(|f: FomodFileView| file_events(f));
    lemma_files(s, files, files.len() as int);
    assert(parts.take(files.len() as int) =~= parts);
    assert(files.take(files.len() as int) =~= files);
}


// Dependencies.
spec fn depending(s: FomodParserView, d: PluginDependenciesView) -> FomodParserView {
    if s.in_pattern {
        FomodParserView { pattern_dependencies: Some(d), ..s }
    } else if s.in_visible {
        FomodParserView {
            step: Some(FomodInstallStepView { visible: Some(d), ..s.step->0 }),
            ..s
        }
    } else {
        FomodParserView {
            plugin: Some(FomodPluginView { dependencies: Some(d), ..s.plugin->0 }),
            ..s
        }
    }
}

proof fn lemma_flag_dependency(
    s: FomodParserView,
    d: PluginDependenciesView,
    x: FlagDependencyView,
)
    requires
        may_depend(s),
        x.flag.len() > 0,
    ensures
        run(depending(s, d), flag_dependency_events(x)) == depending(
            s,
            PluginDependenciesView { flags: d.flags.push(x), ..d },
        ),
{
    lemma_tags();
    lemma_lower_tags();
    reveal_strlit("value");
    let attributes = seq![("flag"@, x.flag), ("value"@, x.value)];
    assert("value"@.len() == 5);
    first_attribute_of_a_name_counts(attributes, "flag"@, 0);
    first_attribute_of_a_name_counts(attributes, "value"@, 1);
    lemma_run_one(depending(s, d), single("flagdependency"@, attributes));
}

proof fn lemma_flag_dependencies(s: FomodParserView, d: PluginDependenciesView, n: int)
    requires
        may_depend(s),
        may_be_dependencies(d),
        0 <= n <= d.flags.len(),
    ensures
        run(
            depending(
                s,
                PluginDependenciesView { operator: d.operator, flags: Seq::empty() },
            ),
            gathered(
                d.flags.map_values(|x: FlagDependencyView| flag_dependency_events(x)).take(n),
            ),
        ) == depending(
            s,
            PluginDependenciesView { operator: d.operator, flags: d.flags.take(n) },
        ),
    decreases n,
{
    let parts = d.flags.map_values(|x: FlagDependencyView| flag_dependency_events(x));
    let none = PluginDependenciesView { operator: d.operator, flags: Seq::empty() };
    let start = depending(s, none);
    if n == 0 {
        assert(parts.take(0) =~= Seq::empty());
        assert(d.flags.take(0) =~= Seq::empty());
    } else {
        lemma_flag_dependencies(s, d, n - 1);
        lemma_run_gathered(start, parts, n - 1);
        assert(parts[n - 1] == flag_dependency_events(d.flags[n - 1]));
        let before = PluginDependenciesView { operator: d.operator, flags: d.flags.take(n - 1) };
        lemma_flag_dependency(s, before, d.flags[n - 1]);
        assert(d.flags.take(n - 1).push(d.flags[n - 1]) =~= d.flags.take(n));
    }
}

proof fn lemma_dependencies(s: FomodParserView, d: PluginDependenciesView)
    requires
        may_depend(s),
        may_be_dependencies(d),
    ensures
        d.flags.len() > 0 ==> run(s, dependencies_events(d)) == (FomodParserView {
            text: Seq::empty(),
            ..depending(s, d)
        }),
        d.flags.len() == 0 ==> run(s, dependencies_events(d)) == s,
{
    if d.flags.len() > 0 {
        lemma_tags();
        lemma_lower_tags();
        reveal_strlit("operator");
        reveal_strlit("And");
        reveal_strlit("Or");
        reveal_strlit("or");
        let written = match d.operator {
            DependencyOperator::And => "And"@,
            DependencyOperator::Or => "Or"@,
        };
        let attributes = seq![("operator"@, written)];
        first_attribute_of_a_name_counts(attributes, "operator"@, 0);
        assert(ascii_lowercase("Or"@) =~= "or"@);
        assert(ascii_lowercase("And"@).len() == 3);
        assert(all_ascii("Or"@) && all_ascii("And"@));
        assert(declared_operator(attributes) == d.operator);
        let none = PluginDependenciesView { operator: d.operator, flags: Seq::empty() };
        let name = "dependencies"@;
        let inside = within(s, name);
        let parts = d.flags.map_values(|x: FlagDependencyView| flag_dependency_events(x));
        let open = opening_with(name, attributes);
        let all = seq![open] + gathered(parts) + seq![closing(name)];
        assert(dependencies_events(d) =~= all);
        lemma_run_on(s, seq![open] + gathered(parts), seq![closing(name)]);
        lemma_run_on(s, seq![open], gathered(parts));
        lemma_run_one(s, open);
        assert(after_event(s, open) == depending(inside, none));
        lemma_flag_dependencies(inside, d, d.flags.len() as int);
        assert(parts.take(parts.len() as int) =~= parts);
        assert(d.flags.take(d.flags.len() as int) =~= d.flags);
        lemma_run_one(depending(inside, d), closing(name));
        assert(inside.path.drop_last() =~= s.path);
    }
}

// Texts.
proof fn lemma_mod_name(s: FomodParserView, t: Option<Seq<char>>)
    requires
        may_be_text(t),
    ensures
        t is Some ==> run(s, text_events("modulename"@, t)) == (FomodParserView {
            text: Seq::empty(),
            config: FomodConfigView { mod_name: t, ..s.config },
            ..s
        }),
        t is None ==> run(s, text_events("modulename"@, t)) == s,
{
    lemma_tags();
    lemma_lower_tags();
    let name = "modulename"@;
    if t is Some {
        lemma_three(s, opening(name), XmlEventView::Text(t->0), closing(name));
        assert(s.path.push(name).drop_last() =~= s.path);
    }
}

proof fn lemma_three(s: FomodParserView, a: XmlEventView, b: XmlEventView, c: XmlEventView)
    ensures
        run(s, seq![a, b, c]) == after_event(after_event(after_event(s, a), b), c),
{
    assert(seq![a, b, c] =~= seq![a] + seq![b] + seq![c]);
    lemma_run_on(s, seq![a] + seq![b], seq![c]);
    lemma_run_on(s, seq![a], seq![b]);
    lemma_run_one(s, a);
    lemma_run_one(after_event(s, a), b);
    lemma_run_one(after_event(after_event(s, a), b), c);
}

proof fn lemma_description(s: FomodParserView, t: Option<Seq<char>>)
    requires
        may_be_text(t),
        s.plugin is Some,
    ensures
        t is Some ==> run(s, text_events("description"@, t)) == (FomodParserView {
            text: Seq::empty(),
            plugin: Some(FomodPluginView { description: t, ..s.plugin->0 }),
            ..s
        }),
        t is None ==> run(s, text_events("description"@, t)) == s,
{
    lemma_tags();
    lemma_lower_tags();
    let name = "description"@;
    if t is Some {
        lemma_three(s, opening(name), XmlEventView::Text(t->0), closing(name));
        assert(s.path.push(name).drop_last() =~= s.path);
    }
}

// The flags that a plugin sets.
proof fn lemma_condition_flag(s: FomodParserView, c: ConditionFlagView)
    requires
        s.plugin is Some,
        s.path.len() > 0,
        s.path.last() == "conditionflags"@,
        c.value.len() > 0,
    ensures
        run(s, condition_flag_events(c)) == (FomodParserView {
            text: Seq::empty(),
            flag_name: None,
            plugin: Some(
                FomodPluginView {
                    condition_flags: s.plugin->0.condition_flags.push(c),
                    ..s.plugin->0
                },
            ),
            ..s
        }),
{
    lemma_tags();
    lemma_lower_tags();
    let attributes = seq![("name"@, c.name)];
    first_attribute_of_a_name_counts(attributes, "name"@, 0);
    let open = opening_with("flag"@, attributes);
    lemma_three(s, open, XmlEventView::Text(c.value), closing("flag"@));
    let path = s.path.push("flag"@);
    assert(path[s.path.len() - 1] == "conditionflags"@);
    assert(path.contains("conditionflags"@));
    assert(path.drop_last() =~= s.path);
}

proof fn lemma_condition_flags(s: FomodParserView, flags: Seq<ConditionFlagView>, n: int)
    requires
        s.plugin is Some,
        s.flag_name is None,
        s.path.len() > 0,
        s.path.last() == "conditionflags"@,
        forall|i: int| 0 <= i < flags.len() ==> (#[trigger] flags[i]).value.len() > 0,
        0 <= n <= flags.len(),
    ensures
        ({
            let t = run(
                s,
                gathered(flags.map_values(|c: ConditionFlagView| condition_flag_events(c)).take(n)),
            );
            t == (FomodParserView {
                text: t.text,
                plugin: Some(
                    FomodPluginView {
                        condition_flags: s.plugin->0.condition_flags + flags.take(n),
                        ..s.plugin->0
                    },
                ),
                ..s
            })
        }),
    decreases n,
{
    let parts = flags.map_values(|c: ConditionFlagView| condition_flag_events(c));
    let had = s.plugin->0.condition_flags;
    if n == 0 {
        assert(parts.take(0) =~= Seq::empty());
        assert(had + flags.take(0) =~= had);
    } else {
        lemma_condition_flags(s, flags, n - 1);
        lemma_run_gathered(s, parts, n - 1);
        assert(parts[n - 1] == condition_flag_events(flags[n - 1]));
        let before = run(s, gathered(parts.take(n - 1)));
        lemma_condition_flag(before, flags[n - 1]);
        assert((had + flags.take(n - 1)).push(flags[n - 1]) =~= had + flags.take(n));
    }
}

// Plugins.
proof fn lemma_plugin_type(t: FomodPluginType)
    ensures
        crate::installer::parser::plugin_type_named(lowercase(plugin_type_name(t))) == t,
{
    reveal_strlit("Required");
    reveal_strlit("required");
    reveal_strlit("Recommended");
    reveal_strlit("recommended");
    reveal_strlit("Optional");
    reveal_strlit("NotUsable");
    reveal_strlit("notusable");
    reveal_strlit("couldbeusable");
    assert(all_ascii("Required"@) && all_ascii("Recommended"@) && all_ascii("Optional"@)
        && all_ascii("NotUsable"@));
    assert(ascii_lowercase("Required"@) =~= "required"@);
    assert(ascii_lowercase("Recommended"@) =~= "recommended"@);
    assert(ascii_lowercase("NotUsable"@) =~= "notusable"@);
    assert(ascii_lowercase("Optional"@)[0] == 'o');
    assert("required"@[0] == 'r');
    assert("recommended"@.len() == 11 && "notusable"@.len() == 9 && "couldbeusable"@.len() == 13);
    assert(ascii_lowercase("Optional"@).len() == 8);
}

proof fn lemma_group_type(t: FomodGroupType)
    ensures
        crate::installer::parser::group_type_named(lowercase(group_type_name(t))) == t,
{
    reveal_strlit("SelectAtLeastOne");
    reveal_strlit("selectatleastone");
    reveal_strlit("SelectAtMostOne");
    reveal_strlit("selectatmostone");
    reveal_strlit("SelectExactlyOne");
    reveal_strlit("selectexactlyone");
    reveal_strlit("SelectAll");
    reveal_strlit("selectall");
    reveal_strlit("SelectAny");
    assert(all_ascii("SelectAtLeastOne"@) && all_ascii("SelectAtMostOne"@) && all_ascii(
        "SelectExactlyOne"@,
    ) && all_ascii("SelectAll"@) && all_ascii("SelectAny"@));
    assert(ascii_lowercase("SelectAtLeastOne"@) =~= "selectatleastone"@);
    assert(ascii_lowercase("SelectAtMostOne"@) =~= "selectatmostone"@);
    assert(ascii_lowercase("SelectExactlyOne"@) =~= "selectexactlyone"@);
    assert(ascii_lowercase("SelectAll"@) =~= "selectall"@);
    assert(ascii_lowercase("SelectAny"@)[8] == 'y');
    assert("selectall"@[8] == 'l');
    assert("selectatleastone"@[6] == 'a' && "selectexactlyone"@[6] == 'e');
    assert(ascii_lowercase("SelectAny"@).len() == 9 && "selectatmostone"@.len() == 15);
    assert("selectatleastone"@.len() == 16 && "selectexactlyone"@.len() == 16);
}

/// What is being read of a plugin when it has just been opened.
spec fn opened_plugin(s: FomodParserView, p: FomodPluginView) -> FomodParserView {
    FomodParserView {
        path: s.path.push("plugin"@),
        plugin: Some(
            FomodPluginView {
                name: p.name,
                description: None,
                image_path: None,
                files: Seq::empty(),
                type_descriptor: FomodPluginType::Optional,
                condition_flags: Seq::empty(),
                dependencies: None,
            },
        ),
        ..s
    }
}

proof fn lemma_plugin_opened(s: FomodParserView, p: FomodPluginView)
    ensures
        run(s, seq![opening_with("plugin"@, seq![("name"@, p.name)])]) == opened_plugin(s, p),
{
    lemma_tags();
    lemma_lower_tags();
    let attributes = seq![("name"@, p.name)];
    first_attribute_of_a_name_counts(attributes, "name"@, 0);
    lemma_run_one(s, opening_with("plugin"@, attributes));
}

proof fn lemma_image(s: FomodParserView, image: Option<Seq<char>>)
    requires
        s.plugin is Some,
        s.plugin->0.image_path is None,
    ensures
        run(
            s,
            match image {
                Some(i) => seq![single("image"@, seq![("path"@, i)])],
                None => Seq::empty(),
            },
        ) == (FomodParserView {
            plugin: Some(FomodPluginView { image_path: image, ..s.plugin->0 }),
            ..s
        }),
{
    lemma_tags();
    lemma_lower_tags();
    if image is Some {
        let attributes = seq![("path"@, image->0)];
        first_attribute_of_a_name_counts(attributes, "path"@, 0);
        lemma_run_one(s, single("image"@, attributes));
    }
}

proof fn lemma_type(s: FomodParserView, t: FomodPluginType)
    requires
        s.plugin is Some,
    ensures
        run(
            s,
            element("typedescriptor"@, seq![single("type"@, seq![("name"@, plugin_type_name(t))])]),
        ) == (FomodParserView {
            text: Seq::empty(),
            plugin: Some(FomodPluginView { type_descriptor: t, ..s.plugin->0 }),
            ..s
        }),
{
    lemma_tags();
    lemma_lower_tags();
    lemma_plugin_type(t);
    let attributes = seq![("name"@, plugin_type_name(t))];
    first_attribute_of_a_name_counts(attributes, "name"@, 0);
    let name = "typedescriptor"@;
    let e = single("type"@, attributes);
    lemma_run_one(within(s, name), e);
    let after = FomodParserView {
        plugin: Some(FomodPluginView { type_descriptor: t, ..s.plugin->0 }),
        ..s
    };
    lemma_frame(s, name, seq![e], after);
}

proof fn lemma_plugin_files(s: FomodParserView, files: Seq<FomodFileView>)
    requires
        s.plugin is Some,
        s.plugin->0.files.len() == 0,
        !s.in_pattern,
        may_be_files(files),
    ensures
        run(s, element("files"@, files_events(files))) == (FomodParserView {
            text: Seq::empty(),
            plugin: Some(FomodPluginView { files, ..s.plugin->0 }),
            ..s
        }),
{
    let name = "files"@;
    lemma_all_files(within(s, name), files);
    assert(s.plugin->0.files + files =~= files);
    let after = FomodParserView {
        plugin: Some(FomodPluginView { files, ..s.plugin->0 }),
        ..s
    };
    lemma_frame(s, name, files_events(files), after);
}

proof fn lemma_plugin_flags(s: FomodParserView, flags: Seq<ConditionFlagView>)
    requires
        s.plugin is Some,
        s.flag_name is None,
        s.plugin->0.condition_flags.len() == 0,
        forall|i: int| 0 <= i < flags.len() ==> (#[trigger] flags[i]).value.len() > 0,
    ensures
        run(
            s,
            element(
                "conditionflags"@,
                gathered(flags.map_values(|c: ConditionFlagView| condition_flag_events(c))),
            ),
        ) == (FomodParserView {
            text: Seq::empty(),
            plugin: Some(FomodPluginView { condition_flags: flags, ..s.plugin->0 }),
            ..s
        }),
{
    let name = "conditionflags"@;
    let parts = flags.map_values(|c: ConditionFlagView| condition_flag_events(c));
    let inside = within(s, name);
    lemma_condition_flags(inside, flags, flags.len() as int);
    assert(parts.take(flags.len() as int) =~= parts);
    assert(flags.take(flags.len() as int) =~= flags);
    assert(s.plugin->0.condition_flags + flags =~= flags);
    let end = run(inside, gathered(parts));
    let after = FomodParserView {
        text: end.text,
        plugin: Some(FomodPluginView { condition_flags: flags, ..s.plugin->0 }),
        ..s
    };
    lemma_frame(s, name, gathered(parts), after);
}

proof fn lemma_plugin(s: FomodParserView, p: FomodPluginView)
    requires
        may_be_plugin(p),
        s.group is Some,
        s.flag_name is None,
        !s.in_pattern,
        !s.in_visible,
    ensures
        run(s, plugin_events(p)) == (FomodParserView {
            text: Seq::empty(),
            plugin: None,
            group: Some(
                FomodPluginGroupView { plugins: s.group->0.plugins.push(p), ..s.group->0 },
            ),
            ..s
        }),
{
    let e0 = seq![opening_with("plugin"@, seq![("name"@, p.name)])];
    let e1 = text_events("description"@, p.description);
    let e2 = match p.image_path {
        Some(i) => seq![single("image"@, seq![("path"@, i)])],
        None => Seq::empty(),
    };
    let e3 = element("files"@, files_events(p.files));
    let e4 = element(
        "conditionflags"@,
        gathered(p.condition_flags.map_values(|c: ConditionFlagView| condition_flag_events(c))),
    );
    let e5 = match p.dependencies {
        Some(d) => dependencies_events(d),
        None => Seq::empty(),
    };
    let e6 = element(
        "typedescriptor"@,
        seq![single("type"@, seq![("name"@, plugin_type_name(p.type_descriptor))])],
    );
    let e7 = seq![closing("plugin"@)];
    lemma_run_on(s, e0 + e1 + e2 + e3 + e4 + e5 + e6, e7);
    lemma_run_on(s, e0 + e1 + e2 + e3 + e4 + e5, e6);
    lemma_run_on(s, e0 + e1 + e2 + e3 + e4, e5);
    lemma_run_on(s, e0 + e1 + e2 + e3, e4);
    lemma_run_on(s, e0 + e1 + e2, e3);
    lemma_run_on(s, e0 + e1, e2);
    lemma_run_on(s, e0, e1);
    lemma_plugin_opened(s, p);
    let s0 = run(s, e0);
    lemma_description(s0, p.description);
    let s1 = run(s0, e1);
    lemma_image(s1, p.image_path);
    let s2 = run(s1, e2);
    lemma_plugin_files(s2, p.files);
    let s3 = run(s2, e3);
    lemma_plugin_flags(s3, p.condition_flags);
    let s4 = run(s3, e4);
    if p.dependencies is Some {
        lemma_dependencies(s4, p.dependencies->0);
    }
    let s5 = run(s4, e5);
    lemma_type(s5, p.type_descriptor);
    let s6 = run(s5, e6);
    assert(s6.plugin == Some(p));
    lemma_run_one(s6, closing("plugin"@));
    lemma_plugin_closed(s6, s.path);
}

proof fn lemma_plugin_closed(s: FomodParserView, path: Seq<Seq<char>>)
    requires
        s.path == path.push("plugin"@),
        s.plugin is Some,
        s.group is Some,
    ensures
        after_event(s, closing("plugin"@)) == (FomodParserView {
            path,
            text: Seq::empty(),
            plugin: None,
            group: Some(
                FomodPluginGroupView {
                    plugins: s.group->0.plugins.push(s.plugin->0),
                    ..s.group->0
                },
            ),
            ..s
        }),
{
    lemma_tags();
    lemma_lower_tags();
    assert(s.path.drop_last() =~= path);
}


// Groups.
proof fn lemma_plugins(s: FomodParserView, plugins: Seq<FomodPluginView>, n: int)
    requires
        forall|i: int| 0 <= i < plugins.len() ==> may_be_plugin(#[trigger] plugins[i]),
        s.group is Some,
        s.flag_name is None,
        s.plugin is None,
        !s.in_pattern,
        !s.in_visible,
        0 <= n <= plugins.len(),
    ensures
        ({
            let t = run(
                s,
                gathered(plugins.map_values(|p: FomodPluginView| plugin_events(p)).take(n)),
            );
            t == (FomodParserView {
                text: t.text,
                group: Some(
                    FomodPluginGroupView {
                        plugins: s.group->0.plugins + plugins.take(n),
                        ..s.group->0
                    },
                ),
                ..s
            })
        }),
    decreases n,
{
    let parts = plugins.map_values(|p: FomodPluginView| plugin_events(p));
    let had = s.group->0.plugins;
    if n == 0 {
        assert(parts.take(0) =~= Seq::empty());
        assert(had + plugins.take(0) =~= had);
    } else {
        lemma_plugins(s, plugins, n - 1);
        lemma_run_gathered(s, parts, n - 1);
        assert(parts[n - 1] == plugin_events(plugins[n - 1]));
        let before = run(s, gathered(parts.take(n - 1)));
        assert(may_be_plugin(plugins[n - 1]));
        lemma_plugin(before, plugins[n - 1]);
        assert((had + plugins.take(n - 1)).push(plugins[n - 1]) =~= had + plugins.take(n));
    }
}

proof fn lemma_group(s: FomodParserView, g: FomodPluginGroupView)
    requires
        may_be_group(g),
        s.step is Some,
        s.flag_name is None,
        s.plugin is None,
        !s.in_pattern,
        !s.in_visible,
    ensures
        run(s, group_events(g)) == (FomodParserView {
            text: Seq::empty(),
            group: None,
            step: Some(
                FomodInstallStepView { groups: s.step->0.groups.push(g), ..s.step->0 },
            ),
            ..s
        }),
{
    let attributes = seq![("name"@, g.name), ("type"@, group_type_name(g.group_type))];
    let parts = g.plugins.map_values(|p: FomodPluginView| plugin_events(p));
    let e0 = seq![opening_with("group"@, attributes)];
    let e1 = element("plugins"@, gathered(parts));
    let e2 = seq![closing("group"@)];
    lemma_run_on(s, e0 + e1, e2);
    lemma_run_on(s, e0, e1);
    lemma_group_opened(s, g);
    let s0 = run(s, e0);
    let inside = within(s0, "plugins"@);
    lemma_plugins(inside, g.plugins, g.plugins.len() as int);
    assert(parts.take(g.plugins.len() as int) =~= parts);
    assert(Seq::<FomodPluginView>::empty() + g.plugins.take(g.plugins.len() as int) =~= g.plugins);
    let end = run(inside, gathered(parts));
    let after = FomodParserView { text: end.text, group: Some(g), ..s0 };
    lemma_frame(s0, "plugins"@, gathered(parts), after);
    let s1 = run(s0, e1);
    lemma_run_one(s1, closing("group"@));
    lemma_tags();
    lemma_lower_tags();
    assert(s1.path.drop_last() =~= s.path);
}

proof fn lemma_group_opened(s: FomodParserView, g: FomodPluginGroupView)
    ensures
        run(
            s,
            seq![
                opening_with(
                    "group"@,
                    seq![("name"@, g.name), ("type"@, group_type_name(g.group_type))],
                ),
            ],
        ) == (FomodParserView {
            path: s.path.push("group"@),
            group: Some(FomodPluginGroupView { plugins: Seq::empty(), ..g }),
            ..s
        }),
{
    lemma_tags();
    lemma_lower_tags();
    reveal_strlit("name");
    reveal_strlit("type");
    assert("name"@[0] != "type"@[0]);
    lemma_group_type(g.group_type);
    let attributes = seq![("name"@, g.name), ("type"@, group_type_name(g.group_type))];
    first_attribute_of_a_name_counts(attributes, "name"@, 0);
    first_attribute_of_a_name_counts(attributes, "type"@, 1);
    assert(declared_group_type(attributes) == g.group_type);
    lemma_run_one(s, opening_with("group"@, attributes));
}

// Steps.
proof fn lemma_groups(s: FomodParserView, groups: Seq<FomodPluginGroupView>, n: int)
    requires
        forall|i: int| 0 <= i < groups.len() ==> may_be_group(#[trigger] groups[i]),
        s.step is Some,
        s.group is None,
        s.flag_name is None,
        s.plugin is None,
        !s.in_pattern,
        !s.in_visible,
        0 <= n <= groups.len(),
    ensures
        ({
            let t = run(
                s,
                gathered(groups.map_values(|g: FomodPluginGroupView| group_events(g)).take(n)),
            );
            t == (FomodParserView {
                text: t.text,
                step: Some(
                    FomodInstallStepView {
                        groups: s.step->0.groups + groups.take(n),
                        ..s.step->0
                    },
                ),
                ..s
            })
        }),
    decreases n,
{
    let parts = groups.map_values(|g: FomodPluginGroupView| group_events(g));
    let had = s.step->0.groups;
    if n == 0 {
        assert(parts.take(0) =~= Seq::empty());
        assert(had + groups.take(0) =~= had);
    } else {
        lemma_groups(s, groups, n - 1);
        lemma_run_gathered(s, parts, n - 1);
        assert(parts[n - 1] == group_events(groups[n - 1]));
        let before = run(s, gathered(parts.take(n - 1)));
        assert(may_be_group(groups[n - 1]));
        lemma_group(before, groups[n - 1]);
        assert((had + groups.take(n - 1)).push(groups[n - 1]) =~= had + groups.take(n));
    }
}

proof fn lemma_visible(s: FomodParserView, d: PluginDependenciesView)
    requires
        s.step is Some,
        !s.in_pattern,
        !s.in_visible,
        may_be_dependencies(d),
        d.flags.len() > 0,
    ensures
        run(s, element("visible"@, dependencies_events(d))) == (FomodParserView {
            text: Seq::empty(),
            step: Some(FomodInstallStepView { visible: Some(d), ..s.step->0 }),
            ..s
        }),
{
    lemma_tags();
    lemma_lower_tags();
    let name = "visible"@;
    let e0 = seq![opening(name)];
    let e1 = dependencies_events(d);
    let e2 = seq![closing(name)];
    lemma_run_on(s, e0 + e1, e2);
    lemma_run_on(s, e0, e1);
    lemma_run_one(s, opening(name));
    let s0 = run(s, e0);
    assert(s0 == (FomodParserView { path: s.path.push(name), in_visible: true, ..s }));
    lemma_dependencies(s0, d);
    let s1 = run(s0, e1);
    lemma_run_one(s1, closing(name));
    assert(s1.path.drop_last() =~= s.path);
}

proof fn lemma_step(s: FomodParserView, x: FomodInstallStepView)
    requires
        may_be_step(x),
        s.group is None,
        s.flag_name is None,
        s.plugin is None,
        !s.in_pattern,
        !s.in_visible,
    ensures
        run(s, step_events(x)) == (FomodParserView {
            text: Seq::empty(),
            step: None,
            config: FomodConfigView { steps: s.config.steps.push(x), ..s.config },
            ..s
        }),
{
    lemma_tags();
    lemma_lower_tags();
    let attributes = seq![("name"@, x.name)];
    first_attribute_of_a_name_counts(attributes, "name"@, 0);
    let parts = x.groups.map_values(|g: FomodPluginGroupView| group_events(g));
    let e0 = seq![opening_with("installstep"@, attributes)];
    let e1 = match x.visible {
        Some(d) => element("visible"@, dependencies_events(d)),
        None => Seq::empty(),
    };
    let e2 = element("optionalfilegroups"@, gathered(parts));
    let e3 = seq![closing("installstep"@)];
    lemma_run_on(s, e0 + e1 + e2, e3);
    lemma_run_on(s, e0 + e1, e2);
    lemma_run_on(s, e0, e1);
    lemma_run_one(s, opening_with("installstep"@, attributes));
    let s0 = run(s, e0);
    if x.visible is Some {
        lemma_visible(s0, x.visible->0);
    }
    let s1 = run(s0, e1);
    let inside = within(s1, "optionalfilegroups"@);
    lemma_groups(inside, x.groups, x.groups.len() as int);
    assert(parts.take(x.groups.len() as int) =~= parts);
    assert(Seq::<FomodPluginGroupView>::empty() + x.groups.take(x.groups.len() as int)
        =~= x.groups);
    let end = run(inside, gathered(parts));
    let after = FomodParserView { text: end.text, step: Some(x), ..s1 };
    lemma_frame(s1, "optionalfilegroups"@, gathered(parts), after);
    let s2 = run(s1, e2);
    lemma_run_one(s2, closing("installstep"@));
    assert(s2.path.drop_last() =~= s.path);
}

proof fn lemma_steps(s: FomodParserView, steps: Seq<FomodInstallStepView>, n: int)
    requires
        forall|i: int| 0 <= i < steps.len() ==> may_be_step(#[trigger] steps[i]),
        s.step is None,
        s.group is None,
        s.flag_name is None,
        s.plugin is None,
        !s.in_pattern,
        !s.in_visible,
        0 <= n <= steps.len(),
    ensures
        ({
            let t = run(
                s,
                gathered(steps.map_values(|x: FomodInstallStepView| step_events(x)).take(n)),
            );
            t == (FomodParserView {
                text: t.text,
                config: FomodConfigView { steps: s.config.steps + steps.take(n), ..s.config },
                ..s
            })
        }),
    decreases n,
{
    let parts = steps.map_values(|x: FomodInstallStepView| step_events(x));
    let had = s.config.steps;
    if n == 0 {
        assert(parts.take(0) =~= Seq::empty());
        assert(had + steps.take(0) =~= had);
    } else {
        lemma_steps(s, steps, n - 1);
        lemma_run_gathered(s, parts, n - 1);
        assert(parts[n - 1] == step_events(steps[n - 1]));
        let before = run(s, gathered(parts.take(n - 1)));
        assert(may_be_step(steps[n - 1]));
        lemma_step(before, steps[n - 1]);
        assert((had + steps.take(n - 1)).push(steps[n - 1]) =~= had + steps.take(n));
    }
}

// Conditional installs.
proof fn lemma_pattern(s: FomodParserView, c: ConditionalFileInstallView)
    requires
        may_be_pattern(c),
        !s.in_pattern,
        s.pattern_dependencies is None,
        s.pattern_files.len() == 0,
    ensures
        run(s, pattern_events(c)) == (FomodParserView {
            text: Seq::empty(),
            config: FomodConfigView {
                conditional_file_installs: s.config.conditional_file_installs.push(c),
                ..s.config
            },
            ..s
        }),
{
    lemma_tags();
    lemma_lower_tags();
    let name = "pattern"@;
    let d = dependencies_events(c.dependencies);
    let f = element("files"@, files_events(c.files));
    let e0 = seq![opening(name)];
    let e2 = seq![closing(name)];
    lemma_run_on(s, e0 + (d + f), e2);
    lemma_run_on(s, e0, d + f);
    lemma_run_one(s, opening(name));
    let none = Seq::<FomodFileView>::empty();
    assert(s.pattern_files =~= none);
    let s0 = run(s, e0);
    assert(s0 == (FomodParserView { path: s.path.push(name), in_pattern: true, ..s }));
    lemma_run_on(s0, d, f);
    lemma_dependencies(s0, c.dependencies);
    let s1 = run(s0, d);
    lemma_all_files(within(s1, "files"@), c.files);
    assert(none + c.files =~= c.files);
    let after = FomodParserView { pattern_files: c.files, ..s1 };
    lemma_frame(s1, "files"@, files_events(c.files), after);
    let s2 = run(s1, f);
    lemma_run_one(s2, closing(name));
    assert(s2.path.drop_last() =~= s.path);
    if c.dependencies.flags.len() == 0 {
        assert(c.dependencies.flags =~= Seq::empty());
        assert(c.dependencies == no_dependencies());
    }
}

proof fn lemma_patterns(s: FomodParserView, installs: Seq<ConditionalFileInstallView>, n: int)
    requires
        forall|i: int| 0 <= i < installs.len() ==> may_be_pattern(#[trigger] installs[i]),
        !s.in_pattern,
        s.pattern_dependencies is None,
        s.pattern_files.len() == 0,
        0 <= n <= installs.len(),
    ensures
        ({
            let t = run(
                s,
                gathered(
                    installs.map_values(|c: ConditionalFileInstallView| pattern_events(c)).take(n),
                ),
            );
            t == (FomodParserView {
                text: t.text,
                config: FomodConfigView {
                    conditional_file_installs: s.config.conditional_file_installs + installs.take(n),
                    ..s.config
                },
                ..s
            })
        }),
    decreases n,
{
    let parts = installs.map_values(|c: ConditionalFileInstallView| pattern_events(c));
    let had = s.config.conditional_file_installs;
    if n == 0 {
        assert(parts.take(0) =~= Seq::empty());
        assert(had + installs.take(0) =~= had);
    } else {
        lemma_patterns(s, installs, n - 1);
        lemma_run_gathered(s, parts, n - 1);
        assert(parts[n - 1] == pattern_events(installs[n - 1]));
        let before = run(s, gathered(parts.take(n - 1)));
        assert(may_be_pattern(installs[n - 1]));
        lemma_pattern(before, installs[n - 1]);
        assert((had + installs.take(n - 1)).push(installs[n - 1]) =~= had + installs.take(n));
    }
}

proof fn lemma_required(s: FomodParserView, files: Seq<FomodFileView>)
    requires
        may_be_files(files),
        s.plugin is None,
        !s.in_pattern,
        !s.in_required,
        s.config.required_files.len() == 0,
    ensures
        run(s, element("requiredinstallfiles"@, files_events(files))) == (FomodParserView {
            text: Seq::empty(),
            config: FomodConfigView { required_files: files, ..s.config },
            ..s
        }),
{
    lemma_tags();
    lemma_lower_tags();
    let name = "requiredinstallfiles"@;
    let e0 = seq![opening(name)];
    let e1 = files_events(files);
    let e2 = seq![closing(name)];
    lemma_run_on(s, e0 + e1, e2);
    lemma_run_on(s, e0, e1);
    lemma_run_one(s, opening(name));
    let s0 = run(s, e0);
    assert(s0 == (FomodParserView { path: s.path.push(name), in_required: true, ..s }));
    lemma_all_files(s0, files);
    assert(s.config.required_files + files =~= files);
    let s1 = run(s0, e1);
    lemma_run_one(s1, closing(name));
    assert(s1.path.drop_last() =~= s.path);
}

/// No event of a written document ends it or fails.
proof fn lemma_end(events: Seq<XmlEventView>, last: Seq<XmlEventView>)
    requires
        forall|i: int|
            0 <= i < events.len() ==> !(#[trigger] events[i] is Eof) && !(events[i] is Failed),
        last.len() == 0 || last[0] is Eof || last[0] is Failed,
    ensures
        end_index(events + last) == events.len(),
    decreases events.len(),
{
    let all = events + last;
    if events.len() > 0 {
        assert(all[0] == events[0]);
        let rest = events.skip(1);
        assert forall|i: int| 0 <= i < rest.len() implies !(#[trigger] rest[i] is Eof) && !(
        rest[i] is Failed) by {
            assert(rest[i] == events[i + 1]);
        }
        lemma_end(rest, last);
        assert(all.skip(1) =~= rest + last);
    } else {
        assert(all =~= last);
    }
}

/// The events are tags and texts.
spec fn are_content(events: Seq<XmlEventView>) -> bool {
    forall|i: int|
        0 <= i < events.len() ==> !(#[trigger] events[i] is Eof) && !(events[i] is Failed)
}

proof fn lemma_content(a: Seq<XmlEventView>, b: Seq<XmlEventView>)
    requires
        are_content(a),
        are_content(b),
    ensures
        are_content(a + b),
{
    assert forall|i: int| 0 <= i < (a + b).len() implies !(#[trigger] (a + b)[i] is Eof) && !((a
        + b)[i] is Failed) by {
        if i < a.len() {
            assert((a + b)[i] == a[i]);
        } else {
            assert((a + b)[i] == b[i - a.len()]);
        }
    }
}

proof fn lemma_gathered_content(parts: Seq<Seq<XmlEventView>>)
    requires
        forall|i: int| 0 <= i < parts.len() ==> are_content(#[trigger] parts[i]),
    ensures
        are_content(gathered(parts)),
    decreases parts.len(),
{
    if parts.len() > 0 {
        assert forall|i: int| 0 <= i < parts.drop_last().len() implies are_content(
            #[trigger] parts.drop_last()[i],
        ) by {
            assert(are_content(parts[i]));
        }
        lemma_gathered_content(parts.drop_last());
        assert(are_content(parts[parts.len() - 1]));
        lemma_content(gathered(parts.drop_last()), parts.last());
    }
}

proof fn lemma_element_content(name: Seq<char>, content: Seq<XmlEventView>)
    requires
        are_content(content),
    ensures
        are_content(element(name, content)),
{
    lemma_content(seq![opening(name)], content);
    lemma_content(seq![opening(name)] + content, seq![closing(name)]);
}

proof fn lemma_files_content(files: Seq<FomodFileView>)
    ensures
        are_content(files_events(files)),
{
    let parts = files.map_values(|f: FomodFileView| file_events(f));
    assert forall|i: int| 0 <= i < parts.len() implies are_content(#[trigger] parts[i]) by {
        assert(parts[i] == file_events(files[i]));
    }
    lemma_gathered_content(parts);
}

proof fn lemma_dependencies_content(d: PluginDependenciesView)
    ensures
        are_content(dependencies_events(d)),
{
    if d.flags.len() > 0 {
        let parts = d.flags.map_values(|x: FlagDependencyView| flag_dependency_events(x));
        assert forall|i: int| 0 <= i < parts.len() implies are_content(#[trigger] parts[i]) by {
            assert(parts[i] == flag_dependency_events(d.flags[i]));
        }
        lemma_gathered_content(parts);
        let open = seq![
            opening_with(
                "dependencies"@,
                seq![
                    (
                        "operator"@,
                        match d.operator {
                            DependencyOperator::And => "And"@,
                            DependencyOperator::Or => "Or"@,
                        },
                    ),
                ],
            ),
        ];
        assert(are_content(open));
        lemma_content(open, gathered(parts));
        lemma_content(open + gathered(parts), seq![closing("dependencies"@)]);
    }
}

proof fn lemma_plugin_content(p: FomodPluginView)
    ensures
        are_content(plugin_events(p)),
{
    let e0 = seq![opening_with("plugin"@, seq![("name"@, p.name)])];
    let e1 = text_events("description"@, p.description);
    let e2 = match p.image_path {
        Some(i) => seq![single("image"@, seq![("path"@, i)])],
        None => Seq::empty(),
    };
    let e3 = element("files"@, files_events(p.files));
    let flags = p.condition_flags.map_values(|c: ConditionFlagView| condition_flag_events(c));
    let e4 = element("conditionflags"@, gathered(flags));
    let e5 = match p.dependencies {
        Some(d) => dependencies_events(d),
        None => Seq::empty(),
    };
    let kind = seq![single("type"@, seq![("name"@, plugin_type_name(p.type_descriptor))])];
    let e6 = element("typedescriptor"@, kind);
    assert forall|i: int| 0 <= i < flags.len() implies are_content(#[trigger] flags[i]) by {
        assert(flags[i] == condition_flag_events(p.condition_flags[i]));
    }
    lemma_gathered_content(flags);
    lemma_element_content("conditionflags"@, gathered(flags));
    lemma_files_content(p.files);
    lemma_element_content("files"@, files_events(p.files));
    if p.dependencies is Some {
        lemma_dependencies_content(p.dependencies->0);
    }
    lemma_element_content("typedescriptor"@, kind);
    lemma_content(e0, e1);
    lemma_content(e0 + e1, e2);
    lemma_content(e0 + e1 + e2, e3);
    lemma_content(e0 + e1 + e2 + e3, e4);
    lemma_content(e0 + e1 + e2 + e3 + e4, e5);
    lemma_content(e0 + e1 + e2 + e3 + e4 + e5, e6);
    lemma_content(e0 + e1 + e2 + e3 + e4 + e5 + e6, seq![closing("plugin"@)]);
}

proof fn lemma_group_content(g: FomodPluginGroupView)
    ensures
        are_content(group_events(g)),
{
    let parts = g.plugins.map_values(|p: FomodPluginView| plugin_events(p));
    assert forall|i: int| 0 <= i < parts.len() implies are_content(#[trigger] parts[i]) by {
        lemma_plugin_content(g.plugins[i]);
    }
    lemma_gathered_content(parts);
    lemma_element_content("plugins"@, gathered(parts));
    let e0 = seq![
        opening_with(
            "group"@,
            seq![("name"@, g.name), ("type"@, group_type_name(g.group_type))],
        ),
    ];
    lemma_content(e0, element("plugins"@, gathered(parts)));
    lemma_content(e0 + element("plugins"@, gathered(parts)), seq![closing("group"@)]);
}

proof fn lemma_step_content(x: FomodInstallStepView)
    ensures
        are_content(step_events(x)),
{
    let parts = x.groups.map_values(|g: FomodPluginGroupView| group_events(g));
    assert forall|i: int| 0 <= i < parts.len() implies are_content(#[trigger] parts[i]) by {
        lemma_group_content(x.groups[i]);
    }
    lemma_gathered_content(parts);
    let e2 = element("optionalfilegroups"@, gathered(parts));
    lemma_element_content("optionalfilegroups"@, gathered(parts));
    let e0 = seq![opening_with("installstep"@, seq![("name"@, x.name)])];
    let e1 = match x.visible {
        Some(d) => element("visible"@, dependencies_events(d)),
        None => Seq::empty(),
    };
    if x.visible is Some {
        lemma_dependencies_content(x.visible->0);
        lemma_element_content("visible"@, dependencies_events(x.visible->0));
    }
    lemma_content(e0, e1);
    lemma_content(e0 + e1, e2);
    lemma_content(e0 + e1 + e2, seq![closing("installstep"@)]);
}

proof fn lemma_pattern_content(c: ConditionalFileInstallView)
    ensures
        are_content(pattern_events(c)),
{
    lemma_dependencies_content(c.dependencies);
    lemma_files_content(c.files);
    lemma_element_content("files"@, files_events(c.files));
    let content = dependencies_events(c.dependencies) + element("files"@, files_events(c.files));
    lemma_content(dependencies_events(c.dependencies), element("files"@, files_events(c.files)));
    lemma_element_content("pattern"@, content);
}

proof fn lemma_config_content(c: FomodConfigView)
    ensures
        are_content(config_events(c)),
{
    let steps = c.steps.map_values(|s: FomodInstallStepView| step_events(s));
    assert forall|i: int| 0 <= i < steps.len() implies are_content(#[trigger] steps[i]) by {
        lemma_step_content(c.steps[i]);
    }
    lemma_gathered_content(steps);
    let e2 = element("installsteps"@, gathered(steps));
    lemma_element_content("installsteps"@, gathered(steps));
    let patterns = c.conditional_file_installs.map_values(
        |p: ConditionalFileInstallView| pattern_events(p),
    );
    assert forall|i: int| 0 <= i < patterns.len() implies are_content(#[trigger] patterns[i]) by {
        lemma_pattern_content(c.conditional_file_installs[i]);
    }
    lemma_gathered_content(patterns);
    let inner = element("patterns"@, gathered(patterns));
    lemma_element_content("patterns"@, gathered(patterns));
    let e3 = element("conditionalfileinstalls"@, inner);
    lemma_element_content("conditionalfileinstalls"@, inner);
    let e0 = text_events("modulename"@, c.mod_name);
    let e1 = element("requiredinstallfiles"@, files_events(c.required_files));
    lemma_files_content(c.required_files);
    lemma_element_content("requiredinstallfiles"@, files_events(c.required_files));
    lemma_content(e0, e1);
    lemma_content(e0 + e1, e2);
    lemma_content(e0 + e1 + e2, e3);
}

/// A configuration that was written as a document is read back as it was.
pub proof fn configuration_is_read_back(c: FomodConfigView)
    requires
        may_be_config(c),
    ensures
        config_of_events(config_events(c) + seq![XmlEventView::Eof]) == Ok::<
            FomodConfigView,
            Seq<char>,
        >(c),
{
    let steps = c.steps.map_values(|s: FomodInstallStepView| step_events(s));
    let patterns = c.conditional_file_installs.map_values(
        |p: ConditionalFileInstallView| pattern_events(p),
    );
    let inner = element("patterns"@, gathered(patterns));
    let e0 = text_events("modulename"@, c.mod_name);
    let e1 = element("requiredinstallfiles"@, files_events(c.required_files));
    let e2 = element("installsteps"@, gathered(steps));
    let e3 = element("conditionalfileinstalls"@, inner);
    let s = initial_parser();
    let all = e0 + e1 + e2 + e3;
    assert(all == config_events(c));
    lemma_run_on(s, e0 + e1 + e2, e3);
    lemma_run_on(s, e0 + e1, e2);
    lemma_run_on(s, e0, e1);
    lemma_mod_name(s, c.mod_name);
    let s0 = run(s, e0);
    lemma_required(s0, c.required_files);
    let s1 = run(s0, e1);
    lemma_steps_element(s1, c.steps);
    let s2 = run(s1, e2);
    lemma_patterns_element(s2, c.conditional_file_installs);
    let s3 = run(s2, e3);
    assert(s3.config == c);
    lemma_run_all(all);
    lemma_config_content(c);
    lemma_end(all, seq![XmlEventView::Eof]);
    let events = all + seq![XmlEventView::Eof];
    assert(events.take(all.len() as int) =~= all);
    assert(events[all.len() as int] == XmlEventView::Eof);
}

proof fn lemma_steps_element(s: FomodParserView, steps: Seq<FomodInstallStepView>)
    requires
        forall|i: int| 0 <= i < steps.len() ==> may_be_step(#[trigger] steps[i]),
        s.step is None,
        s.group is None,
        s.flag_name is None,
        s.plugin is None,
        !s.in_pattern,
        !s.in_visible,
        s.config.steps.len() == 0,
    ensures
        run(
            s,
            element(
                "installsteps"@,
                gathered(steps.map_values(|x: FomodInstallStepView| step_events(x))),
            ),
        ) == (FomodParserView {
            text: Seq::empty(),
            config: FomodConfigView { steps, ..s.config },
            ..s
        }),
{
    let parts = steps.map_values(|x: FomodInstallStepView| step_events(x));
    let inside = within(s, "installsteps"@);
    lemma_steps(inside, steps, steps.len() as int);
    assert(parts.take(steps.len() as int) =~= parts);
    assert(s.config.steps + steps.take(steps.len() as int) =~= steps);
    let end = run(inside, gathered(parts));
    let after = FomodParserView {
        text: end.text,
        config: FomodConfigView { steps, ..s.config },
        ..s
    };
    lemma_frame(s, "installsteps"@, gathered(parts), after);
}

proof fn lemma_patterns_element(s: FomodParserView, installs: Seq<ConditionalFileInstallView>)
    requires
        forall|i: int| 0 <= i < installs.len() ==> may_be_pattern(#[trigger] installs[i]),
        !s.in_pattern,
        s.pattern_dependencies is None,
        s.pattern_files.len() == 0,
        s.config.conditional_file_installs.len() == 0,
    ensures
        run(
            s,
            element(
                "conditionalfileinstalls"@,
                element(
                    "patterns"@,
                    gathered(
                        installs.map_values(|c: ConditionalFileInstallView| pattern_events(c)),
                    ),
                ),
            ),
        ).config == (FomodConfigView { conditional_file_installs: installs, ..s.config }),
{
    let parts = installs.map_values(|c: ConditionalFileInstallView| pattern_events(c));
    let outer = within(s, "conditionalfileinstalls"@);
    let inside = within(outer, "patterns"@);
    lemma_patterns(inside, installs, installs.len() as int);
    assert(parts.take(installs.len() as int) =~= parts);
    assert(s.config.conditional_file_installs + installs.take(installs.len() as int) =~= installs);
    let end = run(inside, gathered(parts));
    let config = FomodConfigView { conditional_file_installs: installs, ..s.config };
    lemma_frame(
        outer,
        "patterns"@,
        gathered(parts),
        FomodParserView { text: end.text, config, ..outer },
    );
    let after = FomodParserView { text: Seq::empty(), config, ..s };
    lemma_frame(
        s,
        "conditionalfileinstalls"@,
        element("patterns"@, gathered(parts)),
        after,
    );
}

/// A document that is not well-formed is refused with the message that says why,
/// whatever stood before the failure.
pub proof fn failed_documents_are_refused(events: Seq<XmlEventView>, message: Seq<char>)
    requires
        forall|i: int|
            0 <= i < events.len() ==> !(#[trigger] events[i] is Eof) && !(events[i] is Failed),
    ensures
        config_of_events(events + seq![XmlEventView::Failed(message)]) is Err,
        message.is_suffix_of(
            config_of_events(events + seq![XmlEventView::Failed(message)])->Err_0,
        ),
{
    let last = seq![XmlEventView::Failed(message)];
    lemma_end(events, last);
    assert((events + last)[events.len() as int] == last[0]);
    let e = config_of_events(events + last)->Err_0;
    assert(e.subrange(e.len() - message.len(), e.len() as int) =~= message);
}

/// A folder is read as a file is.
pub proof fn folders_are_read_as_files_are(
    s: FomodParserView,
    attributes: Seq<(Seq<char>, Seq<char>)>,
)
    ensures
        after_event(s, single("folder"@, attributes)) == after_event(s, single("file"@, attributes)),
{
    lemma_tags();
    lemma_lower_tags();
    reveal_strlit("folder");
    lemma_lower("folder"@);
}

/// A condition flag may be written in a single tag.
pub proof fn condition_flags_may_be_single_tags(s: FomodParserView, c: ConditionFlagView)
    requires
        s.plugin is Some,
        s.path.len() > 0,
        s.path.last() == "conditionflags"@,
        c.name.len() > 0,
        c.value.len() > 0,
    ensures
        after_event(s, single("flag"@, seq![("name"@, c.name), ("value"@, c.value)])).plugin
            == Some(
            FomodPluginView {
                condition_flags: s.plugin->0.condition_flags.push(c),
                ..s.plugin->0
            },
        ),
{
    lemma_tags();
    lemma_lower_tags();
    reveal_strlit("name");
    reveal_strlit("value");
    assert("name"@.len() == 4 && "value"@.len() == 5);
    let attributes = seq![("name"@, c.name), ("value"@, c.value)];
    first_attribute_of_a_name_counts(attributes, "name"@, 0);
    first_attribute_of_a_name_counts(attributes, "value"@, 1);
    assert(s.path[s.path.len() - 1] == "conditionflags"@);
    assert(s.path.contains("conditionflags"@));
}

/// A dependencies tag without a flag in it leaves no dependencies behind.
pub proof fn dependencies_on_nothing_are_none(
    s: FomodParserView,
    attributes: Seq<(Seq<char>, Seq<char>)>,
)
    requires
        may_depend(s),
    ensures
        opened_dependencies(
            after_event(
                after_event(s, opening_with("dependencies"@, attributes)),
                closing("dependencies"@),
            ),
        ) is None,
{
    lemma_tags();
    lemma_lower_tags();
}

} // verus!
