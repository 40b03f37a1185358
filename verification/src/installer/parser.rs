//! Building a FOMOD configuration from the events of its XML document.
use vstd::prelude::*;

use crate::installer::types::{
    ConditionFlag, ConditionFlagView, ConditionalFileInstall, ConditionalFileInstallView,
    DependencyOperator, FlagDependency, FlagDependencyView, FomodConfig, FomodConfigView, FomodFile,
    FomodFileView, FomodGroupType, FomodInstallStep, FomodInstallStepView, FomodPlugin,
    FomodPluginGroup, FomodPluginGroupView, FomodPluginType, FomodPluginView, PluginDependencies,
    PluginDependenciesView,
};
use crate::installer::xml::{XmlElement, XmlElementView, XmlEvent, XmlEventView};
use crate::number::{parse_i32, parsed_signed};
use crate::text::{concat2, is_listed, lowercase, same, to_lowercase};

verus! {

// ── Attributes ──────────────────────────────────────────────────────────────

/// The value of the first attribute with the given name.
pub open spec fn attribute(attributes: Seq<(Seq<char>, Seq<char>)>, name: Seq<char>) -> Option<
    Seq<char>,
>
    decreases attributes.len(),
{
    if attributes.len() == 0 {
        None
    } else if attributes[0].0 == name {
        Some(attributes[0].1)
    } else {
        attribute(attributes.skip(1), name)
    }
}

/// The value of an attribute, empty if it is not there.
pub open spec fn attribute_or_empty(
    attributes: Seq<(Seq<char>, Seq<char>)>,
    name: Seq<char>,
) -> Seq<char> {
    match attribute(attributes, name) {
        Some(v) => v,
        None => Seq::empty(),
    }
}

/// The mapping that a `file` or `folder` tag declares.
pub open spec fn declared_file(attributes: Seq<(Seq<char>, Seq<char>)>) -> FomodFileView {
    FomodFileView {
        source: attribute_or_empty(attributes, "source"@),
        destination: attribute_or_empty(attributes, "destination"@),
        priority: match attribute(attributes, "priority"@) {
            Some(p) => match parsed_signed(p) {
                Some(n) => n,
                None => 0,
            },
            None => 0,
        },
    }
}

/// The selection type that a lowercase name stands for.
pub open spec fn group_type_named(name: Seq<char>) -> FomodGroupType {
    if name == "selectatleastone"@ {
        FomodGroupType::SelectAtLeastOne
    } else if name == "selectatmostone"@ {
        FomodGroupType::SelectAtMostOne
    } else if name == "selectexactlyone"@ {
        FomodGroupType::SelectExactlyOne
    } else if name == "selectall"@ {
        FomodGroupType::SelectAll
    } else {
        FomodGroupType::SelectAny
    }
}

/// The plugin type that a lowercase name stands for.
pub open spec fn plugin_type_named(name: Seq<char>) -> FomodPluginType {
    if name == "required"@ {
        FomodPluginType::Required
    } else if name == "recommended"@ {
        FomodPluginType::Recommended
    } else if name == "notusable"@ || name == "couldbeusable"@ {
        FomodPluginType::NotUsable
    } else {
        FomodPluginType::Optional
    }
}

/// The operator that a `dependencies` tag declares.
pub open spec fn declared_operator(
    attributes: Seq<(Seq<char>, Seq<char>)>,
) -> DependencyOperator {
    let name = match attribute(attributes, "operator"@) {
        Some(o) => o,
        None => "And"@,
    };
    if lowercase(name) == "or"@ {
        DependencyOperator::Or
    } else {
        DependencyOperator::And
    }
}

/// The selection type that a `group` tag declares.
pub open spec fn declared_group_type(attributes: Seq<(Seq<char>, Seq<char>)>) -> FomodGroupType {
    let name = match attribute(attributes, "type"@) {
        Some(t) => t,
        None => "SelectAny"@,
    };
    group_type_named(lowercase(name))
}

// ── The state of the parser ─────────────────────────────────────────────────

/// What the parser has built so far and where in the document it stands.
pub struct FomodParser {
    pub config: FomodConfig,
    /// The lowercase names of the open tags.
    pub path: Vec<String>,
    pub step: Option<FomodInstallStep>,
    pub group: Option<FomodPluginGroup>,
    pub plugin: Option<FomodPlugin>,
    /// The character data since the last end tag.
    pub text: String,
    /// The name of the condition flag whose value is being read.
    pub flag_name: Option<String>,
    pub in_required: bool,
    pub in_visible: bool,
    pub in_pattern: bool,
    pub pattern_dependencies: Option<PluginDependencies>,
    pub pattern_files: Vec<FomodFile>,
}

#[verifier::ext_equal]
pub ghost struct FomodParserView {
    pub config: FomodConfigView,
    pub path: Seq<Seq<char>>,
    pub step: Option<FomodInstallStepView>,
    pub group: Option<FomodPluginGroupView>,
    pub plugin: Option<FomodPluginView>,
    pub text: Seq<char>,
    pub flag_name: Option<Seq<char>>,
    pub in_required: bool,
    pub in_visible: bool,
    pub in_pattern: bool,
    pub pattern_dependencies: Option<PluginDependenciesView>,
    pub pattern_files: Seq<FomodFileView>,
}

impl DeepView for FomodParser {
    type V = FomodParserView;

    open spec fn deep_view(&self) -> FomodParserView {
        FomodParserView {
            config: self.config.deep_view(),
            path: self.path.deep_view(),
            step: self.step.deep_view(),
            group: self.group.deep_view(),
            plugin: self.plugin.deep_view(),
            text: self.text@,
            flag_name: self.flag_name.deep_view(),
            in_required: self.in_required,
            in_visible: self.in_visible,
            in_pattern: self.in_pattern,
            pattern_dependencies: self.pattern_dependencies.deep_view(),
            pattern_files: self.pattern_files.deep_view(),
        }
    }
}

/// A configuration that declares nothing.
pub open spec fn empty_config() -> FomodConfigView {
    FomodConfigView {
        mod_name: None,
        required_files: Seq::empty(),
        steps: Seq::empty(),
        conditional_file_installs: Seq::empty(),
    }
}

/// The parser before the first event.
pub open spec fn initial_parser() -> FomodParserView {
    FomodParserView {
        config: empty_config(),
        path: Seq::empty(),
        step: None,
        group: None,
        plugin: None,
        text: Seq::empty(),
        flag_name: None,
        in_required: false,
        in_visible: false,
        in_pattern: false,
        pattern_dependencies: None,
        pattern_files: Seq::empty(),
    }
}

/// No flag is asked for.
pub open spec fn no_dependencies() -> PluginDependenciesView {
    PluginDependenciesView { operator: DependencyOperator::And, flags: Seq::empty() }
}

/// A `file` or `folder` goes to the pattern being read, else to the required
/// files outside any plugin, else to the plugin being read.
pub open spec fn with_file(s: FomodParserView, f: FomodFileView) -> FomodParserView {
    if s.in_pattern {
        FomodParserView { pattern_files: s.pattern_files.push(f), ..s }
    } else if s.in_required && s.plugin is None {
        let config = FomodConfigView {
            required_files: s.config.required_files.push(f),
            ..s.config
        };
        FomodParserView { config, ..s }
    } else {
        match s.plugin {
            Some(p) => {
                let plugin = FomodPluginView { files: p.files.push(f), ..p };
                FomodParserView { plugin: Some(plugin), ..s }
            },
            None => s,
        }
    }
}

/// A `dependencies` tag opens the dependencies of the pattern, the step or the
/// plugin being read.
pub open spec fn with_dependencies(
    s: FomodParserView,
    deps: PluginDependenciesView,
) -> FomodParserView {
    if s.in_pattern {
        FomodParserView { pattern_dependencies: Some(deps), ..s }
    } else if s.in_visible {
        match s.step {
            Some(step) => {
                let step = FomodInstallStepView { visible: Some(deps), ..step };
                FomodParserView { step: Some(step), ..s }
            },
            None => s,
        }
    } else {
        match s.plugin {
            Some(p) => {
                let plugin = FomodPluginView { dependencies: Some(deps), ..p };
                FomodParserView { plugin: Some(plugin), ..s }
            },
            None => s,
        }
    }
}

/// Dependencies with one more flag.
pub open spec fn with_one_more(
    deps: PluginDependenciesView,
    d: FlagDependencyView,
) -> PluginDependenciesView {
    PluginDependenciesView { flags: deps.flags.push(d), ..deps }
}

/// Dependencies that may not have been opened, with one more flag.
pub open spec fn opened_with_one_more(
    deps: Option<PluginDependenciesView>,
    d: FlagDependencyView,
) -> Option<PluginDependenciesView> {
    match deps {
        Some(x) => Some(with_one_more(x, d)),
        None => Some(with_one_more(no_dependencies(), d)),
    }
}

/// A `flagDependency` with a flag goes to the pattern or the step being read,
/// or to the dependencies that the plugin being read has opened.
pub open spec fn with_flag_dependency(
    s: FomodParserView,
    d: FlagDependencyView,
) -> FomodParserView {
    if d.flag.len() == 0 {
        s
    } else if s.in_pattern {
        FomodParserView {
            pattern_dependencies: opened_with_one_more(s.pattern_dependencies, d),
            ..s
        }
    } else if s.in_visible {
        match s.step {
            Some(step) => {
                let step = FomodInstallStepView {
                    visible: opened_with_one_more(step.visible, d),
                    ..step
                };
                FomodParserView { step: Some(step), ..s }
            },
            None => s,
        }
    } else {
        match s.plugin {
            Some(p) => match p.dependencies {
                Some(deps) => {
                    let plugin = FomodPluginView {
                        dependencies: Some(with_one_more(deps, d)),
                        ..p
                    };
                    FomodParserView { plugin: Some(plugin), ..s }
                },
                None => s,
            },
            None => s,
        }
    }
}

/// What a tag does, whether it is closed at once or not.
pub open spec fn after_tag(
    s: FomodParserView,
    tag: Seq<char>,
    attributes: Seq<(Seq<char>, Seq<char>)>,
) -> FomodParserView {
    if tag == "file"@ || tag == "folder"@ {
        with_file(s, declared_file(attributes))
    } else if tag == "type"@ {
        match s.plugin {
            Some(p) => {
                let name = lowercase(attribute_or_empty(attributes, "name"@));
                let plugin = FomodPluginView { type_descriptor: plugin_type_named(name), ..p };
                FomodParserView { plugin: Some(plugin), ..s }
            },
            None => s,
        }
    } else if tag == "dependencies"@ {
        with_dependencies(
            s,
            PluginDependenciesView {
                operator: declared_operator(attributes),
                flags: Seq::empty(),
            },
        )
    } else if tag == "image"@ {
        match s.plugin {
            Some(p) => {
                let plugin = FomodPluginView { image_path: attribute(attributes, "path"@), ..p };
                FomodParserView { plugin: Some(plugin), ..s }
            },
            None => s,
        }
    } else if tag == "flagdependency"@ {
        with_flag_dependency(
            s,
            FlagDependencyView {
                flag: attribute_or_empty(attributes, "flag"@),
                value: attribute_or_empty(attributes, "value"@),
            },
        )
    } else {
        s
    }
}

/// What a start tag does.
pub open spec fn after_start(s: FomodParserView, e: XmlElementView) -> FomodParserView {
    let tag = lowercase(e.name);
    let s = FomodParserView { path: s.path.push(tag), ..s };
    if tag == "requiredinstallfiles"@ {
        FomodParserView { in_required: true, ..s }
    } else if tag == "installstep"@ {
        let step = FomodInstallStepView {
            name: attribute_or_empty(e.attributes, "name"@),
            visible: None,
            groups: Seq::empty(),
        };
        FomodParserView { step: Some(step), ..s }
    } else if tag == "visible"@ {
        FomodParserView { in_visible: true, ..s }
    } else if tag == "pattern"@ {
        FomodParserView {
            in_pattern: true,
            pattern_dependencies: None,
            pattern_files: Seq::empty(),
            ..s
        }
    } else if tag == "group"@ {
        let group = FomodPluginGroupView {
            name: attribute_or_empty(e.attributes, "name"@),
            group_type: declared_group_type(e.attributes),
            plugins: Seq::empty(),
        };
        FomodParserView { group: Some(group), ..s }
    } else if tag == "plugin"@ {
        let plugin = FomodPluginView {
            name: attribute_or_empty(e.attributes, "name"@),
            description: None,
            image_path: None,
            files: Seq::empty(),
            type_descriptor: FomodPluginType::Optional,
            condition_flags: Seq::empty(),
            dependencies: None,
        };
        FomodParserView { plugin: Some(plugin), ..s }
    } else if tag == "flag"@ {
        if s.path.contains("conditionflags"@) && s.plugin is Some {
            FomodParserView { flag_name: attribute(e.attributes, "name"@), ..s }
        } else {
            s
        }
    } else {
        after_tag(s, tag, e.attributes)
    }
}

/// A plugin with one more condition flag.
pub open spec fn with_condition_flag(
    p: FomodPluginView,
    name: Seq<char>,
    value: Seq<char>,
) -> FomodPluginView {
    FomodPluginView { condition_flags: p.condition_flags.push(ConditionFlagView { name, value }), ..p }
}

/// What a tag that is closed at once does.
pub open spec fn after_empty(s: FomodParserView, e: XmlElementView) -> FomodParserView {
    let tag = lowercase(e.name);
    if tag == "flag"@ {
        let name = attribute_or_empty(e.attributes, "name"@);
        let value = attribute_or_empty(e.attributes, "value"@);
        match s.plugin {
            Some(p) => if s.path.contains("conditionflags"@) && name.len() > 0 && value.len()
                > 0 {
                FomodParserView { plugin: Some(with_condition_flag(p, name, value)), ..s }
            } else {
                s
            },
            None => s,
        }
    } else {
        after_tag(s, tag, e.attributes)
    }
}

/// Dependencies that ask for nothing are dropped.
pub open spec fn unless_empty(deps: Option<PluginDependenciesView>) -> Option<
    PluginDependenciesView,
> {
    match deps {
        Some(d) => if d.flags.len() == 0 {
            None
        } else {
            deps
        },
        None => None,
    }
}

/// The closing of `dependencies`.
pub open spec fn with_dependencies_closed(s: FomodParserView) -> FomodParserView {
    if s.in_pattern {
        FomodParserView { pattern_dependencies: unless_empty(s.pattern_dependencies), ..s }
    } else if s.in_visible {
        match s.step {
            Some(step) => {
                let step = FomodInstallStepView { visible: unless_empty(step.visible), ..step };
                FomodParserView { step: Some(step), ..s }
            },
            None => s,
        }
    } else {
        match s.plugin {
            Some(p) => {
                let plugin = FomodPluginView { dependencies: unless_empty(p.dependencies), ..p };
                FomodParserView { plugin: Some(plugin), ..s }
            },
            None => s,
        }
    }
}

/// The closing of a `flag`: inside `conditionFlags` it ends the flag whose name
/// the start tag gave; a value makes it one of the plugin's flags.
pub open spec fn with_flag_closed(s: FomodParserView) -> FomodParserView {
    if s.path.len() > 0 && s.path.last() == "conditionflags"@ {
        match (s.flag_name, s.plugin) {
            (Some(name), Some(p)) => if s.text.len() > 0 {
                FomodParserView {
                    flag_name: None,
                    plugin: Some(with_condition_flag(p, name, s.text)),
                    ..s
                }
            } else {
                FomodParserView { flag_name: None, ..s }
            },
            _ => FomodParserView { flag_name: None, ..s },
        }
    } else {
        s
    }
}

/// The closing of a `pattern`: with files it becomes a conditional install.
pub open spec fn with_pattern_closed(s: FomodParserView) -> FomodParserView {
    let dependencies = match s.pattern_dependencies {
        Some(d) => d,
        None => no_dependencies(),
    };
    let config = if s.pattern_files.len() > 0 {
        FomodConfigView {
            conditional_file_installs: s.config.conditional_file_installs.push(
                ConditionalFileInstallView { dependencies, files: s.pattern_files },
            ),
            ..s.config
        }
    } else {
        s.config
    };
    FomodParserView {
        config,
        in_pattern: false,
        pattern_dependencies: None,
        pattern_files: Seq::empty(),
        ..s
    }
}

/// What the closing of a tag does, before the character data is forgotten.
pub open spec fn after_close(s: FomodParserView, tag: Seq<char>) -> FomodParserView {
    if tag == "modulename"@ {
        if s.text.len() > 0 {
            let config = FomodConfigView { mod_name: Some(s.text), ..s.config };
            FomodParserView { config, ..s }
        } else {
            s
        }
    } else if tag == "requiredinstallfiles"@ {
        FomodParserView { in_required: false, ..s }
    } else if tag == "description"@ {
        match s.plugin {
            Some(p) => if s.text.len() > 0 {
                let plugin = FomodPluginView { description: Some(s.text), ..p };
                FomodParserView { plugin: Some(plugin), ..s }
            } else {
                s
            },
            None => s,
        }
    } else if tag == "flag"@ {
        with_flag_closed(s)
    } else if tag == "dependencies"@ {
        with_dependencies_closed(s)
    } else if tag == "visible"@ {
        FomodParserView { in_visible: false, ..s }
    } else if tag == "plugin"@ {
        match (s.plugin, s.group) {
            (Some(p), Some(g)) => {
                let group = FomodPluginGroupView { plugins: g.plugins.push(p), ..g };
                FomodParserView { plugin: None, group: Some(group), ..s }
            },
            _ => FomodParserView { plugin: None, ..s },
        }
    } else if tag == "group"@ {
        match (s.group, s.step) {
            (Some(g), Some(step)) => {
                let step = FomodInstallStepView { groups: step.groups.push(g), ..step };
                FomodParserView { group: None, step: Some(step), ..s }
            },
            _ => FomodParserView { group: None, ..s },
        }
    } else if tag == "installstep"@ {
        match s.step {
            Some(step) => {
                let config = FomodConfigView { steps: s.config.steps.push(step), ..s.config };
                FomodParserView { config, step: None, ..s }
            },
            None => s,
        }
    } else if tag == "pattern"@ {
        with_pattern_closed(s)
    } else {
        s
    }
}

/// What an end tag does.
pub open spec fn after_end(s: FomodParserView, name: Seq<char>) -> FomodParserView {
    let path = if s.path.len() > 0 {
        s.path.drop_last()
    } else {
        s.path
    };
    let closed = after_close(FomodParserView { path, ..s }, lowercase(name));
    FomodParserView { text: Seq::empty(), ..closed }
}

/// What an event does.
pub open spec fn after_event(s: FomodParserView, e: XmlEventView) -> FomodParserView {
    match e {
        XmlEventView::Start(x) => after_start(s, x),
        XmlEventView::Empty(x) => after_empty(s, x),
        XmlEventView::End(n) => after_end(s, n),
        XmlEventView::Text(t) => FomodParserView { text: t, ..s },
        _ => s,
    }
}

/// The parser after a row of events.
pub open spec fn after_events(events: Seq<XmlEventView>) -> FomodParserView
    decreases events.len(),
{
    if events.len() == 0 {
        initial_parser()
    } else {
        after_event(after_events(events.drop_last()), events.last())
    }
}

/// The index of the first event that ends the document, or the number of
/// events.
pub open spec fn end_index(events: Seq<XmlEventView>) -> int
    decreases events.len(),
{
    if events.len() == 0 || events[0] is Eof || events[0] is Failed {
        0
    } else {
        1 + end_index(events.skip(1))
    }
}

/// The configuration that a document declares, or the message of the error
/// that its reading ended with.
pub open spec fn config_of_events(events: Seq<XmlEventView>) -> Result<
    FomodConfigView,
    Seq<char>,
> {
    let n = end_index(events);
    if n < events.len() && events[n] is Failed {
        Err("XML parse error: "@ + events[n]->Failed_0)
    } else {
        Ok(after_events(events.take(n)).config)
    }
}

/// The views of a configuration or of an error message.
pub open spec fn config_result(r: Result<FomodConfig, String>) -> Result<
    FomodConfigView,
    Seq<char>,
> {
    match r {
        Ok(c) => Ok(c.deep_view()),
        Err(e) => Err(e@),
    }
}

// ── Reading attributes ──────────────────────────────────────────────────────

/// The value of the first attribute with the given name.
pub fn get_attr(event: &XmlElement, name: &str) -> (r: Option<String>)
    ensures
        r.deep_view() == attribute(event.attributes.deep_view(), name@),
{
    let ghost all = event.attributes.deep_view();
    let mut i: usize = 0;
    assert(all.skip(0) =~= all);
    while i < event.attributes.len()
        invariant
            i <= event.attributes@.len(),
            all == event.attributes.deep_view(),
            attribute(all, name@) == attribute(all.skip(i as int), name@),
        decreases event.attributes@.len() - i,
    {
        let pair = &event.attributes[i];
        assert(all.skip(i as int)[0] == (pair.0@, pair.1@));
        if same(pair.0.as_str(), name) {
            return Some(pair.1.clone());
        }
        assert(all.skip(i as int).skip(1) =~= all.skip(i + 1));
        i += 1;
    }
    None
}

fn attr_or_empty(event: &XmlElement, name: &str) -> (r: String)
    ensures
        r@ == attribute_or_empty(event.attributes.deep_view(), name@),
{
    match get_attr(event, name) {
        Some(v) => v,
        None => String::new(),
    }
}

fn read_file(event: &XmlElement) -> (r: FomodFile)
    ensures
        r.deep_view() == declared_file(event.attributes.deep_view()),
{
    let priority: i32 = match get_attr(event, "priority") {
        Some(p) => match parse_i32(p.as_str()) {
            Some(n) => n,
            None => 0,
        },
        None => 0,
    };
    FomodFile {
        source: attr_or_empty(event, "source"),
        destination: attr_or_empty(event, "destination"),
        priority,
    }
}

/// The selection type that a lowercase name stands for.
pub fn group_type_from(name: &str) -> (r: FomodGroupType)
    ensures
        r == group_type_named(name@),
{
    if same(name, "selectatleastone") {
        FomodGroupType::SelectAtLeastOne
    } else if same(name, "selectatmostone") {
        FomodGroupType::SelectAtMostOne
    } else if same(name, "selectexactlyone") {
        FomodGroupType::SelectExactlyOne
    } else if same(name, "selectall") {
        FomodGroupType::SelectAll
    } else {
        FomodGroupType::SelectAny
    }
}

/// The plugin type that a lowercase name stands for.
pub fn plugin_type_from(name: &str) -> (r: FomodPluginType)
    ensures
        r == plugin_type_named(name@),
{
    if same(name, "required") {
        FomodPluginType::Required
    } else if same(name, "recommended") {
        FomodPluginType::Recommended
    } else if same(name, "notusable") || same(name, "couldbeusable") {
        FomodPluginType::NotUsable
    } else {
        FomodPluginType::Optional
    }
}

fn read_operator(event: &XmlElement) -> (r: DependencyOperator)
    ensures
        r == declared_operator(event.attributes.deep_view()),
{
    let name = match get_attr(event, "operator") {
        Some(o) => o,
        None => "And".to_owned(),
    };
    if same(to_lowercase(name.as_str()).as_str(), "or") {
        DependencyOperator::Or
    } else {
        DependencyOperator::And
    }
}

fn read_group_type(event: &XmlElement) -> (r: FomodGroupType)
    ensures
        r == declared_group_type(event.attributes.deep_view()),
{
    let name = match get_attr(event, "type") {
        Some(t) => t,
        None => "SelectAny".to_owned(),
    };
    group_type_from(to_lowercase(name.as_str()).as_str())
}

// ── The parser ──────────────────────────────────────────────────────────────

impl FomodParser {
    /// The parser before the first event.
    pub fn new() -> (r: Self)
        ensures
            r.deep_view() == initial_parser(),
    {
        let config = FomodConfig {
            mod_name: None,
            required_files: Vec::new(),
            steps: Vec::new(),
            conditional_file_installs: Vec::new(),
        };
        assert(config.deep_view() =~= empty_config());
        let r = FomodParser {
            config,
            path: Vec::new(),
            step: None,
            group: None,
            plugin: None,
            text: String::new(),
            flag_name: None,
            in_required: false,
            in_visible: false,
            in_pattern: false,
            pattern_dependencies: None,
            pattern_files: Vec::new(),
        };
        assert(r.deep_view() =~= initial_parser());
        r
    }

    fn add_file(&mut self, f: FomodFile)
        ensures
            final(self).deep_view() == with_file(old(self).deep_view(), f.deep_view()),
    {
        let ghost s = self.deep_view();
        let ghost fv = f.deep_view();
        if self.in_pattern {
            self.pattern_files.push(f);
            assert(self.pattern_files.deep_view() =~= s.pattern_files.push(fv));
        } else if self.in_required && self.plugin.is_none() {
            self.config.required_files.push(f);
            assert(self.config.required_files.deep_view() =~= s.config.required_files.push(fv));
        } else {
            match self.plugin.take() {
                Some(mut p) => {
                    let ghost before = p.files.deep_view();
                    p.files.push(f);
                    assert(p.files.deep_view() =~= before.push(fv));
                    self.plugin = Some(p);
                },
                None => {},
            }
        }
        assert(self.deep_view() =~= with_file(s, fv));
    }

    fn open_dependencies(&mut self, deps: PluginDependencies)
        ensures
            final(self).deep_view() == with_dependencies(old(self).deep_view(), deps.deep_view()),
    {
        let ghost s = self.deep_view();
        let ghost dv = deps.deep_view();
        if self.in_pattern {
            self.pattern_dependencies = Some(deps);
        } else if self.in_visible {
            match self.step.take() {
                Some(mut step) => {
                    step.visible = Some(deps);
                    self.step = Some(step);
                },
                None => {},
            }
        } else {
            match self.plugin.take() {
                Some(mut p) => {
                    p.dependencies = Some(deps);
                    self.plugin = Some(p);
                },
                None => {},
            }
        }
        assert(self.deep_view() =~= with_dependencies(s, dv));
    }

    fn add_flag_dependency(&mut self, d: FlagDependency)
        ensures
            final(self).deep_view() == with_flag_dependency(
                old(self).deep_view(),
                d.deep_view(),
            ),
    {
        let ghost s = self.deep_view();
        let ghost dv = d.deep_view();
        if d.flag.as_str().is_empty() {
            return ;
        }
        if self.in_pattern {
            let deps = self.pattern_dependencies.take();
            self.pattern_dependencies = Some(one_more_opened(deps, d));
        } else if self.in_visible {
            match self.step.take() {
                Some(mut step) => {
                    let deps = step.visible.take();
                    step.visible = Some(one_more_opened(deps, d));
                    self.step = Some(step);
                },
                None => {},
            }
        } else {
            match self.plugin.take() {
                Some(mut p) => {
                    match p.dependencies.take() {
                        Some(deps) => {
                            p.dependencies = Some(one_more(deps, d));
                        },
                        None => {},
                    }
                    self.plugin = Some(p);
                },
                None => {},
            }
        }
        assert(self.deep_view() =~= with_flag_dependency(s, dv));
    }

    fn on_tag(&mut self, tag: &str, e: &XmlElement)
        ensures
            final(self).deep_view() == after_tag(
                old(self).deep_view(),
                tag@,
                e.attributes.deep_view(),
            ),
    {
        let ghost s = self.deep_view();
        if same(tag, "file") || same(tag, "folder") {
            self.add_file(read_file(e));
        } else if same(tag, "type") {
            match self.plugin.take() {
                Some(mut p) => {
                    let name = to_lowercase(attr_or_empty(e, "name").as_str());
                    p.type_descriptor = plugin_type_from(name.as_str());
                    self.plugin = Some(p);
                },
                None => {},
            }
            assert(self.deep_view() =~= after_tag(s, tag@, e.attributes.deep_view()));
        } else if same(tag, "dependencies") {
            let deps = PluginDependencies { operator: read_operator(e), flags: Vec::new() };
            assert(deps.flags.deep_view() =~= Seq::<FlagDependencyView>::empty());
            self.open_dependencies(deps);
        } else if same(tag, "image") {
            match self.plugin.take() {
                Some(mut p) => {
                    p.image_path = get_attr(e, "path");
                    self.plugin = Some(p);
                },
                None => {},
            }
            assert(self.deep_view() =~= after_tag(s, tag@, e.attributes.deep_view()));
        } else if same(tag, "flagdependency") {
            let d = FlagDependency {
                flag: attr_or_empty(e, "flag"),
                value: attr_or_empty(e, "value"),
            };
            self.add_flag_dependency(d);
        }
    }

    fn on_start(&mut self, e: &XmlElement)
        ensures
            final(self).deep_view() == after_start(old(self).deep_view(), e.deep_view()),
    {
        let ghost s0 = self.deep_view();
        let tag = to_lowercase(e.name.as_str());
        self.path.push(tag.clone());
        let ghost s = self.deep_view();
        assert(s.path =~= s0.path.push(tag@));
        assert(s =~= FomodParserView { path: s0.path.push(tag@), ..s0 });
        if same(tag.as_str(), "requiredinstallfiles") {
            self.in_required = true;
        } else if same(tag.as_str(), "installstep") {
            let step = FomodInstallStep {
                name: attr_or_empty(e, "name"),
                visible: None,
                groups: Vec::new(),
            };
            assert(step.groups.deep_view() =~= Seq::<FomodPluginGroupView>::empty());
            self.step = Some(step);
        } else if same(tag.as_str(), "visible") {
            self.in_visible = true;
        } else if same(tag.as_str(), "pattern") {
            self.in_pattern = true;
            self.pattern_dependencies = None;
            self.pattern_files = Vec::new();
            assert(self.pattern_files.deep_view() =~= Seq::<FomodFileView>::empty());
        } else if same(tag.as_str(), "group") {
            let group = FomodPluginGroup {
                name: attr_or_empty(e, "name"),
                group_type: read_group_type(e),
                plugins: Vec::new(),
            };
            assert(group.plugins.deep_view() =~= Seq::<FomodPluginView>::empty());
            self.group = Some(group);
        } else if same(tag.as_str(), "plugin") {
            let plugin = FomodPlugin {
                name: attr_or_empty(e, "name"),
                description: None,
                image_path: None,
                files: Vec::new(),
                type_descriptor: FomodPluginType::Optional,
                condition_flags: Vec::new(),
                dependencies: None,
            };
            assert(plugin.files.deep_view() =~= Seq::<FomodFileView>::empty());
            assert(plugin.condition_flags.deep_view() =~= Seq::<ConditionFlagView>::empty());
            self.plugin = Some(plugin);
        } else if same(tag.as_str(), "flag") {
            if is_listed(&self.path, "conditionflags") && self.plugin.is_some() {
                self.flag_name = get_attr(e, "name");
            }
        } else {
            self.on_tag(tag.as_str(), e);
        }
        assert(self.deep_view() =~= after_start(s0, e.deep_view()));
    }

    fn on_empty(&mut self, e: &XmlElement)
        ensures
            final(self).deep_view() == after_empty(old(self).deep_view(), e.deep_view()),
    {
        let ghost s = self.deep_view();
        let tag = to_lowercase(e.name.as_str());
        if same(tag.as_str(), "flag") {
            let name = attr_or_empty(e, "name");
            let value = attr_or_empty(e, "value");
            let counts = is_listed(&self.path, "conditionflags") && !name.as_str().is_empty()
                && !value.as_str().is_empty();
            match self.plugin.take() {
                Some(p) => {
                    if counts {
                        self.plugin = Some(one_more_condition(p, name, value));
                    } else {
                        self.plugin = Some(p);
                    }
                },
                None => {},
            }
            assert(self.deep_view() =~= after_empty(s, e.deep_view()));
        } else {
            self.on_tag(tag.as_str(), e);
        }
    }

    fn close_flag(&mut self)
        ensures
            final(self).deep_view() == with_flag_closed(old(self).deep_view()),
    {
        let ghost s = self.deep_view();
        if self.path.len() > 0 && same(self.path[self.path.len() - 1].as_str(), "conditionflags") {
            assert(s.path.last() == self.path@[self.path@.len() - 1]@);
            match self.flag_name.take() {
                Some(name) => {
                    match self.plugin.take() {
                        Some(p) => {
                            if !self.text.as_str().is_empty() {
                                let value = self.text.clone();
                                self.plugin = Some(one_more_condition(p, name, value));
                            } else {
                                self.plugin = Some(p);
                            }
                        },
                        None => {},
                    }
                },
                None => {},
            }
        } else {
            assert(s.path.len() > 0 ==> s.path.last() == self.path@[self.path@.len() - 1]@);
        }
        assert(self.deep_view() =~= with_flag_closed(s));
    }

    fn close_dependencies(&mut self)
        ensures
            final(self).deep_view() == with_dependencies_closed(old(self).deep_view()),
    {
        let ghost s = self.deep_view();
        if self.in_pattern {
            let deps = self.pattern_dependencies.take();
            self.pattern_dependencies = drop_empty(deps);
        } else if self.in_visible {
            match self.step.take() {
                Some(mut step) => {
                    let deps = step.visible.take();
                    step.visible = drop_empty(deps);
                    self.step = Some(step);
                },
                None => {},
            }
        } else {
            match self.plugin.take() {
                Some(mut p) => {
                    let deps = p.dependencies.take();
                    p.dependencies = drop_empty(deps);
                    self.plugin = Some(p);
                },
                None => {},
            }
        }
        assert(self.deep_view() =~= with_dependencies_closed(s));
    }

    fn close_pattern(&mut self)
        ensures
            final(self).deep_view() == with_pattern_closed(old(self).deep_view()),
    {
        let ghost s = self.deep_view();
        let dependencies = match self.pattern_dependencies.take() {
            Some(d) => d,
            None => no_flags(),
        };
        let mut files: Vec<FomodFile> = Vec::new();
        std::mem::swap(&mut files, &mut self.pattern_files);
        assert(self.pattern_files.deep_view() =~= Seq::<FomodFileView>::empty());
        assert(files.deep_view() == s.pattern_files);
        if files.len() > 0 {
            let install = ConditionalFileInstall { dependencies, files };
            let ghost iv = install.deep_view();
            self.config.conditional_file_installs.push(install);
            assert(self.config.conditional_file_installs.deep_view()
                =~= s.config.conditional_file_installs.push(iv));
        }
        self.in_pattern = false;
        assert(self.deep_view() =~= with_pattern_closed(s));
    }

    fn close_plugin(&mut self)
        ensures
            final(self).deep_view() == after_close(old(self).deep_view(), "plugin"@),
    {
        let ghost s = self.deep_view();
        match self.plugin.take() {
            Some(p) => {
                match self.group.take() {
                    Some(mut g) => {
                        let ghost before = g.plugins.deep_view();
                        let ghost pv = p.deep_view();
                        g.plugins.push(p);
                        assert(g.plugins.deep_view() =~= before.push(pv));
                        self.group = Some(g);
                    },
                    None => {},
                }
            },
            None => {},
        }
        proof {
            reveal_tags();
            assert(self.deep_view() =~= after_close(s, "plugin"@));
        }
    }

    fn close_group(&mut self)
        ensures
            final(self).deep_view() == after_close(old(self).deep_view(), "group"@),
    {
        let ghost s = self.deep_view();
        match self.group.take() {
            Some(g) => {
                match self.step.take() {
                    Some(mut step) => {
                        let ghost before = step.groups.deep_view();
                        let ghost gv = g.deep_view();
                        step.groups.push(g);
                        assert(step.groups.deep_view() =~= before.push(gv));
                        self.step = Some(step);
                    },
                    None => {},
                }
            },
            None => {},
        }
        proof {
            reveal_tags();
            assert(self.deep_view() =~= after_close(s, "group"@));
        }
    }

    fn on_close(&mut self, tag: &str)
        ensures
            final(self).deep_view() == after_close(old(self).deep_view(), tag@),
    {
        let ghost s = self.deep_view();
        if same(tag, "modulename") {
            if !self.text.as_str().is_empty() {
                self.config.mod_name = Some(self.text.clone());
            }
        } else if same(tag, "requiredinstallfiles") {
            self.in_required = false;
        } else if same(tag, "description") {
            match self.plugin.take() {
                Some(mut p) => {
                    if !self.text.as_str().is_empty() {
                        p.description = Some(self.text.clone());
                    }
                    self.plugin = Some(p);
                },
                None => {},
            }
        } else if same(tag, "flag") {
            self.close_flag();
        } else if same(tag, "dependencies") {
            self.close_dependencies();
        } else if same(tag, "visible") {
            self.in_visible = false;
        } else if same(tag, "plugin") {
            self.close_plugin();
        } else if same(tag, "group") {
            self.close_group();
        } else if same(tag, "installstep") {
            match self.step.take() {
                Some(step) => {
                    let ghost sv = step.deep_view();
                    self.config.steps.push(step);
                    assert(self.config.steps.deep_view() =~= s.config.steps.push(sv));
                },
                None => {},
            }
        } else if same(tag, "pattern") {
            self.close_pattern();
        }
        assert(self.deep_view() =~= after_close(s, tag@));
    }

    fn on_end(&mut self, name: &str)
        ensures
            final(self).deep_view() == after_end(old(self).deep_view(), name@),
    {
        let ghost s = self.deep_view();
        let tag = to_lowercase(name);
        let popped = self.path.pop();
        proof {
            if s.path.len() > 0 {
                assert(self.path.deep_view() =~= s.path.drop_last());
                assert(self.deep_view() =~= FomodParserView { path: s.path.drop_last(), ..s });
            } else {
                assert(self.path.deep_view() =~= s.path);
                assert(self.deep_view() =~= FomodParserView { path: s.path, ..s });
            }
        }
        self.on_close(tag.as_str());
        self.text = String::new();
        assert(self.deep_view() =~= after_end(s, name@));
    }

    /// Takes one event in.
    pub fn on_event(&mut self, e: &XmlEvent)
        ensures
            final(self).deep_view() == after_event(old(self).deep_view(), e.deep_view()),
    {
        let ghost s = self.deep_view();
        match e {
            XmlEvent::Start(x) => self.on_start(x),
            XmlEvent::Empty(x) => self.on_empty(x),
            XmlEvent::End(n) => self.on_end(n.as_str()),
            XmlEvent::Text(t) => {
                self.text = t.clone();
                assert(self.deep_view() =~= after_event(s, e.deep_view()));
            },
            _ => {},
        }
    }
}

/// The names of closing tags differ from one another.
proof fn reveal_tags()
    ensures
        "plugin"@ != "modulename"@,
        "plugin"@ != "requiredinstallfiles"@,
        "plugin"@ != "description"@,
        "plugin"@ != "flag"@,
        "plugin"@ != "dependencies"@,
        "plugin"@ != "visible"@,
        "group"@ != "modulename"@,
        "group"@ != "requiredinstallfiles"@,
        "group"@ != "description"@,
        "group"@ != "flag"@,
        "group"@ != "dependencies"@,
        "group"@ != "visible"@,
        "group"@ != "plugin"@,
{
    reveal_strlit("plugin");
    reveal_strlit("group");
    reveal_strlit("modulename");
    reveal_strlit("requiredinstallfiles");
    reveal_strlit("description");
    reveal_strlit("flag");
    reveal_strlit("dependencies");
    reveal_strlit("visible");
    assert("plugin"@[0] == 'p' && "visible"@[0] == 'v' && "group"@[0] == 'g');
}

fn no_flags() -> (r: PluginDependencies)
    ensures
        r.deep_view() == no_dependencies(),
{
    let r = PluginDependencies { operator: DependencyOperator::And, flags: Vec::new() };
    assert(r.deep_view() =~= no_dependencies());
    r
}

fn one_more(deps: PluginDependencies, d: FlagDependency) -> (r: PluginDependencies)
    ensures
        r.deep_view() == with_one_more(deps.deep_view(), d.deep_view()),
{
    let mut r = deps;
    r.flags.push(d);
    assert(r.deep_view() =~= with_one_more(deps.deep_view(), d.deep_view()));
    r
}

fn one_more_opened(deps: Option<PluginDependencies>, d: FlagDependency) -> (r:
    PluginDependencies)
    ensures
        Some(r.deep_view()) == opened_with_one_more(deps.deep_view(), d.deep_view()),
{
    match deps {
        Some(x) => one_more(x, d),
        None => one_more(no_flags(), d),
    }
}

fn one_more_condition(p: FomodPlugin, name: String, value: String) -> (r: FomodPlugin)
    ensures
        r.deep_view() == with_condition_flag(p.deep_view(), name@, value@),
{
    let mut r = p;
    let ghost flag = ConditionFlagView { name: name@, value: value@ };
    r.condition_flags.push(ConditionFlag { name, value });
    assert(r.condition_flags.deep_view() =~= p.deep_view().condition_flags.push(flag));
    assert(r.deep_view() =~= with_condition_flag(p.deep_view(), name@, value@));
    r
}

fn drop_empty(deps: Option<PluginDependencies>) -> (r: Option<PluginDependencies>)
    ensures
        r.deep_view() == unless_empty(deps.deep_view()),
{
    match deps {
        Some(d) => if d.flags.len() == 0 {
            None
        } else {
            Some(d)
        },
        None => None,
    }
}

/// The configuration that the events of a document declare.
pub fn config_from_events(events: &Vec<XmlEvent>) -> (r: Result<FomodConfig, String>)
    ensures
        config_result(r) == config_of_events(events.deep_view()),
{
    let ghost all = events.deep_view();
    let mut parser = FomodParser::new();
    let mut i: usize = 0;
    assert(all.take(0) =~= Seq::<XmlEventView>::empty());
    assert(all.skip(0) =~= all);
    while i < events.len()
        invariant
            i <= events@.len(),
            all == events.deep_view(),
            parser.deep_view() == after_events(all.take(i as int)),
            end_index(all) == i + end_index(all.skip(i as int)),
        decreases events@.len() - i,
    {
        let ghost left = all.skip(i as int);
        assert(left[0] == events@[i as int].deep_view());
        match &events[i] {
            XmlEvent::Eof => {
                return Ok(parser.config);
            },
            XmlEvent::Failed(m) => {
                return Err(concat2("XML parse error: ", m.as_str()));
            },
            e => {
                parser.on_event(e);
            },
        }
        proof {
            assert(left.skip(1) =~= all.skip(i + 1));
            assert(all.take(i + 1).drop_last() =~= all.take(i as int));
            assert(all.take(i + 1).last() == left[0]);
        }
        i += 1;
    }
    Ok(parser.config)
}

} // verus!
