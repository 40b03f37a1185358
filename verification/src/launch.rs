//! Command lines: taking arguments apart, quoting them, and the commands that
//! start games and tools.
use vstd::prelude::*;

use crate::games::{primary_app_id, Game};
use crate::number::{decimal, decimal_string};
use crate::text::{chars_of, concat2, is_white_space, is_whitespace, owned};

verus! {

// ── Taking arguments apart ──────────────────────────────────────────────────

/// Where taking arguments apart stands: the arguments so far, the one that is
/// being read, the quote that is open, and whether the next character is taken
/// as it is.
#[verifier::ext_equal]
pub ghost struct SplitState {
    pub out: Seq<Seq<char>>,
    pub current: Seq<char>,
    pub quote: Option<char>,
    pub escaped: bool,
}

/// Taking arguments apart goes on by a character.
pub open spec fn after_char(s: SplitState, c: char) -> SplitState {
    if s.escaped {
        SplitState { current: s.current.push(c), escaped: false, ..s }
    } else if c == '\\' {
        SplitState { escaped: true, ..s }
    } else if c == '\'' || c == '"' {
        if s.quote == Some(c) {
            SplitState { quote: None, ..s }
        } else if s.quote is None {
            SplitState { quote: Some(c), ..s }
        } else {
            SplitState { current: s.current.push(c), ..s }
        }
    } else if is_white_space(c) && s.quote is None {
        if s.current.len() == 0 {
            s
        } else {
            SplitState { out: s.out.push(s.current), current: Seq::empty(), ..s }
        }
    } else {
        SplitState { current: s.current.push(c), ..s }
    }
}

/// Where taking arguments apart stands after the text.
pub open spec fn split_state(text: Seq<char>) -> SplitState
    decreases text.len(),
{
    if text.len() == 0 {
        SplitState { out: Seq::empty(), current: Seq::empty(), quote: None, escaped: false }
    } else {
        after_char(split_state(text.drop_last()), text.last())
    }
}

/// The arguments, if every quote is closed.
pub open spec fn arguments_of(text: Seq<char>) -> Option<Seq<Seq<char>>> {
    let s = split_state(text);
    let last = if s.escaped {
        s.current.push('\\')
    } else {
        s.current
    };
    if s.quote is Some {
        None
    } else if last.len() == 0 {
        Some(s.out)
    } else {
        Some(s.out.push(last))
    }
}

/// Takes a line of arguments apart at white space outside quotes.  A backslash
/// has the next character taken as it is.
pub fn split_launch_arguments(arguments: &str) -> (r: Result<Vec<String>, String>)
    ensures
        match r {
            Ok(v) => arguments_of(arguments@) == Some(v.deep_view()),
            Err(e) => arguments_of(arguments@) is None && e@
                == "Tool arguments contain an unmatched quote"@,
        },
{
    let v = chars_of(arguments);
    let ghost text = arguments@;
    let mut out: Vec<String> = Vec::new();
    let mut current = String::new();
    let mut quote: Option<char> = None;
    let mut escaped = false;
    assert(out.deep_view() =~= split_state(text.take(0)).out);
    for i in 0..v.len()
        invariant
            v@ == text,
            split_state(text.take(i as int)) == (SplitState {
                out: out.deep_view(),
                current: current@,
                quote,
                escaped,
            }),
    {
        let ghost before = out.deep_view();
        let ghost cur = current@;
        assert(text.take(i + 1).drop_last() =~= text.take(i as int));
        let c = v[i];
        if escaped {
            current.push(c);
            escaped = false;
        } else if c == '\\' {
            escaped = true;
        } else if c == '\'' || c == '"' {
            match quote {
                Some(q) => {
                    if q == c {
                        quote = None;
                    } else {
                        current.push(c);
                    }
                },
                None => {
                    quote = Some(c);
                },
            }
        } else if is_whitespace(c) && quote.is_none() {
            if !current.as_str().is_empty() {
                out.push(current);
                current = String::new();
                assert(out.deep_view() =~= before.push(cur));
            }
        } else {
            current.push(c);
        }
    }
    assert(text.take(text.len() as int) =~= text);
    if escaped {
        current.push('\\');
    }
    if quote.is_some() {
        return Err(owned("Tool arguments contain an unmatched quote"));
    }
    if !current.as_str().is_empty() {
        let ghost before = out.deep_view();
        let ghost cur = current@;
        out.push(current);
        assert(out.deep_view() =~= before.push(cur));
    }
    Ok(out)
}

// ── Quoting ─────────────────────────────────────────────────────────────────

/// The character has a value quoted.
pub open spec fn wants_quotes(c: char) -> bool {
    c == ' ' || c == '\t' || c == '"' || c == '\''
}

/// Some character of the value has it quoted.
pub open spec fn needs_quotes(s: Seq<char>) -> bool {
    exists|i: int| 0 <= i < s.len() && wants_quotes(#[trigger] s[i])
}

/// The value with a backslash before backslashes and double quotes.
pub open spec fn escaped_text(s: Seq<char>) -> Seq<char>
    decreases s.len(),
{
    if s.len() == 0 {
        s
    } else {
        let before = escaped_text(s.drop_last());
        if s.last() == '\\' || s.last() == '"' {
            before.push('\\').push(s.last())
        } else {
            before.push(s.last())
        }
    }
}

/// The value as it stands in a command line.
pub open spec fn shell_quoted(s: Seq<char>) -> Seq<char> {
    if needs_quotes(s) {
        seq!['"'] + escaped_text(s) + seq!['"']
    } else {
        s
    }
}

/// Quotes a value for a command line, if it needs it.
pub fn shell_quote_value(value: &str) -> (r: String)
    ensures
        r@ == shell_quoted(value@),
{
    let v = chars_of(value);
    let ghost s = value@;
    let mut found = false;
    for i in 0..v.len()
        invariant
            v@ == s,
            found == exists|j: int| 0 <= j < i && wants_quotes(#[trigger] s[j]),
    {
        if v[i] == ' ' || v[i] == '\t' || v[i] == '"' || v[i] == '\'' {
            assert(wants_quotes(s[i as int]));
            found = true;
        }
    }
    if !found {
        return owned(value);
    }
    let mut r = String::new();
    r.push('"');
    assert(r@ =~= seq!['"'] + escaped_text(s.take(0)));
    for i in 0..v.len()
        invariant
            v@ == s,
            r@ == seq!['"'] + escaped_text(s.take(i as int)),
    {
        assert(s.take(i + 1).drop_last() =~= s.take(i as int));
        let ghost before = r@;
        let c = v[i];
        if c == '\\' || c == '"' {
            r.push('\\');
        }
        r.push(c);
        assert(r@ =~= seq!['"'] + escaped_text(s.take(i + 1)));
    }
    assert(s.take(s.len() as int) =~= s);
    r.push('"');
    assert(r@ =~= seq!['"'] + escaped_text(s) + seq!['"']);
    r
}

proof fn lemma_split_inside_quotes(s: Seq<char>)
    ensures
        split_state(seq!['"'] + escaped_text(s)) == (SplitState {
            out: Seq::empty(),
            current: s,
            quote: Some('"'),
            escaped: false,
        }),
    decreases s.len(),
{
    let open = seq!['"'];
    if s.len() == 0 {
        assert(open + escaped_text(s) =~= open);
        assert(open.drop_last() =~= Seq::<char>::empty());
        assert(split_state(open.drop_last()).quote is None);
        assert(open.last() == '"');
        assert(s =~= Seq::empty());
    } else {
        let rest = s.drop_last();
        let c = s.last();
        lemma_split_inside_quotes(rest);
        let text = open + escaped_text(s);
        let before = open + escaped_text(rest);
        assert(rest.push(c) =~= s);
        if c == '\\' || c == '"' {
            let mid = before.push('\\');
            assert(text =~= mid.push(c));
            assert(text.drop_last() =~= mid);
            assert(mid.drop_last() =~= before);
            assert(split_state(mid).escaped);
        } else {
            assert(text =~= before.push(c));
            assert(text.drop_last() =~= before);
        }
    }
}

proof fn lemma_split_plain(s: Seq<char>)
    requires
        forall|i: int|
            0 <= i < s.len() ==> !is_white_space(#[trigger] s[i]) && s[i] != '\\' && s[i] != '"'
                && s[i] != '\'',
    ensures
        split_state(s) == (SplitState {
            out: Seq::empty(),
            current: s,
            quote: None,
            escaped: false,
        }),
    decreases s.len(),
{
    if s.len() > 0 {
        let rest = s.drop_last();
        assert forall|i: int| 0 <= i < rest.len() implies !is_white_space(#[trigger] rest[i])
            && rest[i] != '\\' && rest[i] != '"' && rest[i] != '\'' by {
            assert(s[i] == rest[i]);
        }
        lemma_split_plain(rest);
        assert(s[s.len() - 1] == s.last());
        assert(rest.push(s.last()) =~= s);
    } else {
        assert(s =~= Seq::empty());
    }
}

/// A quoted value is taken apart into that one value.  Values that stay
/// unquoted are so too, as long as nothing in them has a meaning of its own.
pub proof fn quoted_value_is_one_argument(s: Seq<char>)
    requires
        s.len() > 0,
        needs_quotes(s) || forall|i: int|
            0 <= i < s.len() ==> !is_white_space(#[trigger] s[i]) && s[i] != '\\',
    ensures
        arguments_of(shell_quoted(s)) == Some(seq![s]),
{
    if needs_quotes(s) {
        lemma_split_inside_quotes(s);
        let text = shell_quoted(s);
        assert(text.drop_last() =~= seq!['"'] + escaped_text(s));
        assert(text.last() == '"');
    } else {
        assert forall|i: int| 0 <= i < s.len() implies !is_white_space(#[trigger] s[i]) && s[i]
            != '\\' && s[i] != '"' && s[i] != '\'' by {
            assert(!wants_quotes(s[i]));
        }
        lemma_split_plain(s);
    }
    assert(Seq::<Seq<char>>::empty().push(s) =~= seq![s]);
}

// ── Commands ────────────────────────────────────────────────────────────────

/// A command: a program, its arguments, and variables for its environment.
#[derive(Debug)]
pub struct CommandLine {
    pub program: String,
    pub args: Vec<String>,
    pub env: Vec<(String, String)>,
}

/// A [`CommandLine`] as a mathematical value.
#[verifier::ext_equal]
pub ghost struct CommandLineView {
    pub program: Seq<char>,
    pub args: Seq<Seq<char>>,
    pub env: Seq<(Seq<char>, Seq<char>)>,
}

impl DeepView for CommandLine {
    type V = CommandLineView;

    open spec fn deep_view(&self) -> CommandLineView {
        CommandLineView {
            program: self.program@,
            args: self.args.deep_view(),
            env: self.env.deep_view(),
        }
    }
}

impl CommandLine {
    /// A command without arguments.
    pub fn new(program: &str) -> (r: CommandLine)
        ensures
            r.deep_view() == (CommandLineView {
                program: program@,
                args: Seq::empty(),
                env: Seq::empty(),
            }),
    {
        let r = CommandLine { program: owned(program), args: Vec::new(), env: Vec::new() };
        assert(r.deep_view() =~= CommandLineView {
            program: program@,
            args: Seq::empty(),
            env: Seq::empty(),
        });
        r
    }

    /// Adds an argument.
    pub fn arg(&mut self, arg: &str)
        ensures
            final(self).deep_view() == (CommandLineView {
                args: old(self).deep_view().args.push(arg@),
                ..old(self).deep_view()
            }),
    {
        let ghost before = self.args.deep_view();
        self.args.push(owned(arg));
        assert(self.args.deep_view() =~= before.push(arg@));
    }

    /// Adds several arguments.
    pub fn args_from(&mut self, args: Vec<String>)
        ensures
            final(self).deep_view() == (CommandLineView {
                args: old(self).deep_view().args + args.deep_view(),
                ..old(self).deep_view()
            }),
    {
        let ghost before = self.args.deep_view();
        let ghost more = args.deep_view();
        let mut rest = args;
        self.args.append(&mut rest);
        assert(self.args.deep_view() =~= before + more);
    }

    /// Sets a variable.
    pub fn set_env(&mut self, name: &str, value: &str)
        ensures
            final(self).deep_view() == (CommandLineView {
                env: old(self).deep_view().env.push((name@, value@)),
                ..old(self).deep_view()
            }),
    {
        let ghost before = self.env.deep_view();
        self.env.push((owned(name), owned(value)));
        assert(self.env.deep_view() =~= before.push((name@, value@)));
    }
}

// ── Starting games through Steam ────────────────────────────────────────────

/// The address that has Steam run an application.
pub open spec fn run_address(app_id: u32) -> Seq<char> {
    "steam://run/"@ + decimal(app_id as nat)
}

/// The command that has the desktop open the address of an application.
pub open spec fn desktop_command(app_id: u32) -> CommandLineView {
    CommandLineView {
        program: "xdg-open"@,
        args: seq![run_address(app_id)],
        env: Seq::empty(),
    }
}

/// The command that has the Steam client launch an application.
pub open spec fn native_command(app_id: u32) -> CommandLineView {
    CommandLineView {
        program: "steam"@,
        args: seq!["-applaunch"@, decimal(app_id as nat)],
        env: Seq::empty(),
    }
}

/// The command that has the Steam client inside Flatpak launch an application.
pub open spec fn flatpak_command(app_id: u32) -> CommandLineView {
    CommandLineView {
        program: "flatpak"@,
        args: seq![
            "run"@,
            "com.valvesoftware.Steam"@,
            "-applaunch"@,
            decimal(app_id as nat),
        ],
        env: Seq::empty(),
    }
}

/// How a managed launch reaches Steam.
#[derive(Clone, Copy, Debug, PartialEq, Eq, Structural)]
pub enum ManagedSteamBackend {
    Native,
    Flatpak,
    XdgOpenFallback,
}

/// How a managed launch reaches Steam: through Flatpak if Steam lives there,
/// else through its executable, else through the desktop.
pub fn select_managed_steam_backend(is_flatpak: bool, steam_on_path: bool) -> (r:
    ManagedSteamBackend)
    ensures
        r == (if is_flatpak {
            ManagedSteamBackend::Flatpak
        } else if steam_on_path {
            ManagedSteamBackend::Native
        } else {
            ManagedSteamBackend::XdgOpenFallback
        }),
{
    if is_flatpak {
        ManagedSteamBackend::Flatpak
    } else if steam_on_path {
        ManagedSteamBackend::Native
    } else {
        ManagedSteamBackend::XdgOpenFallback
    }
}

/// The command that has the Steam client launch an application.
pub fn launch_game_managed_native_command(app_id: u32) -> (r: CommandLine)
    ensures
        r.deep_view() == native_command(app_id),
{
    let mut command = CommandLine::new("steam");
    command.arg("-applaunch");
    command.arg(decimal_string(app_id as u128).as_str());
    assert(command.deep_view() =~= native_command(app_id));
    command
}

/// The command that has the Steam client inside Flatpak launch an application.
pub fn launch_game_managed_flatpak_command(app_id: u32) -> (r: CommandLine)
    ensures
        r.deep_view() == flatpak_command(app_id),
{
    let mut command = CommandLine::new("flatpak");
    command.arg("run");
    command.arg("com.valvesoftware.Steam");
    command.arg("-applaunch");
    command.arg(decimal_string(app_id as u128).as_str());
    assert(command.deep_view() =~= flatpak_command(app_id));
    command
}

fn open_command(app_id: u32) -> (r: CommandLine)
    ensures
        r.deep_view() == desktop_command(app_id),
{
    let mut command = CommandLine::new("xdg-open");
    command.arg(concat2("steam://run/", decimal_string(app_id as u128).as_str()).as_str());
    assert(command.deep_view() =~= desktop_command(app_id));
    command
}

/// The command that has Steam run a game as if it were started there.
pub fn launch_game(game: &Game) -> (r: Result<CommandLine, String>)
    ensures
        r is Ok,
        r->Ok_0.deep_view() == desktop_command(primary_app_id(game.kind)),
{
    match game.kind.steam_app_id() {
        Some(app_id) => Ok(open_command(app_id)),
        None => Err(owned("Game has no Steam App ID")),
    }
}

/// The command that launches a game through Steam so that it can be followed.
pub fn launch_game_managed_command(game: &Game, is_flatpak: bool, steam_on_path: bool) -> (r:
    Result<CommandLine, String>)
    ensures
        r is Ok,
        r->Ok_0.deep_view() == (if is_flatpak {
            flatpak_command(primary_app_id(game.kind))
        } else if steam_on_path {
            native_command(primary_app_id(game.kind))
        } else {
            desktop_command(primary_app_id(game.kind))
        }),
{
    match game.kind.steam_app_id() {
        Some(app_id) => Ok(
            match select_managed_steam_backend(is_flatpak, steam_on_path) {
                ManagedSteamBackend::Flatpak => launch_game_managed_flatpak_command(app_id),
                ManagedSteamBackend::Native => launch_game_managed_native_command(app_id),
                ManagedSteamBackend::XdgOpenFallback => open_command(app_id),
            },
        ),
        None => Err(owned("Game has no Steam App ID")),
    }
}

// ── Running tools with Proton ───────────────────────────────────────────────

/// What a tool is run with.
pub struct ToolLaunch<'a> {
    pub proton_script: &'a str,
    pub exe_path: &'a str,
    pub arguments: &'a str,
    pub steam_root: &'a str,
    pub compatdata_path: &'a str,
    pub app_id: u32,
}

/// A [`ToolLaunch`] as a mathematical value.
#[verifier::ext_equal]
pub ghost struct ToolLaunchView {
    pub proton_script: Seq<char>,
    pub exe_path: Seq<char>,
    pub arguments: Seq<char>,
    pub steam_root: Seq<char>,
    pub compatdata_path: Seq<char>,
    pub app_id: u32,
}

impl<'a> DeepView for ToolLaunch<'a> {
    type V = ToolLaunchView;

    open spec fn deep_view(&self) -> ToolLaunchView {
        ToolLaunchView {
            proton_script: self.proton_script@,
            exe_path: self.exe_path@,
            arguments: self.arguments@,
            steam_root: self.steam_root@,
            compatdata_path: self.compatdata_path@,
            app_id: self.app_id,
        }
    }
}

/// The command that runs a tool with Proton.
pub open spec fn native_tool(t: ToolLaunchView, args: Seq<Seq<char>>) -> CommandLineView {
    let id = decimal(t.app_id as nat);
    CommandLineView {
        program: t.proton_script,
        args: seq!["run"@, t.exe_path] + args,
        env: seq![
            ("STEAM_COMPAT_DATA_PATH"@, t.compatdata_path),
            ("STEAM_COMPAT_CLIENT_INSTALL_PATH"@, t.steam_root),
            ("SteamAppId"@, id),
            ("SteamGameId"@, id),
        ],
    }
}

/// The command that runs a tool with the Proton inside Flatpak.
pub open spec fn flatpak_tool(t: ToolLaunchView, args: Seq<Seq<char>>) -> CommandLineView {
    let id = decimal(t.app_id as nat);
    CommandLineView {
        program: "flatpak"@,
        args: seq![
            "run"@,
            "--env=STEAM_COMPAT_CLIENT_INSTALL_PATH="@ + t.steam_root,
            "--env=STEAM_COMPAT_DATA_PATH="@ + t.compatdata_path,
            "--env=SteamAppId="@ + id,
            "--env=SteamGameId="@ + id,
            "--command="@ + t.proton_script,
            "com.valvesoftware.Steam"@,
            "run"@,
            t.exe_path,
        ] + args,
        env: Seq::empty(),
    }
}

/// The command that runs a tool with Proton; the tool's arguments are taken
/// apart.
pub fn build_native_tool_command(t: &ToolLaunch<'_>) -> (r: Result<CommandLine, String>)
    ensures
        match arguments_of(t.arguments@) {
            Some(args) => r is Ok && r->Ok_0.deep_view() == native_tool(t.deep_view(), args),
            None => r is Err && r->Err_0@ == "Tool arguments contain an unmatched quote"@,
        },
{
    let args = match split_launch_arguments(t.arguments) {
        Ok(a) => a,
        Err(e) => {
            return Err(e);
        },
    };
    let ghost av = args.deep_view();
    let id = decimal_string(t.app_id as u128);
    let mut command = CommandLine::new(t.proton_script);
    command.set_env("STEAM_COMPAT_DATA_PATH", t.compatdata_path);
    command.set_env("STEAM_COMPAT_CLIENT_INSTALL_PATH", t.steam_root);
    command.set_env("SteamAppId", id.as_str());
    command.set_env("SteamGameId", id.as_str());
    command.arg("run");
    command.arg(t.exe_path);
    command.args_from(args);
    assert(command.deep_view() =~= native_tool(t.deep_view(), av));
    Ok(command)
}

/// The command that runs a tool with the Proton inside Flatpak; the tool's
/// arguments are taken apart.
pub fn build_flatpak_tool_command(t: &ToolLaunch<'_>) -> (r: Result<CommandLine, String>)
    ensures
        match arguments_of(t.arguments@) {
            Some(args) => r is Ok && r->Ok_0.deep_view() == flatpak_tool(t.deep_view(), args),
            None => r is Err && r->Err_0@ == "Tool arguments contain an unmatched quote"@,
        },
{
    let args = match split_launch_arguments(t.arguments) {
        Ok(a) => a,
        Err(e) => {
            return Err(e);
        },
    };
    let ghost av = args.deep_view();
    let id = decimal_string(t.app_id as u128);
    let mut command = CommandLine::new("flatpak");
    command.arg("run");
    command.arg(concat2("--env=STEAM_COMPAT_CLIENT_INSTALL_PATH=", t.steam_root).as_str());
    command.arg(concat2("--env=STEAM_COMPAT_DATA_PATH=", t.compatdata_path).as_str());
    command.arg(concat2("--env=SteamAppId=", id.as_str()).as_str());
    command.arg(concat2("--env=SteamGameId=", id.as_str()).as_str());
    command.arg(concat2("--command=", t.proton_script).as_str());
    command.arg("com.valvesoftware.Steam");
    command.arg("run");
    command.arg(t.exe_path);
    command.args_from(args);
    assert(command.deep_view() =~= flatpak_tool(t.deep_view(), av));
    Ok(command)
}

// ── Laws ────────────────────────────────────────────────────────────────────

spec fn split_on(s: SplitState, text: Seq<char>) -> SplitState
    decreases text.len(),
{
    if text.len() == 0 {
        s
    } else {
        after_char(split_on(s, text.drop_last()), text.last())
    }
}

proof fn lemma_split_on(a: Seq<char>, b: Seq<char>)
    ensures
        split_state(a + b) == split_on(split_state(a), b),
    decreases b.len(),
{
    if b.len() == 0 {
        assert(a + b =~= a);
    } else {
        lemma_split_on(a, b.drop_last());
        assert((a + b).drop_last() =~= a + b.drop_last());
        assert((a + b).last() == b.last());
    }
}

proof fn lemma_split_on_from(s: SplitState, a: Seq<char>, b: Seq<char>)
    ensures
        split_on(s, a + b) == split_on(split_on(s, a), b),
    decreases b.len(),
{
    if b.len() == 0 {
        assert(a + b =~= a);
    } else {
        lemma_split_on_from(s, a, b.drop_last());
        assert((a + b).drop_last() =~= a + b.drop_last());
        assert((a + b).last() == b.last());
    }
}

spec fn between(out: Seq<Seq<char>>, current: Seq<char>, quote: Option<char>) -> SplitState {
    SplitState { out, current, quote, escaped: false }
}

proof fn lemma_on_escaped(out: Seq<Seq<char>>, s: Seq<char>)
    ensures
        split_on(between(out, Seq::empty(), Some('"')), escaped_text(s)) == between(
            out,
            s,
            Some('"'),
        ),
    decreases s.len(),
{
    let start = between(out, Seq::empty(), Some('"'));
    if s.len() == 0 {
        assert(s =~= Seq::<char>::empty());
    } else {
        let before = escaped_text(s.drop_last());
        lemma_on_escaped(out, s.drop_last());
        assert(s.drop_last().push(s.last()) =~= s);
        if s.last() == '\\' || s.last() == '"' {
            assert(before.push('\\').push(s.last()).drop_last() =~= before.push('\\'));
            assert(before.push('\\').drop_last() =~= before);
            assert(split_on(start, before.push('\\')) == (SplitState {
                escaped: true,
                ..between(out, s.drop_last(), Some('"'))
            }));
        } else {
            assert(before.push(s.last()).drop_last() =~= before);
        }
    }
}

proof fn lemma_on_plain(out: Seq<Seq<char>>, s: Seq<char>)
    requires
        forall|i: int|
            0 <= i < s.len() ==> !is_white_space(#[trigger] s[i]) && s[i] != '\\' && s[i] != '"'
                && s[i] != '\'',
    ensures
        split_on(between(out, Seq::empty(), None), s) == between(out, s, None),
    decreases s.len(),
{
    if s.len() == 0 {
        assert(s =~= Seq::<char>::empty());
    } else {
        let rest = s.drop_last();
        assert forall|i: int| 0 <= i < rest.len() implies !is_white_space(#[trigger] rest[i])
            && rest[i] != '\\' && rest[i] != '"' && rest[i] != '\'' by {
            assert(rest[i] == s[i]);
        }
        lemma_on_plain(out, rest);
        assert(s[s.len() - 1] == s.last());
        assert(rest.push(s.last()) =~= s);
    }
}

/// The value can be quoted so that it stays whole: it has a character that asks
/// for quotes, or none that parts or escapes.
pub open spec fn is_quotable_value(s: Seq<char>) -> bool {
    s.len() > 0 && (needs_quotes(s) || forall|i: int|
        0 <= i < s.len() ==> !is_white_space(#[trigger] s[i]) && s[i] != '\\')
}

proof fn lemma_on_quoted(out: Seq<Seq<char>>, s: Seq<char>)
    requires
        is_quotable_value(s),
    ensures
        split_on(between(out, Seq::empty(), None), shell_quoted(s)) == between(out, s, None),
{
    let start = between(out, Seq::empty(), None);
    if needs_quotes(s) {
        let open = seq!['"'];
        assert(shell_quoted(s) =~= open + escaped_text(s) + open);
        lemma_split_on_from(start, open + escaped_text(s), open);
        lemma_split_on_from(start, open, escaped_text(s));
        assert(open.drop_last() =~= Seq::<char>::empty());
        reveal_with_fuel(split_on, 2);
        assert(split_on(start, open) == between(out, Seq::empty(), Some('"')));
        lemma_on_escaped(out, s);
        assert(split_on(between(out, s, Some('"')), open) == between(out, s, None));
    } else {
        assert forall|i: int| 0 <= i < s.len() implies !is_white_space(#[trigger] s[i]) && s[i]
            != '\\' && s[i] != '"' && s[i] != '\'' by {
            assert(!wants_quotes(s[i]));
        }
        lemma_on_plain(out, s);
    }
}

/// The values, quoted where they need it, with spaces between them.
pub open spec fn argument_text(values: Seq<Seq<char>>) -> Seq<char>
    decreases values.len(),
{
    if values.len() == 0 {
        Seq::empty()
    } else if values.len() == 1 {
        shell_quoted(values[0])
    } else {
        argument_text(values.drop_last()) + seq![' '] + shell_quoted(values.last())
    }
}

proof fn lemma_argument_text(values: Seq<Seq<char>>)
    requires
        values.len() > 0,
        forall|i: int| 0 <= i < values.len() ==> is_quotable_value(#[trigger] values[i]),
    ensures
        split_state(argument_text(values)) == between(values.drop_last(), values.last(), None),
    decreases values.len(),
{
    let none = Seq::<char>::empty();
    assert(is_quotable_value(values[values.len() - 1]));
    if values.len() == 1 {
        let out = Seq::<Seq<char>>::empty();
        lemma_split_on(none, shell_quoted(values[0]));
        assert(none + shell_quoted(values[0]) =~= shell_quoted(values[0]));
        lemma_on_quoted(out, values[0]);
        assert(values.drop_last() =~= out);
    } else {
        let rest = values.drop_last();
        assert forall|i: int| 0 <= i < rest.len() implies is_quotable_value(#[trigger] rest[i]) by {
            assert(rest[i] == values[i]);
        }
        lemma_argument_text(rest);
        assert(is_quotable_value(rest[rest.len() - 1]));
        let text = argument_text(rest);
        let space = seq![' '];
        lemma_split_on(text + space, shell_quoted(values.last()));
        lemma_split_on(text, space);
        assert(space.drop_last() =~= none);
        reveal_with_fuel(split_on, 2);
        assert(rest.drop_last().push(rest.last()) =~= rest);
        assert(is_white_space(' '));
        assert(split_state(text + space) == between(rest, none, None));
        lemma_on_quoted(rest, values.last());
    }
}

/// Values that are quoted and written with spaces between them are split into
/// the same values again.
pub proof fn quoted_values_are_split_again(values: Seq<Seq<char>>)
    requires
        forall|i: int| 0 <= i < values.len() ==> is_quotable_value(#[trigger] values[i]),
    ensures
        arguments_of(argument_text(values)) == Some(values),
{
    if values.len() > 0 {
        lemma_argument_text(values);
        assert(is_quotable_value(values[values.len() - 1]));
        assert(values.drop_last().push(values.last()) =~= values);
    } else {
        assert(values =~= Seq::<Seq<char>>::empty());
    }
}

/// A quote that is not closed is refused.
pub proof fn open_quotes_are_refused(s: Seq<char>)
    ensures
        arguments_of(seq!['"'] + escaped_text(s)) is None,
{
    lemma_split_inside_quotes(s);
}

/// A tool started through Flatpak gets the environment, the program and the
/// arguments that it gets when it is started directly: where its prefix lies,
/// where Steam is installed, and the application that it belongs to.
pub proof fn tools_are_started_alike(t: ToolLaunchView, args: Seq<Seq<char>>)
    ensures
        ({
            let native = native_tool(t, args);
            let flatpak = flatpak_tool(t, args);
            let id = decimal(t.app_id as nat);
            &&& native.program == t.proton_script
            &&& native.args == seq!["run"@, t.exe_path] + args
            &&& native.env.contains(("STEAM_COMPAT_DATA_PATH"@, t.compatdata_path))
            &&& native.env.contains(("STEAM_COMPAT_CLIENT_INSTALL_PATH"@, t.steam_root))
            &&& native.env.contains(("SteamAppId"@, id))
            &&& native.env.contains(("SteamGameId"@, id))
            &&& native.args.is_suffix_of(flatpak.args)
            &&& flatpak.program == "flatpak"@
            &&& flatpak.args[0] == "run"@
            &&& flatpak.args.contains("--command="@ + native.program)
            &&& flatpak.args.contains("com.valvesoftware.Steam"@)
            &&& forall|i: int|
                0 <= i < native.env.len() ==> exists|j: int|
                    0 < j < 5 && flatpak.args[j] == #[trigger] environment_option(
                        native.env[i],
                    )
        }),
{
    let native = native_tool(t, args);
    let flatpak = flatpak_tool(t, args);
    let f = flatpak.args;
    assert(native.env[0] == ("STEAM_COMPAT_DATA_PATH"@, t.compatdata_path));
    assert(native.env[1] == ("STEAM_COMPAT_CLIENT_INSTALL_PATH"@, t.steam_root));
    assert(native.env[2].0 == "SteamAppId"@ && native.env[3].0 == "SteamGameId"@);
    reveal_strlit("--env=");
    reveal_strlit("=");
    reveal_strlit("STEAM_COMPAT_DATA_PATH");
    reveal_strlit("STEAM_COMPAT_CLIENT_INSTALL_PATH");
    reveal_strlit("SteamAppId");
    reveal_strlit("SteamGameId");
    reveal_strlit("--env=STEAM_COMPAT_DATA_PATH=");
    reveal_strlit("--env=STEAM_COMPAT_CLIENT_INSTALL_PATH=");
    reveal_strlit("--env=SteamAppId=");
    reveal_strlit("--env=SteamGameId=");
    assert("--env=STEAM_COMPAT_DATA_PATH="@ =~= "--env="@ + "STEAM_COMPAT_DATA_PATH"@ + "="@);
    assert("--env=STEAM_COMPAT_CLIENT_INSTALL_PATH="@ =~= "--env="@
        + "STEAM_COMPAT_CLIENT_INSTALL_PATH"@ + "="@);
    assert("--env=SteamAppId="@ =~= "--env="@ + "SteamAppId"@ + "="@);
    assert("--env=SteamGameId="@ =~= "--env="@ + "SteamGameId"@ + "="@);
    assert(f[1] == environment_option(native.env[1]));
    assert(f[2] == environment_option(native.env[0]));
    assert(f[3] == environment_option(native.env[2]));
    assert(f[4] == environment_option(native.env[3]));
    assert(f[5] == "--command="@ + native.program);
    assert(f[6] == "com.valvesoftware.Steam"@);
    assert(f.subrange(f.len() - native.args.len(), f.len() as int) =~= native.args);
}

/// How Flatpak is told to set a variable.
pub open spec fn environment_option(variable: (Seq<char>, Seq<char>)) -> Seq<char> {
    "--env="@ + variable.0 + "="@ + variable.1
}

/// A game is started by its application's number, whichever way Steam is
/// reached.
pub proof fn games_are_started_by_their_number(app_id: u32)
    ensures
        ({
            let id = decimal(app_id as nat);
            let native = native_command(app_id);
            let flatpak = flatpak_command(app_id);
            let desktop = desktop_command(app_id);
            &&& native.program == "steam"@
            &&& native.args == seq!["-applaunch"@, id]
            &&& native.args.is_suffix_of(flatpak.args)
            &&& flatpak.program == "flatpak"@
            &&& flatpak.args[0] == "run"@ && flatpak.args[1] == "com.valvesoftware.Steam"@
            &&& desktop.program == "xdg-open"@
            &&& desktop.args.len() == 1
            &&& "steam://run/"@.is_prefix_of(desktop.args[0]) && id.is_suffix_of(desktop.args[0])
            &&& desktop.args[0].len() == "steam://run/"@.len() + id.len()
            &&& native.env.len() == 0 && flatpak.env.len() == 0 && desktop.env.len() == 0
        }),
{
    let id = decimal(app_id as nat);
    let f = flatpak_command(app_id).args;
    assert(f.subrange(2, 4) =~= native_command(app_id).args);
    let a = run_address(app_id);
    let n = a.len() as int;
    assert(a.subrange(0, "steam://run/"@.len() as int) =~= "steam://run/"@);
    assert(a.subrange(n - id.len(), n) =~= id);
}

} // verus!
