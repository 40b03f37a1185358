//! Reading the text files in which Steam keeps its settings.
use vstd::prelude::*;

use crate::number::{decimal, decimal_is_injective, decimal_string, lemma_decimal_digits};
use crate::text::{
    chars_of, concat3, contains, first_index, has_infix, has_prefix, index_from, is_ascii_digit,
    is_line, is_white_space, lemma_first_index, lemma_first_index_is, lines, lines_of, occurs_at,
    only_white_space_is_trimmed, same, starts_with, string_between, trim, trimmed, trimmed_front,
    written_lines, written_lines_are_read_back,
};

verus! {

// ── Keys and values ─────────────────────────────────────────────────────────

/// The text between the quote at the start of `s` and the next one, and what
/// follows.
pub open spec fn quoted_part(s: Seq<char>) -> Option<(Seq<char>, Seq<char>)> {
    if s.len() == 0 || s[0] != '"' {
        None
    } else {
        let rest = s.skip(1);
        let k = first_index(rest, '"');
        if k < rest.len() {
            Some((rest.take(k), rest.skip(k + 1)))
        } else {
            None
        }
    }
}

fn read_quoted(s: &str) -> (r: Option<(String, String)>)
    ensures
        match r {
            Some((a, b)) => quoted_part(s@) == Some((a@, b@)),
            None => quoted_part(s@) is None,
        },
{
    let v = chars_of(s);
    if v.len() == 0 || v[0] != '"' {
        return None;
    }
    let k = index_from(&v, '"', 1);
    proof {
        lemma_first_index(s@.skip(1), '"');
    }
    if k < v.len() {
        let a = string_between(&v, 1, k);
        let b = string_between(&v, k + 1, v.len());
        assert(a@ =~= s@.skip(1).take(k - 1));
        assert(b@ =~= s@.skip(1).skip(k as int));
        Some((a, b))
    } else {
        None
    }
}

/// The key and the value that a line declares, both in quotes.
pub open spec fn key_value(line: Seq<char>) -> Option<(Seq<char>, Seq<char>)> {
    match quoted_part(trimmed(line)) {
        Some((key, after)) => match quoted_part(trimmed(after)) {
            Some((value, _)) => Some((key, value)),
            None => None,
        },
        None => None,
    }
}

/// The line declares a value for the key.
pub open spec fn declares(line: Seq<char>, key: Seq<char>) -> bool {
    match key_value(line) {
        Some((k, _)) => k == key,
        None => false,
    }
}

/// The value that a line declares.
pub open spec fn declared(line: Seq<char>) -> Seq<char> {
    match key_value(line) {
        Some((_, v)) => v,
        None => Seq::empty(),
    }
}

/// Reads the key and the value that a line declares.
pub fn parse_vdf_key_value(line: &str) -> (r: Option<(String, String)>)
    ensures
        match r {
            Some((k, v)) => key_value(line@) == Some((k@, v@)),
            None => key_value(line@) is None,
        },
{
    match read_quoted(trim(line).as_str()) {
        Some((key, after)) => match read_quoted(trim(after.as_str()).as_str()) {
            Some((value, _)) => Some((key, value)),
            None => None,
        },
        None => None,
    }
}

proof fn lemma_white_front(gap: Seq<char>, s: Seq<char>)
    requires
        forall|i: int| 0 <= i < gap.len() ==> is_white_space(#[trigger] gap[i]),
        s.len() > 0,
        !is_white_space(s[0]),
    ensures
        trimmed_front(gap + s) == s,
    decreases gap.len(),
{
    if gap.len() > 0 {
        let rest = gap.skip(1);
        assert forall|i: int| 0 <= i < rest.len() implies is_white_space(#[trigger] rest[i]) by {
            assert(rest[i] == gap[i + 1]);
        }
        lemma_white_front(rest, s);
        assert((gap + s).skip(1) =~= rest + s);
        assert((gap + s)[0] == gap[0]);
    } else {
        assert(gap + s =~= s);
    }
}

proof fn lemma_quoted(s: Seq<char>, tail: Seq<char>)
    requires
        !s.contains('"'),
    ensures
        quoted_part(seq!['"'] + s + seq!['"'] + tail) == Some((s, tail)),
{
    let all = seq!['"'] + s + seq!['"'] + tail;
    let rest = all.skip(1);
    assert forall|j: int| 0 <= j < s.len() implies rest[j] != '"' by {
        assert(rest[j] == s[j]);
        assert(s.contains(s[j]));
    }
    lemma_first_index_is(rest, '"', s.len() as int);
    assert(rest.take(s.len() as int) =~= s);
    assert(rest.skip(s.len() as int + 1) =~= tail);
}

/// A key and a value without quotes in them, written in quotes with white space
/// between, are read back.
pub proof fn vdf_line_is_read_back(key: Seq<char>, gap: Seq<char>, value: Seq<char>)
    requires
        !key.contains('"'),
        !value.contains('"'),
        forall|i: int| 0 <= i < gap.len() ==> is_white_space(#[trigger] gap[i]),
    ensures
        key_value(seq!['"'] + key + seq!['"'] + gap + seq!['"'] + value + seq!['"']) == Some(
            (key, value),
        ),
{
    let line = seq!['"'] + key + seq!['"'] + gap + seq!['"'] + value + seq!['"'];
    let second = seq!['"'] + value + seq!['"'];
    assert(line =~= seq!['"'] + key + seq!['"'] + (gap + second));
    assert(line[0] == '"' && line.last() == '"');
    assert(trimmed(line) == line);
    lemma_quoted(key, gap + second);
    lemma_white_front(gap, second);
    assert(second.last() == '"');
    assert(trimmed(gap + second) == second);
    assert(second =~= seq!['"'] + value + seq!['"'] + Seq::<char>::empty());
    lemma_quoted(value, Seq::empty());
}

fn trimmed_lines(contents: &str) -> (r: Vec<String>)
    ensures
        r.deep_view() == lines_of(contents@).map_values(|l: Seq<char>| trimmed(l)),
{
    let all = lines(contents);
    let ghost ls = all.deep_view();
    let mut r: Vec<String> = Vec::new();
    for i in 0..all.len()
        invariant
            ls == all.deep_view(),
            r@.len() == i,
            forall|j: int| 0 <= j < i ==> #[trigger] r@[j]@ == trimmed(ls[j]),
    {
        assert(ls[i as int] == all@[i as int]@);
        r.push(trim(all[i].as_str()));
    }
    assert(r.deep_view() =~= ls.map_values(|l: Seq<char>| trimmed(l)));
    r
}

/// The lines of a text without white space around them.
pub open spec fn clean_lines(contents: Seq<char>) -> Seq<Seq<char>> {
    lines_of(contents).map_values(|l: Seq<char>| trimmed(l))
}

// ── Library folders ─────────────────────────────────────────────────────────

/// Where reading a list of library folders stands: the paths so far, whether
/// it is inside an entry, and how deep it is.
#[verifier::ext_equal]
pub ghost struct FoldersState {
    pub paths: Seq<Seq<char>>,
    pub in_entry: bool,
    pub depth: int,
}

/// Reading goes on by a line.
pub open spec fn after_folder_line(s: FoldersState, line: Seq<char>) -> FoldersState {
    if line == "{"@ {
        FoldersState { depth: s.depth + 1, in_entry: s.in_entry || s.depth + 1 == 2, ..s }
    } else if line == "}"@ {
        FoldersState { depth: s.depth - 1, in_entry: s.in_entry && s.depth != 2, ..s }
    } else if s.in_entry && s.depth == 2 && declares(line, "path"@) {
        FoldersState { paths: s.paths.push(declared(line)), ..s }
    } else {
        s
    }
}

/// Where reading stands after the lines.
pub open spec fn folders_state(lines: Seq<Seq<char>>) -> FoldersState
    decreases lines.len(),
{
    if lines.len() == 0 {
        FoldersState { paths: Seq::empty(), in_entry: false, depth: 0 }
    } else {
        after_folder_line(folders_state(lines.drop_last()), lines.last())
    }
}

/// The paths that a `libraryfolders.vdf` lists: those of the entries two levels
/// deep.
pub fn parse_library_folders_vdf(contents: &str) -> (r: Vec<String>)
    ensures
        r.deep_view() == folders_state(clean_lines(contents@)).paths,
{
    let all = trimmed_lines(contents);
    let ghost ls = all.deep_view();
    let mut paths: Vec<String> = Vec::new();
    let mut in_entry = false;
    let mut depth: i128 = 0;
    assert(paths.deep_view() =~= folders_state(ls.take(0)).paths);
    for i in 0..all.len()
        invariant
            ls == all.deep_view(),
            -(i as int) <= depth <= i,
            folders_state(ls.take(i as int)) == (FoldersState {
                paths: paths.deep_view(),
                in_entry,
                depth: depth as int,
            }),
    {
        let ghost before = paths.deep_view();
        assert(ls.take(i + 1).drop_last() =~= ls.take(i as int));
        assert(ls[i as int] == all@[i as int]@);
        let line = all[i].as_str();
        if same(line, "{") {
            depth = depth + 1;
            if depth == 2 {
                in_entry = true;
            }
        } else if same(line, "}") {
            if depth == 2 {
                in_entry = false;
            }
            depth = depth - 1;
        } else if in_entry && depth == 2 {
            match parse_vdf_key_value(line) {
                Some((key, value)) => {
                    if same(key.as_str(), "path") {
                        let ghost vv = value@;
                        paths.push(value);
                        assert(paths.deep_view() =~= before.push(vv));
                    }
                },
                None => {},
            }
        }
    }
    assert(ls.take(ls.len() as int) =~= ls);
    paths
}

// ── Manifests ───────────────────────────────────────────────────────────────

/// The value of the first line with the key `installdir`.
pub open spec fn install_dir(lines: Seq<Seq<char>>) -> Option<Seq<char>>
    decreases lines.len(),
{
    if lines.len() == 0 {
        None
    } else if declares(lines[0], "installdir"@) {
        Some(declared(lines[0]))
    } else {
        install_dir(lines.skip(1))
    }
}

/// The directory that an application is installed in, by its manifest.
pub fn parse_acf_install_dir(contents: &str) -> (r: Option<String>)
    ensures
        r.deep_view() == install_dir(clean_lines(contents@)),
{
    let all = trimmed_lines(contents);
    let ghost ls = all.deep_view();
    let mut i: usize = 0;
    assert(ls.skip(0) =~= ls);
    while i < all.len()
        invariant
            ls == all.deep_view(),
            ls == clean_lines(contents@),
            i <= all@.len(),
            install_dir(ls) == install_dir(ls.skip(i as int)),
        decreases all@.len() - i,
    {
        assert(ls[i as int] == all@[i as int]@);
        assert(ls.skip(i as int).skip(1) =~= ls.skip(i + 1));
        match parse_vdf_key_value(all[i].as_str()) {
            Some((key, value)) => {
                if same(key.as_str(), "installdir") {
                    return Some(value);
                }
            },
            None => {},
        }
        i += 1;
    }
    None
}

// ── Compatibility tools ─────────────────────────────────────────────────────

/// The name of the tool in the section of an application, read from line `j`
/// on; the section ends where it is no deeper than the line that it began with.
pub open spec fn tool_in_section(lines: Seq<Seq<char>>, j: int, depth: int, start: int) -> Option<
    Seq<char>,
>
    decreases lines.len() - j,
{
    if j < 0 || j >= lines.len() {
        None
    } else if lines[j] == "{"@ {
        tool_in_section(lines, j + 1, depth + 1, start)
    } else if lines[j] == "}"@ {
        if depth - 1 <= start {
            None
        } else {
            tool_in_section(lines, j + 1, depth - 1, start)
        }
    } else if declares(lines[j], "name"@) {
        Some(declared(lines[j]))
    } else {
        tool_in_section(lines, j + 1, depth, start)
    }
}

/// The tool for an application, read from line `i` on.  `mapping` is how deep
/// the line stands that began the `CompatToolMapping` section, while in it.
pub open spec fn mapped_tool(
    lines: Seq<Seq<char>>,
    i: int,
    mapping: Option<int>,
    depth: int,
    app: Seq<char>,
) -> Option<Seq<char>>
    decreases lines.len() - i,
{
    if i < 0 || i >= lines.len() {
        None
    } else {
        let line = lines[i];
        if line == "{"@ {
            mapped_tool(lines, i + 1, mapping, depth + 1, app)
        } else if line == "}"@ {
            mapped_tool(
                lines,
                i + 1,
                if mapping is Some && depth - 1 <= mapping->0 {
                    None
                } else {
                    mapping
                },
                depth - 1,
                app,
            )
        } else if has_infix(line, "CompatToolMapping"@) {
            mapped_tool(
                lines,
                i + 1,
                if mapping is Some {
                    mapping
                } else {
                    Some(depth)
                },
                depth,
                app,
            )
        } else if mapping is Some && depth > mapping->0 && !declares(line, app) && has_prefix(
            line,
            "\""@ + app + "\""@,
        ) {
            match tool_in_section(lines, i + 1, depth, depth) {
                Some(tool) => Some(tool),
                None => mapped_tool(lines, i + 1, mapping, depth, app),
            }
        } else {
            mapped_tool(lines, i + 1, mapping, depth, app)
        }
    }
}

fn find_tool_in_section(all: &Vec<String>, from: usize, start: i128) -> (r: Option<String>)
    requires
        -0x1_0000_0000_0000_0000 <= start <= 0x1_0000_0000_0000_0000,
    ensures
        r.deep_view() == tool_in_section(all.deep_view(), from as int, start as int, start as int),
{
    let ghost ls = all.deep_view();
    let mut j: usize = from;
    let mut depth: i128 = start;
    while j < all.len()
        invariant
            ls == all.deep_view(),
            j >= from,
            -0x1_0000_0000_0000_0000 <= start <= 0x1_0000_0000_0000_0000,
            start - (j - from) <= depth <= start + (j - from),
            tool_in_section(ls, from as int, start as int, start as int) == tool_in_section(
                ls,
                j as int,
                depth as int,
                start as int,
            ),
        decreases all@.len() - j,
    {
        assert(ls[j as int] == all@[j as int]@);
        let line = all[j].as_str();
        if same(line, "{") {
            depth = depth + 1;
        } else if same(line, "}") {
            depth = depth - 1;
            if depth <= start {
                return None;
            }
        } else {
            match parse_vdf_key_value(line) {
                Some((key, value)) => {
                    if same(key.as_str(), "name") {
                        return Some(value);
                    }
                },
                None => {},
            }
        }
        j += 1;
    }
    None
}

/// The compatibility tool that the `CompatToolMapping` section of a
/// `config.vdf` maps an application to.
pub fn parse_compat_tool_mapping(contents: &str, app_id: u32) -> (r: Option<String>)
    ensures
        r.deep_view() == mapped_tool(
            clean_lines(contents@),
            0,
            None,
            0,
            decimal(app_id as nat),
        ),
{
    let all = trimmed_lines(contents);
    let ghost ls = all.deep_view();
    let app = decimal_string(app_id as u128);
    let section = concat3("\"", app.as_str(), "\"");
    let mut in_mapping = false;
    let mut outside: i128 = 0;
    let mut depth: i128 = 0;
    let mut i: usize = 0;
    while i < all.len()
        invariant
            ls == all.deep_view(),
            ls == clean_lines(contents@),
            app@ == decimal(app_id as nat),
            section@ == "\""@ + app@ + "\""@,
            i <= all@.len(),
            -(i as int) <= depth <= i,
            mapped_tool(ls, 0, None, 0, app@) == mapped_tool(
                ls,
                i as int,
                if in_mapping {
                    Some(outside as int)
                } else {
                    None
                },
                depth as int,
                app@,
            ),
        decreases all@.len() - i,
    {
        assert(ls[i as int] == all@[i as int]@);
        let line = all[i].as_str();
        if same(line, "{") {
            depth = depth + 1;
        } else if same(line, "}") {
            depth = depth - 1;
            if in_mapping && depth <= outside {
                in_mapping = false;
            }
        } else if contains(line, "CompatToolMapping") {
            if !in_mapping {
                in_mapping = true;
                outside = depth;
            }
        } else if in_mapping && depth > outside {
            let inline = match parse_vdf_key_value(line) {
                Some((key, _)) => same(key.as_str(), app.as_str()),
                None => false,
            };
            if !inline && starts_with(line, section.as_str()) {
                match find_tool_in_section(&all, i + 1, depth) {
                    Some(tool) => {
                        return Some(tool);
                    },
                    None => {},
                }
            }
        }
        i += 1;
    }
    None
}

// ── Laws ────────────────────────────────────────────────────────────────────

/// A line of a settings file with a key and a value in quotes.
pub open spec fn pair_line(key: Seq<char>, value: Seq<char>) -> Seq<char> {
    seq!['"'] + key + seq!['"', '\t', '\t', '"'] + value + seq!['"']
}

/// A line with a name in quotes, which a section follows.
pub open spec fn name_line(name: Seq<char>) -> Seq<char> {
    seq!['"'] + name + seq!['"']
}

/// Lines of a section one level deeper, in braces.
pub open spec fn braced(lines: Seq<Seq<char>>) -> Seq<Seq<char>> {
    seq![seq!['{']] + lines.map_values(|l: Seq<char>| seq!['\t'] + l) + seq![seq!['}']]
}

/// The text can stand in quotes.
pub open spec fn is_quotable(s: Seq<char>) -> bool {
    !s.contains('"') && !s.contains('\n')
}

proof fn lemma_pair_line(key: Seq<char>, value: Seq<char>)
    requires
        is_quotable(key),
        is_quotable(value),
    ensures
        key_value(pair_line(key, value)) == Some((key, value)),
        is_clean_line(pair_line(key, value)),
        pair_line(key, value) != seq!['{'],
        pair_line(key, value) != seq!['}'],
{
    let gap = seq!['\t', '\t'];
    vdf_line_is_read_back(key, gap, value);
    let line = pair_line(key, value);
    assert(line =~= seq!['"'] + key + seq!['"'] + gap + seq!['"'] + value + seq!['"']);
    assert(line[0] == '"' && line.last() == '"');
    assert forall|i: int| 0 <= i < line.len() implies line[i] != '\n' by {
        if 1 <= i < 1 + key.len() {
            assert(line[i] == key[i - 1]);
            assert(key.contains(key[i - 1]));
        } else if key.len() + 5 <= i < key.len() + 5 + value.len() {
            assert(line[i] == value[i - key.len() - 5]);
            assert(value.contains(value[i - key.len() - 5]));
        }
    }
}

proof fn lemma_name_line(name: Seq<char>)
    requires
        is_quotable(name),
    ensures
        key_value(name_line(name)) is None,
        is_clean_line(name_line(name)),
        name_line(name) != seq!['{'],
        name_line(name) != seq!['}'],
{
    let line = name_line(name);
    let none = Seq::<char>::empty();
    assert(line =~= seq!['"'] + name + seq!['"'] + none);
    lemma_quoted(name, none);
    assert(line[0] == '"' && line.last() == '"');
    assert(trimmed(line) == line);
    assert(trimmed(none) == none);
    assert forall|i: int| 0 <= i < line.len() implies line[i] != '\n' by {
        if 1 <= i < 1 + name.len() {
            assert(line[i] == name[i - 1]);
            assert(name.contains(name[i - 1]));
        }
    }
}

/// A line without white space around it.
spec fn is_clean_line(line: Seq<char>) -> bool {
    &&& line.len() > 0
    &&& !is_white_space(line[0])
    &&& !is_white_space(line.last())
    &&& !line.contains('\n')
}

/// The lines are those, behind tabs.
spec fn indented_from(lines: Seq<Seq<char>>, clean: Seq<Seq<char>>) -> bool {
    &&& lines.len() == clean.len()
    &&& forall|i: int|
        0 <= i < lines.len() ==> is_clean_line(#[trigger] clean[i]) && is_indented(
            lines[i],
            clean[i],
        )
}

/// The line is the other, behind tabs.
spec fn is_indented(line: Seq<char>, clean: Seq<char>) -> bool {
    exists|n: nat| line == #[trigger] tabs(n) + clean
}

spec fn tabs(n: nat) -> Seq<char> {
    Seq::new(n, |i: int| '\t')
}

proof fn lemma_indented_lines(lines: Seq<Seq<char>>, clean: Seq<Seq<char>>)
    requires
        indented_from(lines, clean),
    ensures
        clean_lines(written_lines(lines)) == clean,
{
    assert forall|i: int| 0 <= i < lines.len() implies is_line(#[trigger] lines[i]) && trimmed(
        lines[i],
    ) == clean[i] by {
        assert(is_clean_line(clean[i]) && is_indented(lines[i], clean[i]));
        let n = choose|n: nat| lines[i] == #[trigger] tabs(n) + clean[i];
        only_white_space_is_trimmed(tabs(n), clean[i], Seq::empty());
        assert(tabs(n) + clean[i] + Seq::<char>::empty() =~= lines[i]);
        assert(lines[i].last() == clean[i].last());
        assert forall|k: int| 0 <= k < lines[i].len() implies lines[i][k] != '\n' by {
            if k >= n {
                assert(lines[i][k] == clean[i][k - n]);
                assert(clean[i].contains(clean[i][k - n]));
            }
        }
    }
    written_lines_are_read_back(lines);
    assert(clean_lines(written_lines(lines)) =~= clean);
}

proof fn lemma_braced(lines: Seq<Seq<char>>, clean: Seq<Seq<char>>)
    requires
        indented_from(lines, clean),
    ensures
        indented_from(braced(lines), seq![seq!['{']] + clean + seq![seq!['}']]),
{
    let b = braced(lines);
    let c = seq![seq!['{']] + clean + seq![seq!['}']];
    assert forall|i: int| 0 <= i < b.len() implies is_clean_line(#[trigger] c[i]) && is_indented(
        b[i],
        c[i],
    ) by {
        if i == 0 || i == b.len() - 1 {
            assert(tabs(0) + c[i] =~= b[i]);
        } else {
            assert(c[i] == clean[i - 1]);
            assert(is_clean_line(clean[i - 1]) && is_indented(lines[i - 1], clean[i - 1]));
            let n = choose|n: nat| lines[i - 1] == #[trigger] tabs(n) + clean[i - 1];
            assert(b[i] =~= tabs(n + 1) + c[i]);
        }
    }
}

proof fn lemma_indented_join(
    a: Seq<Seq<char>>,
    ca: Seq<Seq<char>>,
    b: Seq<Seq<char>>,
    cb: Seq<Seq<char>>,
)
    requires
        indented_from(a, ca),
        indented_from(b, cb),
    ensures
        indented_from(a + b, ca + cb),
{
    assert forall|i: int| 0 <= i < (a + b).len() implies is_clean_line(#[trigger] (ca + cb)[i])
        && is_indented((a + b)[i], (ca + cb)[i]) by {
        if i < a.len() {
            assert((ca + cb)[i] == ca[i]);
            assert(is_clean_line(ca[i]) && is_indented(a[i], ca[i]));
        } else {
            assert((ca + cb)[i] == cb[i - a.len()]);
            assert(is_clean_line(cb[i - a.len()]) && is_indented(b[i - a.len()], cb[i - a.len()]));
        }
    }
}

proof fn lemma_indented_one(line: Seq<char>)
    requires
        is_clean_line(line),
    ensures
        indented_from(seq![line], seq![line]),
{
    assert(tabs(0) + line =~= line);
    assert forall|i: int| 0 <= i < seq![line].len() implies is_clean_line(#[trigger] seq![line][i])
        && is_indented(seq![line][i], seq![line][i]) by {
        assert(seq![line][i] == line);
        assert(is_indented(line, line));
    }
}

// ── Library folders are read back ──

/// The entry of a library folder in a `libraryfolders.vdf`.
pub open spec fn folder_entry(k: nat, folder: Seq<char>) -> Seq<Seq<char>> {
    seq![name_line(decimal(k))] + braced(
        seq![pair_line("path"@, folder), pair_line("label"@, Seq::empty())],
    )
}

/// The entries of library folders.
pub open spec fn folder_entries(folders: Seq<Seq<char>>) -> Seq<Seq<char>>
    decreases folders.len(),
{
    if folders.len() == 0 {
        Seq::empty()
    } else {
        folder_entries(folders.drop_last()) + folder_entry(
            (folders.len() - 1) as nat,
            folders.last(),
        )
    }
}

/// A `libraryfolders.vdf` that lists the folders.
pub open spec fn library_folders_vdf(folders: Seq<Seq<char>>) -> Seq<char> {
    written_lines(seq![name_line("libraryfolders"@)] + braced(folder_entries(folders)))
}

spec fn clean_entry(k: nat, folder: Seq<char>) -> Seq<Seq<char>> {
    seq![name_line(decimal(k))] + (seq![seq!['{']] + seq![
        pair_line("path"@, folder),
        pair_line("label"@, Seq::empty()),
    ] + seq![seq!['}']])
}

spec fn clean_entries(folders: Seq<Seq<char>>) -> Seq<Seq<char>>
    decreases folders.len(),
{
    if folders.len() == 0 {
        Seq::empty()
    } else {
        clean_entries(folders.drop_last()) + clean_entry(
            (folders.len() - 1) as nat,
            folders.last(),
        )
    }
}

proof fn lemma_decimal_quotable(n: nat)
    ensures
        is_quotable(decimal(n)),
{
    lemma_decimal_digits(n);
    assert forall|i: int| 0 <= i < decimal(n).len() implies decimal(n)[i] != '"' && decimal(n)[i]
        != '\n' by {
        assert(is_ascii_digit(decimal(n)[i]));
    }
}

proof fn lemma_words()
    ensures
        is_quotable("path"@),
        is_quotable("label"@),
        is_quotable("libraryfolders"@),
        is_quotable("installdir"@),
        is_quotable("appid"@),
        is_quotable("AppState"@),
        is_quotable("name"@),
        is_quotable("config"@),
        is_quotable("CompatToolMapping"@),
        is_quotable("InstallConfigStore"@),
        "label"@ != "path"@,
        "appid"@ != "installdir"@,
        "config"@ != "name"@,
        "{"@ == seq!['{'],
        "}"@ == seq!['}'],
{
    reveal_strlit("path");
    reveal_strlit("label");
    reveal_strlit("libraryfolders");
    reveal_strlit("installdir");
    reveal_strlit("appid");
    reveal_strlit("AppState");
    reveal_strlit("name");
    reveal_strlit("config");
    reveal_strlit("CompatToolMapping");
    reveal_strlit("InstallConfigStore");
    reveal_strlit("{");
    reveal_strlit("}");
    assert("label"@.len() != "path"@.len());
    assert("appid"@.len() != "installdir"@.len());
    assert("config"@.len() != "name"@.len());
    assert("{"@ =~= seq!['{']);
    assert("}"@ =~= seq!['}']);
}

proof fn lemma_folder_entry(k: nat, folder: Seq<char>)
    requires
        is_quotable(folder),
    ensures
        indented_from(folder_entry(k, folder), clean_entry(k, folder)),
{
    lemma_words();
    lemma_decimal_quotable(k);
    let none = Seq::<char>::empty();
    lemma_pair_line("path"@, folder);
    lemma_pair_line("label"@, none);
    lemma_name_line(decimal(k));
    let a = pair_line("path"@, folder);
    let b = pair_line("label"@, none);
    lemma_indented_one(a);
    lemma_indented_one(b);
    lemma_indented_one(name_line(decimal(k)));
    lemma_indented_join(seq![a], seq![a], seq![b], seq![b]);
    assert(seq![a] + seq![b] =~= seq![a, b]);
    lemma_braced(seq![a, b], seq![a, b]);
    lemma_indented_join(
        seq![name_line(decimal(k))],
        seq![name_line(decimal(k))],
        braced(seq![a, b]),
        seq![seq!['{']] + seq![a, b] + seq![seq!['}']],
    );
}

proof fn lemma_folder_entries(folders: Seq<Seq<char>>)
    requires
        forall|i: int| 0 <= i < folders.len() ==> is_quotable(#[trigger] folders[i]),
    ensures
        indented_from(folder_entries(folders), clean_entries(folders)),
        folders_state(
            seq![name_line("libraryfolders"@), seq!['{']] + clean_entries(folders),
        ) == (FoldersState { paths: folders, in_entry: false, depth: 1 }),
    decreases folders.len(),
{
    lemma_words();
    lemma_name_line("libraryfolders"@);
    let head = seq![name_line("libraryfolders"@), seq!['{']];
    if folders.len() == 0 {
        assert(head + clean_entries(folders) =~= head);
        assert(head.drop_last() =~= seq![name_line("libraryfolders"@)]);
        assert(head.drop_last().drop_last() =~= Seq::<Seq<char>>::empty());
        reveal_with_fuel(folders_state, 4);
        assert(folders =~= Seq::<Seq<char>>::empty());
    } else {
        let rest = folders.drop_last();
        let k = (folders.len() - 1) as nat;
        let folder = folders.last();
        assert forall|i: int| 0 <= i < rest.len() implies is_quotable(#[trigger] rest[i]) by {
            assert(rest[i] == folders[i]);
        }
        lemma_folder_entries(rest);
        assert(is_quotable(folders[folders.len() - 1]));
        lemma_folder_entry(k, folder);
        lemma_indented_join(
            folder_entries(rest),
            clean_entries(rest),
            folder_entry(k, folder),
            clean_entry(k, folder),
        );
        lemma_decimal_quotable(k);
        let none = Seq::<char>::empty();
        lemma_pair_line("path"@, folder);
        lemma_pair_line("label"@, none);
        lemma_name_line(decimal(k));
        let base = head + clean_entries(rest);
        let a = base.push(name_line(decimal(k)));
        let b = a.push(seq!['{']);
        let c = b.push(pair_line("path"@, folder));
        let d = c.push(pair_line("label"@, none));
        let e = d.push(seq!['}']);
        assert(head + clean_entries(folders) =~= e);
        assert(a.drop_last() =~= base);
        assert(b.drop_last() =~= a);
        assert(c.drop_last() =~= b);
        assert(d.drop_last() =~= c);
        assert(e.drop_last() =~= d);
        assert(folders_state(a) == folders_state(base));
        assert(folders_state(b).depth == 2 && folders_state(b).in_entry);
        assert(folders_state(c).paths == rest.push(folder));
        assert(folders_state(d) == folders_state(c));
        assert(rest.push(folder) =~= folders);
    }
}

/// The folders that a `libraryfolders.vdf` lists are read back.
pub proof fn library_folders_are_read_back(folders: Seq<Seq<char>>)
    requires
        forall|i: int| 0 <= i < folders.len() ==> is_quotable(#[trigger] folders[i]),
    ensures
        folders_state(clean_lines(library_folders_vdf(folders))).paths == folders,
{
    lemma_words();
    lemma_folder_entries(folders);
    lemma_name_line("libraryfolders"@);
    let head = name_line("libraryfolders"@);
    let inner = seq![seq!['{']] + clean_entries(folders) + seq![seq!['}']];
    lemma_braced(folder_entries(folders), clean_entries(folders));
    lemma_indented_one(head);
    lemma_indented_join(seq![head], seq![head], braced(folder_entries(folders)), inner);
    lemma_indented_lines(
        seq![head] + braced(folder_entries(folders)),
        seq![head] + inner,
    );
    let most = seq![head, seq!['{']] + clean_entries(folders);
    assert(seq![head] + inner =~= most.push(seq!['}']));
    assert(most.push(seq!['}']).drop_last() =~= most);
}

// ── Manifests are read back ──

/// The manifest of an application that is installed in the given directory.
pub open spec fn manifest_text(app: Seq<char>, dir: Seq<char>) -> Seq<char> {
    written_lines(
        seq![name_line("AppState"@)] + braced(
            seq![pair_line("appid"@, app), pair_line("installdir"@, dir)],
        ),
    )
}

/// The directory that a manifest names is read back.
pub proof fn manifest_is_read_back(app: Seq<char>, dir: Seq<char>)
    requires
        is_quotable(app),
        is_quotable(dir),
    ensures
        install_dir(clean_lines(manifest_text(app, dir))) == Some(dir),
{
    lemma_words();
    let head = name_line("AppState"@);
    let a = pair_line("appid"@, app);
    let b = pair_line("installdir"@, dir);
    lemma_name_line("AppState"@);
    lemma_pair_line("appid"@, app);
    lemma_pair_line("installdir"@, dir);
    lemma_indented_one(head);
    lemma_indented_one(a);
    lemma_indented_one(b);
    lemma_indented_join(seq![a], seq![a], seq![b], seq![b]);
    assert(seq![a] + seq![b] =~= seq![a, b]);
    lemma_braced(seq![a, b], seq![a, b]);
    let inner = seq![seq!['{']] + seq![a, b] + seq![seq!['}']];
    lemma_indented_join(seq![head], seq![head], braced(seq![a, b]), inner);
    lemma_indented_lines(seq![head] + braced(seq![a, b]), seq![head] + inner);
    let all = seq![head] + inner;
    let open = seq!['{'];
    assert(quoted_part(trimmed(open)) is None) by {
        only_white_space_is_trimmed(Seq::empty(), open, Seq::empty());
        assert(Seq::<char>::empty() + open + Seq::<char>::empty() =~= open);
    }
    assert(all[0] == head);
    assert(all.skip(1)[0] == open);
    assert(all.skip(1).skip(1)[0] == a);
    assert(all.skip(1).skip(1).skip(1)[0] == b);
    reveal_with_fuel(install_dir, 5);
}

// ── Compatibility tools are read back ──

/// The section of an application in the mapping of compatibility tools.
pub open spec fn tool_section(app: u32, tool: Seq<char>) -> Seq<Seq<char>> {
    seq![name_line(decimal(app as nat))] + braced(
        seq![pair_line("config"@, Seq::empty()), pair_line("name"@, tool)],
    )
}

/// The sections of applications.
pub open spec fn tool_sections(tools: Seq<(u32, Seq<char>)>) -> Seq<Seq<char>>
    decreases tools.len(),
{
    if tools.len() == 0 {
        Seq::empty()
    } else {
        tool_sections(tools.drop_last()) + tool_section(tools.last().0, tools.last().1)
    }
}

/// A `config.vdf` that maps applications to compatibility tools.
pub open spec fn tool_mapping_vdf(tools: Seq<(u32, Seq<char>)>) -> Seq<char> {
    written_lines(
        seq![name_line("InstallConfigStore"@)] + braced(
            seq![name_line("CompatToolMapping"@)] + braced(tool_sections(tools)),
        ),
    )
}

spec fn clean_section(app: u32, tool: Seq<char>) -> Seq<Seq<char>> {
    seq![name_line(decimal(app as nat))] + (seq![seq!['{']] + seq![
        pair_line("config"@, Seq::empty()),
        pair_line("name"@, tool),
    ] + seq![seq!['}']])
}

spec fn clean_sections(tools: Seq<(u32, Seq<char>)>) -> Seq<Seq<char>>
    decreases tools.len(),
{
    if tools.len() == 0 {
        Seq::empty()
    } else {
        clean_sections(tools.drop_last()) + clean_section(tools.last().0, tools.last().1)
    }
}

proof fn lemma_tool_section(app: u32, tool: Seq<char>)
    requires
        is_quotable(tool),
    ensures
        indented_from(tool_section(app, tool), clean_section(app, tool)),
{
    lemma_words();
    let head = name_line(decimal(app as nat));
    lemma_decimal_quotable(app as nat);
    let none = Seq::<char>::empty();
    lemma_pair_line("config"@, none);
    lemma_pair_line("name"@, tool);
    lemma_name_line(decimal(app as nat));
    let a = pair_line("config"@, none);
    let b = pair_line("name"@, tool);
    lemma_indented_one(a);
    lemma_indented_one(b);
    lemma_indented_one(head);
    lemma_indented_join(seq![a], seq![a], seq![b], seq![b]);
    assert(seq![a] + seq![b] =~= seq![a, b]);
    lemma_braced(seq![a, b], seq![a, b]);
    lemma_indented_join(
        seq![head],
        seq![head],
        braced(seq![a, b]),
        seq![seq!['{']] + seq![a, b] + seq![seq!['}']],
    );
}

#[verifier::spinoff_prover]
#[verifier::rlimit(50)]
proof fn lemma_tool_sections(tools: Seq<(u32, Seq<char>)>)
    requires
        forall|i: int| 0 <= i < tools.len() ==> is_quotable((#[trigger] tools[i]).1),
    ensures
        indented_from(tool_sections(tools), clean_sections(tools)),
        clean_sections(tools).len() == 5 * tools.len(),
        forall|i: int|
            0 <= i < tools.len() ==> clean_sections(tools).subrange(5 * i, 5 * i + 5)
                == clean_section((#[trigger] tools[i]).0, tools[i].1),
    decreases tools.len(),
{
    if tools.len() > 0 {
        let rest = tools.drop_last();
        let n = tools.len() - 1;
        assert forall|i: int| 0 <= i < rest.len() implies is_quotable((#[trigger] rest[i]).1) by {
            assert(rest[i] == tools[i]);
        }
        lemma_tool_sections(rest);
        assert(is_quotable(tools[n].1));
        lemma_tool_section(tools[n].0, tools[n].1);
        lemma_indented_join(
            tool_sections(rest),
            clean_sections(rest),
            tool_section(tools[n].0, tools[n].1),
            clean_section(tools[n].0, tools[n].1),
        );
        let all = clean_sections(tools);
        assert forall|i: int| 0 <= i < tools.len() implies all.subrange(5 * i, 5 * i + 5)
            == clean_section((#[trigger] tools[i]).0, tools[i].1) by {
            if i < n {
                assert(rest[i] == tools[i]);
                assert(all.subrange(5 * i, 5 * i + 5) =~= clean_sections(rest).subrange(
                    5 * i,
                    5 * i + 5,
                ));
            } else {
                assert(all.subrange(5 * i, 5 * i + 5) =~= clean_section(tools[n].0, tools[n].1));
            }
        }
    }
}

/// The line does not begin the mapping.
spec fn begins_no_mapping(line: Seq<char>) -> bool {
    !has_infix(line, "CompatToolMapping"@)
}

proof fn lemma_begins_no_mapping(line: Seq<char>)
    requires
        !line.contains('C'),
    ensures
        begins_no_mapping(line),
{
    reveal_strlit("CompatToolMapping");
    if has_infix(line, "CompatToolMapping"@) {
        let i = choose|i: int| occurs_at(line, "CompatToolMapping"@, i);
        let part = line.subrange(i, i + "CompatToolMapping"@.len());
        assert(part[0] == 'C');
        assert(line[i] == 'C');
    }
}

proof fn lemma_number_line(n: nat, app: nat)
    ensures
        begins_no_mapping(name_line(decimal(n))),
        has_prefix(name_line(decimal(n)), seq!['"'] + decimal(app) + seq!['"']) <==> n == app,
{
    let line = name_line(decimal(n));
    let prefix = seq!['"'] + decimal(app) + seq!['"'];
    lemma_decimal_digits(n);
    lemma_decimal_digits(app);
    assert forall|i: int| 0 <= i < line.len() implies line[i] != 'C' by {
        if 1 <= i <= decimal(n).len() {
            assert(line[i] == decimal(n)[i - 1]);
            assert(is_ascii_digit(decimal(n)[i - 1]));
        }
    }
    lemma_begins_no_mapping(line);
    if n == app {
        assert(line.subrange(0, prefix.len() as int) =~= prefix);
    }
    if has_prefix(line, prefix) {
        let part = line.subrange(0, prefix.len() as int);
        let a = decimal(app);
        let d = decimal(n);
        assert(part[prefix.len() - 1] == '"');
        assert(line[prefix.len() - 1] == '"');
        if a.len() < d.len() {
            assert(line[a.len() as int + 1] == d[a.len() as int]);
            assert(is_ascii_digit(d[a.len() as int]));
        }
        assert(a.len() == d.len());
        assert forall|i: int| 0 <= i < a.len() implies a[i] == d[i] by {
            assert(part[i + 1] == prefix[i + 1]);
            assert(line[i + 1] == d[i]);
        }
        assert(a =~= d);
        decimal_is_injective(n, app);
    }
}

/// The application is mapped by one of the first `n` sections.
pub open spec fn is_mapped(tools: Seq<(u32, Seq<char>)>, app: u32, n: int) -> bool {
    exists|i: int| 0 <= i < n && (#[trigger] tools[i]).0 == app
}

proof fn lemma_mapped_from(
    tools: Seq<(u32, Seq<char>)>,
    lines: Seq<Seq<char>>,
    app: u32,
    k: int,
)
    requires
        0 <= k <= tools.len(),
        forall|i: int| 0 <= i < tools.len() ==> is_quotable((#[trigger] tools[i]).1),
        forall|i: int|
            0 <= i < tools.len() ==> !has_infix(
                pair_line("name"@, (#[trigger] tools[i]).1),
                "CompatToolMapping"@,
            ),
        lines == seq![
            name_line("InstallConfigStore"@),
            seq!['{'],
            name_line("CompatToolMapping"@),
            seq!['{'],
        ] + clean_sections(tools) + seq![seq!['}'], seq!['}']],
    ensures
        ({
            let r = mapped_tool(lines, 4 + 5 * k, Some(1), 2, decimal(app as nat));
            &&& (forall|i: int| k <= i < tools.len() ==> (#[trigger] tools[i]).0 != app) ==> r
                is None
            &&& forall|j: int|
                #![trigger tools[j]]
                k <= j < tools.len() && tools[j].0 == app && (forall|i: int|
                    k <= i < j ==> (#[trigger] tools[i]).0 != app) ==> r == Some(tools[j].1)
        }),
    decreases tools.len() - k,
{
    lemma_words();
    lemma_tool_sections(tools);
    reveal_strlit("\"");
    assert("\""@ =~= seq!['"']);
    let id = decimal(app as nat);
    let p = 4 + 5 * k;
    let all = clean_sections(tools);
    if k == tools.len() {
        assert(lines[p] == seq!['}']);
        assert(lines[p + 1] == seq!['}']);
        reveal_with_fuel(mapped_tool, 4);
    } else {
        let (a, tool) = tools[k];
        let none = Seq::<char>::empty();
        let s = all.subrange(5 * k, 5 * k + 5);
        assert(s == clean_section(tools[k].0, tools[k].1));
        let head = name_line(decimal(a as nat));
        let config = pair_line("config"@, none);
        let name = pair_line("name"@, tool);
        assert(lines[p] == s[0] && s[0] == head);
        assert(lines[p + 1] == s[1] && s[1] == seq!['{']);
        assert(lines[p + 2] == s[2] && s[2] == config);
        assert(lines[p + 3] == s[3] && s[3] == name);
        assert(lines[p + 4] == s[4] && s[4] == seq!['}']);
        assert(is_quotable(tools[k].1));
        lemma_decimal_quotable(a as nat);
        lemma_name_line(decimal(a as nat));
        lemma_pair_line("config"@, none);
        lemma_pair_line("name"@, tool);
        lemma_number_line(a as nat, app as nat);
        lemma_mapped_from(tools, lines, app, k + 1);
        reveal_strlit("config");
        reveal_strlit("name");
        assert(!config.contains('C'));
        lemma_begins_no_mapping(config);
        assert(begins_no_mapping(name));
        lemma_decimal_digits(app as nat);
        let prefix = "\""@ + id + "\""@;
        assert(prefix =~= seq!['"'] + id + seq!['"']);
        assert(is_ascii_digit(id[0]));
        assert(!has_prefix(config, prefix)) by {
            if has_prefix(config, prefix) {
                assert(config.subrange(0, prefix.len() as int)[1] == prefix[1]);
            }
        }
        assert(!has_prefix(name, prefix)) by {
            if has_prefix(name, prefix) {
                assert(name.subrange(0, prefix.len() as int)[1] == prefix[1]);
            }
        }
        assert(tool_in_section(lines, p + 3, 3, 2) == Some(tool));
        assert(tool_in_section(lines, p + 2, 3, 2) == Some(tool));
        assert(tool_in_section(lines, p + 1, 2, 2) == Some(tool));
        let r = mapped_tool(lines, p, Some(1), 2, id);
        if a == app {
            assert(r == Some(tool));
        } else {
            let next = mapped_tool(lines, p + 5, Some(1), 2, id);
            assert(4 + 5 * (k + 1) == p + 5);
            assert(mapped_tool(lines, p + 4, Some(1), 3, id) == next);
            assert(mapped_tool(lines, p + 3, Some(1), 3, id) == next);
            assert(mapped_tool(lines, p + 2, Some(1), 3, id) == next);
            assert(mapped_tool(lines, p + 1, Some(1), 2, id) == next);
            assert(r == next);
        }
        assert forall|j: int|
            #![trigger tools[j]]
            k <= j < tools.len() && tools[j].0 == app && (forall|i: int|
                k <= i < j ==> (#[trigger] tools[i]).0 != app) implies r == Some(tools[j].1) by {
            if j > k {
                assert(tools[k].0 != app);
            }
        }
    }
}

/// The tool that a `config.vdf` maps an application to is read back: that of the
/// first section for the application, and none if there is no such section.
#[verifier::spinoff_prover]
#[verifier::rlimit(50)]
pub proof fn mapped_tool_is_read_back(tools: Seq<(u32, Seq<char>)>, app: u32)
    requires
        forall|i: int| 0 <= i < tools.len() ==> is_quotable((#[trigger] tools[i]).1),
        forall|i: int|
            0 <= i < tools.len() ==> !has_infix(
                pair_line("name"@, (#[trigger] tools[i]).1),
                "CompatToolMapping"@,
            ),
    ensures
        !is_mapped(tools, app, tools.len() as int) ==> mapped_tool(
            clean_lines(tool_mapping_vdf(tools)),
            0,
            None,
            0,
            decimal(app as nat),
        ) is None,
        forall|j: int|
            #![trigger tools[j]]
            0 <= j < tools.len() && tools[j].0 == app && !is_mapped(tools, app, j) ==> mapped_tool(
                clean_lines(tool_mapping_vdf(tools)),
                0,
                None,
                0,
                decimal(app as nat),
            ) == Some(tools[j].1),
{
    let store = name_line("InstallConfigStore"@);
    let mapping = name_line("CompatToolMapping"@);
    let lines = clean_lines(tool_mapping_vdf(tools));
    let id = decimal(app as nat);
    lemma_words();
    lemma_mapping_lines(tools);
    lemma_mapping_heads();
    lemma_name_line("InstallConfigStore"@);
    lemma_name_line("CompatToolMapping"@);
    lemma_mapped_from(tools, lines, app, 0);
    let r = mapped_tool(lines, 4, Some(1), 2, id);
    assert(lines[0] == store && lines[1] == seq!['{'] && lines[2] == mapping && lines[3]
        == seq!['{']);
    assert(mapped_tool(lines, 3, Some(1), 1, id) == r);
    assert(mapped_tool(lines, 2, None, 1, id) == r);
    assert(mapped_tool(lines, 1, None, 0, id) == r);
    assert(mapped_tool(lines, 0, None, 0, id) == r);
    assert forall|j: int|
        #![trigger tools[j]]
        0 <= j < tools.len() && tools[j].0 == app && !is_mapped(tools, app, j) implies r == Some(
        tools[j].1,
    ) by {
        assert forall|i: int| 0 <= i < j implies (#[trigger] tools[i]).0 != app by {}
    }
    if !is_mapped(tools, app, tools.len() as int) {
        assert forall|i: int| 0 <= i < tools.len() implies (#[trigger] tools[i]).0 != app by {}
    }
}

proof fn lemma_mapping_heads()
    ensures
        begins_no_mapping(name_line("InstallConfigStore"@)),
        has_infix(name_line("CompatToolMapping"@), "CompatToolMapping"@),
{
    reveal_strlit("CompatToolMapping");
    reveal_strlit("InstallConfigStore");
    let store = name_line("InstallConfigStore"@);
    let mapping = name_line("CompatToolMapping"@);
    if has_infix(store, "CompatToolMapping"@) {
        let i = choose|i: int| occurs_at(store, "CompatToolMapping"@, i);
        let part = store.subrange(i, i + "CompatToolMapping"@.len());
        assert(part[0] == 'C');
        assert(0 <= i <= 3);
        assert(store[i] == 'C');
        assert(store[0] == '"' && store[1] == 'I' && store[2] == 'n' && store[3] == 's');
    }
    assert(mapping.subrange(1, 18) =~= "CompatToolMapping"@);
    assert(occurs_at(mapping, "CompatToolMapping"@, 1));
}

proof fn lemma_mapping_lines(tools: Seq<(u32, Seq<char>)>)
    requires
        forall|i: int| 0 <= i < tools.len() ==> is_quotable((#[trigger] tools[i]).1),
    ensures
        clean_lines(tool_mapping_vdf(tools)) == seq![
            name_line("InstallConfigStore"@),
            seq!['{'],
            name_line("CompatToolMapping"@),
            seq!['{'],
        ] + clean_sections(tools) + seq![seq!['}'], seq!['}']],
{
    lemma_words();
    lemma_tool_sections(tools);
    let store = name_line("InstallConfigStore"@);
    let mapping = name_line("CompatToolMapping"@);
    let open = seq![seq!['{']];
    let close = seq![seq!['}']];
    lemma_name_line("InstallConfigStore"@);
    lemma_name_line("CompatToolMapping"@);
    lemma_indented_one(store);
    lemma_indented_one(mapping);
    let inner = open + clean_sections(tools) + close;
    lemma_braced(tool_sections(tools), clean_sections(tools));
    lemma_indented_join(seq![mapping], seq![mapping], braced(tool_sections(tools)), inner);
    let middle = seq![mapping] + braced(tool_sections(tools));
    lemma_braced(middle, seq![mapping] + inner);
    let outer = open + (seq![mapping] + inner) + close;
    lemma_indented_join(seq![store], seq![store], braced(middle), outer);
    lemma_indented_lines(seq![store] + braced(middle), seq![store] + outer);
    assert(seq![store] + outer =~= seq![store, seq!['{'], mapping, seq!['{']] + clean_sections(
        tools,
    ) + seq![seq!['}'], seq!['}']]);
}

} // verus!
