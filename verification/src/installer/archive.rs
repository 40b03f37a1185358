//! Finding files in archives.
use vstd::prelude::*;

use crate::installer::extract::{ArchiveEntry, ArchiveEntryView};
use crate::installer::heuristics::{lower_slashes, to_lower_slashes};
use crate::installer::paths::{normalize_path, normalized};
use crate::text::{concat2, ends_with, has_suffix, lowercase, owned, same, to_lowercase};

verus! {

/// A name as it is compared: normalized and in lowercase.
pub open spec fn name_key(name: Seq<char>) -> Seq<char> {
    lowercase(normalized(name))
}

fn key_of(name: &str) -> (r: String)
    ensures
        r@ == name_key(name@),
{
    to_lowercase(normalize_path(name).as_str())
}

/// The entry with the given key is the one that was asked for, be it by its
/// whole path, by the end of its path, or relative to the FOMOD directory.
pub open spec fn answers(key: Seq<char>, wanted: Seq<char>) -> bool {
    ||| key == wanted
    ||| has_suffix(key, "/"@ + wanted)
    ||| key == "fomod/"@ + wanted
    ||| has_suffix(key, "/"@ + ("fomod/"@ + wanted))
}

/// Whether the entry with the given key is the one that was asked for.
pub fn is_requested(key: &str, wanted: &str) -> (r: bool)
    ensures
        r == answers(key@, wanted@),
{
    let fomod = concat2("fomod/", wanted);
    same(key, wanted) || ends_with(key, concat2("/", wanted).as_str()) || same(
        key,
        fomod.as_str(),
    ) || ends_with(key, concat2("/", fomod.as_str()).as_str())
}

/// The index of the first entry that is the one asked for, or their number.
/// Directories are passed over.
pub open spec fn answer_index(
    names: Seq<Seq<char>>,
    directories: Seq<bool>,
    wanted: Seq<char>,
) -> int
    decreases names.len(),
{
    if names.len() == 0 || (!directories[0] && answers(name_key(names[0]), wanted)) {
        0
    } else {
        1 + answer_index(names.skip(1), directories.skip(1), wanted)
    }
}

proof fn lemma_answer_index(
    names: Seq<Seq<char>>,
    directories: Seq<bool>,
    wanted: Seq<char>,
    n: int,
)
    requires
        0 <= n <= names.len(),
        names.len() == directories.len(),
        forall|j: int|
            0 <= j < n ==> directories[j] || !answers(name_key(#[trigger] names[j]), wanted),
        n < names.len() ==> !directories[n] && answers(name_key(names[n]), wanted),
    ensures
        answer_index(names, directories, wanted) == n,
    decreases names.len(),
{
    if n > 0 {
        assert forall|j: int| 0 <= j < n - 1 implies directories.skip(1)[j] || !answers(
            name_key(#[trigger] names.skip(1)[j]),
            wanted,
        ) by {
            assert(names.skip(1)[j] == names[j + 1]);
        }
        assert(directories[0] || !answers(name_key(names[0]), wanted));
        lemma_answer_index(names.skip(1), directories.skip(1), wanted, n - 1);
    }
}

fn find_answer(names: &Vec<String>, directories: &Vec<bool>, wanted: &str) -> (r: usize)
    requires
        directories@.len() == names@.len(),
    ensures
        r == answer_index(names.deep_view(), directories@, wanted@),
        r <= names@.len(),
        r < names@.len() ==> !directories@[r as int] && answers(
            name_key(names.deep_view()[r as int]),
            wanted@,
        ),
{
    let ghost all = names.deep_view();
    let mut i: usize = 0;
    while i < names.len()
        invariant
            all == names.deep_view(),
            directories@.len() == names@.len(),
            i <= names@.len(),
            forall|j: int|
                0 <= j < i ==> directories@[j] || !answers(name_key(#[trigger] all[j]), wanted@),
        decreases names@.len() - i,
    {
        assert(all[i as int] == names@[i as int]@);
        if !directories[i] && is_requested(key_of(names[i].as_str()).as_str(), wanted) {
            proof {
                lemma_answer_index(all, directories@, wanted@, i as int);
            }
            return i;
        }
        i += 1;
    }
    proof {
        lemma_answer_index(all, directories@, wanted@, i as int);
    }
    i
}

/// No entry counts as a directory.
pub open spec fn no_directories(n: nat) -> Seq<bool> {
    Seq::new(n, |i: int| false)
}

fn all_files(n: usize) -> (r: Vec<bool>)
    ensures
        r@ == no_directories(n as nat),
{
    let mut r: Vec<bool> = Vec::new();
    for i in 0..n
        invariant
            r@ == no_directories(i as nat),
    {
        r.push(false);
        assert(r@ =~= no_directories((i + 1) as nat));
    }
    r
}

/// The names of the entries.
pub open spec fn names_of(entries: Seq<ArchiveEntryView>) -> Seq<Seq<char>> {
    entries.map_values(|e: ArchiveEntryView| e.name)
}

/// Which of the entries are directories.
pub open spec fn directories_of(entries: Seq<ArchiveEntryView>) -> Seq<bool> {
    entries.map_values(|e: ArchiveEntryView| e.directory)
}

fn split_entries(entries: &Vec<ArchiveEntry>) -> (r: (Vec<String>, Vec<bool>))
    ensures
        r.0.deep_view() == names_of(entries.deep_view()),
        r.1@ == directories_of(entries.deep_view()),
        r.0@.len() == r.1@.len() == entries@.len(),
{
    let ghost all = entries.deep_view();
    let mut names: Vec<String> = Vec::new();
    let mut directories: Vec<bool> = Vec::new();
    for i in 0..entries.len()
        invariant
            all == entries.deep_view(),
            names@.len() == i,
            directories@.len() == i,
            forall|j: int| 0 <= j < i ==> #[trigger] names@[j]@ == all[j].name,
            forall|j: int| 0 <= j < i ==> #[trigger] directories@[j] == all[j].directory,
    {
        assert(all[i as int] == entries@[i as int].deep_view());
        names.push(owned(entries[i].name.as_str()));
        directories.push(entries[i].directory);
    }
    assert(names.deep_view() =~= names_of(all));
    assert(directories@ =~= directories_of(all));
    (names, directories)
}

// ── One file ────────────────────────────────────────────────────────────────

/// What looking for one file gives: the index of its entry, or why there is
/// none.
pub open spec fn lookup(
    names: Seq<Seq<char>>,
    directories: Seq<bool>,
    path: Seq<char>,
) -> Result<int, Seq<char>> {
    let wanted = name_key(path);
    let i = answer_index(names, directories, wanted);
    if wanted.len() == 0 {
        Err("Empty archive path"@)
    } else if i < names.len() {
        Ok(i)
    } else {
        Err("Archive file not found: "@ + path)
    }
}

/// The result of looking for a file, as a mathematical value.
pub open spec fn lookup_result(r: Result<usize, String>) -> Result<int, Seq<char>> {
    match r {
        Ok(i) => Ok(i as int),
        Err(e) => Err(e@),
    }
}

fn find_file(names: &Vec<String>, directories: &Vec<bool>, relative_path: &str) -> (r: Result<
    usize,
    String,
>)
    requires
        directories@.len() == names@.len(),
    ensures
        lookup_result(r) == lookup(names.deep_view(), directories@, relative_path@),
{
    let wanted = key_of(relative_path);
    if wanted.as_str().is_empty() {
        return Err(owned("Empty archive path"));
    }
    let i = find_answer(names, directories, wanted.as_str());
    if i < names.len() {
        Ok(i)
    } else {
        Err(concat2("Archive file not found: ", relative_path))
    }
}

/// Finds a file of a zip archive by its path, compared without regard to case;
/// a path that is relative to the FOMOD directory will do.
pub fn read_archive_file_bytes(entries: &Vec<ArchiveEntry>, relative_path: &str) -> (r: Result<
    usize,
    String,
>)
    ensures
        lookup_result(r) == lookup(
            names_of(entries.deep_view()),
            directories_of(entries.deep_view()),
            relative_path@,
        ),
{
    let (names, directories) = split_entries(entries);
    find_file(&names, &directories, relative_path)
}

/// Finds a file of another archive by its path among the names of its
/// entries, which do not tell directories from files.
pub fn read_archive_file_bytes_non_zip(names: &Vec<String>, relative_path: &str) -> (r: Result<
    usize,
    String,
>)
    ensures
        lookup_result(r) == lookup(
            names.deep_view(),
            no_directories(names@.len()),
            relative_path@,
        ),
{
    find_file(names, &all_files(names.len()), relative_path)
}

// ── Several files ───────────────────────────────────────────────────────────

/// The contents of an entry answer a request; both are given by their index.
#[derive(Clone, Copy)]
pub struct ReadRequest {
    pub request: usize,
    pub entry: usize,
}

/// The request at the end of a list adds its answer.
pub open spec fn with_answer(
    found: Seq<ReadRequest>,
    names: Seq<Seq<char>>,
    directories: Seq<bool>,
    request: int,
    path: Seq<char>,
) -> Seq<ReadRequest> {
    let wanted = name_key(path);
    let i = answer_index(names, directories, wanted);
    if wanted.len() > 0 && i < names.len() {
        found.push(ReadRequest { request: request as usize, entry: i as usize })
    } else {
        found
    }
}

/// The entries that answer the requests, in the order of the requests.
pub open spec fn answers_in_order(
    names: Seq<Seq<char>>,
    directories: Seq<bool>,
    paths: Seq<Seq<char>>,
) -> Seq<ReadRequest>
    decreases paths.len(),
{
    if paths.len() == 0 {
        Seq::empty()
    } else {
        with_answer(
            answers_in_order(names, directories, paths.drop_last()),
            names,
            directories,
            paths.len() - 1,
            paths.last(),
        )
    }
}

fn find_all(names: &Vec<String>, directories: &Vec<bool>, paths: &[&str]) -> (r: Vec<ReadRequest>)
    requires
        directories@.len() == names@.len(),
    ensures
        r@ == answers_in_order(names.deep_view(), directories@, paths.deep_view()),
{
    let ghost ps = paths.deep_view();
    let ghost ns = names.deep_view();
    let mut r: Vec<ReadRequest> = Vec::new();
    assert(answers_in_order(ns, directories@, ps.take(0)) =~= r@);
    for k in 0..paths.len()
        invariant
            ps == paths.deep_view(),
            ns == names.deep_view(),
            directories@.len() == names@.len(),
            r@ == answers_in_order(ns, directories@, ps.take(k as int)),
    {
        assert(ps.take(k + 1).drop_last() =~= ps.take(k as int));
        assert(ps[k as int] == paths@[k as int]@);
        let wanted = key_of(paths[k]);
        if !wanted.as_str().is_empty() {
            let i = find_answer(names, directories, wanted.as_str());
            if i < names.len() {
                r.push(ReadRequest { request: k, entry: i });
            }
        }
    }
    assert(ps.take(ps.len() as int) =~= ps);
    r
}

/// Finds the entries of a zip archive that answer each of the requests; a
/// request that nothing answers is left out.
pub fn read_archive_files_bytes(entries: &Vec<ArchiveEntry>, relative_paths: &[&str]) -> (r: Vec<
    ReadRequest,
>)
    ensures
        r@ == answers_in_order(
            names_of(entries.deep_view()),
            directories_of(entries.deep_view()),
            relative_paths.deep_view(),
        ),
{
    let (names, directories) = split_entries(entries);
    find_all(&names, &directories, relative_paths)
}

/// The index of the last answer whose entry has the given key, or -1.
pub open spec fn last_with_key(
    found: Seq<ReadRequest>,
    names: Seq<Seq<char>>,
    key: Seq<char>,
) -> int
    decreases found.len(),
{
    if found.len() == 0 {
        -1
    } else if name_key(names[found.last().entry as int]) == key {
        found.len() - 1
    } else {
        last_with_key(found.drop_last(), names, key)
    }
}

/// The reads of one pass through an archive: each file whose key is that of an
/// answer serves the last request that has it.
pub open spec fn pass_reads(
    names: Seq<Seq<char>>,
    directories: Seq<bool>,
    found: Seq<ReadRequest>,
    n: int,
) -> Seq<ReadRequest>
    decreases n,
{
    if n <= 0 {
        Seq::empty()
    } else {
        let before = pass_reads(names, directories, found, n - 1);
        let k = last_with_key(found, names, name_key(names[n - 1]));
        if !directories[n - 1] && k >= 0 {
            before.push(ReadRequest { request: found[k].request, entry: (n - 1) as usize })
        } else {
            before
        }
    }
}

fn find_key(found: &Vec<ReadRequest>, keys: &Vec<String>, key: &str, Ghost(names): Ghost<
    Seq<Seq<char>>,
>) -> (r: Option<usize>)
    requires
        keys@.len() == names.len(),
        forall|j: int| 0 <= j < keys@.len() ==> #[trigger] keys@[j]@ == name_key(names[j]),
        forall|j: int| 0 <= j < found@.len() ==> #[trigger] found@[j].entry < names.len(),
    ensures
        match r {
            Some(k) => k < found@.len() && k == last_with_key(found@, names, key@),
            None => last_with_key(found@, names, key@) == -1,
        },
{
    let mut k: usize = found.len();
    assert(found@.take(k as int) =~= found@);
    while k > 0
        invariant
            k <= found@.len(),
            keys@.len() == names.len(),
            forall|j: int| 0 <= j < keys@.len() ==> #[trigger] keys@[j]@ == name_key(names[j]),
            forall|j: int| 0 <= j < found@.len() ==> #[trigger] found@[j].entry < names.len(),
            last_with_key(found@, names, key@) == last_with_key(
                found@.take(k as int),
                names,
                key@,
            ),
        decreases k,
    {
        assert(found@.take(k as int).drop_last() =~= found@.take(k - 1));
        assert(found@[k - 1].entry < names.len());
        if same(keys[found[k - 1].entry].as_str(), key) {
            return Some(k - 1);
        }
        k -= 1;
    }
    None
}

proof fn lemma_answers_in_range(
    names: Seq<Seq<char>>,
    directories: Seq<bool>,
    paths: Seq<Seq<char>>,
)
    requires
        names.len() <= usize::MAX,
        paths.len() <= usize::MAX,
        names.len() == directories.len(),
    ensures
        forall|j: int|
            0 <= j < answers_in_order(names, directories, paths).len() ==> {
                let a = #[trigger] answers_in_order(names, directories, paths)[j];
                &&& a.entry < names.len()
                &&& a.request < paths.len()
                &&& !directories[a.entry as int]
                &&& answers(
                    name_key(names[a.entry as int]),
                    name_key(paths[a.request as int]),
                )
            },
    decreases paths.len(),
{
    if paths.len() > 0 {
        lemma_answers_in_range(names, directories, paths.drop_last());
        lemma_answer_is(names, directories, name_key(paths.last()));
        let before = answers_in_order(names, directories, paths.drop_last());
        let all = answers_in_order(names, directories, paths);
        assert forall|j: int| 0 <= j < all.len() implies {
            let a = #[trigger] all[j];
            &&& a.entry < names.len()
            &&& a.request < paths.len()
            &&& !directories[a.entry as int]
            &&& answers(name_key(names[a.entry as int]), name_key(paths[a.request as int]))
        } by {
            if j < before.len() {
                assert(all[j] == before[j]);
            }
        }
    }
}

proof fn lemma_answer_is(names: Seq<Seq<char>>, directories: Seq<bool>, wanted: Seq<char>)
    requires
        names.len() == directories.len(),
    ensures
        0 <= answer_index(names, directories, wanted) <= names.len(),
        answer_index(names, directories, wanted) < names.len() ==> {
            let i = answer_index(names, directories, wanted);
            !directories[i] && answers(name_key(names[i]), wanted)
        },
    decreases names.len(),
{
    if names.len() > 0 && !(!directories[0] && answers(name_key(names[0]), wanted)) {
        lemma_answer_is(names.skip(1), directories.skip(1), wanted);
    }
}

/// Finds what is read in one pass through an archive that is not a zip
/// archive, to answer each of the requests.
///
/// The answers are found among the names alone.  Where the names of two
/// answers differ in nothing but case, both entries serve the later request.
pub fn read_archive_files_bytes_non_zip(
    names: &Vec<String>,
    directories: &Vec<bool>,
    relative_paths: &[&str],
) -> (r: Vec<ReadRequest>)
    requires
        directories@.len() == names@.len(),
    ensures
        r@ == pass_reads(
            names.deep_view(),
            directories@,
            answers_in_order(
                names.deep_view(),
                no_directories(names@.len()),
                relative_paths.deep_view(),
            ),
            names@.len() as int,
        ),
{
    let ghost ns = names.deep_view();
    let found = find_all(names, &all_files(names.len()), relative_paths);
    let count: usize = relative_paths.len();
    assert(count == relative_paths.deep_view().len());
    proof {
        lemma_answers_in_range(ns, no_directories(names@.len()), relative_paths.deep_view());
    }
    let mut keys: Vec<String> = Vec::new();
    for i in 0..names.len()
        invariant
            ns == names.deep_view(),
            keys@.len() == i,
            forall|j: int| 0 <= j < i ==> #[trigger] keys@[j]@ == name_key(ns[j]),
    {
        assert(ns[i as int] == names@[i as int]@);
        keys.push(key_of(names[i].as_str()));
    }
    let mut r: Vec<ReadRequest> = Vec::new();
    for n in 0..names.len()
        invariant
            ns == names.deep_view(),
            directories@.len() == names@.len(),
            keys@.len() == names@.len(),
            forall|j: int| 0 <= j < keys@.len() ==> #[trigger] keys@[j]@ == name_key(ns[j]),
            forall|j: int| 0 <= j < found@.len() ==> #[trigger] found@[j].entry < ns.len(),
            r@ == pass_reads(ns, directories@, found@, n as int),
    {
        assert(keys@[n as int]@ == name_key(ns[n as int]));
        let hit = find_key(&found, &keys, keys[n].as_str(), Ghost(ns));
        match hit {
            Some(k) => {
                if !directories[n] {
                    r.push(ReadRequest { request: found[k].request, entry: n });
                }
            },
            None => {},
        }
    }
    r
}

proof fn lemma_last_with_key(found: Seq<ReadRequest>, names: Seq<Seq<char>>, key: Seq<char>)
    ensures
        -1 <= last_with_key(found, names, key) < found.len(),
        last_with_key(found, names, key) >= 0 ==> name_key(
            names[found[last_with_key(found, names, key)].entry as int],
        ) == key,
    decreases found.len(),
{
    if found.len() > 0 {
        lemma_last_with_key(found.drop_last(), names, key);
    }
}

/// Whatever is read for a request is a file that answers it.
pub proof fn reads_answer_their_requests(
    names: Seq<Seq<char>>,
    directories: Seq<bool>,
    paths: Seq<Seq<char>>,
    n: int,
)
    requires
        names.len() <= usize::MAX,
        paths.len() <= usize::MAX,
        names.len() == directories.len(),
        0 <= n <= names.len(),
    ensures
        ({
            let found = answers_in_order(names, no_directories(names.len()), paths);
            forall|j: int|
                0 <= j < pass_reads(names, directories, found, n).len() ==> {
                    let a = #[trigger] pass_reads(names, directories, found, n)[j];
                    &&& a.entry < n
                    &&& a.request < paths.len()
                    &&& !directories[a.entry as int]
                    &&& answers(
                        name_key(names[a.entry as int]),
                        name_key(paths[a.request as int]),
                    )
                }
        }),
    decreases n,
{
    let found = answers_in_order(names, no_directories(names.len()), paths);
    if n > 0 {
        reads_answer_their_requests(names, directories, paths, n - 1);
        lemma_answers_in_range(names, no_directories(names.len()), paths);
        let key = name_key(names[n - 1]);
        lemma_last_with_key(found, names, key);
        let k = last_with_key(found, names, key);
        let before = pass_reads(names, directories, found, n - 1);
        let all = pass_reads(names, directories, found, n);
        assert forall|j: int| 0 <= j < all.len() implies {
            let a = #[trigger] all[j];
            &&& a.entry < n
            &&& a.request < paths.len()
            &&& !directories[a.entry as int]
            &&& answers(name_key(names[a.entry as int]), name_key(paths[a.request as int]))
        } by {
            if j < before.len() {
                assert(all[j] == before[j]);
            } else {
                assert(found[k].entry < names.len());
            }
        }
    }
}

// ── Single entries ──────────────────────────────────────────────────────────

/// The index of the first name that is `path` but for case and slashes, or the
/// number of names.
pub open spec fn same_name_index(names: Seq<Seq<char>>, path: Seq<char>) -> int
    decreases names.len(),
{
    if names.len() == 0 || lower_slashes(names[0]) == lower_slashes(path) {
        0
    } else {
        1 + same_name_index(names.skip(1), path)
    }
}

/// Finds the entry of a rar archive with the given path.
pub fn extract_single_rar_file(archive_path: &str, names: &Vec<String>, file: &str) -> (r: Result<
    usize,
    String,
>)
    ensures
        ({
            let i = same_name_index(names.deep_view(), file@);
            if i < names@.len() {
                r == Ok::<usize, String>(i as usize)
            } else {
                r is Err && r->Err_0@ == "File '"@ + file@ + "' not found in RAR archive "@
                    + archive_path@
            }
        }),
{
    let key = to_lower_slashes(file);
    let ghost all = names.deep_view();
    let mut i: usize = 0;
    assert(all.skip(0) =~= all);
    while i < names.len()
        invariant
            all == names.deep_view(),
            i <= names@.len(),
            key@ == lower_slashes(file@),
            same_name_index(all, file@) == i + same_name_index(all.skip(i as int), file@),
        decreases names@.len() - i,
    {
        assert(all[i as int] == names@[i as int]@);
        assert(all.skip(i as int).skip(1) =~= all.skip(i + 1));
        if same(to_lower_slashes(names[i].as_str()).as_str(), key.as_str()) {
            return Ok(i);
        }
        i += 1;
    }
    let head = concat2(concat2("File '", file).as_str(), "' not found in RAR archive ");
    Err(concat2(head.as_str(), archive_path))
}

/// Whether an entry of a 7z archive is the file with the given path, when no
/// entry has it as it is spelled.
pub fn extract_single_7z_file(name: &str, directory: bool, file: &str) -> (r: bool)
    ensures
        r == (name_key(name@) == name_key(file@) && !directory),
{
    same(key_of(name).as_str(), key_of(file).as_str()) && !directory
}

/// An entry answers a path if it is the path or ends in it behind a slash.
pub proof fn entries_answer_by_their_ends(key: Seq<char>, wanted: Seq<char>)
    ensures
        answers(key, wanted) <==> key == wanted || (seq!['/'] + wanted).is_suffix_of(key),
{
    reveal_strlit("/");
    reveal_strlit("fomod/");
    assert("/"@ =~= seq!['/']);
    let tail = seq!['/'] + wanted;
    let longer = "fomod/"@ + wanted;
    let n = key.len() as int;
    if key == longer {
        assert(key.subrange(n - tail.len(), n) =~= tail);
    }
    if has_suffix(key, seq!['/'] + longer) {
        let all = seq!['/'] + longer;
        assert(key.subrange(n - tail.len(), n) =~= tail) by {
            assert forall|i: int| 0 <= i < tail.len() implies key.subrange(n - tail.len(), n)[i]
                == tail[i] by {
                assert(key.subrange(n - all.len(), n)[i + all.len() - tail.len()] == all[i
                    + all.len() - tail.len()]);
            }
        }
    }
}

/// What is looked up is the first file that answers the path; an empty path and
/// one that nothing answers are refused.
pub proof fn first_answer_is_found(
    names: Seq<Seq<char>>,
    directories: Seq<bool>,
    path: Seq<char>,
    n: int,
)
    requires
        names.len() == directories.len(),
    ensures
        name_key(path).len() == 0 ==> lookup(names, directories, path) is Err,
        name_key(path).len() > 0 && 0 <= n < names.len() && !directories[n] && answers(
            name_key(names[n]),
            name_key(path),
        ) && (forall|j: int|
            0 <= j < n ==> directories[j] || !answers(name_key(#[trigger] names[j]), name_key(path)))
            ==> lookup(names, directories, path) == Ok::<int, Seq<char>>(n),
        (forall|j: int|
            0 <= j < names.len() ==> directories[j] || !answers(
                name_key(#[trigger] names[j]),
                name_key(path),
            )) ==> lookup(names, directories, path) is Err,
{
    let wanted = name_key(path);
    if 0 <= n < names.len() && !directories[n] && answers(name_key(names[n]), wanted) && (forall|
        j: int,
    |
        0 <= j < n ==> directories[j] || !answers(name_key(#[trigger] names[j]), wanted)) {
        lemma_answer_index(names, directories, wanted, n);
    }
    if forall|j: int|
        0 <= j < names.len() ==> directories[j] || !answers(name_key(#[trigger] names[j]), wanted) {
        lemma_answer_index(names, directories, wanted, names.len() as int);
    }
}

/// Among names the first that is the path up to case and the kind of slashes is
/// taken.
pub proof fn first_of_a_name_is_taken(names: Seq<Seq<char>>, path: Seq<char>, i: int)
    requires
        0 <= i < names.len(),
        lower_slashes(names[i]) == lower_slashes(path),
        forall|j: int| 0 <= j < i ==> lower_slashes(#[trigger] names[j]) != lower_slashes(path),
    ensures
        same_name_index(names, path) == i,
    decreases names.len(),
{
    if i > 0 {
        assert(lower_slashes(names[0]) != lower_slashes(path));
        let rest = names.skip(1);
        assert forall|j: int| 0 <= j < i - 1 implies lower_slashes(#[trigger] rest[j])
            != lower_slashes(path) by {
            assert(rest[j] == names[j + 1]);
        }
        first_of_a_name_is_taken(rest, path, i - 1);
    }
}

} // verus!
