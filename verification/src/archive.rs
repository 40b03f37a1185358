//! Archives as trees of paths, whatever their format.
use vstd::prelude::*;

use crate::installer::heuristics::{
    config_index, find_fomod_parent_dir, fomod_parent, is_config_path, is_fomod_config_path,
    lower_slashes, to_lower_slashes,
};
use crate::paths::{
    extension, extension_of, file_name_stands_behind_the_last_slash, names_split_at_their_last_dot,
};
use crate::text::{
    all_ascii, ascii_lowercase, concat2, concat3, has_suffix, lowercase, same, to_lowercase,
    trimmed_start,
};

verus! {

/// The archive formats.
#[derive(Clone, Copy, Debug, PartialEq, Eq, Structural)]
pub enum ArchiveFormat {
    Zip,
    SevenZ,
    Rar,
}

/// The name of a format.
pub open spec fn format_name(format: ArchiveFormat) -> Seq<char> {
    match format {
        ArchiveFormat::Zip => "zip"@,
        ArchiveFormat::SevenZ => "7z"@,
        ArchiveFormat::Rar => "rar"@,
    }
}

impl ArchiveFormat {
    /// The name of the format.
    pub fn name(&self) -> (r: &'static str)
        ensures
            r@ == format_name(*self),
    {
        match self {
            ArchiveFormat::Zip => "zip",
            ArchiveFormat::SevenZ => "7z",
            ArchiveFormat::Rar => "rar",
        }
    }
}

/// The format that the path of an archive announces; that of 7z if it
/// announces none.
pub open spec fn format_of(path: Seq<char>) -> ArchiveFormat {
    let ext = match extension_of(path) {
        Some(e) => lowercase(e),
        None => Seq::empty(),
    };
    if ext == "zip"@ {
        ArchiveFormat::Zip
    } else if ext == "rar"@ {
        ArchiveFormat::Rar
    } else {
        ArchiveFormat::SevenZ
    }
}

/// Finds the format of an archive by its path.
pub fn detect_format(path: &str) -> (r: ArchiveFormat)
    ensures
        r == format_of(path@),
{
    let ext = match extension(path) {
        Some(e) => to_lowercase(e.as_str()),
        None => String::new(),
    };
    if same(ext.as_str(), "zip") {
        ArchiveFormat::Zip
    } else if same(ext.as_str(), "rar") {
        ArchiveFormat::Rar
    } else {
        ArchiveFormat::SevenZ
    }
}

/// Why an archive could not be listed.
#[derive(Debug)]
pub enum ListingError {
    /// The file could not be opened.
    Open(String),
    /// What the file holds could not be read.
    Read(String),
}

/// What is said of an archive that could not be listed.
pub open spec fn listing_failure(path: Seq<char>, error: ListingError) -> Seq<char> {
    match error {
        ListingError::Open(e) => "Cannot open "@ + format_name(format_of(path)) + " archive "@
            + path + ": "@ + e@,
        ListingError::Read(e) => "Cannot read "@ + format_name(format_of(path)) + " archive "@
            + path + ": "@ + e@,
    }
}

/// Every path stored in an archive.
#[derive(Debug)]
pub struct VirtualTree {
    entries: Vec<String>,
    format: ArchiveFormat,
}

/// The path is that of a FOMOD configuration, whatever its case.
pub open spec fn is_fomod_path(path: Seq<char>) -> bool {
    is_config_path(lower_slashes(path))
}

impl VirtualTree {
    /// The paths as they are stored.
    pub closed spec fn paths(&self) -> Seq<Seq<char>> {
        self.entries.deep_view()
    }

    /// The format of the archive.
    pub closed spec fn kind(&self) -> ArchiveFormat {
        self.format
    }

    /// The tree of an archive, given the paths that were listed in it or why
    /// they could not be.
    pub fn from_archive(archive_path: &str, listing: Result<Vec<String>, ListingError>) -> (r: Result<
        VirtualTree,
        String,
    >)
        ensures
            match listing {
                Ok(paths) => r is Ok && r->Ok_0.paths() == paths.deep_view() && r->Ok_0.kind()
                    == format_of(archive_path@),
                Err(e) => r is Err && r->Err_0@ == listing_failure(archive_path@, e),
            },
    {
        let format = detect_format(archive_path);
        match listing {
            Ok(entries) => Ok(VirtualTree { entries, format }),
            Err(error) => {
                let what = match &error {
                    ListingError::Open(_) => "Cannot open ",
                    ListingError::Read(_) => "Cannot read ",
                };
                let start = concat3(what, format.name(), " archive ");
                let named = concat3(start.as_str(), archive_path, ": ");
                match &error {
                    ListingError::Open(e) => Err(concat2(named.as_str(), e.as_str())),
                    ListingError::Read(e) => Err(concat2(named.as_str(), e.as_str())),
                }
            },
        }
    }

    /// The paths as they are stored.
    pub fn entries(&self) -> (r: &Vec<String>)
        ensures
            r.deep_view() == self.paths(),
    {
        &self.entries
    }

    /// The paths as they are stored, borrowed.
    pub fn entry_refs(&self) -> (r: Vec<&str>)
        ensures
            r.deep_view() == self.paths(),
    {
        let ghost all = self.paths();
        let mut r: Vec<&str> = Vec::new();
        for i in 0..self.entries.len()
            invariant
                all == self.paths(),
                r@.len() == i,
                forall|j: int| 0 <= j < i ==> #[trigger] r@[j]@ == all[j],
        {
            assert(all[i as int] == self.entries@[i as int]@);
            r.push(self.entries[i].as_str());
        }
        assert(r.deep_view() =~= all);
        r
    }

    /// How many paths there are.
    pub fn len(&self) -> (r: usize)
        ensures
            r == self.paths().len(),
    {
        self.entries.len()
    }

    /// Whether there is no path.
    pub fn is_empty(&self) -> (r: bool)
        ensures
            r == (self.paths().len() == 0),
    {
        self.entries.len() == 0
    }

    /// The format of the archive.
    pub fn format(&self) -> (r: ArchiveFormat)
        ensures
            r == self.kind(),
    {
        self.format
    }

    /// Whether the archive holds `fomod/ModuleConfig.xml` (case-insensitive),
    /// at its root or below other directories.
    pub fn has_fomod_config(&self) -> (r: bool)
        ensures
            r == exists|i: int|
                0 <= i < self.paths().len() && is_fomod_path(#[trigger] self.paths()[i]),
    {
        let ghost all = self.paths();
        for i in 0..self.entries.len()
            invariant
                all == self.paths(),
                forall|j: int| 0 <= j < i ==> !is_fomod_path(#[trigger] all[j]),
        {
            assert(all[i as int] == self.entries@[i as int]@);
            let lower = to_lower_slashes(self.entries[i].as_str());
            if is_fomod_config_path(lower.as_str()) {
                return true;
            }
        }
        false
    }

    /// The directory that contains the `fomod/` directory: empty if that is the
    /// archive root; nothing if there is no FOMOD configuration.
    pub fn find_fomod_parent(&self) -> (r: Option<String>)
        ensures
            r.deep_view() == fomod_parent(self.paths()),
    {
        let refs = self.entry_refs();
        let slice = refs.as_slice();
        assert(slice.deep_view() =~= self.paths());
        find_fomod_parent_dir(slice)
    }
}

// ── Laws ────────────────────────────────────────────────────────────────────

proof fn lemma_leading_slashes(s: Seq<char>)
    ensures
        is_config_path(trimmed_start(s, '/')) == is_config_path(s),
    decreases s.len(),
{
    if s.len() > 0 && s[0] == '/' {
        let t = s.skip(1);
        lemma_leading_slashes(t);
        reveal_strlit("fomod/moduleconfig.xml");
        reveal_strlit("/fomod/moduleconfig.xml");
        let name = "fomod/moduleconfig.xml"@;
        let tail = "/fomod/moduleconfig.xml"@;
        assert(tail =~= seq!['/'] + name);
        if has_suffix(s, tail) {
            if s.len() == tail.len() {
                assert(s =~= tail);
                assert(t =~= name);
            } else {
                assert(t.subrange(t.len() - tail.len(), t.len() as int) =~= tail);
            }
        }
        if t == name {
            assert(s =~= tail);
            assert(s.subrange(0, s.len() as int) =~= s);
        }
        if has_suffix(t, tail) {
            assert(s.subrange(s.len() - tail.len(), s.len() as int) =~= tail);
        }
    }
}

proof fn lemma_config_index(paths: Seq<Seq<char>>)
    ensures
        0 <= config_index(paths) <= paths.len(),
        config_index(paths) < paths.len() <==> exists|i: int|
            0 <= i < paths.len() && is_fomod_path(#[trigger] paths[i]),
    decreases paths.len(),
{
    if paths.len() > 0 {
        let rest = paths.skip(1);
        lemma_leading_slashes(lower_slashes(paths[0]));
        lemma_config_index(rest);
        if exists|i: int| 0 <= i < paths.len() && is_fomod_path(#[trigger] paths[i]) {
            let i = choose|i: int| 0 <= i < paths.len() && is_fomod_path(#[trigger] paths[i]);
            if i > 0 {
                assert(is_fomod_path(rest[i - 1]));
            }
        }
        if exists|i: int| 0 <= i < rest.len() && is_fomod_path(#[trigger] rest[i]) {
            let i = choose|i: int| 0 <= i < rest.len() && is_fomod_path(#[trigger] rest[i]);
            assert(is_fomod_path(paths[i + 1]));
        }
    }
}

/// An archive holds a FOMOD configuration exactly where the directory of one
/// is found in it.
pub proof fn fomod_parent_is_found_with_its_config(paths: Seq<Seq<char>>)
    ensures
        fomod_parent(paths) is Some <==> exists|i: int|
            0 <= i < paths.len() && is_fomod_path(#[trigger] paths[i]),
{
    lemma_config_index(paths);
}

/// The format of an archive follows from its extension, in whatever case; one
/// that is neither zip nor rar is taken for 7z.
pub proof fn format_follows_from_the_extension(dir: Seq<char>, stem: Seq<char>, ext: Seq<char>)
    requires
        stem.len() > 0,
        !stem.contains('/'),
        !ext.contains('/'),
        !ext.contains('.'),
        ext.len() > 0,
        all_ascii(ext),
    ensures
        ({
            let format = format_of(dir + seq!['/'] + (stem + seq!['.'] + ext));
            &&& format == ArchiveFormat::Zip <==> ascii_lowercase(ext) == seq!['z', 'i', 'p']
            &&& format == ArchiveFormat::Rar <==> ascii_lowercase(ext) == seq!['r', 'a', 'r']
        }),
{
    reveal_strlit("zip");
    reveal_strlit("rar");
    assert("zip"@ =~= seq!['z', 'i', 'p']);
    assert("rar"@ =~= seq!['r', 'a', 'r']);
    assert(seq!['z', 'i', 'p'][0] != seq!['r', 'a', 'r'][0]);
    let name = stem + seq!['.'] + ext;
    assert forall|i: int| 0 <= i < name.len() implies name[i] != '/' by {
        if i < stem.len() {
            assert(stem.contains(stem[i]));
        } else if i > stem.len() {
            assert(ext.contains(ext[i - stem.len() - 1]));
        }
    }
    assert(name.len() >= 3);
    assert(seq!['.'].len() == 1 && seq!['.', '.'].len() == 2);
    file_name_stands_behind_the_last_slash(dir, name);
    names_split_at_their_last_dot(stem, ext);
}

} // verus!
