//! Downloading a file by way of a partial one.
use vstd::prelude::*;

use crate::number::{decimal, parse_inverts_decimal, parse_u64, parsed};
use crate::paths::{
    extension, extension_of, extension_replaced, file_name_of,
    file_name_stands_behind_the_last_slash, is_name, names_split_at_their_last_dot, parent,
    parent_of, with_extension, without_tail,
};
use crate::text::{after_last, concat2, lemma_after_last, owned};

verus! {

/// What a cancelled download answers.
pub const DOWNLOAD_CANCELLED_ERROR: &'static str = "Download cancelled";

/// The path under which a file is kept while it is incomplete: its extension
/// with `.part` behind it.
pub open spec fn partial_path(dest: Seq<char>) -> Seq<char> {
    extension_replaced(
        dest,
        (match extension_of(dest) {
            Some(e) => e,
            None => "bin"@,
        }) + ".part"@,
    )
}

/// The length that a server announces, or 0 if it announces none.
pub open spec fn announced_length(header: Option<Seq<char>>) -> u64 {
    match header {
        Some(h) => match parsed(h, u64::MAX as nat) {
            Some(n) => n as u64,
            None => 0,
        },
        None => 0,
    }
}

/// How a file is downloaded.
#[derive(Debug)]
pub struct DownloadPlan {
    /// Where the bytes are written until all have come.
    pub part_path: String,
    /// How many bytes are expected, or 0 if that is not known.
    pub total: u64,
    /// The directory that has to exist.
    pub directory: Option<String>,
}

/// How the file at `dest_path` is downloaded, given the `Content-Length` that
/// the server sent.
///
/// The bytes go to a partial file that is renamed at the end, so that a
/// partial download is never mistaken for a finished one.
pub fn download_file(dest_path: &str, content_length: Option<&str>) -> (r: DownloadPlan)
    ensures
        r.part_path@ == partial_path(dest_path@),
        r.total == announced_length(content_length.deep_view()),
        r.directory.deep_view() == parent_of(dest_path@),
{
    let ext = match extension(dest_path) {
        Some(e) => e,
        None => owned("bin"),
    };
    let part = concat2(ext.as_str(), ".part");
    let total: u64 = match content_length {
        Some(h) => match parse_u64(h) {
            Some(n) => n,
            None => 0,
        },
        None => 0,
    };
    DownloadPlan {
        part_path: with_extension(dest_path, part.as_str()),
        total,
        directory: parent(dest_path),
    }
}

/// What follows a piece of a download.
#[derive(Debug)]
pub enum DownloadStep {
    /// All bytes have come: the partial file gets its name.
    Complete,
    /// So many bytes have come, and more are to be read.
    Continue(u64),
    /// The partial file is removed, with this answer.
    Cancelled(String),
}

/// What follows when `n` more bytes have been written, given whether the
/// download is still wanted after them.
pub fn after_piece(downloaded: u64, n: u64, wanted: bool) -> (r: DownloadStep)
    requires
        downloaded + n <= u64::MAX,
    ensures
        n == 0 <==> r is Complete,
        n > 0 && wanted ==> r == DownloadStep::Continue((downloaded + n) as u64),
        n > 0 && !wanted ==> r is Cancelled && r->Cancelled_0@ == DOWNLOAD_CANCELLED_ERROR@,
{
    if n == 0 {
        DownloadStep::Complete
    } else if wanted {
        DownloadStep::Continue(downloaded + n)
    } else {
        DownloadStep::Cancelled(owned(DOWNLOAD_CANCELLED_ERROR))
    }
}

/// A file and its partial file have different paths.
pub proof fn partial_file_is_another(dest: Seq<char>)
    requires
        file_name_of(dest) is Some,
    ensures
        partial_path(dest) != dest,
{
    reveal_strlit(".part");
    reveal_strlit("bin");
    let p = partial_path(dest);
    assert(p.last() == 't');
    if p == dest {
        let base = without_tail(dest);
        assert(base == dest);
        lemma_after_last(base, '/');
        let n = base.skip(after_last(base, '/'));
        lemma_after_last(n, '.');
        assert(p.len() > dest.len());
    }
}

/// A download is written to its own name with `.part` behind it, or `.bin.part`
/// where the name has no extension, in the same directory.
pub proof fn partial_file_lies_beside_its_download(dir: Seq<char>, stem: Seq<char>, ext: Seq<char>)
    requires
        stem.len() > 0,
        !stem.contains('/'),
        !ext.contains('/'),
        !ext.contains('.'),
        ext.len() > 0,
    ensures
        ({
            let dest = dir + seq!['/'] + (stem + seq!['.'] + ext);
            partial_path(dest) == dest + seq!['.', 'p', 'a', 'r', 't']
        }),
        !stem.contains('.') ==> partial_path(dir + seq!['/'] + stem) == dir + seq!['/'] + stem
            + seq!['.', 'b', 'i', 'n', '.', 'p', 'a', 'r', 't'],
{
    reveal_strlit(".part");
    reveal_strlit("bin");
    let name = stem + seq!['.'] + ext;
    let front = dir + seq!['/'];
    assert forall|i: int| 0 <= i < name.len() implies name[i] != '/' by {
        if i < stem.len() {
            assert(stem.contains(stem[i]));
        } else if i > stem.len() {
            assert(ext.contains(ext[i - stem.len() - 1]));
        }
    }
    assert(name.len() >= 3);
    assert(seq!['.'].len() == 1 && seq!['.', '.'].len() == 2);
    names_split_at_their_last_dot(stem, ext);
    lemma_base(dir, name);
    let dest = front + name;
    assert(partial_path(dest) =~= dest + seq!['.', 'p', 'a', 'r', 't']);
    if !stem.contains('.') {
        assert(stem[0] != '.') by {
            assert(stem.contains(stem[0]));
        }
        lemma_base(dir, stem);
        assert(partial_path(front + stem) =~= front + stem + seq![
            '.', 'b', 'i', 'n', '.', 'p', 'a', 'r', 't',
        ]);
    }
}

proof fn lemma_base(dir: Seq<char>, name: Seq<char>)
    requires
        is_name(name),
    ensures
        file_name_of(dir + seq!['/'] + name) == Some(name),
        without_tail(dir + seq!['/'] + name) == dir + seq!['/'] + name,
        after_last(dir + seq!['/'] + name, '/') == dir.len() + 1,
        (dir + seq!['/'] + name).take(dir.len() + 1int) == dir + seq!['/'],
{
    let front = dir + seq!['/'];
    let p = front + name;
    file_name_stands_behind_the_last_slash(dir, name);
    lemma_after_last(p, '/');
    let k = after_last(p, '/');
    assert(p[front.len() - 1] == '/');
    if k > front.len() {
        assert(p[k - 1] == name[k - 1 - front.len()]);
        assert(name.contains(name[k - 1 - front.len()]));
    }
    assert(name.contains(name.last()));
    assert(p.last() == name.last());
    if name.len() > 1 {
        assert(p[p.len() - 2] == name[name.len() - 2]);
        assert(name.contains(name[name.len() - 2]));
    } else {
        assert(name =~= seq![name[0]]);
    }
    assert(p.take(k) =~= front);
}

/// The length that is announced is the number in the header, or 0 if there is
/// none.
pub proof fn announced_length_is_read(n: u64)
    ensures
        announced_length(Some(decimal(n as nat))) == n,
        announced_length(None) == 0,
{
    parse_inverts_decimal(n as nat, u64::MAX as nat);
}

} // verus!
