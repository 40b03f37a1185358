//! Paths inside archives and FOMOD configurations.
use vstd::prelude::*;

use crate::nxm::{interspersed, interspersed_pieces_are_found};
use crate::paths::{
    components, extension, extension_of, is_name, parts_of, parts_of_pieces, PathPart,
    PathPartView,
};
use crate::text::{
    all_ascii, ascii_lower, ascii_lowercase, chars_of, first_index, has_prefix, index_from,
    is_ascii_char, is_ascii_upper, lemma_ascii_concat, lemma_first_index_is, lowercase, owned, replace_char, replaced, same, starts_with,
    string_between, to_ascii_lowercase, to_lowercase, trim_end_matches, trim_start_matches,
    trimmed_end, trimmed_start,
};

verus! {

/// The path with forward slashes only.
pub open spec fn with_slashes(p: Seq<char>) -> Seq<char> {
    replaced(p, '\\', '/')
}

/// The path with forward slashes, none of them at its start or its end.
pub open spec fn normalized(p: Seq<char>) -> Seq<char> {
    trimmed_end(trimmed_start(with_slashes(p), '/'), '/')
}

/// The path with forward slashes in lowercase.
pub open spec fn normalized_lowercase(p: Seq<char>) -> Seq<char> {
    lowercase(with_slashes(p))
}

/// Normalizes a path for filesystem operations.
///
/// - Converts backslashes to forward slashes
/// - Strips leading slashes
/// - Trims trailing slashes
pub fn normalize_path(p: &str) -> (r: String)
    ensures
        r@ == normalized(p@),
{
    let s = replace_char(p, '\\', '/');
    let s = trim_start_matches(s.as_str(), '/');
    trim_end_matches(s.as_str(), '/')
}

/// Normalizes a path to lowercase for case-insensitive comparison.
pub fn normalize_path_lowercase(path: &str) -> (r: String)
    ensures
        r@ == normalized_lowercase(path@),
{
    to_lowercase(replace_char(path, '\\', '/').as_str())
}

/// What stands behind the first `c`, if there is one.
pub open spec fn behind_first(s: Seq<char>, c: char) -> Seq<char> {
    if first_index(s, c) < s.len() {
        s.skip(first_index(s, c) + 1)
    } else {
        Seq::empty()
    }
}

/// The part of `s` behind the first `c`.
pub fn after_first(s: &str, c: char) -> (r: String)
    ensures
        r@ == behind_first(s@, c),
{
    let v = chars_of(s);
    let k = index_from(&v, c, 0);
    assert(v@.skip(0) =~= s@);
    if k < v.len() {
        let r = string_between(&v, k + 1, v.len());
        assert(r@ =~= s@.skip(k + 1));
        r
    } else {
        String::new()
    }
}

/// `s` without a leading `Data/`, where `lower` is `s` in lowercase.
pub open spec fn data_prefix_stripped(s: Seq<char>, lower: Seq<char>) -> Seq<char> {
    if lower == "data"@ || lower == "data/"@ {
        Seq::empty()
    } else if has_prefix(lower, "data/"@) {
        behind_first(s, '/')
    } else {
        s
    }
}

/// Strips a leading `Data/` from `s`, given `s` in lowercase.
pub fn strip_data_prefix_given(s: &str, lower: &str) -> (r: String)
    ensures
        r@ == data_prefix_stripped(s@, lower@),
{
    if same(lower, "data") || same(lower, "data/") {
        String::new()
    } else if starts_with(lower, "data/") {
        after_first(s, '/')
    } else {
        owned(s)
    }
}

/// Strips a leading `Data/` segment (case-insensitive) from a path.
///
/// FOMOD `destination` attributes are relative to the game root, and files are
/// extracted below `Data/` already: keeping the segment would nest it twice.
pub fn strip_data_prefix(s: &str) -> (r: String)
    ensures
        r@ == data_prefix_stripped(s@, lowercase(s@)),
{
    let lower = to_lowercase(s);
    strip_data_prefix_given(s, lower.as_str())
}

/// How many levels below its start a path leads.
pub open spec fn depth_of(parts: Seq<PathPartView>) -> int
    decreases parts.len(),
{
    if parts.len() == 0 {
        0
    } else {
        depth_of(parts.drop_last()) + match parts.last() {
            PathPartView::Normal(_) => 1int,
            PathPartView::Parent => -1,
            _ => 0,
        }
    }
}

/// The path is relative and at no point leads above its start.
pub open spec fn stays_below(parts: Seq<PathPartView>) -> bool {
    &&& forall|i: int| 0 <= i < parts.len() ==> #[trigger] parts[i] != PathPartView::Root
    &&& forall|k: int| 0 <= k <= parts.len() ==> depth_of(#[trigger] parts.take(k)) >= 0
}

/// Whether a path of forward slashes stays below the directory it is taken
/// relative to.
pub fn stays_inside(path: &str) -> (r: bool)
    ensures
        r == stays_below(parts_of(path@)),
{
    let parts = components(path);
    let ghost all = parts.deep_view();
    let mut depth: usize = 0;
    for i in 0..parts.len()
        invariant
            all == parts.deep_view(),
            all == parts_of(path@),
            depth <= i,
            depth == depth_of(all.take(i as int)),
            forall|j: int| 0 <= j < i ==> #[trigger] all[j] != PathPartView::Root,
            forall|k: int| 0 <= k <= i ==> depth_of(#[trigger] all.take(k)) >= 0,
    {
        let ghost t = all.take(i + 1);
        proof {
            assert(t.drop_last() =~= all.take(i as int));
            assert(t.last() == parts@[i as int].deep_view());
            assert(all[i as int] == parts@[i as int].deep_view());
        }
        match &parts[i] {
            PathPart::Parent => {
                if depth == 0 {
                    assert(depth_of(t) < 0);
                    return false;
                }
                depth -= 1;
            },
            PathPart::Normal(_) => {
                depth += 1;
            },
            PathPart::Root => {
                return false;
            },
            PathPart::Current => {},
        }
    }
    true
}

/// Checks that a relative path does not lead above the directory it is taken
/// relative to.
pub fn is_safe_relative_path(path: &str) -> (r: bool)
    ensures
        r == stays_below(parts_of(with_slashes(path@))),
{
    stays_inside(replace_char(path, '\\', '/').as_str())
}

/// The extension of the path is `ext`, whatever the case of its letters.
pub open spec fn extension_is(path: Seq<char>, ext: Seq<char>) -> bool {
    match extension_of(path) {
        Some(e) => ascii_lowercase(e) == ext,
        None => false,
    }
}

fn has_extension(path: &str, ext: &str) -> (r: bool)
    ensures
        r == extension_is(path@, ext@),
{
    match extension(path) {
        Some(e) => same(to_ascii_lowercase(e.as_str()).as_str(), ext),
        None => false,
    }
}

/// Whether the path names a zip archive.
pub fn has_zip_extension(path: &str) -> (r: bool)
    ensures
        r == extension_is(path@, "zip"@),
{
    has_extension(path, "zip")
}

/// Whether the path names a rar archive.
pub fn has_rar_extension(path: &str) -> (r: bool)
    ensures
        r == extension_is(path@, "rar"@),
{
    has_extension(path, "rar")
}

// ── Laws ────────────────────────────────────────────────────────────────────

proof fn lemma_trimmed_start(s: Seq<char>, c: char)
    ensures
        trimmed_start(s, c).len() > 0 ==> trimmed_start(s, c)[0] != c,
        trimmed_start(s, c).len() <= s.len(),
        exists|k: int| 0 <= k <= s.len() && trimmed_start(s, c) == s.skip(k),
    decreases s.len(),
{
    if s.len() > 0 && s[0] == c {
        lemma_trimmed_start(s.skip(1), c);
        let k = choose|k: int| 0 <= k <= s.skip(1).len() && trimmed_start(s, c) == s.skip(1).skip(k);
        assert(s.skip(1).skip(k) =~= s.skip(k + 1));
    } else {
        assert(s.skip(0) =~= s);
    }
}

proof fn lemma_trimmed_end(s: Seq<char>, c: char)
    ensures
        trimmed_end(s, c).len() > 0 ==> trimmed_end(s, c).last() != c,
        exists|k: int| 0 <= k <= s.len() && trimmed_end(s, c) == s.take(k),
    decreases s.len(),
{
    if s.len() > 0 && s.last() == c {
        lemma_trimmed_end(s.drop_last(), c);
        let k = choose|k: int|
            0 <= k <= s.drop_last().len() && trimmed_end(s, c) == s.drop_last().take(k);
        assert(s.drop_last().take(k) =~= s.take(k));
    } else {
        assert(s.take(s.len() as int) =~= s);
    }
}

/// A normalized path has no backslash and neither starts nor ends in a slash.
pub proof fn normalized_has_clean_ends(p: Seq<char>)
    ensures
        !normalized(p).contains('\\'),
        normalized(p).len() > 0 ==> normalized(p)[0] != '/' && normalized(p).last() != '/',
{
    let a = with_slashes(p);
    let b = trimmed_start(a, '/');
    let n = trimmed_end(b, '/');
    lemma_trimmed_start(a, '/');
    lemma_trimmed_end(b, '/');
    let i = choose|k: int| 0 <= k <= a.len() && b == a.skip(k);
    let j = choose|k: int| 0 <= k <= b.len() && n == b.take(k);
    assert forall|m: int| 0 <= m < n.len() implies n[m] != '\\' by {
        assert(n[m] == a[m + i]);
    }
}

/// Normalizing a path a second time changes nothing.
pub proof fn normalizing_is_idempotent(p: Seq<char>)
    ensures
        normalized(normalized(p)) == normalized(p),
{
    let n = normalized(p);
    normalized_has_clean_ends(p);
    assert forall|m: int| 0 <= m < n.len() implies with_slashes(n)[m] == n[m] by {
        assert(n.contains(n[m]));
    }
    assert(with_slashes(n) =~= n);
}

/// Either kind of slash gives the same lowercase form of a path.
pub proof fn lowercase_form_ignores_the_kind_of_slash(p: Seq<char>)
    ensures
        normalized_lowercase(with_slashes(p)) == normalized_lowercase(p),
{
    assert(with_slashes(with_slashes(p)) =~= with_slashes(p));
}

/// The lowercase form of an ASCII path, character by character.
proof fn lemma_lowercase_form(p: Seq<char>)
    requires
        all_ascii(p),
    ensures
        all_ascii(with_slashes(p)),
        normalized_lowercase(p).len() == p.len(),
        forall|i: int|
            0 <= i < p.len() ==> #[trigger] normalized_lowercase(p)[i] == if p[i] == '\\' {
                '/'
            } else {
                ascii_lower(p[i])
            },
{
    let s = with_slashes(p);
    assert forall|i: int| 0 <= i < s.len() implies is_ascii_char(#[trigger] s[i]) by {
        assert(is_ascii_char(p[i]));
    }
}

/// The lowercase form of an ASCII path has no backslash and no capital, keeps
/// the places of its slashes, also at the start and at the end, and is its own
/// lowercase form.
pub proof fn lowercase_form_is_canonical(p: Seq<char>)
    requires
        all_ascii(p),
    ensures
        !normalized_lowercase(p).contains('\\'),
        normalized_lowercase(p).len() == p.len(),
        forall|i: int|
            0 <= i < p.len() ==> !is_ascii_upper(#[trigger] normalized_lowercase(p)[i]) && (
            normalized_lowercase(p)[i] == '/' <==> p[i] == '/' || p[i] == '\\'),
        normalized_lowercase(normalized_lowercase(p)) == normalized_lowercase(p),
{
    let r = normalized_lowercase(p);
    lemma_lowercase_form(p);
    assert forall|i: int| 0 <= i < r.len() implies is_ascii_char(#[trigger] r[i]) && r[i] != '\\'
        && !is_ascii_upper(r[i]) by {
        assert(is_ascii_char(p[i]));
    }
    lemma_lowercase_form(r);
    assert(normalized_lowercase(r) =~= r);
}

/// ASCII paths that differ only in case or in the kind of their slashes have the
/// same lowercase form.
pub proof fn lowercase_form_ignores_case(p: Seq<char>, q: Seq<char>)
    requires
        all_ascii(p),
        all_ascii(q),
        ascii_lowercase(with_slashes(p)) == ascii_lowercase(with_slashes(q)) || ascii_lowercase(p)
            == ascii_lowercase(q),
    ensures
        normalized_lowercase(p) == normalized_lowercase(q),
{
    lemma_lowercase_form(p);
    lemma_lowercase_form(q);
    if ascii_lowercase(p) == ascii_lowercase(q) {
        assert(p.len() == ascii_lowercase(p).len() && q.len() == ascii_lowercase(q).len());
        assert forall|i: int| 0 <= i < p.len() implies normalized_lowercase(p)[i]
            == normalized_lowercase(q)[i] by {
            assert(ascii_lowercase(p)[i] == ascii_lower(p[i]));
            assert(ascii_lowercase(q)[i] == ascii_lower(q[i]));
            assert(is_ascii_char(p[i]) && is_ascii_char(q[i]));
        }
        assert(normalized_lowercase(p) =~= normalized_lowercase(q));
    }
}

/// The path holds forward slashes only, none of them at its start or its end.
pub open spec fn is_clean(path: Seq<char>) -> bool {
    !path.contains('\\') && (path.len() > 0 ==> path[0] != '/' && path.last() != '/')
}

/// From the character `f` on, `s` writes the path with slashes of either kind;
/// what stands before and behind it is slashes.
pub open spec fn spelled_from(s: Seq<char>, path: Seq<char>, f: int) -> bool {
    &&& 0 <= f
    &&& f + path.len() <= s.len()
    &&& forall|i: int|
        0 <= i < s.len() && !(f <= i < f + path.len()) ==> #[trigger] s[i] == '/' || s[i] == '\\'
    &&& forall|i: int|
        f <= i < f + path.len() ==> #[trigger] s[i] == path[i - f] || (s[i] == '\\' && path[i - f]
            == '/')
}

/// `s` writes the path, with slashes of either kind and any number of them in
/// front of it and behind it.
pub open spec fn spells(s: Seq<char>, path: Seq<char>) -> bool {
    exists|f: int| spelled_from(s, path, f)
}

proof fn lemma_trimmed_start_is(s: Seq<char>, c: char, n: int)
    requires
        0 <= n <= s.len(),
        forall|i: int| 0 <= i < n ==> #[trigger] s[i] == c,
        n < s.len() ==> s[n] != c,
    ensures
        trimmed_start(s, c) == s.skip(n),
    decreases n,
{
    if n > 0 {
        lemma_trimmed_start_is(s.skip(1), c, n - 1);
        assert(s.skip(1).skip(n - 1) =~= s.skip(n));
    } else {
        assert(s.skip(0) =~= s);
    }
}

proof fn lemma_trimmed_end_is(s: Seq<char>, c: char, n: int)
    requires
        0 <= n <= s.len(),
        forall|i: int| n <= i < s.len() ==> #[trigger] s[i] == c,
        n > 0 ==> s[n - 1] != c,
    ensures
        trimmed_end(s, c) == s.take(n),
    decreases s.len() - n,
{
    if n < s.len() {
        lemma_trimmed_end_is(s.drop_last(), c, n);
        assert(s.drop_last().take(n) =~= s.take(n));
    } else {
        assert(s.take(n) =~= s);
    }
}

/// However a path is spelled, normalizing it gives the path.
pub proof fn spelling_does_not_matter(s: Seq<char>, path: Seq<char>)
    requires
        is_clean(path),
        spells(s, path),
    ensures
        normalized(s) == path,
{
    let f = choose|f: int| spelled_from(s, path, f);
    let a = with_slashes(s);
    assert forall|i: int| 0 <= i < a.len() && !(f <= i < f + path.len()) implies #[trigger] a[i]
        == '/' by {
        assert(s[i] == '/' || s[i] == '\\');
    }
    assert forall|i: int| f <= i < f + path.len() implies #[trigger] a[i] == path[i - f] by {
        assert(s[i] == path[i - f] || (s[i] == '\\' && path[i - f] == '/'));
        assert(path.contains(path[i - f]));
    }
    if path.len() == 0 {
        lemma_trimmed_start_is(a, '/', a.len() as int);
        assert(trimmed_start(a, '/') =~= Seq::<char>::empty());
        assert(normalized(s) =~= path);
    } else {
        assert(a[f] == path[0]);
        lemma_trimmed_start_is(a, '/', f);
        let b = a.skip(f);
        assert forall|i: int| path.len() <= i < b.len() implies #[trigger] b[i] == '/' by {
            assert(a[i + f] == '/');
        }
        assert(b[path.len() - 1] == a[f + path.len() - 1]);
        lemma_trimmed_end_is(b, '/', path.len() as int);
        assert(b.take(path.len() as int) =~= path) by {
            assert forall|i: int| 0 <= i < path.len() implies b.take(path.len() as int)[i]
                == path[i] by {
                assert(a[i + f] == path[i]);
            }
        }
    }
}

/// Every text spells the path that normalizing it gives.
pub proof fn paths_spell_what_they_normalize_to(s: Seq<char>)
    ensures
        is_clean(normalized(s)),
        spells(s, normalized(s)),
{
    normalized_has_clean_ends(s);
    let a = with_slashes(s);
    let front = lemma_run_in_front(a);
    lemma_trimmed_start_is(a, '/', front);
    let b = a.skip(front);
    let len = lemma_run_behind(b);
    lemma_trimmed_end_is(b, '/', len);
    let path = b.take(len);
    assert(normalized(s) == path);
    assert forall|i: int| 0 <= i < s.len() && !(front <= i < front + path.len()) implies (
    #[trigger] s[i] == '/' || s[i] == '\\') by {
        if i < front {
            assert(a[i] == '/');
        } else {
            assert(b[i - front] == '/');
            assert(a[i] == '/');
        }
    }
    assert forall|i: int| front <= i < front + path.len() implies (#[trigger] s[i] == path[i - front]
        || (s[i] == '\\' && path[i - front] == '/')) by {
        assert(path[i - front] == a[i]);
    }
    assert(spelled_from(s, path, front));
}

/// How many slashes stand in front.
proof fn lemma_run_in_front(s: Seq<char>) -> (n: int)
    ensures
        0 <= n <= s.len(),
        forall|i: int| 0 <= i < n ==> #[trigger] s[i] == '/',
        n < s.len() ==> s[n] != '/',
    decreases s.len(),
{
    if s.len() > 0 && s[0] == '/' {
        let rest = s.skip(1);
        let n = lemma_run_in_front(rest);
        assert forall|i: int| 0 <= i < n + 1 implies #[trigger] s[i] == '/' by {
            if i > 0 {
                assert(rest[i - 1] == '/');
            }
        }
        assert(n < rest.len() ==> rest[n] == s[n + 1]);
        n + 1
    } else {
        0
    }
}

/// Where the slashes at the end start.
proof fn lemma_run_behind(s: Seq<char>) -> (n: int)
    ensures
        0 <= n <= s.len(),
        forall|i: int| n <= i < s.len() ==> #[trigger] s[i] == '/',
        n > 0 ==> s[n - 1] != '/',
    decreases s.len(),
{
    if s.len() > 0 && s.last() == '/' {
        let n = lemma_run_behind(s.drop_last());
        assert forall|i: int| n <= i < s.len() implies #[trigger] s[i] == '/' by {
            if i < s.len() - 1 {
                assert(s.drop_last()[i] == '/');
            }
        }
        n
    } else {
        s.len() as int
    }
}

/// The name is `data`, whatever the case of its letters.
pub open spec fn is_data_name(name: Seq<char>) -> bool {
    ascii_lowercase(name) == seq!['d', 'a', 't', 'a']
}

/// The path is the data directory or leads below it.
pub open spec fn is_in_data(path: Seq<char>) -> bool {
    is_data_name(path) || (path.len() > 4 && path[4] == '/' && is_data_name(path.take(4)))
}

/// A leading data directory is dropped, in whatever case it is written; a path
/// that has none stays as it is.
pub proof fn leading_data_is_dropped(data: Seq<char>, rest: Seq<char>)
    requires
        all_ascii(rest),
        is_data_name(data),
    ensures
        data_prefix_stripped(data, lowercase(data)) == Seq::<char>::empty(),
        ({
            let path = data + seq!['/'] + rest;
            data_prefix_stripped(path, lowercase(path)) == rest
        }),
        !is_in_data(rest) ==> data_prefix_stripped(rest, lowercase(rest)) == rest,
{
    reveal_strlit("data");
    reveal_strlit("data/");
    let name = seq!['d', 'a', 't', 'a'];
    assert("data"@ =~= name);
    assert("data/"@ =~= name + seq!['/']);
    assert(data.len() == ascii_lowercase(data).len());
    assert forall|i: int| 0 <= i < data.len() implies is_ascii_char(#[trigger] data[i]) && data[i]
        != '/' by {
        assert(ascii_lowercase(data)[i] == ascii_lower(data[i]));
        assert(ascii_lowercase(data)[i] == name[i]);
    }
    let slash = seq!['/'];
    assert(all_ascii(slash));
    assert(ascii_lowercase(slash) =~= slash);
    lemma_ascii_concat(data, slash);
    lemma_ascii_concat(data + slash, rest);
    let path = data + slash + rest;
    let lower = lowercase(path);
    assert(lower == name + slash + ascii_lowercase(rest));
    assert(lower.subrange(0, 5) =~= name + slash);
    lemma_first_index_is(path, '/', 4);
    assert(path.skip(5) =~= rest);
    assert(lower != "data"@) by {
        assert(lower.len() >= 5);
    }
    if rest.len() == 0 {
        assert(rest =~= Seq::<char>::empty());
    }
    if !is_in_data(rest) {
        let low = lowercase(rest);
        assert(low == ascii_lowercase(rest));
        if has_prefix(low, "data/"@) {
            assert(low.subrange(0, 5)[4] == low[4]);
            assert(low[4] == '/');
            assert(low[4] == ascii_lower(rest[4]));
            assert(ascii_lowercase(rest.take(4)) =~= name) by {
                assert forall|i: int| 0 <= i < 4 implies ascii_lowercase(rest.take(4))[i] == name[i] by {
                    assert(low.subrange(0, 5)[i] == low[i]);
                    assert(low[i] == ascii_lower(rest[i]));
                }
            }
        }
        if low == "data/"@ {
            assert(low.subrange(0, 5) =~= low);
        }
    }
}

proof fn lemma_depth_at(
    a: Seq<Seq<char>>,
    m: nat,
    b: Seq<Seq<char>>,
    parts: Seq<PathPartView>,
    k: int,
)
    requires
        parts == a.map_values(|n: Seq<char>| PathPartView::Normal(n)) + Seq::new(
            m,
            |i: int| PathPartView::Parent,
        ) + b.map_values(|n: Seq<char>| PathPartView::Normal(n)),
        0 <= k <= parts.len(),
    ensures
        depth_of(parts.take(k)) == if k <= a.len() {
            k
        } else if k <= a.len() + m {
            2 * a.len() - k
        } else {
            k - 2 * m
        },
    decreases k,
{
    if k > 0 {
        lemma_depth_at(a, m, b, parts, k - 1);
        assert(parts.take(k).drop_last() =~= parts.take(k - 1));
        assert(parts.take(k).last() == parts[k - 1]);
    }
}

proof fn lemma_parts_of_steps(steps: Seq<Seq<char>>)
    requires
        forall|i: int| 0 <= i < steps.len() ==> is_name(#[trigger] steps[i]) || steps[i] == seq!['.', '.'],
    ensures
        parts_of_pieces(steps) == steps.map_values(
            |n: Seq<char>|
                if n == seq!['.', '.'] {
                    PathPartView::Parent
                } else {
                    PathPartView::Normal(n)
                },
        ),
    decreases steps.len(),
{
    let f = |n: Seq<char>|
        if n == seq!['.', '.'] {
            PathPartView::Parent
        } else {
            PathPartView::Normal(n)
        };
    if steps.len() > 0 {
        let rest = steps.drop_last();
        assert forall|i: int| 0 <= i < rest.len() implies is_name(#[trigger] rest[i]) || rest[i]
            == seq!['.', '.'] by {
            assert(rest[i] == steps[i]);
        }
        lemma_parts_of_steps(rest);
        let last = steps[steps.len() - 1];
        assert(is_name(last) || last == seq!['.', '.']);
        assert(seq!['.', '.'].len() == 2 && seq!['.'].len() == 1);
        assert(steps.map_values(f) =~= rest.map_values(f).push(f(steps.last())));
    } else {
        assert(parts_of_pieces(steps) =~= steps.map_values(f));
    }
}

/// A path that goes down through the names `a`, up `up` times and down again
/// through the names `b` stays below its start if it goes up no more often than
/// it went down; with a slash in front it never does.
pub proof fn paths_stay_below_that_climb_no_higher(a: Seq<Seq<char>>, up: nat, b: Seq<Seq<char>>)
    requires
        forall|i: int| 0 <= i < a.len() ==> is_name(#[trigger] a[i]),
        forall|i: int| 0 <= i < b.len() ==> is_name(#[trigger] b[i]),
        a.len() + up + b.len() > 0,
    ensures
        ({
            let steps = a + Seq::new(up, |i: int| seq!['.', '.']) + b;
            let path = interspersed(steps, '/');
            &&& stays_below(parts_of(path)) <==> up <= a.len()
            &&& !stays_below(parts_of(seq!['/'] + path))
        }),
{
    let ups = Seq::new(up, |i: int| seq!['.', '.']);
    let steps = a + ups + b;
    let path = interspersed(steps, '/');
    assert forall|i: int| 0 <= i < steps.len() implies (is_name(#[trigger] steps[i]) || steps[i]
        == seq!['.', '.']) && !steps[i].contains('/') && steps[i].len() > 0 by {
        if i < a.len() {
            assert(steps[i] == a[i]);
        } else if i < a.len() + up {
            assert(steps[i] == ups[i - a.len()]);
            assert(!seq!['.', '.'].contains('/'));
        } else {
            assert(steps[i] == b[i - a.len() - up]);
        }
    }
    interspersed_pieces_are_found(steps, '/');
    lemma_parts_of_steps(steps);
    lemma_steps_start(steps);
    let parts = parts_of(path);
    let g = |n: Seq<char>| PathPartView::Normal(n);
    let made = a.map_values(g) + Seq::new(up, |i: int| PathPartView::Parent) + b.map_values(g);
    assert(parts =~= made) by {
        assert forall|i: int| 0 <= i < parts.len() implies parts[i] == made[i] by {
            if i < a.len() {
                assert(steps[i] == a[i] && is_name(a[i]));
            } else if i < a.len() + up {
                assert(steps[i] == ups[i - a.len()]);
            } else {
                assert(steps[i] == b[i - a.len() - up] && is_name(b[i - a.len() - up]));
            }
        }
    }
    assert forall|k: int| 0 <= k <= parts.len() && up <= a.len() implies depth_of(
        #[trigger] parts.take(k),
    ) >= 0 by {
        lemma_depth_at(a, up, b, parts, k);
    }
    assert forall|i: int| 0 <= i < parts.len() implies #[trigger] parts[i] != PathPartView::Root by {
        assert(parts[i] == made[i]);
    }
    if up > a.len() {
        lemma_depth_at(a, up, b, parts, (a.len() + up) as int);
        assert(depth_of(parts.take((a.len() + up) as int)) < 0);
    }
    assert(parts_of(seq!['/'] + path)[0] == PathPartView::Root);
}

proof fn lemma_steps_start(steps: Seq<Seq<char>>)
    requires
        steps.len() > 0,
        forall|i: int| 0 <= i < steps.len() ==> (#[trigger] steps[i]).len() > 0 && !steps[i].contains('/'),
    ensures
        interspersed(steps, '/').len() > 0,
        interspersed(steps, '/')[0] == steps[0][0],
        steps[0][0] != '/',
    decreases steps.len(),
{
    assert(steps[0].contains(steps[0][0]));
    if steps.len() > 1 {
        let rest = steps.drop_last();
        assert forall|i: int| 0 <= i < rest.len() implies (#[trigger] rest[i]).len() > 0
            && !rest[i].contains('/') by {
            assert(rest[i] == steps[i]);
        }
        lemma_steps_start(rest);
        let s = interspersed(rest, '/').push('/') + steps.last();
        assert(s[0] == interspersed(rest, '/')[0]);
        assert(rest[0] == steps[0]);
    }
}

} // verus!
