//! Slash-separated paths as text: joining, file names, components, order.
use vstd::prelude::*;

use crate::nxm::{interspersed, interspersed_pieces_are_found};
use crate::text::{
    after_last, chars_of, concat2, concat3, lemma_after_last, lemma_precedes_total,
    lemma_precedes_transitive, less, owned, pieces, precedes, same, split, string_between,
};

verus! {

// ── Joining ─────────────────────────────────────────────────────────────────

/// `a` with `b` below it: an absolute `b` replaces `a`, and a slash is put
/// between them unless `a` is empty or ends in one.
pub open spec fn joined(a: Seq<char>, b: Seq<char>) -> Seq<char> {
    if b.len() > 0 && b[0] == '/' {
        b
    } else if a.len() == 0 || a.last() == '/' {
        a + b
    } else {
        a + seq!['/'] + b
    }
}

/// Appends a path to another.
pub fn join(a: &str, b: &str) -> (r: String)
    ensures
        r@ == joined(a@, b@),
{
    let x = chars_of(a);
    let y = chars_of(b);
    if y.len() > 0 && y[0] == '/' {
        owned(b)
    } else if x.len() == 0 || x[x.len() - 1] == '/' {
        concat2(a, b)
    } else {
        proof {
            reveal_strlit("/");
            assert("/"@ =~= seq!['/']);
        }
        concat3(a, "/", b)
    }
}

// ── File names ──────────────────────────────────────────────────────────────

/// The path without the slashes and the `/.` at its end.
pub open spec fn without_tail(p: Seq<char>) -> Seq<char>
    decreases p.len(),
{
    if p.len() > 1 && p.last() == '/' {
        without_tail(p.drop_last())
    } else if p.len() > 1 && p.last() == '.' && p[p.len() - 2] == '/' {
        without_tail(p.drop_last())
    } else {
        p
    }
}

/// What stands behind the last slash of `without_tail(p)`.
pub open spec fn last_piece(p: Seq<char>) -> Seq<char> {
    let base = without_tail(p);
    base.skip(after_last(base, '/'))
}

/// The file name that a path ends in, if it ends in one.
pub open spec fn file_name_of(p: Seq<char>) -> Option<Seq<char>> {
    let n = last_piece(p);
    if n.len() == 0 || n == seq!['.'] || n == seq!['.', '.'] {
        None
    } else {
        Some(n)
    }
}

/// The file name without its extension.
pub open spec fn stem_of(name: Seq<char>) -> Seq<char> {
    if after_last(name, '.') <= 1 {
        name
    } else {
        name.take(after_last(name, '.') - 1)
    }
}

/// What follows the last dot of a file name; a dot in front starts none.
pub open spec fn name_extension(name: Seq<char>) -> Option<Seq<char>> {
    if after_last(name, '.') <= 1 {
        None
    } else {
        Some(name.skip(after_last(name, '.')))
    }
}

/// The extension of the file name of a path.
pub open spec fn extension_of(p: Seq<char>) -> Option<Seq<char>> {
    match file_name_of(p) {
        Some(n) => name_extension(n),
        None => None,
    }
}

/// The path with the extension of its file name replaced, or put there.
pub open spec fn extension_replaced(p: Seq<char>, ext: Seq<char>) -> Seq<char> {
    match file_name_of(p) {
        Some(n) => {
            let base = without_tail(p);
            let head = base.take(after_last(base, '/')) + stem_of(n);
            if ext.len() == 0 {
                head
            } else {
                head + seq!['.'] + ext
            }
        },
        None => p,
    }
}

/// One past the index of the last `c` among the first `n` characters of `v`.
fn after_last_of(v: &Vec<char>, from: usize, n: usize, c: char) -> (r: usize)
    requires
        from <= n <= v@.len(),
    ensures
        r - from == after_last(v@.subrange(from as int, n as int), c),
        from <= r <= n,
{
    let ghost t = v@.subrange(from as int, n as int);
    let mut k: usize = n;
    assert(t.take(k - from) =~= t);
    while k > from && v[k - 1] != c
        invariant
            from <= k <= n <= v@.len(),
            t == v@.subrange(from as int, n as int),
            after_last(t, c) == after_last(t.take(k - from), c),
        decreases k,
    {
        assert(t.take(k - from).drop_last() =~= t.take(k - from - 1));
        assert(t.take(k - from).last() == v@[k - 1]);
        k -= 1;
    }
    assert(k > from ==> t.take(k - from).last() == v@[k - 1]);
    k
}

/// Where the file name of `v` starts and ends.
fn name_bounds(v: &Vec<char>) -> (r: (usize, usize))
    ensures
        r.0 <= r.1 <= v@.len(),
        v@.take(r.1 as int) == without_tail(v@),
        r.0 == after_last(without_tail(v@), '/'),
        v@.subrange(r.0 as int, r.1 as int) == last_piece(v@),
{
    let mut n: usize = v.len();
    assert(v@.take(n as int) =~= v@);
    while n > 1 && (v[n - 1] == '/' || (v[n - 1] == '.' && v[n - 2] == '/'))
        invariant
            n <= v@.len(),
            without_tail(v@) == without_tail(v@.take(n as int)),
        decreases n,
    {
        assert(v@.take(n as int).drop_last() =~= v@.take(n - 1));
        n -= 1;
    }
    let start = after_last_of(v, 0, n, '/');
    proof {
        assert(v@.subrange(0, n as int) =~= v@.take(n as int));
        assert(v@.subrange(start as int, n as int) =~= v@.take(n as int).skip(start as int));
    }
    (start, n)
}

/// The file name of a path.
pub fn file_name(p: &str) -> (r: Option<String>)
    ensures
        r.deep_view() == file_name_of(p@),
{
    let v = chars_of(p);
    let (start, end) = name_bounds(&v);
    let name = string_between(&v, start, end);
    proof {
        reveal_strlit(".");
        reveal_strlit("..");
        assert("."@ =~= seq!['.']);
        assert(".."@ =~= seq!['.', '.']);
    }
    if start == end || same(name.as_str(), ".") || same(name.as_str(), "..") {
        None
    } else {
        Some(name)
    }
}

/// The path that a path lies below, if it is not the root or empty.
pub open spec fn parent_of(p: Seq<char>) -> Option<Seq<char>> {
    let base = without_tail(p);
    if base.len() == 0 || base == seq!['/'] {
        None
    } else {
        Some(without_tail(base.take(after_last(base, '/'))))
    }
}

/// The path that a path lies below.
pub fn parent(p: &str) -> (r: Option<String>)
    ensures
        r.deep_view() == parent_of(p@),
{
    let v = chars_of(p);
    let (start, end) = name_bounds(&v);
    if end == 0 || (end == 1 && v[0] == '/') {
        assert(end == 1 ==> v@.take(1) =~= seq!['/']);
        return None;
    }
    proof {
        assert(v@.take(end as int).len() == end);
        assert(v@.take(end as int)[0] == v@[0]);
        assert(seq!['/'][0] == '/');
    }
    let front = string_between(&v, 0, start);
    let w = chars_of(front.as_str());
    assert(w@ =~= v@.take(end as int).take(start as int));
    let (_, n) = name_bounds(&w);
    let r = string_between(&w, 0, n);
    assert(r@ =~= w@.take(n as int));
    Some(r)
}

/// The file name of a path without its extension.
pub fn file_stem(p: &str) -> (r: Option<String>)
    ensures
        r.deep_view() == match file_name_of(p@) {
            Some(n) => Some(stem_of(n)),
            None => None,
        },
{
    match file_name(p) {
        Some(name) => Some(stem(name.as_str())),
        None => None,
    }
}

/// A file name without its extension.
fn stem(name: &str) -> (r: String)
    ensures
        r@ == stem_of(name@),
{
    let v = chars_of(name);
    let k = after_last_of(&v, 0, v.len(), '.');
    assert(v@.subrange(0, v@.len() as int) =~= v@);
    if k <= 1 {
        owned(name)
    } else {
        let r = string_between(&v, 0, k - 1);
        assert(r@ =~= name@.take(k - 1));
        r
    }
}

/// The extension of a path.
pub fn extension(p: &str) -> (r: Option<String>)
    ensures
        r.deep_view() == extension_of(p@),
{
    match file_name(p) {
        Some(name) => {
            let v = chars_of(name.as_str());
            let k = after_last_of(&v, 0, v.len(), '.');
            assert(v@.subrange(0, v@.len() as int) =~= v@);
            if k <= 1 {
                None
            } else {
                let r = string_between(&v, k, v.len());
                assert(r@ =~= name@.skip(k as int));
                Some(r)
            }
        },
        None => None,
    }
}

/// The path with another extension.
pub fn with_extension(p: &str, ext: &str) -> (r: String)
    ensures
        r@ == extension_replaced(p@, ext@),
{
    match file_name(p) {
        Some(name) => {
            let v = chars_of(p);
            let (start, end) = name_bounds(&v);
            let head = string_between(&v, 0, start);
            proof {
                lemma_after_last(without_tail(p@), '/');
                assert(head@ =~= without_tail(p@).take(start as int));
                reveal_strlit(".");
                assert("."@ =~= seq!['.']);
            }
            let base = concat2(head.as_str(), stem(name.as_str()).as_str());
            if ext.is_empty() {
                base
            } else {
                concat3(base.as_str(), ".", ext)
            }
        },
        None => owned(p),
    }
}

// ── Components ──────────────────────────────────────────────────────────────

/// A component of a path.
#[derive(Debug)]
pub enum PathPart {
    Root,
    Current,
    Parent,
    Normal(String),
}

#[verifier::ext_equal]
pub ghost enum PathPartView {
    Root,
    Current,
    Parent,
    Normal(Seq<char>),
}

impl DeepView for PathPart {
    type V = PathPartView;

    open spec fn deep_view(&self) -> PathPartView {
        match self {
            PathPart::Root => PathPartView::Root,
            PathPart::Current => PathPartView::Current,
            PathPart::Parent => PathPartView::Parent,
            PathPart::Normal(s) => PathPartView::Normal(s@),
        }
    }
}

/// The components that the pieces between slashes stand for: empty pieces and
/// dots count for nothing, except a dot in front.
pub open spec fn parts_of_pieces(ps: Seq<Seq<char>>) -> Seq<PathPartView>
    decreases ps.len(),
{
    if ps.len() == 0 {
        Seq::empty()
    } else {
        let before = parts_of_pieces(ps.drop_last());
        let p = ps.last();
        if p.len() == 0 {
            before
        } else if p == seq!['.'] {
            if ps.len() == 1 {
                before.push(PathPartView::Current)
            } else {
                before
            }
        } else if p == seq!['.', '.'] {
            before.push(PathPartView::Parent)
        } else {
            before.push(PathPartView::Normal(p))
        }
    }
}

/// The components of a path.
pub open spec fn parts_of(p: Seq<char>) -> Seq<PathPartView> {
    if p.len() > 0 && p[0] == '/' {
        seq![PathPartView::Root] + parts_of_pieces(pieces(p, '/'))
    } else {
        parts_of_pieces(pieces(p, '/'))
    }
}

/// The components of a path.
pub fn components(p: &str) -> (r: Vec<PathPart>)
    ensures
        r.deep_view() == parts_of(p@),
{
    let v = chars_of(p);
    let ps = split(p, '/');
    let ghost all = ps.deep_view();
    let mut r: Vec<PathPart> = Vec::new();
    if v.len() > 0 && v[0] == '/' {
        r.push(PathPart::Root);
    }
    let ghost root = r.deep_view();
    proof {
        reveal_strlit(".");
        reveal_strlit("..");
        assert("."@ =~= seq!['.']);
        assert(".."@ =~= seq!['.', '.']);
        assert(root + parts_of_pieces(all.take(0)) =~= root);
    }
    for i in 0..ps.len()
        invariant
            all == ps.deep_view(),
            "."@ == seq!['.'],
            ".."@ == seq!['.', '.'],
            r.deep_view() == root + parts_of_pieces(all.take(i as int)),
    {
        let piece = &ps[i];
        let ghost before = r.deep_view();
        let ghost t = all.take(i + 1);
        assert(t.drop_last() =~= all.take(i as int));
        assert(t.last() == piece@);
        if piece.as_str().is_empty() {
        } else if same(piece.as_str(), ".") {
            if i == 0 {
                r.push(PathPart::Current);
                assert(r.deep_view() =~= before.push(PathPartView::Current));
            }
        } else if same(piece.as_str(), "..") {
            r.push(PathPart::Parent);
            assert(r.deep_view() =~= before.push(PathPartView::Parent));
        } else {
            r.push(PathPart::Normal(piece.clone()));
            assert(r.deep_view() =~= before.push(PathPartView::Normal(piece@)));
        }
        assert(r.deep_view() =~= root + parts_of_pieces(t));
    }
    proof {
        assert(all.take(all.len() as int) =~= all);
        if v@.len() > 0 && v@[0] == '/' {
            assert(root =~= seq![PathPartView::Root]);
            assert(r.deep_view() =~= parts_of(p@));
        } else {
            assert(root =~= Seq::<PathPartView>::empty());
            assert(r.deep_view() =~= parts_of(p@));
        }
    }
    r
}

// ── Order ───────────────────────────────────────────────────────────────────

/// Components of one kind come before those of the next; normal ones go by
/// their text.
pub open spec fn part_rank(p: PathPartView) -> int {
    match p {
        PathPartView::Root => 0,
        PathPartView::Current => 1,
        PathPartView::Parent => 2,
        PathPartView::Normal(_) => 3,
    }
}

pub open spec fn part_precedes(a: PathPartView, b: PathPartView) -> bool {
    ||| part_rank(a) < part_rank(b)
    ||| match (a, b) {
        (PathPartView::Normal(x), PathPartView::Normal(y)) => precedes(x, y),
        _ => false,
    }
}

/// Paths compare component by component.
pub open spec fn parts_precede(a: Seq<PathPartView>, b: Seq<PathPartView>) -> bool
    decreases a.len(),
{
    if b.len() == 0 {
        false
    } else if a.len() == 0 {
        true
    } else if a[0] != b[0] {
        part_precedes(a[0], b[0])
    } else {
        parts_precede(a.skip(1), b.skip(1))
    }
}

/// The path `a` comes before the path `b`.
pub open spec fn path_precedes(a: Seq<char>, b: Seq<char>) -> bool {
    parts_precede(parts_of(a), parts_of(b))
}

/// The paths `a` and `b` have the same components.
pub open spec fn path_same(a: Seq<char>, b: Seq<char>) -> bool {
    parts_of(a) == parts_of(b)
}

proof fn lemma_part_order(a: PathPartView, b: PathPartView)
    ensures
        a == b || part_precedes(a, b) || part_precedes(b, a),
        !(part_precedes(a, b) && part_precedes(b, a)),
        !part_precedes(a, a),
{
    if let PathPartView::Normal(x) = a {
        lemma_precedes_total(x, x);
        if let PathPartView::Normal(y) = b {
            lemma_precedes_total(x, y);
        }
    }
}

/// Any two component lists are equal or one comes before the other.
pub proof fn lemma_parts_total(a: Seq<PathPartView>, b: Seq<PathPartView>)
    ensures
        a == b || parts_precede(a, b) || parts_precede(b, a),
        !(parts_precede(a, b) && parts_precede(b, a)),
        !parts_precede(a, a),
    decreases a.len(),
{
    if a.len() > 0 {
        lemma_parts_total(a.skip(1), a.skip(1));
    }
    if a.len() > 0 && b.len() > 0 {
        lemma_part_order(a[0], b[0]);
        if a[0] == b[0] {
            lemma_parts_total(a.skip(1), b.skip(1));
            if a.skip(1) == b.skip(1) {
                assert(a =~= seq![a[0]] + a.skip(1));
                assert(b =~= seq![b[0]] + b.skip(1));
            }
        }
    } else if a.len() == 0 && b.len() == 0 {
        assert(a =~= b);
    }
}

/// The order of component lists is transitive.
pub proof fn lemma_parts_transitive(
    a: Seq<PathPartView>,
    b: Seq<PathPartView>,
    c: Seq<PathPartView>,
)
    requires
        parts_precede(a, b),
        parts_precede(b, c),
    ensures
        parts_precede(a, c),
    decreases a.len(),
{
    if a.len() > 0 {
        if a[0] == b[0] && b[0] == c[0] {
            lemma_parts_transitive(a.skip(1), b.skip(1), c.skip(1));
        } else if a[0] != b[0] && b[0] != c[0] {
            match (a[0], b[0], c[0]) {
                (
                    PathPartView::Normal(x),
                    PathPartView::Normal(y),
                    PathPartView::Normal(z),
                ) => {
                    lemma_precedes_transitive(x, y, z);
                    lemma_precedes_total(x, z);
                },
                _ => {},
            }
        }
    }
}

fn part_less(a: &PathPart, b: &PathPart) -> (r: bool)
    ensures
        r == part_precedes(a.deep_view(), b.deep_view()),
{
    match (a, b) {
        (PathPart::Normal(x), PathPart::Normal(y)) => less(x.as_str(), y.as_str()),
        (PathPart::Root, PathPart::Root) => false,
        (PathPart::Root, _) => true,
        (PathPart::Current, PathPart::Root) => false,
        (PathPart::Current, PathPart::Current) => false,
        (PathPart::Current, _) => true,
        (PathPart::Parent, PathPart::Normal(_)) => true,
        (PathPart::Parent, _) => false,
        (PathPart::Normal(_), _) => false,
    }
}

/// Whether the path `a` comes before the path `b`.
pub fn path_less(a: &str, b: &str) -> (r: bool)
    ensures
        r == path_precedes(a@, b@),
{
    let x = components(a);
    let y = components(b);
    let ghost xs = x.deep_view();
    let ghost ys = y.deep_view();
    let mut i: usize = 0;
    assert(xs.skip(0) =~= xs && ys.skip(0) =~= ys);
    while i < x.len() && i < y.len()
        invariant
            xs == x.deep_view(),
            ys == y.deep_view(),
            xs == parts_of(a@),
            ys == parts_of(b@),
            i <= x@.len(),
            i <= y@.len(),
            parts_precede(xs, ys) == parts_precede(xs.skip(i as int), ys.skip(i as int)),
        decreases x@.len() - i,
    {
        proof {
            assert(xs[i as int] == x@[i as int].deep_view());
            assert(ys[i as int] == y@[i as int].deep_view());
            lemma_part_order(xs[i as int], ys[i as int]);
        }
        if part_less(&x[i], &y[i]) {
            return true;
        }
        if part_less(&y[i], &x[i]) {
            return false;
        }
        assert(xs.skip(i as int).skip(1) =~= xs.skip(i + 1));
        assert(ys.skip(i as int).skip(1) =~= ys.skip(i + 1));
        i += 1;
    }
    i < y.len()
}

/// Whether two paths have the same components.
pub fn same_path(a: &str, b: &str) -> (r: bool)
    ensures
        r == path_same(a@, b@),
{
    proof {
        lemma_parts_total(parts_of(a@), parts_of(b@));
        lemma_parts_total(parts_of(b@), parts_of(a@));
    }
    !path_less(a, b) && !path_less(b, a)
}

// ── Laws ────────────────────────────────────────────────────────────────────

/// The name of a file or directory: neither empty nor a dot or two, without a
/// slash in it.
pub open spec fn is_name(name: Seq<char>) -> bool {
    name.len() > 0 && name != seq!['.'] && name != seq!['.', '.'] && !name.contains('/')
}

/// The text is a relative path made of names with single slashes between them.
pub open spec fn is_written(names: Seq<Seq<char>>, path: Seq<char>) -> bool {
    &&& names.len() > 0
    &&& forall|i: int| 0 <= i < names.len() ==> is_name(#[trigger] names[i])
    &&& path == interspersed(names, '/')
}

proof fn lemma_parts_of_names(names: Seq<Seq<char>>)
    requires
        forall|i: int| 0 <= i < names.len() ==> is_name(#[trigger] names[i]),
    ensures
        parts_of_pieces(names) == names.map_values(|n: Seq<char>| PathPartView::Normal(n)),
    decreases names.len(),
{
    let f = |n: Seq<char>| PathPartView::Normal(n);
    if names.len() > 0 {
        let rest = names.drop_last();
        assert forall|i: int| 0 <= i < rest.len() implies is_name(#[trigger] rest[i]) by {
            assert(rest[i] == names[i]);
        }
        lemma_parts_of_names(rest);
        assert(is_name(names[names.len() - 1]));
        assert(names.map_values(f) =~= rest.map_values(f).push(f(names.last())));
    } else {
        assert(parts_of_pieces(names) =~= names.map_values(f));
    }
}

proof fn lemma_written_starts(names: Seq<Seq<char>>)
    requires
        names.len() > 0,
        forall|i: int| 0 <= i < names.len() ==> is_name(#[trigger] names[i]),
    ensures
        interspersed(names, '/').len() > 0,
        interspersed(names, '/')[0] == names[0][0],
        interspersed(names, '/').last() == names.last().last(),
        names[0][0] != '/',
        names.last().last() != '/',
    decreases names.len(),
{
    assert(is_name(names[0]));
    assert(names[0].contains(names[0][0]));
    assert(is_name(names[names.len() - 1]));
    assert(names.last().contains(names.last().last()));
    if names.len() > 1 {
        let rest = names.drop_last();
        assert forall|i: int| 0 <= i < rest.len() implies is_name(#[trigger] rest[i]) by {
            assert(rest[i] == names[i]);
        }
        lemma_written_starts(rest);
        let s = interspersed(rest, '/').push('/') + names.last();
        assert(s[0] == interspersed(rest, '/')[0]);
        assert(rest[0] == names[0]);
    }
}

/// A path made of names neither starts nor ends in a slash.
pub proof fn written_ends_are_no_slashes(names: Seq<Seq<char>>, path: Seq<char>)
    requires
        is_written(names, path),
    ensures
        path.len() > 0,
        path[0] != '/',
        path.last() != '/',
{
    lemma_written_starts(names);
}

/// The components of a path are the names that it was written with, below the
/// root if a slash stands in front.
pub proof fn written_names_are_components(names: Seq<Seq<char>>, path: Seq<char>)
    requires
        is_written(names, path),
    ensures
        parts_of(path) == names.map_values(|n: Seq<char>| PathPartView::Normal(n)),
        parts_of(seq!['/'] + path) == seq![PathPartView::Root] + names.map_values(
            |n: Seq<char>| PathPartView::Normal(n),
        ),
{
    assert forall|i: int| 0 <= i < names.len() implies !(#[trigger] names[i]).contains('/') by {
        assert(is_name(names[i]));
    }
    interspersed_pieces_are_found(names, '/');
    lemma_parts_of_names(names);
    lemma_written_starts(names);
    let none = Seq::<char>::empty();
    let rooted = seq![none] + names;
    assert forall|i: int| 0 <= i < rooted.len() implies !(#[trigger] rooted[i]).contains('/') by {
        if i > 0 {
            assert(rooted[i] == names[i - 1]);
        }
    }
    interspersed_pieces_are_found(rooted, '/');
    lemma_rooted(names);
    lemma_rooted_parts(names);
}

proof fn lemma_rooted(names: Seq<Seq<char>>)
    requires
        names.len() > 0,
    ensures
        interspersed(seq![Seq::<char>::empty()] + names, '/') == seq!['/'] + interspersed(
            names,
            '/',
        ),
    decreases names.len(),
{
    let none = Seq::<char>::empty();
    let rooted = seq![none] + names;
    let before = rooted.drop_last();
    if names.len() == 1 {
        assert(before =~= seq![none]);
        assert(interspersed(before, '/') == none);
        assert(interspersed(rooted, '/') =~= seq!['/'] + interspersed(names, '/'));
    } else {
        assert(before =~= seq![none] + names.drop_last());
        lemma_rooted(names.drop_last());
        assert(interspersed(rooted, '/') =~= seq!['/'] + interspersed(names, '/'));
    }
}

proof fn lemma_rooted_parts(names: Seq<Seq<char>>)
    requires
        forall|i: int| 0 <= i < names.len() ==> is_name(#[trigger] names[i]),
    ensures
        parts_of_pieces(seq![Seq::<char>::empty()] + names) == parts_of_pieces(names),
    decreases names.len(),
{
    let none = Seq::<char>::empty();
    let rooted = seq![none] + names;
    if names.len() == 0 {
        assert(names =~= Seq::<Seq<char>>::empty());
        assert(rooted.drop_last() =~= names);
        assert(rooted.last() == none);
    } else {
        let rest = names.drop_last();
        assert forall|i: int| 0 <= i < rest.len() implies is_name(#[trigger] rest[i]) by {
            assert(rest[i] == names[i]);
        }
        lemma_rooted_parts(rest);
        assert(is_name(names[names.len() - 1]));
        assert(rooted.drop_last() =~= seq![none] + rest);
    }
}

/// Two written paths, both relative or both absolute, are the same only if they
/// read the same.
pub proof fn written_paths_are_same_if_equal(
    a: Seq<Seq<char>>,
    b: Seq<Seq<char>>,
    p: Seq<char>,
    q: Seq<char>,
)
    requires
        is_written(a, p),
        is_written(b, q),
    ensures
        path_same(p, q) <==> p == q,
        path_same(seq!['/'] + p, seq!['/'] + q) <==> p == q,
        !path_same(p, seq!['/'] + q),
{
    let f = |n: Seq<char>| PathPartView::Normal(n);
    let root = seq![PathPartView::Root];
    written_names_are_components(a, p);
    written_names_are_components(b, q);
    if a.map_values(f) == b.map_values(f) {
        assert(a.len() == a.map_values(f).len());
        assert forall|i: int| 0 <= i < a.len() implies a[i] == b[i] by {
            assert(a.map_values(f)[i] == f(a[i]));
            assert(b.map_values(f)[i] == f(b[i]));
        }
        assert(a =~= b);
    }
    if root + a.map_values(f) == root + b.map_values(f) {
        assert((root + a.map_values(f)).skip(1) =~= a.map_values(f));
        assert((root + b.map_values(f)).skip(1) =~= b.map_values(f));
    }
    assert(parts_of(p)[0] == f(a[0]));
    assert((root + b.map_values(f))[0] == PathPartView::Root);
}

/// Below a directory without a slash at its end stands what is joined to it,
/// behind a slash; what is absolute stands for itself.
pub proof fn joining_puts_one_slash_between(a: Seq<char>, b: Seq<char>)
    requires
        a.len() > 0,
        a.last() != '/',
        b.len() > 0,
    ensures
        b[0] != '/' ==> joined(a, b) == a + seq!['/'] + b,
        b[0] != '/' ==> joined(a + seq!['/'], b) == a + seq!['/'] + b,
        b[0] == '/' ==> joined(a, b) == b,
{
    assert((a + seq!['/']).last() == '/');
}

/// The file name of a path is the name behind its last slash, also where more
/// slashes follow it.
pub proof fn file_name_stands_behind_the_last_slash(dir: Seq<char>, name: Seq<char>)
    requires
        is_name(name),
    ensures
        file_name_of(name) == Some(name),
        file_name_of(dir + seq!['/'] + name) == Some(name),
        file_name_of(dir + seq!['/'] + name + seq!['/']) == Some(name),
{
    assert(name.contains(name.last()));
    assert(name.contains(name[0]));
    lemma_after_last(name, '/');
    if after_last(name, '/') > 0 {
        assert(name.contains(name[after_last(name, '/') - 1]));
    }
    assert(name.skip(0) =~= name);
    if name.len() == 1 {
        assert(name =~= seq![name[0]]);
    } else {
        assert(name.contains(name[name.len() - 2]));
    }
    assert(without_tail(name) == name);
    let front = dir + seq!['/'];
    let p = front + name;
    lemma_after_last(p, '/');
    let k = after_last(p, '/');
    assert(p[front.len() - 1] == '/');
    if k > front.len() {
        assert(p[k - 1] == name[k - 1 - front.len()]);
        assert(name.contains(name[k - 1 - front.len()]));
    }
    assert(k == front.len());
    assert(p.skip(k) =~= name);
    assert(p.last() == name.last());
    if name.len() > 1 {
        assert(p[p.len() - 2] == name[name.len() - 2]);
    }
    assert(without_tail(p) == p);
    let q = p + seq!['/'];
    assert(q.drop_last() =~= p);
    assert(without_tail(q) == without_tail(p));
}

/// In a path made of names no slash follows another.
pub proof fn written_slashes_stand_alone(names: Seq<Seq<char>>, path: Seq<char>, j: int)
    requires
        is_written(names, path),
        0 <= j < path.len(),
        path[j] == '/',
    ensures
        j + 1 < path.len(),
        path[j + 1] != '/',
    decreases names.len(),
{
    lemma_written_starts(names);
    let n = names.len() - 1;
    assert(is_name(names[n]));
    if names.len() == 1 {
        assert(names[0].contains(path[j]));
    } else {
        let rest = names.drop_last();
        assert forall|i: int| 0 <= i < rest.len() implies is_name(#[trigger] rest[i]) by {
            assert(rest[i] == names[i]);
        }
        let head = interspersed(rest, '/');
        let last = names.last();
        assert(path == head.push('/') + last);
        lemma_written_starts(rest);
        if j < head.len() {
            assert(head[j] == '/');
            written_slashes_stand_alone(rest, head, j);
            assert(path[j + 1] == head[j + 1]);
        } else if j == head.len() {
            assert(path[j + 1] == last[0]);
            assert(last.contains(last[0]));
        } else {
            assert(path[j] == last[j - head.len() - 1]);
            assert(last.contains(path[j]));
        }
    }
}

/// A file name splits at its last dot into its stem and its extension; a name
/// without a dot, or with one only in front, has no extension.
pub proof fn names_split_at_their_last_dot(stem: Seq<char>, ext: Seq<char>)
    requires
        stem.len() > 0,
        !ext.contains('.'),
    ensures
        stem_of(stem + seq!['.'] + ext) == stem,
        name_extension(stem + seq!['.'] + ext) == Some(ext),
        !stem.contains('.') ==> stem_of(stem) == stem && name_extension(stem) is None,
        stem_of(seq!['.'] + ext) == seq!['.'] + ext,
        name_extension(seq!['.'] + ext) is None,
{
    let n = stem + seq!['.'] + ext;
    lemma_after_last(n, '.');
    let k = after_last(n, '.');
    assert(n[stem.len() as int] == '.');
    if k > stem.len() + 1 {
        assert(n[k - 1] == ext[k - 1 - stem.len() - 1]);
        assert(ext.contains(n[k - 1]));
    }
    assert(k == stem.len() + 1);
    assert(n.take(k - 1) =~= stem);
    assert(n.skip(k) =~= ext);
    if !stem.contains('.') {
        lemma_after_last(stem, '.');
        if after_last(stem, '.') > 0 {
            assert(stem.contains(stem[after_last(stem, '.') - 1]));
        }
    }
    let hidden = seq!['.'] + ext;
    lemma_after_last(hidden, '.');
    let h = after_last(hidden, '.');
    if h > 1 {
        assert(hidden[h - 1] == ext[h - 2]);
        assert(ext.contains(hidden[h - 1]));
    }
}

} // verus!
