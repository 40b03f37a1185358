//! What becomes of a directory whose names are turned into lowercase.
//!
//! The steps for single entries are those of [`crate::installer::extract`]; here
//! they are carried out on a directory as a mathematical value.
use vstd::prelude::*;

use crate::installer::extract::{
    lowercase_step, merge_step, LowercaseStepView, MergeStepView,
};
use crate::text::{
    all_ascii, ascii_lower, ascii_lowercase, is_ascii_char, is_ascii_upper, lowercase,
};

verus! {

// ── Directories ─────────────────────────────────────────────────────────────

/// A file, by what it holds, or a directory with its entries by name.
pub ghost enum TreeNode {
    File(int),
    Directory(Seq<(Seq<char>, TreeNode)>),
}

/// The entries of a directory, as they are listed.
pub type Entries = Seq<(Seq<char>, TreeNode)>;

/// No two entries have one name.
pub open spec fn names_differ(d: Entries) -> bool {
    forall|i: int, j: int| 0 <= i < j < d.len() ==> (#[trigger] d[i]).0 != (#[trigger] d[j]).0
}

/// An entry has the name.
pub open spec fn stands(d: Entries, name: Seq<char>) -> bool {
    exists|i: int| 0 <= i < d.len() && (#[trigger] d[i]).0 == name
}

/// The index of the entry with the name.
pub open spec fn index_named(d: Entries, name: Seq<char>) -> int {
    choose|i: int| 0 <= i < d.len() && (#[trigger] d[i]).0 == name
}

/// A directory stands under the name.
pub open spec fn directory_stands(d: Entries, name: Seq<char>) -> bool {
    stands(d, name) && d[index_named(d, name)].1 is Directory
}

/// How many files hold `c`, at any depth.
pub open spec fn census(d: Entries, c: int) -> nat
    decreases d,
{
    if d.len() == 0 {
        0
    } else {
        census(d.drop_last(), c) + match d[d.len() - 1].1 {
            TreeNode::File(x) => if x == c {
                1nat
            } else {
                0nat
            },
            TreeNode::Directory(e) => census(e, c),
        }
    }
}

// ── Carrying out the steps ──────────────────────────────────────────────────

/// What a merge of the directory `src` into `dst` leaves of both.  Entries that
/// cannot move stay; a directory in which something stays ends the merge.
pub open spec fn merged(src: Entries, dst: Entries) -> (Entries, Entries)
    decreases src,
{
    if src.len() == 0 {
        (src, dst)
    } else {
        let name = src[0].0;
        let node = src[0].1;
        let rest = src.skip(1);
        let there = lowercase(name);
        let k = index_named(dst, there);
        match merge_step(
            name,
            node is Directory,
            stands(dst, there),
            directory_stands(dst, there),
        ) {
            MergeStepView::Move(lower) => merged(rest, dst.push((lower, node))),
            MergeStepView::Descend(lower) => {
                let inner = merged(node->Directory_0, dst[k].1->Directory_0);
                let after = dst.update(k, (lower, TreeNode::Directory(inner.1)));
                if inner.0.len() == 0 {
                    merged(rest, after)
                } else {
                    (seq![(name, TreeNode::Directory(inner.0))] + rest, after)
                }
            },
            MergeStepView::Skip => {
                let further = merged(rest, dst);
                (seq![src[0]] + further.0, further.1)
            },
        }
    }
}

/// A directory after the step for the entry with the name.  A merged directory
/// is removed if nothing is left in it.
pub open spec fn after_lowercasing(d: Entries, name: Seq<char>) -> Entries {
    if !stands(d, name) {
        d
    } else {
        let i = index_named(d, name);
        let k = index_named(d, lowercase(name));
        let node = d[i].1;
        match lowercase_step(
            name,
            node is Directory,
            stands(d, lowercase(name)),
            directory_stands(d, lowercase(name)),
        ) {
            LowercaseStepView::Keep => d,
            LowercaseStepView::Rename(lower) => d.update(i, (lower, node)),
            LowercaseStepView::Merge(lower) => {
                let inner = merged(node->Directory_0, d[k].1->Directory_0);
                let after = d.update(k, (lower, TreeNode::Directory(inner.1)));
                if inner.0.len() == 0 {
                    after.remove(i)
                } else {
                    after.update(i, (name, TreeNode::Directory(inner.0)))
                }
            },
        }
    }
}

/// A directory after the steps for the names, one after the other.
pub open spec fn after_all_lowercasing(d: Entries, names: Seq<Seq<char>>) -> Entries
    decreases names.len(),
{
    if names.len() == 0 {
        d
    } else {
        after_lowercasing(after_all_lowercasing(d, names.drop_last()), names.last())
    }
}

// ── Nothing is lost ─────────────────────────────────────────────────────────

spec fn node_census(node: TreeNode, c: int) -> nat {
    match node {
        TreeNode::File(x) => if x == c {
            1nat
        } else {
            0nat
        },
        TreeNode::Directory(e) => census(e, c),
    }
}

proof fn lemma_census_update(d: Entries, i: int, e: (Seq<char>, TreeNode), c: int)
    requires
        0 <= i < d.len(),
    ensures
        census(d.update(i, e), c) + node_census(d[i].1, c) == census(d, c) + node_census(e.1, c),
    decreases d.len(),
{
    let u = d.update(i, e);
    if i == d.len() - 1 {
        assert(u.drop_last() =~= d.drop_last());
    } else {
        lemma_census_update(d.drop_last(), i, e, c);
        assert(u.drop_last() =~= d.drop_last().update(i, e));
    }
}

proof fn lemma_census_remove(d: Entries, i: int, c: int)
    requires
        0 <= i < d.len(),
    ensures
        census(d.remove(i), c) + node_census(d[i].1, c) == census(d, c),
    decreases d.len(),
{
    let r = d.remove(i);
    if i == d.len() - 1 {
        assert(r =~= d.drop_last());
    } else {
        lemma_census_remove(d.drop_last(), i, c);
        assert(r.drop_last() =~= d.drop_last().remove(i));
    }
}

proof fn lemma_census_front(e: (Seq<char>, TreeNode), d: Entries, c: int)
    ensures
        census(seq![e] + d, c) == node_census(e.1, c) + census(d, c),
{
    let all = seq![e] + d;
    lemma_census_remove(all, 0, c);
    assert(all.remove(0) =~= d);
}

proof fn lemma_census_push(d: Entries, e: (Seq<char>, TreeNode), c: int)
    ensures
        census(d.push(e), c) == census(d, c) + node_census(e.1, c),
{
    assert(d.push(e).drop_last() =~= d);
}

proof fn lemma_merge_keeps_files(src: Entries, dst: Entries, c: int)
    ensures
        census(merged(src, dst).0, c) + census(merged(src, dst).1, c) == census(src, c) + census(
            dst,
            c,
        ),
    decreases src,
{
    if src.len() > 0 {
        let name = src[0].0;
        let node = src[0].1;
        let rest = src.skip(1);
        let there = lowercase(name);
        let k = index_named(dst, there);
        assert(src =~= seq![src[0]] + rest);
        lemma_census_front(src[0], rest, c);
        match merge_step(
            name,
            node is Directory,
            stands(dst, there),
            directory_stands(dst, there),
        ) {
            MergeStepView::Move(lower) => {
                lemma_census_push(dst, (lower, node), c);
                lemma_merge_keeps_files(rest, dst.push((lower, node)), c);
            },
            MergeStepView::Descend(lower) => {
                let inner = merged(node->Directory_0, dst[k].1->Directory_0);
                let e = (lower, TreeNode::Directory(inner.1));
                let after = dst.update(k, e);
                lemma_merge_keeps_files(node->Directory_0, dst[k].1->Directory_0, c);
                lemma_census_update(dst, k, e, c);
                lemma_merge_keeps_files(rest, after, c);
                lemma_census_front((name, TreeNode::Directory(inner.0)), rest, c);
            },
            MergeStepView::Skip => {
                lemma_merge_keeps_files(rest, dst, c);
                lemma_census_front(src[0], merged(rest, dst).0, c);
            },
        }
    }
}

proof fn lemma_step_keeps_files(d: Entries, name: Seq<char>, c: int)
    ensures
        census(after_lowercasing(d, name), c) == census(d, c),
{
    if stands(d, name) {
        let i = index_named(d, name);
        let k = index_named(d, lowercase(name));
        let node = d[i].1;
        match lowercase_step(
            name,
            node is Directory,
            stands(d, lowercase(name)),
            directory_stands(d, lowercase(name)),
        ) {
            LowercaseStepView::Keep => {},
            LowercaseStepView::Rename(lower) => {
                lemma_census_update(d, i, (lower, node), c);
            },
            LowercaseStepView::Merge(lower) => {
                let inner = merged(node->Directory_0, d[k].1->Directory_0);
                let e = (lower, TreeNode::Directory(inner.1));
                let after = d.update(k, e);
                lemma_merge_keeps_files(node->Directory_0, d[k].1->Directory_0, c);
                lemma_census_update(d, k, e, c);
                lemma_census_remove(after, i, c);
                lemma_census_update(after, i, (name, TreeNode::Directory(inner.0)), c);
            },
        }
    }
}

/// Turning names into lowercase overwrites nothing: whatever files hold, as many
/// files hold it afterwards, at any depth.
pub proof fn lowercasing_keeps_files(d: Entries, names: Seq<Seq<char>>, c: int)
    ensures
        census(after_all_lowercasing(d, names), c) == census(d, c),
    decreases names.len(),
{
    if names.len() > 0 {
        lowercasing_keeps_files(d, names.drop_last(), c);
        lemma_step_keeps_files(after_all_lowercasing(d, names.drop_last()), names.last(), c);
    }
}

// ── Names are in lowercase ──────────────────────────────────────────────────

/// What stands under a name.
spec fn at(d: Entries, name: Seq<char>) -> Option<TreeNode> {
    if stands(d, name) {
        Some(d[index_named(d, name)].1)
    } else {
        None
    }
}

proof fn lemma_named(d: Entries, i: int)
    requires
        names_differ(d),
        0 <= i < d.len(),
    ensures
        stands(d, d[i].0),
        index_named(d, d[i].0) == i,
        at(d, d[i].0) == Some(d[i].1),
{
    let k = index_named(d, d[i].0);
    assert(0 <= k < d.len() && d[k].0 == d[i].0);
}

proof fn lemma_at_update(d: Entries, i: int, e: (Seq<char>, TreeNode), name: Seq<char>)
    requires
        names_differ(d),
        0 <= i < d.len(),
        e.0 == d[i].0 || !stands(d, e.0),
    ensures
        names_differ(d.update(i, e)),
        at(d.update(i, e), name) == if name == e.0 {
            Some(e.1)
        } else if name == d[i].0 {
            None
        } else {
            at(d, name)
        },
{
    let u = d.update(i, e);
    assert forall|x: int, y: int| 0 <= x < y < u.len() implies (#[trigger] u[x]).0 != (
    #[trigger] u[y]).0 by {
        assert(d[x].0 != d[y].0);
    }
    lemma_named(u, i);
    if name != e.0 {
        if stands(u, name) {
            let k = index_named(u, name);
            assert(d[k].0 == name);
            lemma_named(d, k);
        } else if stands(d, name) && name != d[i].0 {
            let k = index_named(d, name);
            assert(u[k].0 == name);
        }
        if name == d[i].0 && stands(u, name) {
            let k = index_named(u, name);
            assert(u[k].0 == name && k != i && d[k].0 == d[i].0);
            assert(k < i || i < k);
        }
    }
}

proof fn lemma_at_remove(d: Entries, i: int, name: Seq<char>)
    requires
        names_differ(d),
        0 <= i < d.len(),
    ensures
        names_differ(d.remove(i)),
        at(d.remove(i), name) == if name == d[i].0 {
            None
        } else {
            at(d, name)
        },
{
    let r = d.remove(i);
    assert forall|x: int| 0 <= x < r.len() implies #[trigger] r[x] == if x < i {
        d[x]
    } else {
        d[x + 1]
    } by {}
    assert forall|x: int, y: int| 0 <= x < y < r.len() implies (#[trigger] r[x]).0 != (
    #[trigger] r[y]).0 by {
        let a = if x < i {
            x
        } else {
            x + 1
        };
        let b = if y < i {
            y
        } else {
            y + 1
        };
        assert(d[a].0 != d[b].0);
    }
    if stands(r, name) {
        let k = index_named(r, name);
        let a = if k < i {
            k
        } else {
            k + 1
        };
        assert(r[k] == d[a]);
        lemma_named(d, a);
        if name == d[i].0 {
            lemma_named(d, i);
        }
    } else if stands(d, name) && name != d[i].0 {
        let k = index_named(d, name);
        let a = if k < i {
            k
        } else {
            k - 1
        };
        assert(r[a] == d[k]);
        assert(stands(r, name));
    }
}

/// What stands under a name after the step for another or the same.
proof fn lemma_step_at(d: Entries, name: Seq<char>, other: Seq<char>)
    requires
        names_differ(d),
        stands(d, name),
    ensures
        names_differ(after_lowercasing(d, name)),
        ({
            let lower = lowercase(name);
            let node = at(d, name)->0;
            let after = at(after_lowercasing(d, name), other);
            if name == lower {
                after == at(d, other)
            } else if at(d, lower) is None {
                after == if other == lower {
                    Some(node)
                } else if other == name {
                    None
                } else {
                    at(d, other)
                }
            } else if node is Directory && at(d, lower)->0 is Directory {
                if other == lower {
                    after is Some && after->0 is Directory
                } else if other == name {
                    after is Some ==> after->0 is Directory && after->0->Directory_0.len() > 0
                } else {
                    after == at(d, other)
                }
            } else {
                after == at(d, other)
            }
        }),
{
    let i = index_named(d, name);
    let lower = lowercase(name);
    let k = index_named(d, lower);
    let node = d[i].1;
    match lowercase_step(name, node is Directory, stands(d, lower), directory_stands(d, lower)) {
        LowercaseStepView::Keep => {},
        LowercaseStepView::Rename(l) => {
            lemma_at_update(d, i, (l, node), other);
        },
        LowercaseStepView::Merge(l) => {
            let inner = merged(node->Directory_0, d[k].1->Directory_0);
            let e = (l, TreeNode::Directory(inner.1));
            let after = d.update(k, e);
            lemma_at_update(d, k, e, other);
            assert(after[i] == d[i]);
            if inner.0.len() == 0 {
                lemma_at_remove(after, i, other);
            } else {
                lemma_at_update(after, i, (name, TreeNode::Directory(inner.0)), other);
            }
        },
    }
}

/// The name is in lowercase, or its lowercase is taken by something that it
/// cannot be merged with: one of the two is a file, or both are directories and
/// merging them has left something.
pub open spec fn is_settled(d: Entries, name: Seq<char>) -> bool {
    let node = d[index_named(d, name)].1;
    name == lowercase(name) || (stands(d, lowercase(name)) && (!(node is Directory)
        || !directory_stands(d, lowercase(name)) || node->Directory_0.len() > 0))
}

/// The lowercase of the name is its own lowercase.
pub open spec fn has_lowercase(name: Seq<char>) -> bool {
    lowercase(lowercase(name)) == lowercase(name)
}

/// The lowercase of an ASCII name is its own lowercase.
pub proof fn ascii_names_have_lowercase(name: Seq<char>)
    requires
        all_ascii(name),
    ensures
        has_lowercase(name),
{
    let lower = ascii_lowercase(name);
    assert forall|i: int| 0 <= i < lower.len() implies is_ascii_char(#[trigger] lower[i])
        && !is_ascii_upper(lower[i]) by {
        assert(is_ascii_char(name[i]));
        assert(lower[i] == ascii_lower(name[i]));
    }
    assert(ascii_lowercase(lower) =~= lower);
}

/// The names of the entries, as they are listed.
pub open spec fn names_of(d: Entries) -> Seq<Seq<char>> {
    d.map_values(|e: (Seq<char>, TreeNode)| e.0)
}

proof fn lemma_steps_settle(d: Entries, n: int)
    requires
        names_differ(d),
        0 <= n <= d.len(),
        forall|i: int| 0 <= i < d.len() ==> has_lowercase((#[trigger] d[i]).0),
    ensures
        ({
            let after = after_all_lowercasing(d, names_of(d).take(n));
            &&& names_differ(after)
            &&& forall|j: int| n <= j < d.len() ==> stands(after, (#[trigger] d[j]).0)
            &&& forall|m: Seq<char>| #[trigger]
                stands(after, m) ==> has_lowercase(m) && (is_settled(after, m) || exists|j: int|
                    n <= j < d.len() && (#[trigger] d[j]).0 == m)
        }),
    decreases n,
{
    let names = names_of(d);
    let after = after_all_lowercasing(d, names.take(n));
    if n == 0 {
        assert(after == d);
        assert forall|j: int| 0 <= j < d.len() implies stands(after, (#[trigger] d[j]).0) by {
            lemma_named(d, j);
        }
        assert forall|m: Seq<char>| #[trigger] stands(after, m) implies has_lowercase(m) && (
        is_settled(after, m) || exists|j: int| n <= j < d.len() && (#[trigger] d[j]).0 == m) by {
            let k = index_named(d, m);
            assert(d[k].0 == m);
        }
    } else {
        let before = after_all_lowercasing(d, names.take(n - 1));
        let name = d[n - 1].0;
        let lower = lowercase(name);
        lemma_steps_settle(d, n - 1);
        assert(names.take(n).drop_last() =~= names.take(n - 1));
        assert(names.take(n).last() == name);
        assert(after == after_lowercasing(before, name));
        assert(stands(before, d[n - 1].0));
        lemma_step_at(before, name, name);
        lemma_step_at(before, name, lower);
        assert forall|j: int| n <= j < d.len() implies stands(after, (#[trigger] d[j]).0) by {
            assert(d[n - 1].0 != d[j].0);
            lemma_step_at(before, name, d[j].0);
            assert(stands(before, d[j].0));
        }
        assert forall|m: Seq<char>| #[trigger] stands(after, m) implies has_lowercase(m) && (
        is_settled(after, m) || exists|j: int| n <= j < d.len() && (#[trigger] d[j]).0 == m) by {
            lemma_step_at(before, name, m);
            lemma_step_at(before, name, lowercase(m));
            assert(has_lowercase(name));
            if m == lower {
                assert(has_lowercase(m));
            } else {
                assert(stands(before, m));
                if m != name && !is_settled(before, m) {
                    let j = choose|j: int| n - 1 <= j < d.len() && (#[trigger] d[j]).0 == m;
                    assert(j >= n);
                }
            }
        }
    }
}

/// After the steps for all its names a directory still has no two entries of one
/// name, and each name is in lowercase or cannot be: its lowercase is taken by
/// something that it cannot be merged with.  Names are taken to have a lowercase
/// that is its own lowercase, as ASCII names do.
pub proof fn lowercased_names_are_settled(d: Entries, name: Seq<char>)
    requires
        names_differ(d),
        forall|i: int| 0 <= i < d.len() ==> has_lowercase((#[trigger] d[i]).0),
        stands(after_all_lowercasing(d, names_of(d)), name),
    ensures
        names_differ(after_all_lowercasing(d, names_of(d))),
        is_settled(after_all_lowercasing(d, names_of(d)), name),
{
    lemma_steps_settle(d, d.len() as int);
    assert(names_of(d).take(d.len() as int) =~= names_of(d));
}

} // verus!
