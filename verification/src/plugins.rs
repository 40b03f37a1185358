//! The load order of plugins.
use vstd::prelude::*;

use crate::games::{masters_of, Game, GameKind};
use crate::mods::{rank_of, ModDatabase, ModDatabaseView, PluginFile, PluginFileView, PluginKind};
use crate::paths::{join, joined};
use crate::table::NameSet;
use crate::text::{
    concat2, ends_with, has_suffix, in_order, is_among, is_white_space, lemma_not_after_transitive,
    lemma_pieces_nonempty, lemma_precedes_total, lemma_sorted_from, lemma_sorted_keeps,
    is_line, lemma_stably_sorted, less, lines, lines_of, lowercase, not_after,
    only_white_space_is_trimmed, owned, pieces, precedes, same, sort_stably, stably_sorted,
    starts_with, strip_prefix, to_lowercase, total_preorder, trim, trimmed, without_cr,
    written_lines, written_lines_are_read_back,
};

verus! {

// ── Finding plugins ─────────────────────────────────────────────────────────

/// The kind of the plugin with the given lowercase name, if it is one.
pub open spec fn kind_of_name(lower: Seq<char>) -> Option<PluginKind> {
    if has_suffix(lower, ".esm"@) {
        Some(PluginKind::Master)
    } else if has_suffix(lower, ".esl"@) {
        Some(PluginKind::Light)
    } else if has_suffix(lower, ".esp"@) {
        Some(PluginKind::Plugin)
    } else {
        None
    }
}

fn kind_by_name(lower: &str) -> (r: Option<PluginKind>)
    ensures
        r == kind_of_name(lower@),
{
    if ends_with(lower, ".esm") {
        Some(PluginKind::Master)
    } else if ends_with(lower, ".esl") {
        Some(PluginKind::Light)
    } else if ends_with(lower, ".esp") {
        Some(PluginKind::Plugin)
    } else {
        None
    }
}

/// The plugins among the given files: they are enabled unless they are switched
/// off.
pub open spec fn scanned(
    files: Seq<Seq<char>>,
    kind: GameKind,
    disabled: Set<Seq<char>>,
) -> Seq<PluginFileView>
    decreases files.len(),
{
    if files.len() == 0 {
        Seq::empty()
    } else {
        let before = scanned(files.drop_last(), kind, disabled);
        let name = files.last();
        match kind_of_name(lowercase(name)) {
            Some(k) => before.push(
                PluginFileView {
                    name,
                    kind: k,
                    enabled: !disabled.contains(name),
                    is_vanilla: masters_of(kind).contains(name),
                },
            ),
            None => before,
        }
    }
}

/// The index of the first element of the list that is `name`, or its length.
pub open spec fn position_in(list: Seq<Seq<char>>, name: Seq<char>) -> int
    decreases list.len(),
{
    if list.len() == 0 || list[0] == name {
        0
    } else {
        1 + position_in(list.skip(1), name)
    }
}

fn position_among(list: &Vec<&'static str>, name: &str) -> (r: usize)
    ensures
        r == position_in(list.deep_view(), name@),
{
    let ghost all = list.deep_view();
    let mut i: usize = 0;
    assert(all.skip(0) =~= all);
    while i < list.len()
        invariant
            all == list.deep_view(),
            i <= list@.len(),
            position_in(all, name@) == i + position_in(all.skip(i as int), name@),
        decreases list@.len() - i,
    {
        assert(all[i as int] == list@[i as int]@);
        assert(all.skip(i as int).skip(1) =~= all.skip(i + 1));
        if same(list[i], name) {
            return i;
        }
        i += 1;
    }
    i
}

/// The index of the last element of the list that is `name`, or -1.
pub open spec fn last_position(list: Seq<Seq<char>>, name: Seq<char>) -> int
    decreases list.len(),
{
    if list.len() == 0 {
        -1
    } else if list.last() == name {
        list.len() - 1
    } else {
        last_position(list.drop_last(), name)
    }
}

fn last_position_of(list: &Vec<String>, name: &str) -> (r: Option<usize>)
    ensures
        match r {
            Some(i) => last_position(list.deep_view(), name@) == i,
            None => last_position(list.deep_view(), name@) == -1,
        },
{
    let ghost all = list.deep_view();
    let mut i: usize = list.len();
    assert(all.take(i as int) =~= all);
    while i > 0
        invariant
            all == list.deep_view(),
            i <= list@.len(),
            last_position(all, name@) == last_position(all.take(i as int), name@),
        decreases i,
    {
        assert(all.take(i as int).drop_last() =~= all.take(i - 1));
        assert(all[i - 1] == list@[i - 1]@);
        if same(list[i - 1].as_str(), name) {
            return Some(i - 1);
        }
        i -= 1;
    }
    None
}

// ── The load order ──────────────────────────────────────────────────────────

/// The masters that come with the game, in the game's order.
pub open spec fn vanilla_part(plugins: Seq<PluginFileView>, kind: GameKind) -> Seq<PluginFileView> {
    stably_sorted(
        plugins.filter(|p: PluginFileView| p.is_vanilla),
        |a: PluginFileView, b: PluginFileView|
            position_in(masters_of(kind), a.name) <= position_in(masters_of(kind), b.name),
    )
}

/// The other plugins that the saved order knows, in that order.
pub open spec fn saved_part(plugins: Seq<PluginFileView>, order: Seq<Seq<char>>) -> Seq<
    PluginFileView,
> {
    stably_sorted(
        plugins.filter(|p: PluginFileView| !p.is_vanilla && last_position(order, p.name) >= 0),
        |a: PluginFileView, b: PluginFileView|
            last_position(order, a.name) <= last_position(order, b.name),
    )
}

/// One plugin may come before another where no order is saved: by their kinds,
/// then by their names.
pub open spec fn by_type_and_name(a: PluginFileView, b: PluginFileView) -> bool {
    rank_of(a.kind) < rank_of(b.kind) || (rank_of(a.kind) == rank_of(b.kind) && not_after(
        a.name,
        b.name,
    ))
}

/// The plugins that the saved order does not know.
pub open spec fn new_part(plugins: Seq<PluginFileView>, order: Seq<Seq<char>>) -> Seq<
    PluginFileView,
> {
    stably_sorted(
        plugins.filter(|p: PluginFileView| !p.is_vanilla && last_position(order, p.name) < 0),
        |a: PluginFileView, b: PluginFileView| by_type_and_name(a, b),
    )
}

/// The plugins in load order.
pub open spec fn load_order_of(
    plugins: Seq<PluginFileView>,
    kind: GameKind,
    order: Seq<Seq<char>>,
) -> Seq<PluginFileView> {
    vanilla_part(plugins, kind) + saved_part(plugins, order) + new_part(plugins, order)
}

fn select_plugins<F: Fn(&PluginFile) -> bool>(
    plugins: &Vec<PluginFile>,
    keep: F,
    Ghost(kept): Ghost<spec_fn(PluginFileView) -> bool>,
) -> (r: Vec<PluginFile>)
    requires
        forall|p: &PluginFile| #[trigger] keep.requires((p,)),
        forall|p: &PluginFile, b: bool| #[trigger]
            keep.ensures((p,), b) ==> b == kept(p.deep_view()),
    ensures
        r.deep_view() == plugins.deep_view().filter(kept),
{
    let ghost all = plugins.deep_view();
    let mut r: Vec<PluginFile> = Vec::new();
    assert(r.deep_view() =~= all.take(0).filter(kept)) by {
        reveal(Seq::filter);
    }
    for i in 0..plugins.len()
        invariant
            forall|p: &PluginFile| #[trigger] keep.requires((p,)),
            forall|p: &PluginFile, b: bool| #[trigger]
                keep.ensures((p,), b) ==> b == kept(p.deep_view()),
            all == plugins.deep_view(),
            r.deep_view() == all.take(i as int).filter(kept),
    {
        let ghost before = r.deep_view();
        let p = &plugins[i];
        assert(all[i as int] == p.deep_view());
        assert(all.take(i + 1).drop_last() =~= all.take(i as int));
        if keep(p) {
            r.push(p.clone());
            assert(r.deep_view() =~= before.push(all[i as int]));
        }
        assert(r.deep_view() == all.take(i + 1).filter(kept)) by {
            reveal(Seq::filter);
        }
    }
    assert(all.take(all.len() as int) =~= all);
    r
}

fn in_saved_order(a: &str, b: &str, order: &Vec<String>) -> (r: bool)
    ensures
        r == (last_position(order.deep_view(), a@) <= last_position(order.deep_view(), b@)),
{
    let x = last_position_of(order, a);
    let y = last_position_of(order, b);
    proof {
        lemma_last_position(order.deep_view(), a@);
        lemma_last_position(order.deep_view(), b@);
    }
    match (x, y) {
        (None, _) => true,
        (Some(_), None) => false,
        (Some(i), Some(j)) => i <= j,
    }
}

proof fn lemma_last_position(list: Seq<Seq<char>>, name: Seq<char>)
    ensures
        -1 <= last_position(list, name) < list.len(),
    decreases list.len(),
{
    if list.len() > 0 {
        lemma_last_position(list.drop_last(), name);
    }
}

fn order_plugins(plugins: &Vec<PluginFile>, kind: GameKind, order: &Vec<String>) -> (r: Vec<
    PluginFile,
>)
    ensures
        r.deep_view() == load_order_of(plugins.deep_view(), kind, order.deep_view()),
{
    let ghost all = plugins.deep_view();
    let ghost saved = order.deep_view();
    let masters = kind.vanilla_masters();
    let is_vanilla = |p: &PluginFile| -> (b: bool)
        ensures
            b == p.is_vanilla,
    {
        p.is_vanilla
    };
    let vanilla = select_plugins(plugins, is_vanilla, Ghost(|p: PluginFileView| p.is_vanilla));
    let by_master = |a: &PluginFile, b: &PluginFile| -> (ok: bool)
        ensures
            ok == (position_in(masters_of(kind), a.name@) <= position_in(
                masters_of(kind),
                b.name@,
            )),
    {
        position_among(&masters, a.name.as_str()) <= position_among(&masters, b.name.as_str())
    };
    let mut r = sort_stably(
        vanilla,
        by_master,
        Ghost(
            |a: PluginFileView, b: PluginFileView|
                position_in(masters_of(kind), a.name) <= position_in(masters_of(kind), b.name),
        ),
    );
    assert(r.deep_view() == vanilla_part(all, kind));

    let is_saved = |p: &PluginFile| -> (b: bool)
        ensures
            b == (!p.is_vanilla && last_position(order.deep_view(), p.name@) >= 0),
    {
        proof {
            lemma_last_position(order.deep_view(), p.name@);
        }
        !p.is_vanilla && last_position_of(order, p.name.as_str()).is_some()
    };
    let known = select_plugins(
        plugins,
        is_saved,
        Ghost(|p: PluginFileView| !p.is_vanilla && last_position(saved, p.name) >= 0),
    );
    let by_order = |a: &PluginFile, b: &PluginFile| -> (ok: bool)
        ensures
            ok == (last_position(order.deep_view(), a.name@) <= last_position(
                order.deep_view(),
                b.name@,
            )),
    {
        in_saved_order(a.name.as_str(), b.name.as_str(), order)
    };
    let mut saved_plugins = sort_stably(
        known,
        by_order,
        Ghost(
            |a: PluginFileView, b: PluginFileView|
                last_position(saved, a.name) <= last_position(saved, b.name),
        ),
    );
    assert(saved_plugins.deep_view() == saved_part(all, saved));

    let is_new = |p: &PluginFile| -> (b: bool)
        ensures
            b == (!p.is_vanilla && last_position(order.deep_view(), p.name@) < 0),
    {
        proof {
            lemma_last_position(order.deep_view(), p.name@);
        }
        !p.is_vanilla && last_position_of(order, p.name.as_str()).is_none()
    };
    let unknown = select_plugins(
        plugins,
        is_new,
        Ghost(|p: PluginFileView| !p.is_vanilla && last_position(saved, p.name) < 0),
    );
    let by_type = |a: &PluginFile, b: &PluginFile| -> (ok: bool)
        ensures
            ok == by_type_and_name(a.deep_view(), b.deep_view()),
    {
        let x: u8 = a.kind.sort_priority();
        let y: u8 = b.kind.sort_priority();
        x < y || (x == y && !less(b.name.as_str(), a.name.as_str()))
    };
    let mut unsaved = sort_stably(
        unknown,
        by_type,
        Ghost(|a: PluginFileView, b: PluginFileView| by_type_and_name(a, b)),
    );
    assert(unsaved.deep_view() == new_part(all, saved));

    let ghost first = r.deep_view();
    let ghost second = saved_plugins.deep_view();
    let ghost third = unsaved.deep_view();
    r.append(&mut saved_plugins);
    assert(r.deep_view() =~= first + second);
    r.append(&mut unsaved);
    assert(r.deep_view() =~= first + second + third);
    r
}

proof fn lemma_partition_multiset(
    s: Seq<PluginFileView>,
    f: spec_fn(PluginFileView) -> bool,
    g: spec_fn(PluginFileView) -> bool,
    h: spec_fn(PluginFileView) -> bool,
)
    requires
        forall|p: PluginFileView| #[trigger]
            f(p) ==> !g(p) && !h(p),
        forall|p: PluginFileView| #[trigger] g(p) ==> !h(p),
        forall|p: PluginFileView| f(p) || g(p) || #[trigger] h(p),
    ensures
        s.filter(f).to_multiset().add(s.filter(g).to_multiset()).add(s.filter(h).to_multiset())
            =~= s.to_multiset(),
    decreases s.len(),
{
    broadcast use vstd::seq_lib::group_to_multiset_ensures;

    reveal(Seq::filter);
    if s.len() > 0 {
        lemma_partition_multiset(s.drop_last(), f, g, h);
        assert(s =~= s.drop_last().push(s.last()));
        assert(h(s.last()) || !h(s.last()));
    } else {
        assert(s =~= Seq::<PluginFileView>::empty());
    }
}

/// Putting plugins in load order neither loses nor adds any.
pub proof fn load_order_keeps_all_plugins(
    plugins: Seq<PluginFileView>,
    kind: GameKind,
    order: Seq<Seq<char>>,
)
    ensures
        load_order_of(plugins, kind, order).to_multiset() == plugins.to_multiset(),
{
    let f = |p: PluginFileView| p.is_vanilla;
    let g = |p: PluginFileView| !p.is_vanilla && last_position(order, p.name) >= 0;
    let h = |p: PluginFileView| !p.is_vanilla && last_position(order, p.name) < 0;
    lemma_partition_multiset(plugins, f, g, h);
    lemma_sorted_keeps(
        plugins.filter(f),
        |a: PluginFileView, b: PluginFileView|
            position_in(masters_of(kind), a.name) <= position_in(masters_of(kind), b.name),
    );
    lemma_sorted_keeps(
        plugins.filter(g),
        |a: PluginFileView, b: PluginFileView|
            last_position(order, a.name) <= last_position(order, b.name),
    );
    lemma_sorted_keeps(
        plugins.filter(h),
        |a: PluginFileView, b: PluginFileView| by_type_and_name(a, b),
    );
    vstd::seq_lib::lemma_multiset_commutative(
        vanilla_part(plugins, kind),
        saved_part(plugins, order),
    );
    vstd::seq_lib::lemma_multiset_commutative(
        vanilla_part(plugins, kind) + saved_part(plugins, order),
        new_part(plugins, order),
    );
}

proof fn lemma_sorted_filter(
    s: Seq<PluginFileView>,
    f: spec_fn(PluginFileView) -> bool,
    leq: spec_fn(PluginFileView, PluginFileView) -> bool,
)
    requires
        total_preorder(leq),
    ensures
        forall|i: int|
            0 <= i < stably_sorted(s.filter(f), leq).len() ==> f(
                #[trigger] stably_sorted(s.filter(f), leq)[i],
            ),
        in_order(stably_sorted(s.filter(f), leq), leq),
{
    let kept = s.filter(f);
    let sorted = stably_sorted(kept, leq);
    lemma_stably_sorted(kept, leq);
    assert forall|i: int| 0 <= i < sorted.len() implies f(#[trigger] sorted[i]) by {
        lemma_sorted_from(kept, leq, i);
        let k = choose|k: int| 0 <= k < kept.len() && kept[k] == sorted[i];
        s.lemma_filter_pred(f, k);
    }
}

proof fn lemma_by_type_and_name_orders()
    ensures
        total_preorder(|a: PluginFileView, b: PluginFileView| by_type_and_name(a, b)),
{
    let leq = |a: PluginFileView, b: PluginFileView| by_type_and_name(a, b);
    assert forall|a: PluginFileView, b: PluginFileView| #[trigger] leq(a, b) || leq(b, a) by {
        lemma_precedes_total(a.name, b.name);
    }
    assert forall|a: PluginFileView, b: PluginFileView, c: PluginFileView| #[trigger]
        leq(a, b) && #[trigger] leq(b, c) implies leq(a, c) by {
        lemma_not_after_transitive(a.name, b.name, c.name);
    }
}

/// One plugin belongs before another: masters that come with the game in the
/// game's order, then those of the saved order in that order, then the rest by
/// kind and name.
pub open spec fn belongs_before(
    a: PluginFileView,
    b: PluginFileView,
    kind: GameKind,
    order: Seq<Seq<char>>,
) -> bool {
    let saved_a = last_position(order, a.name);
    let saved_b = last_position(order, b.name);
    if a.is_vanilla || b.is_vanilla {
        a.is_vanilla && (b.is_vanilla ==> position_in(masters_of(kind), a.name) <= position_in(
            masters_of(kind),
            b.name,
        ))
    } else if saved_a >= 0 || saved_b >= 0 {
        saved_a >= 0 && (saved_b >= 0 ==> saved_a <= saved_b)
    } else {
        by_type_and_name(a, b)
    }
}

/// In the load order every plugin belongs before those that follow it.
pub proof fn load_order_is_layered(
    plugins: Seq<PluginFileView>,
    kind: GameKind,
    order: Seq<Seq<char>>,
    i: int,
    j: int,
)
    requires
        0 <= i < j < load_order_of(plugins, kind, order).len(),
    ensures
        belongs_before(
            load_order_of(plugins, kind, order)[i],
            load_order_of(plugins, kind, order)[j],
            kind,
            order,
        ),
{
    lemma_sorted_filter(
        plugins,
        |p: PluginFileView| p.is_vanilla,
        |a: PluginFileView, b: PluginFileView|
            position_in(masters_of(kind), a.name) <= position_in(masters_of(kind), b.name),
    );
    lemma_sorted_filter(
        plugins,
        |p: PluginFileView| !p.is_vanilla && last_position(order, p.name) >= 0,
        |a: PluginFileView, b: PluginFileView|
            last_position(order, a.name) <= last_position(order, b.name),
    );
    lemma_by_type_and_name_orders();
    lemma_sorted_filter(
        plugins,
        |p: PluginFileView| !p.is_vanilla && last_position(order, p.name) < 0,
        |a: PluginFileView, b: PluginFileView| by_type_and_name(a, b),
    );
    let first = vanilla_part(plugins, kind);
    let second = saved_part(plugins, order);
    let third = new_part(plugins, order);
    let all = load_order_of(plugins, kind, order);
    let n = first.len() as int;
    let m = (first.len() + second.len()) as int;
    if i < n {
        assert(all[i] == first[i]);
    } else if i < m {
        assert(all[i] == second[i - n]);
    } else {
        assert(all[i] == third[i - m]);
    }
    if j < n {
        assert(all[j] == first[j]);
    } else if j < m {
        assert(all[j] == second[j - n]);
    } else {
        assert(all[j] == third[j - m]);
    }
}

impl ModDatabase {
    /// The plugins among the files of the data directory.
    pub fn scan_plugins(&self, kind: GameKind, files: &Vec<String>) -> (r: Vec<PluginFile>)
        ensures
            r.deep_view() == scanned(
                files.deep_view(),
                kind,
                self.deep_view().plugin_disabled,
            ),
    {
        let ghost all = files.deep_view();
        let ghost disabled = self.plugin_disabled.set();
        let vanilla = kind.vanilla_masters();
        let mut r: Vec<PluginFile> = Vec::new();
        assert(scanned(all.take(0), kind, disabled) =~= r.deep_view());
        for i in 0..files.len()
            invariant
                all == files.deep_view(),
                disabled == self.plugin_disabled.set(),
                vanilla.deep_view() == masters_of(kind),
                r.deep_view() == scanned(all.take(i as int), kind, disabled),
        {
            let ghost before = r.deep_view();
            assert(all.take(i + 1).drop_last() =~= all.take(i as int));
            assert(all[i as int] == files@[i as int]@);
            let name = files[i].as_str();
            match kind_by_name(to_lowercase(name).as_str()) {
                Some(k) => {
                    let plugin = PluginFile {
                        name: owned(name),
                        kind: k,
                        enabled: !self.plugin_disabled.contains(name),
                        is_vanilla: is_among(&vanilla, name),
                    };
                    let ghost pv = plugin.deep_view();
                    r.push(plugin);
                    assert(r.deep_view() =~= before.push(pv));
                },
                None => {},
            }
        }
        assert(all.take(all.len() as int) =~= all);
        r
    }

    /// The plugins among the files of the data directory, in load order:
    /// first the masters of the game, then the plugins of the saved order, then
    /// the others by kind and name.
    pub fn get_ordered_plugins(&self, kind: GameKind, files: &Vec<String>) -> (r: Vec<PluginFile>)
        ensures
            r.deep_view() == load_order_of(
                scanned(files.deep_view(), kind, self.deep_view().plugin_disabled),
                kind,
                self.deep_view().plugin_load_order,
            ),
    {
        order_plugins(&self.scan_plugins(kind, files), kind, &self.plugin_load_order)
    }
}

// ── Sorting plugins ─────────────────────────────────────────────────────────

/// One plugin may come before another by their kinds, then by their names
/// without regard to case.
pub open spec fn by_type_and_lowercase(a: PluginFileView, b: PluginFileView) -> bool {
    rank_of(a.kind) < rank_of(b.kind) || (rank_of(a.kind) == rank_of(b.kind) && not_after(
        lowercase(a.name),
        lowercase(b.name),
    ))
}

/// Sorts plugins by their kinds and names.
pub open spec fn sorted_by_type(plugins: Seq<PluginFileView>) -> Seq<PluginFileView> {
    stably_sorted(plugins, |a: PluginFileView, b: PluginFileView| by_type_and_lowercase(a, b))
}

fn sort_plugins_fallback_by_type(plugins: Vec<PluginFile>) -> (r: Vec<PluginFile>)
    ensures
        r.deep_view() == sorted_by_type(plugins.deep_view()),
{
    let by_type = |a: &PluginFile, b: &PluginFile| -> (ok: bool)
        ensures
            ok == by_type_and_lowercase(a.deep_view(), b.deep_view()),
    {
        let x: u8 = a.kind.sort_priority();
        let y: u8 = b.kind.sort_priority();
        x < y || (x == y && !less(
            to_lowercase(b.name.as_str()).as_str(),
            to_lowercase(a.name.as_str()).as_str(),
        ))
    };
    sort_stably(
        plugins,
        by_type,
        Ghost(|a: PluginFileView, b: PluginFileView| by_type_and_lowercase(a, b)),
    )
}

/// The index of the first plugin whose lowercase name is `key`, or their
/// number.
pub open spec fn key_index(plugins: Seq<PluginFileView>, key: Seq<char>) -> int
    decreases plugins.len(),
{
    if plugins.len() == 0 || lowercase(plugins[0].name) == key {
        0
    } else {
        1 + key_index(plugins.skip(1), key)
    }
}

fn find_key(plugins: &Vec<PluginFile>, key: &str) -> (r: usize)
    ensures
        r == key_index(plugins.deep_view(), key@),
        r <= plugins@.len(),
{
    let ghost all = plugins.deep_view();
    let mut i: usize = 0;
    assert(all.skip(0) =~= all);
    while i < plugins.len()
        invariant
            all == plugins.deep_view(),
            i <= plugins@.len(),
            key_index(all, key@) == i + key_index(all.skip(i as int), key@),
        decreases plugins@.len() - i,
    {
        assert(all[i as int] == plugins@[i as int].deep_view());
        assert(all.skip(i as int).skip(1) =~= all.skip(i + 1));
        if same(to_lowercase(plugins[i].name.as_str()).as_str(), key) {
            return i;
        }
        i += 1;
    }
    i
}

proof fn lemma_key_index(plugins: Seq<PluginFileView>, key: Seq<char>)
    ensures
        0 <= key_index(plugins, key) <= plugins.len(),
        key_index(plugins, key) < plugins.len() ==> lowercase(
            plugins[key_index(plugins, key)].name,
        ) == key,
    decreases plugins.len(),
{
    if plugins.len() > 0 && lowercase(plugins[0].name) != key {
        lemma_key_index(plugins.skip(1), key);
    }
}

/// The plugins by their lowercase names: a later one takes the place of an
/// earlier one with the same name.
pub open spec fn by_key(plugins: Seq<PluginFileView>) -> Seq<PluginFileView>
    decreases plugins.len(),
{
    if plugins.len() == 0 {
        plugins
    } else {
        let before = by_key(plugins.drop_last());
        let i = key_index(before, lowercase(plugins.last().name));
        if i < before.len() {
            before.update(i, plugins.last())
        } else {
            before.push(plugins.last())
        }
    }
}

/// The plugins that the names pick one after the other, and those that are
/// left.
pub open spec fn picked(names: Seq<Seq<char>>, plugins: Seq<PluginFileView>) -> (
    Seq<PluginFileView>,
    Seq<PluginFileView>,
)
    decreases names.len(),
{
    if names.len() == 0 {
        (Seq::empty(), plugins)
    } else {
        let (out, rest) = picked(names.drop_last(), plugins);
        let i = key_index(rest, lowercase(names.last()));
        if i < rest.len() {
            (out.push(rest[i]), rest.remove(i))
        } else {
            (out, rest)
        }
    }
}

/// The plugins in the order of the sorted names; plugins that are not among
/// them follow by kind and name.
pub open spec fn in_loot_order(names: Seq<Seq<char>>, plugins: Seq<PluginFileView>) -> Seq<
    PluginFileView,
> {
    let (out, rest) = picked(names, by_key(plugins));
    out + sorted_by_type(rest)
}

/// The plugins after sorting: the masters of the game as they stood, then the
/// others as the sorted names have them or, where sorting failed, by kind and
/// name.
pub open spec fn sorted_plugins(
    ordered: Seq<PluginFileView>,
    loot: Option<Seq<Seq<char>>>,
) -> Seq<PluginFileView> {
    let rest = ordered.filter(|p: PluginFileView| !p.is_vanilla);
    ordered.filter(|p: PluginFileView| p.is_vanilla) + (match loot {
        Some(names) => in_loot_order(names, rest),
        None => sorted_by_type(rest),
    })
}

/// The names of the plugins that do not come with the game.
pub open spec fn order_names(plugins: Seq<PluginFileView>) -> Seq<Seq<char>>
    decreases plugins.len(),
{
    if plugins.len() == 0 {
        Seq::empty()
    } else if plugins.last().is_vanilla {
        order_names(plugins.drop_last())
    } else {
        order_names(plugins.drop_last()).push(plugins.last().name)
    }
}

/// The names of the plugins that are switched off.
pub open spec fn disabled_names(plugins: Seq<PluginFileView>) -> Set<Seq<char>>
    decreases plugins.len(),
{
    if plugins.len() == 0 {
        Set::empty()
    } else if plugins.last().enabled {
        disabled_names(plugins.drop_last())
    } else {
        disabled_names(plugins.drop_last()).insert(plugins.last().name)
    }
}

/// The database with the order and the state of the given plugins.
pub open spec fn with_plugin_order(db: ModDatabaseView, plugins: Seq<PluginFileView>) ->
    ModDatabaseView {
    ModDatabaseView {
        plugin_load_order: order_names(plugins),
        plugin_disabled: disabled_names(plugins),
        ..db
    }
}

fn index_by_key(plugins: Vec<PluginFile>) -> (r: Vec<PluginFile>)
    ensures
        r.deep_view() == by_key(plugins.deep_view()),
{
    let ghost all = plugins.deep_view();
    let mut r: Vec<PluginFile> = Vec::new();
    assert(by_key(all.take(0)) =~= r.deep_view());
    for i in 0..plugins.len()
        invariant
            all == plugins.deep_view(),
            r.deep_view() == by_key(all.take(i as int)),
    {
        let ghost before = r.deep_view();
        assert(all.take(i + 1).drop_last() =~= all.take(i as int));
        assert(all[i as int] == plugins@[i as int].deep_view());
        let key = to_lowercase(plugins[i].name.as_str());
        let k = find_key(&r, key.as_str());
        if k < r.len() {
            r.set(k, plugins[i].clone());
            assert(r.deep_view() =~= before.update(k as int, all[i as int]));
        } else {
            r.push(plugins[i].clone());
            assert(r.deep_view() =~= before.push(all[i as int]));
        }
    }
    assert(all.take(all.len() as int) =~= all);
    r
}

fn sort_by_names(names: &Vec<String>, plugins: Vec<PluginFile>) -> (r: Vec<PluginFile>)
    ensures
        r.deep_view() == in_loot_order(names.deep_view(), plugins.deep_view()),
{
    let ghost ns = names.deep_view();
    let ghost start = by_key(plugins.deep_view());
    let mut rest = index_by_key(plugins);
    let mut out: Vec<PluginFile> = Vec::new();
    assert(out.deep_view() =~= picked(ns.take(0), start).0);
    for i in 0..names.len()
        invariant
            ns == names.deep_view(),
            picked(ns.take(i as int), start) == (out.deep_view(), rest.deep_view()),
    {
        let ghost o = out.deep_view();
        let ghost left = rest.deep_view();
        assert(ns.take(i + 1).drop_last() =~= ns.take(i as int));
        assert(ns[i as int] == names@[i as int]@);
        let k = find_key(&rest, to_lowercase(names[i].as_str()).as_str());
        if k < rest.len() {
            let p = rest.remove(k);
            let ghost pv = p.deep_view();
            assert(pv == left[k as int]);
            assert(rest.deep_view() =~= left.remove(k as int));
            out.push(p);
            assert(out.deep_view() =~= o.push(pv));
        }
    }
    assert(ns.take(ns.len() as int) =~= ns);
    let ghost o = out.deep_view();
    let mut last = sort_plugins_fallback_by_type(rest);
    let ghost l = last.deep_view();
    out.append(&mut last);
    assert(out.deep_view() =~= o + l);
    out
}

/// What the LOOT library is given to sort the plugins of a game.
pub struct LootRequest {
    /// The directory of the game.
    pub game_path: String,
    /// The directory with the game's `plugins.txt`.
    pub local_path: String,
    /// The paths of the plugins, which are loaded first.
    pub plugin_paths: Vec<String>,
    /// The names of the plugins, in their present order.
    pub plugin_names: Vec<String>,
}

/// The names of the plugins.
pub open spec fn names_of(plugins: Seq<PluginFileView>) -> Seq<Seq<char>> {
    plugins.map_values(|p: PluginFileView| p.name)
}

impl ModDatabase {
    /// What is asked of the LOOT library for the given plugins.  Where the
    /// directory of the `plugins.txt` is not known, the directory of the game
    /// stands in for it.
    pub fn try_sort_with_loot(
        plugins: &Vec<PluginFile>,
        game: &Game,
        plugins_txt_dir: Option<String>,
    ) -> (r: LootRequest)
        ensures
            r.game_path@ == game.deep_view().root_path,
            r.local_path@ == (match plugins_txt_dir.deep_view() {
                Some(dir) => dir,
                None => game.deep_view().root_path,
            }),
            r.plugin_names.deep_view() == names_of(plugins.deep_view()),
            r.plugin_paths.deep_view() == names_of(plugins.deep_view()).map_values(
                |name: Seq<char>| joined(game.deep_view().data_path, name),
            ),
    {
        let ghost all = plugins.deep_view();
        let ghost data = game.deep_view().data_path;
        let mut names: Vec<String> = Vec::new();
        let mut paths: Vec<String> = Vec::new();
        for i in 0..plugins.len()
            invariant
                all == plugins.deep_view(),
                data == game.deep_view().data_path,
                names@.len() == i,
                paths@.len() == i,
                forall|j: int| 0 <= j < i ==> (#[trigger] names@[j])@ == all[j].name,
                forall|j: int| 0 <= j < i ==> (#[trigger] paths@[j])@ == joined(data, all[j].name),
        {
            assert(all[i as int] == plugins@[i as int].deep_view());
            names.push(owned(plugins[i].name.as_str()));
            paths.push(join(game.data_path.as_str(), plugins[i].name.as_str()));
        }
        assert(names.deep_view() =~= names_of(all));
        assert(paths.deep_view() =~= names_of(all).map_values(
            |name: Seq<char>| joined(data, name),
        ));
        LootRequest {
            game_path: owned(game.root_path.as_str()),
            local_path: match plugins_txt_dir {
                Some(dir) => dir,
                None => owned(game.root_path.as_str()),
            },
            plugin_paths: paths,
            plugin_names: names,
        }
    }
}

impl ModDatabase {
    /// The plugins that are sorted: those that do not come with the game, in
    /// load order.
    pub fn plugins_to_sort(&self, kind: GameKind, files: &Vec<String>) -> (r: Vec<PluginFile>)
        ensures
            r.deep_view() == load_order_of(
                scanned(files.deep_view(), kind, self.deep_view().plugin_disabled),
                kind,
                self.deep_view().plugin_load_order,
            ).filter(|p: PluginFileView| !p.is_vanilla),
    {
        let is_other = |p: &PluginFile| -> (b: bool)
            ensures
                b == !p.is_vanilla,
        {
            !p.is_vanilla
        };
        select_plugins(
            &self.get_ordered_plugins(kind, files),
            is_other,
            Ghost(|p: PluginFileView| !p.is_vanilla),
        )
    }

    /// Saves the plugins in the order in which the LOOT library has sorted
    /// them or, where that failed, by kind and name.  The masters of the game
    /// stay in front.
    pub fn sort_plugins_by_type(
        &mut self,
        kind: GameKind,
        files: &Vec<String>,
        loot: Result<Vec<String>, String>,
    )
        ensures
            final(self).deep_view() == with_plugin_order(
                old(self).deep_view(),
                sorted_plugins(
                    load_order_of(
                        scanned(files.deep_view(), kind, old(self).deep_view().plugin_disabled),
                        kind,
                        old(self).deep_view().plugin_load_order,
                    ),
                    match loot {
                        Ok(names) => Some(names.deep_view()),
                        Err(_) => None,
                    },
                ),
            ),
    {
        let plugins = self.get_ordered_plugins(kind, files);
        let is_vanilla = |p: &PluginFile| -> (b: bool)
            ensures
                b == p.is_vanilla,
        {
            p.is_vanilla
        };
        let mut ordered = select_plugins(
            &plugins,
            is_vanilla,
            Ghost(|p: PluginFileView| p.is_vanilla),
        );
        let others = self.plugins_to_sort(kind, files);
        let ghost o = ordered.deep_view();
        let mut sorted = match &loot {
            Ok(names) => sort_by_names(names, others),
            Err(_) => sort_plugins_fallback_by_type(others),
        };
        let ghost s = sorted.deep_view();
        ordered.append(&mut sorted);
        assert(ordered.deep_view() =~= o + s);
        self.set_plugin_order(&ordered);
    }

    /// Saves the order and the state of the given plugins.
    pub fn set_plugin_order(&mut self, plugins: &Vec<PluginFile>)
        ensures
            final(self).deep_view() == with_plugin_order(
                old(self).deep_view(),
                plugins.deep_view(),
            ),
    {
        let ghost all = plugins.deep_view();
        let mut order: Vec<String> = Vec::new();
        let mut disabled = NameSet::new();
        assert(order.deep_view() =~= order_names(all.take(0)));
        for i in 0..plugins.len()
            invariant
                all == plugins.deep_view(),
                order.deep_view() == order_names(all.take(i as int)),
                disabled.set() == disabled_names(all.take(i as int)),
        {
            let ghost before = order.deep_view();
            assert(all.take(i + 1).drop_last() =~= all.take(i as int));
            assert(all[i as int] == plugins@[i as int].deep_view());
            let p = &plugins[i];
            if !p.is_vanilla {
                order.push(owned(p.name.as_str()));
                assert(order.deep_view() =~= before.push(all[i as int].name));
            }
            if !p.enabled {
                disabled.insert(p.name.as_str());
            }
        }
        assert(all.take(all.len() as int) =~= all);
        self.plugin_load_order = order;
        self.plugin_disabled = disabled;
        assert(self.deep_view() =~= with_plugin_order(old(self).deep_view(), all));
    }
}

/// No two plugins have the same name but for case.
pub open spec fn distinct_keys(plugins: Seq<PluginFileView>) -> bool {
    forall|i: int, j: int|
        0 <= i < j < plugins.len() ==> lowercase((#[trigger] plugins[i]).name) != lowercase(
            (#[trigger] plugins[j]).name,
        )
}

proof fn lemma_by_key_distinct(plugins: Seq<PluginFileView>)
    requires
        distinct_keys(plugins),
    ensures
        by_key(plugins) == plugins,
    decreases plugins.len(),
{
    if plugins.len() > 0 {
        let rest = plugins.drop_last();
        assert forall|i: int, j: int| 0 <= i < j < rest.len() implies lowercase(
            (#[trigger] rest[i]).name,
        ) != lowercase((#[trigger] rest[j]).name) by {
            assert(plugins[i] == rest[i] && plugins[j] == rest[j]);
        }
        lemma_by_key_distinct(rest);
        let key = lowercase(plugins.last().name);
        lemma_key_index(rest, key);
        let k = key_index(rest, key);
        if k < rest.len() {
            assert(plugins[k] == rest[k]);
            assert(lowercase(plugins[k].name) != lowercase(plugins[plugins.len() - 1].name));
        }
        assert(rest.push(plugins.last()) =~= plugins);
    }
}

proof fn lemma_picked_keeps(names: Seq<Seq<char>>, plugins: Seq<PluginFileView>)
    ensures
        picked(names, plugins).0.to_multiset().add(picked(names, plugins).1.to_multiset())
            =~= plugins.to_multiset(),
    decreases names.len(),
{
    broadcast use vstd::seq_lib::group_to_multiset_ensures;

    if names.len() > 0 {
        lemma_picked_keeps(names.drop_last(), plugins);
        let (out, rest) = picked(names.drop_last(), plugins);
        let key = lowercase(names.last());
        lemma_key_index(rest, key);
        let i = key_index(rest, key);
        if i < rest.len() {
            vstd::seq_lib::to_multiset_remove(rest, i);
            assert(rest.to_multiset().contains(rest[i])) by {
                assert(rest.contains(rest[i]));
            }
        }
    } else {
        assert(Seq::<PluginFileView>::empty().to_multiset() =~= vstd::multiset::Multiset::empty());
    }
}

/// Sorting by kind and name puts masters before light plugins and these before
/// regular ones, and plugins of one kind in the order of their lowercase names.
pub proof fn sorting_by_type_is_in_order(plugins: Seq<PluginFileView>, i: int, j: int)
    requires
        0 <= i < j < plugins.len(),
    ensures
        sorted_by_type(plugins).len() == plugins.len(),
        by_type_and_lowercase(sorted_by_type(plugins)[i], sorted_by_type(plugins)[j]),
{
    let leq = |a: PluginFileView, b: PluginFileView| by_type_and_lowercase(a, b);
    assert forall|a: PluginFileView, b: PluginFileView| #[trigger] leq(a, b) || leq(b, a) by {
        lemma_precedes_total(lowercase(a.name), lowercase(b.name));
    }
    assert forall|a: PluginFileView, b: PluginFileView, c: PluginFileView| #[trigger]
        leq(a, b) && #[trigger] leq(b, c) implies leq(a, c) by {
        lemma_not_after_transitive(lowercase(a.name), lowercase(b.name), lowercase(c.name));
    }
    lemma_stably_sorted(plugins, leq);
    assert(leq(sorted_by_type(plugins)[i], sorted_by_type(plugins)[j]));
}

/// Sorting neither loses nor adds plugins, whatever names came back, as long as
/// no two plugins have the same name but for case.
pub proof fn sorting_keeps_all_plugins(names: Seq<Seq<char>>, plugins: Seq<PluginFileView>)
    requires
        distinct_keys(plugins),
    ensures
        in_loot_order(names, plugins).to_multiset() == plugins.to_multiset(),
{
    lemma_by_key_distinct(plugins);
    lemma_picked_keeps(names, plugins);
    let (out, rest) = picked(names, plugins);
    lemma_sorted_keeps(
        rest,
        |a: PluginFileView, b: PluginFileView| by_type_and_lowercase(a, b),
    );
    vstd::seq_lib::lemma_multiset_commutative(out, sorted_by_type(rest));
}

// ── plugins.txt ─────────────────────────────────────────────────────────────

/// The line for a plugin: a star in front tells that it is enabled.
pub open spec fn plugin_line(p: PluginFileView) -> Seq<char> {
    if p.enabled {
        "*"@ + p.name
    } else {
        p.name
    }
}

/// The comment at the top of a `plugins.txt`.
pub open spec fn plugins_txt_header() -> Seq<char> {
    "# This file is used by the game to determine which plugins are active."@
}

/// The text of a `plugins.txt`.
pub open spec fn plugins_txt_of(plugins: Seq<PluginFileView>) -> Seq<char>
    decreases plugins.len(),
{
    if plugins.len() == 0 {
        plugins_txt_header() + "\n"@
    } else {
        plugins_txt_of(plugins.drop_last()) + plugin_line(plugins.last()) + "\n"@
    }
}

/// The name and the state that a line declares.
pub open spec fn line_entry(line: Seq<char>) -> Option<(Seq<char>, bool)> {
    let t = trimmed(line);
    if t.len() == 0 || t[0] == '#' {
        None
    } else if t[0] == '*' {
        Some((t.skip(1), true))
    } else {
        Some((t, false))
    }
}

/// The names and states that the lines declare.
pub open spec fn line_entries(lines: Seq<Seq<char>>) -> Seq<(Seq<char>, bool)>
    decreases lines.len(),
{
    if lines.len() == 0 {
        Seq::empty()
    } else {
        let before = line_entries(lines.drop_last());
        match line_entry(lines.last()) {
            Some(e) => before.push(e),
            None => before,
        }
    }
}

/// The names.
pub open spec fn entry_names(entries: Seq<(Seq<char>, bool)>) -> Seq<Seq<char>> {
    entries.map_values(|e: (Seq<char>, bool)| e.0)
}

/// The names that are switched off.
pub open spec fn entry_disabled(entries: Seq<(Seq<char>, bool)>) -> Set<Seq<char>>
    decreases entries.len(),
{
    if entries.len() == 0 {
        Set::empty()
    } else if entries.last().1 {
        entry_disabled(entries.drop_last())
    } else {
        entry_disabled(entries.drop_last()).insert(entries.last().0)
    }
}

/// The database with the order and the state that the text of a `plugins.txt`
/// declares, if it declares any.
pub open spec fn synced(db: ModDatabaseView, text: Seq<char>) -> ModDatabaseView {
    let entries = line_entries(lines_of(text));
    if entries.len() == 0 {
        db
    } else {
        ModDatabaseView {
            plugin_load_order: entry_names(entries),
            plugin_disabled: entry_disabled(entries),
            ..db
        }
    }
}

/// The text of a `plugins.txt` for the given plugins.
pub fn plugins_txt(plugins: &Vec<PluginFile>) -> (r: String)
    ensures
        r@ == plugins_txt_of(plugins.deep_view()),
{
    let ghost all = plugins.deep_view();
    let mut r = concat2(
        "# This file is used by the game to determine which plugins are active.",
        "\n",
    );
    assert(r@ == plugins_txt_of(all.take(0)));
    for i in 0..plugins.len()
        invariant
            all == plugins.deep_view(),
            r@ == plugins_txt_of(all.take(i as int)),
    {
        assert(all.take(i + 1).drop_last() =~= all.take(i as int));
        assert(all[i as int] == plugins@[i as int].deep_view());
        let p = &plugins[i];
        let line = if p.enabled {
            concat2("*", p.name.as_str())
        } else {
            owned(p.name.as_str())
        };
        r = concat2(concat2(r.as_str(), line.as_str()).as_str(), "\n");
    }
    assert(all.take(all.len() as int) =~= all);
    r
}

impl ModDatabase {
    /// The text of the `plugins.txt` for the plugins among the files of the
    /// data directory.
    pub fn write_plugins_txt(&self, kind: GameKind, files: &Vec<String>) -> (r: String)
        ensures
            r@ == plugins_txt_of(
                load_order_of(
                    scanned(files.deep_view(), kind, self.deep_view().plugin_disabled),
                    kind,
                    self.deep_view().plugin_load_order,
                ),
            ),
    {
        plugins_txt(&self.get_ordered_plugins(kind, files))
    }

    /// Takes over the order and the state that the text of a `plugins.txt`
    /// declares, if it declares any.
    pub fn sync_from_plugins_txt(&mut self, contents: &str)
        ensures
            final(self).deep_view() == synced(old(self).deep_view(), contents@),
    {
        let all_lines = lines(contents);
        let ghost ls = all_lines.deep_view();
        let mut order: Vec<String> = Vec::new();
        let mut disabled = NameSet::new();
        assert(order.deep_view() =~= entry_names(line_entries(ls.take(0))));
        for i in 0..all_lines.len()
            invariant
                ls == all_lines.deep_view(),
                order.deep_view() == entry_names(line_entries(ls.take(i as int))),
                order@.len() == line_entries(ls.take(i as int)).len(),
                disabled.set() == entry_disabled(line_entries(ls.take(i as int))),
        {
            let ghost before = order.deep_view();
            let ghost entries = line_entries(ls.take(i as int));
            assert(ls.take(i + 1).drop_last() =~= ls.take(i as int));
            assert(ls[i as int] == all_lines@[i as int]@);
            let line = trim(all_lines[i].as_str());
            proof {
                reveal_strlit("#");
                reveal_strlit("*");
                if line@.len() > 0 {
                    assert(line@.take(1) =~= seq![line@[0]]);
                    assert("#"@ =~= seq!['#']);
                    assert("*"@ =~= seq!['*']);
                    assert(seq![line@[0]][0] == line@[0]);
                    assert(seq!['#'][0] == '#');
                    assert(seq!['*'][0] == '*');
                }
            }
            if !starts_with(line.as_str(), "#") && !line.as_str().is_empty() {
                match strip_prefix(line.as_str(), "*") {
                    Some(name) => {
                        let ghost nv = name@;
                        order.push(name);
                        assert(order.deep_view() =~= before.push(nv));
                        assert(line_entries(ls.take(i + 1)) == entries.push((nv, true)));
                        assert(entries.push((nv, true)).drop_last() =~= entries);
                    },
                    None => {
                        disabled.insert(line.as_str());
                        let ghost nv = line@;
                        order.push(line);
                        assert(order.deep_view() =~= before.push(nv));
                        assert(line_entries(ls.take(i + 1)) == entries.push((nv, false)));
                        assert(entries.push((nv, false)).drop_last() =~= entries);
                    },
                }
                assert(order.deep_view() =~= entry_names(line_entries(ls.take(i + 1))));
            }
        }
        assert(ls.take(ls.len() as int) =~= ls);
        if order.len() > 0 {
            self.plugin_load_order = order;
            self.plugin_disabled = disabled;
        }
        assert(self.deep_view() =~= synced(old(self).deep_view(), contents@));
    }
}

/// The name can stand in a `plugins.txt`: it starts and ends with something
/// other than white space, does not look like a comment or an enabled plugin,
/// and is one line.
pub open spec fn is_plain_name(name: Seq<char>) -> bool {
    &&& name.len() > 0
    &&& !is_white_space(name[0])
    &&& !is_white_space(name.last())
    &&& name[0] != '#'
    &&& name[0] != '*'
    &&& !name.contains('\n')
}

proof fn lemma_pieces_extend(s: Seq<char>, x: Seq<char>, c: char)
    requires
        !x.contains(c),
    ensures
        pieces(s + x, c) == pieces(s, c).drop_last().push(pieces(s, c).last() + x),
    decreases x.len(),
{
    let p = pieces(s, c);
    lemma_pieces_nonempty(s, c);
    if x.len() == 0 {
        assert(s + x =~= s);
        assert(p.last() + x =~= p.last());
        assert(p.drop_last().push(p.last()) =~= p);
    } else {
        let y = x.drop_last();
        assert forall|i: int| 0 <= i < y.len() implies y[i] != c by {
            assert(x[i] == y[i]);
            assert(x.contains(x[i]));
        }
        lemma_pieces_extend(s, y, c);
        assert((s + x).drop_last() =~= s + y);
        assert(x.contains(x.last()));
        let q = p.drop_last().push(p.last() + y);
        assert(q.drop_last() =~= p.drop_last());
        assert((p.last() + y).push(x.last()) =~= p.last() + x);
    }
}

proof fn lemma_pieces_line(s: Seq<char>, x: Seq<char>)
    requires
        !x.contains('\n'),
        pieces(s, '\n').last().len() == 0,
    ensures
        pieces(s + x + "\n"@, '\n') == pieces(s, '\n').drop_last().push(x).push(Seq::empty()),
{
    reveal_strlit("\n");
    lemma_pieces_extend(s, x, '\n');
    lemma_pieces_nonempty(s, '\n');
    assert(pieces(s, '\n').last() + x =~= x);
    assert((s + x + "\n"@).drop_last() =~= s + x);
    assert((s + x + "\n"@).last() == '\n');
}

/// The lines of a `plugins.txt`.
spec fn txt_lines(plugins: Seq<PluginFileView>) -> Seq<Seq<char>>
    decreases plugins.len(),
{
    if plugins.len() == 0 {
        seq![plugins_txt_header()]
    } else {
        txt_lines(plugins.drop_last()).push(plugin_line(plugins.last()))
    }
}

proof fn lemma_header()
    ensures
        !plugins_txt_header().contains('\n'),
        plugins_txt_header().len() > 0,
        plugins_txt_header()[0] == '#',
        plugins_txt_header().last() == '.',
{
    reveal_strlit("# This file is used by the game to determine which plugins are active.");
}

proof fn lemma_plain_line(p: PluginFileView)
    requires
        is_plain_name(p.name),
    ensures
        !plugin_line(p).contains('\n'),
        without_cr(plugin_line(p)) == plugin_line(p),
        line_entry(plugin_line(p)) == Some((p.name, p.enabled)),
{
    reveal_strlit("*");
    let line = plugin_line(p);
    assert(line.last() == p.name.last());
    if p.enabled {
        assert(line.skip(1) =~= p.name);
        assert forall|i: int| 0 <= i < line.len() implies line[i] != '\n' by {
            if i > 0 {
                assert(line[i] == p.name[i - 1]);
                assert(p.name.contains(p.name[i - 1]));
            }
        }
    }
    assert(trimmed(line) == line);
}

proof fn lemma_txt_pieces(plugins: Seq<PluginFileView>)
    requires
        forall|i: int| 0 <= i < plugins.len() ==> is_plain_name((#[trigger] plugins[i]).name),
    ensures
        pieces(plugins_txt_of(plugins), '\n') == txt_lines(plugins).push(Seq::empty()),
    decreases plugins.len(),
{
    if plugins.len() == 0 {
        lemma_header();
        let h = plugins_txt_header();
        assert(pieces(Seq::<char>::empty(), '\n') =~= seq![Seq::<char>::empty()]);
        lemma_pieces_line(Seq::empty(), h);
        assert(Seq::<char>::empty() + h + "\n"@ =~= h + "\n"@);
        assert(seq![Seq::<char>::empty()].drop_last().push(h) =~= seq![h]);
    } else {
        let rest = plugins.drop_last();
        assert forall|i: int| 0 <= i < rest.len() implies is_plain_name(
            (#[trigger] rest[i]).name,
        ) by {
            assert(plugins[i] == rest[i]);
        }
        lemma_txt_pieces(rest);
        assert(is_plain_name(plugins[plugins.len() - 1].name));
        lemma_plain_line(plugins.last());
        lemma_pieces_line(plugins_txt_of(rest), plugin_line(plugins.last()));
        let p = txt_lines(rest).push(Seq::empty());
        assert(p.drop_last() =~= txt_lines(rest));
    }
}

proof fn lemma_txt_entries(plugins: Seq<PluginFileView>)
    requires
        forall|i: int| 0 <= i < plugins.len() ==> is_plain_name((#[trigger] plugins[i]).name),
    ensures
        txt_lines(plugins).map_values(|l: Seq<char>| without_cr(l)) == txt_lines(plugins),
        line_entries(txt_lines(plugins)) == plugins.map_values(
            |p: PluginFileView| (p.name, p.enabled),
        ),
        entry_disabled(line_entries(txt_lines(plugins))) == disabled_names(plugins),
    decreases plugins.len(),
{
    let f = |l: Seq<char>| without_cr(l);
    let g = |p: PluginFileView| (p.name, p.enabled);
    if plugins.len() == 0 {
        lemma_header();
        let h = plugins_txt_header();
        assert(txt_lines(plugins).map_values(f) =~= txt_lines(plugins));
        assert(trimmed(h)[0] == '#' || trimmed(h).len() == 0);
        assert(txt_lines(plugins).drop_last() =~= Seq::empty());
        assert(line_entries(txt_lines(plugins).drop_last()) =~= Seq::empty());
        assert(line_entries(txt_lines(plugins)) =~= plugins.map_values(g));
    } else {
        let rest = plugins.drop_last();
        assert forall|i: int| 0 <= i < rest.len() implies is_plain_name(
            (#[trigger] rest[i]).name,
        ) by {
            assert(plugins[i] == rest[i]);
        }
        lemma_txt_entries(rest);
        assert(is_plain_name(plugins[plugins.len() - 1].name));
        lemma_plain_line(plugins.last());
        let l = txt_lines(rest);
        assert(txt_lines(plugins).drop_last() =~= l);
        assert(txt_lines(plugins).map_values(f) =~= l.map_values(f).push(
            plugin_line(plugins.last()),
        ));
        assert(line_entries(txt_lines(plugins)) =~= plugins.map_values(g));
        assert(line_entries(txt_lines(plugins)).drop_last() =~= line_entries(l));
    }
}

/// Reading back the `plugins.txt` that was written for some plugins gives their
/// order and their state.
pub proof fn plugins_txt_is_read_back(db: ModDatabaseView, plugins: Seq<PluginFileView>)
    requires
        plugins.len() > 0,
        forall|i: int| 0 <= i < plugins.len() ==> is_plain_name((#[trigger] plugins[i]).name),
    ensures
        synced(db, plugins_txt_of(plugins)) == (ModDatabaseView {
            plugin_load_order: plugins.map_values(|p: PluginFileView| p.name),
            plugin_disabled: disabled_names(plugins),
            ..db
        }),
{
    lemma_txt_pieces(plugins);
    lemma_txt_entries(plugins);
    let text = plugins_txt_of(plugins);
    let p = pieces(text, '\n');
    assert(p.drop_last() =~= txt_lines(plugins));
    assert(lines_of(text) =~= txt_lines(plugins));
    let entries = line_entries(lines_of(text));
    assert(entry_names(entries) =~= plugins.map_values(|p: PluginFileView| p.name));
}

// ── Laws of saving and scanning ─────────────────────────────────────────────

/// The name is that of a plugin, by its extension in any case.
pub open spec fn names_plugin(name: Seq<char>) -> bool {
    ".esm"@.is_suffix_of(lowercase(name)) || ".esl"@.is_suffix_of(lowercase(name))
        || ".esp"@.is_suffix_of(lowercase(name))
}

/// The kind of a plugin is the one that the extension of its name tells.
pub open spec fn kind_fits_name(p: PluginFileView) -> bool {
    match p.kind {
        PluginKind::Master => ".esm"@.is_suffix_of(lowercase(p.name)),
        PluginKind::Light => ".esl"@.is_suffix_of(lowercase(p.name)),
        PluginKind::Plugin => ".esp"@.is_suffix_of(lowercase(p.name)),
    }
}

proof fn lemma_extensions_differ(lower: Seq<char>)
    ensures
        !(".esm"@.is_suffix_of(lower) && ".esl"@.is_suffix_of(lower)),
        !(".esm"@.is_suffix_of(lower) && ".esp"@.is_suffix_of(lower)),
        !(".esl"@.is_suffix_of(lower) && ".esp"@.is_suffix_of(lower)),
        has_suffix(lower, ".esm"@) == ".esm"@.is_suffix_of(lower),
        has_suffix(lower, ".esl"@) == ".esl"@.is_suffix_of(lower),
        has_suffix(lower, ".esp"@) == ".esp"@.is_suffix_of(lower),
{
    reveal_strlit(".esm");
    reveal_strlit(".esl");
    reveal_strlit(".esp");
    if lower.len() >= 4 {
        let end = lower.subrange(lower.len() - 4, lower.len() as int);
        assert(".esm"@[3] == 'm' && ".esl"@[3] == 'l' && ".esp"@[3] == 'p');
        assert(end[3] == lower.last());
    }
}

/// A scan gives the plugins among the files, as they are listed: each of the
/// kind that its extension tells, a master of the game if it is one of these,
/// and enabled unless its name is switched off.
pub proof fn scan_finds_the_plugins(
    files: Seq<Seq<char>>,
    kind: GameKind,
    disabled: Set<Seq<char>>,
)
    ensures
        scanned(files, kind, disabled).map_values(|p: PluginFileView| p.name) == files.filter(
            |f: Seq<char>| names_plugin(f),
        ),
        forall|i: int|
            0 <= i < scanned(files, kind, disabled).len() ==> {
                let p = #[trigger] scanned(files, kind, disabled)[i];
                &&& kind_fits_name(p)
                &&& p.enabled <==> !disabled.contains(p.name)
                &&& p.is_vanilla <==> masters_of(kind).contains(p.name)
            },
    decreases files.len(),
{
    reveal(Seq::filter);
    let name_of = |p: PluginFileView| p.name;
    let is_plugin = |f: Seq<char>| names_plugin(f);
    let all = scanned(files, kind, disabled);
    if files.len() > 0 {
        let rest = files.drop_last();
        let before = scanned(rest, kind, disabled);
        scan_finds_the_plugins(rest, kind, disabled);
        lemma_extensions_differ(lowercase(files.last()));
        if names_plugin(files.last()) {
            assert(all.map_values(name_of) =~= before.map_values(name_of).push(files.last()));
        }
        assert forall|i: int| 0 <= i < all.len() implies {
            let p = #[trigger] all[i];
            &&& kind_fits_name(p)
            &&& p.enabled <==> !disabled.contains(p.name)
            &&& p.is_vanilla <==> masters_of(kind).contains(p.name)
        } by {
            if i < before.len() {
                assert(all[i] == before[i]);
            }
        }
    } else {
        assert(all.map_values(name_of) =~= files.filter(is_plugin));
    }
}

/// Saving plugins keeps the order of those that do not come with the game, and
/// switches off exactly the names of those that are not enabled.  Nothing else
/// in the database changes.
pub proof fn saving_keeps_order_and_state(db: ModDatabaseView, plugins: Seq<PluginFileView>)
    ensures
        with_plugin_order(db, plugins) == (ModDatabaseView {
            plugin_load_order: plugins.filter(|p: PluginFileView| !p.is_vanilla).map_values(
                |p: PluginFileView| p.name,
            ),
            plugin_disabled: with_plugin_order(db, plugins).plugin_disabled,
            ..db
        }),
        forall|name: Seq<char>| #[trigger]
            with_plugin_order(db, plugins).plugin_disabled.contains(name) <==> exists|i: int|
                0 <= i < plugins.len() && (#[trigger] plugins[i]).name == name
                    && !plugins[i].enabled,
    decreases plugins.len(),
{
    reveal(Seq::filter);
    let others = |p: PluginFileView| !p.is_vanilla;
    let name_of = |p: PluginFileView| p.name;
    if plugins.len() > 0 {
        let rest = plugins.drop_last();
        let last = plugins.last();
        saving_keeps_order_and_state(db, rest);
        let before = with_plugin_order(db, rest);
        let after = with_plugin_order(db, plugins);
        if !last.is_vanilla {
            assert(plugins.filter(others).map_values(name_of) =~= rest.filter(others).map_values(
                name_of,
            ).push(last.name));
        }
        assert forall|name: Seq<char>| #[trigger] after.plugin_disabled.contains(name)
            <==> exists|i: int|
            0 <= i < plugins.len() && (#[trigger] plugins[i]).name == name && !plugins[i].enabled by {
            assert(before.plugin_disabled.contains(name) <==> exists|i: int|
                0 <= i < rest.len() && (#[trigger] rest[i]).name == name && !rest[i].enabled);
            if exists|i: int|
                0 <= i < rest.len() && (#[trigger] rest[i]).name == name && !rest[i].enabled {
                let i = choose|i: int|
                    0 <= i < rest.len() && (#[trigger] rest[i]).name == name && !rest[i].enabled;
                assert(plugins[i] == rest[i]);
            }
            if exists|i: int|
                0 <= i < plugins.len() && (#[trigger] plugins[i]).name == name
                    && !plugins[i].enabled {
                let i = choose|i: int|
                    0 <= i < plugins.len() && (#[trigger] plugins[i]).name == name
                        && !plugins[i].enabled;
                if i < rest.len() {
                    assert(rest[i] == plugins[i]);
                }
            }
            assert(plugins[plugins.len() - 1] == last);
        }
    } else {
        assert(plugins.filter(others).map_values(name_of) =~= Seq::empty());
    }
}

proof fn lemma_position_in(list: Seq<Seq<char>>, name: Seq<char>)
    ensures
        0 <= position_in(list, name) <= list.len(),
        list.contains(name) ==> position_in(list, name) < list.len() && list[position_in(
            list,
            name,
        )] == name,
    decreases list.len(),
{
    if list.len() > 0 && list[0] != name {
        lemma_position_in(list.skip(1), name);
        if list.contains(name) {
            let i = choose|i: int| 0 <= i < list.len() && list[i] == name;
            assert(list.skip(1)[i - 1] == name);
        }
    }
}

proof fn lemma_last_occurrence(list: Seq<Seq<char>>, name: Seq<char>)
    ensures
        -1 <= last_position(list, name) < list.len(),
        list.contains(name) <==> last_position(list, name) >= 0,
        last_position(list, name) >= 0 ==> list[last_position(list, name)] == name,
    decreases list.len(),
{
    if list.len() > 0 {
        let rest = list.drop_last();
        lemma_last_occurrence(rest, name);
        if list.last() == name {
            assert(list[list.len() - 1] == name);
        } else if list.contains(name) {
            let i = choose|i: int| 0 <= i < list.len() && list[i] == name;
            assert(rest[i] == name);
        } else if rest.contains(name) {
            let i = choose|i: int| 0 <= i < rest.len() && rest[i] == name;
            assert(list[i] == name);
        }
    }
}

/// The load order, of any two plugins in it: masters that come with the game
/// are first, in the game's order; then come those of the saved order, in that
/// order; then the others, masters before light plugins before regular ones,
/// and those of one kind by name.
pub proof fn load_order_follows_the_rules(
    plugins: Seq<PluginFileView>,
    kind: GameKind,
    order: Seq<Seq<char>>,
    i: int,
    j: int,
)
    requires
        0 <= i < j < load_order_of(plugins, kind, order).len(),
    ensures
        ({
            let x = load_order_of(plugins, kind, order)[i];
            let y = load_order_of(plugins, kind, order)[j];
            let masters = masters_of(kind);
            &&& y.is_vanilla ==> x.is_vanilla
            &&& x.is_vanilla && y.is_vanilla && masters.no_duplicates() ==> forall|a: int, b: int|
                0 <= a < masters.len() && 0 <= b < masters.len() && #[trigger] masters[a] == x.name
                    && #[trigger] masters[b] == y.name ==> a <= b
            &&& !x.is_vanilla && order.contains(y.name) ==> order.contains(x.name)
            &&& !x.is_vanilla && order.no_duplicates() ==> forall|a: int, b: int|
                0 <= a < order.len() && 0 <= b < order.len() && #[trigger] order[a] == x.name
                    && #[trigger] order[b] == y.name ==> a <= b
            &&& !x.is_vanilla && !order.contains(x.name) ==> {
                &&& x.kind == PluginKind::Plugin ==> y.kind == PluginKind::Plugin
                &&& x.kind == PluginKind::Light ==> y.kind != PluginKind::Master
                &&& x.kind == y.kind ==> !precedes(y.name, x.name)
            }
        }),
{
    load_order_is_layered(plugins, kind, order, i, j);
    let x = load_order_of(plugins, kind, order)[i];
    let y = load_order_of(plugins, kind, order)[j];
    let masters = masters_of(kind);
    lemma_last_occurrence(order, x.name);
    lemma_last_occurrence(order, y.name);
    lemma_position_in(masters, x.name);
    lemma_position_in(masters, y.name);
    lemma_precedes_total(x.name, y.name);
    if x.is_vanilla && y.is_vanilla && masters.no_duplicates() {
        assert forall|a: int, b: int|
            0 <= a < masters.len() && 0 <= b < masters.len() && #[trigger] masters[a] == x.name
                && #[trigger] masters[b] == y.name implies a <= b by {
            assert(masters.contains(masters[a]) && masters.contains(masters[b]));
        }
    }
    if !x.is_vanilla && order.no_duplicates() {
        assert forall|a: int, b: int|
            0 <= a < order.len() && 0 <= b < order.len() && #[trigger] order[a] == x.name
                && #[trigger] order[b] == y.name implies a <= b by {
            assert(order.contains(order[a]) && order.contains(order[b]));
        }
    }
}

proof fn lemma_saved_positions(plugins: Seq<PluginFileView>, i: int, j: int)
    requires
        0 <= i < j < plugins.len(),
        !plugins[i].is_vanilla,
        !plugins[j].is_vanilla,
        forall|a: int, b: int|
            0 <= a < b < plugins.len() ==> (#[trigger] plugins[a]).name != (
            #[trigger] plugins[b]).name,
    ensures
        0 <= last_position(order_names(plugins), plugins[i].name) < last_position(
            order_names(plugins),
            plugins[j].name,
        ),
    decreases plugins.len(),
{
    let rest = plugins.drop_last();
    let n = plugins.len() - 1;
    assert forall|a: int, b: int| 0 <= a < b < rest.len() implies (#[trigger] rest[a]).name != (
    #[trigger] rest[b]).name by {
        assert(rest[a] == plugins[a] && rest[b] == plugins[b]);
    }
    let before = order_names(rest);
    if !plugins.last().is_vanilla {
        assert(order_names(plugins).drop_last() =~= before);
    }
    if j < n {
        lemma_saved_positions(rest, i, j);
        assert(plugins[i].name != plugins[n].name && plugins[j].name != plugins[n].name);
    } else {
        lemma_is_saved(rest, i);
        lemma_last_occurrence(before, plugins[i].name);
        assert(plugins[i].name != plugins[n].name);
    }
}

proof fn lemma_is_saved(plugins: Seq<PluginFileView>, i: int)
    requires
        0 <= i < plugins.len(),
        !plugins[i].is_vanilla,
    ensures
        order_names(plugins).contains(plugins[i].name),
    decreases plugins.len(),
{
    let all = order_names(plugins);
    if i < plugins.len() - 1 {
        let rest = plugins.drop_last();
        lemma_is_saved(rest, i);
        let k = choose|k: int|
            0 <= k < order_names(rest).len() && order_names(rest)[k] == rest[i].name;
        assert(all[k] == plugins[i].name);
    } else {
        assert(all[all.len() - 1] == plugins[i].name);
    }
}

/// Two rows of plugins with the same elements, each once, in the order of a
/// third row are equal.
proof fn lemma_same_order<A>(a: Seq<A>, b: Seq<A>, lt: spec_fn(A, A) -> bool)
    requires
        forall|x: A, y: A| #[trigger] lt(x, y) ==> !lt(y, x),
        forall|i: int, j: int| 0 <= i < j < a.len() ==> lt(#[trigger] a[i], #[trigger] a[j]),
        forall|i: int, j: int| 0 <= i < j < b.len() ==> lt(#[trigger] b[i], #[trigger] b[j]),
        forall|x: A| #[trigger] a.contains(x) <==> b.contains(x),
    ensures
        a == b,
    decreases a.len(),
{
    if a.len() == 0 {
        if b.len() > 0 {
            assert(b.contains(b[0]));
            assert(a.contains(b[0]));
        }
        assert(a =~= b);
    } else {
        assert(a.contains(a[0]));
        assert(b.contains(a[0]));
        let k = choose|k: int| 0 <= k < b.len() && b[k] == a[0];
        assert(b.contains(b[0]));
        assert(a.contains(b[0]));
        let m = choose|m: int| 0 <= m < a.len() && a[m] == b[0];
        if k > 0 && m > 0 {
            assert(lt(b[0], b[k]));
            assert(lt(a[0], a[m]));
        }
        assert(a[0] == b[0]);
        let x = a.skip(1);
        let y = b.skip(1);
        assert forall|i: int, j: int| 0 <= i < j < x.len() implies lt(
            #[trigger] x[i],
            #[trigger] x[j],
        ) by {
            assert(lt(a[i + 1], a[j + 1]));
        }
        assert forall|i: int, j: int| 0 <= i < j < y.len() implies lt(
            #[trigger] y[i],
            #[trigger] y[j],
        ) by {
            assert(lt(b[i + 1], b[j + 1]));
        }
        assert forall|z: A| #[trigger] x.contains(z) <==> y.contains(z) by {
            if x.contains(z) {
                let i = choose|i: int| 0 <= i < x.len() && x[i] == z;
                assert(lt(a[0], a[i + 1]));
                assert(a.contains(a[i + 1]));
                let j = choose|j: int| 0 <= j < b.len() && b[j] == z;
                assert(j > 0);
                assert(y[j - 1] == z);
            }
            if y.contains(z) {
                let i = choose|i: int| 0 <= i < y.len() && y[i] == z;
                assert(lt(b[0], b[i + 1]));
                assert(b.contains(b[i + 1]));
                assert(a.contains(z));
                let j = choose|j: int| 0 <= j < a.len() && a[j] == z;
                assert(j > 0);
                assert(x[j - 1] == z);
            }
        }
        lemma_same_order(x, y, lt);
        assert(a =~= seq![a[0]] + x);
        assert(b =~= seq![b[0]] + y);
    }
}

/// The plugins are as a scan and the load order give them: of different names,
/// of the kinds that their extensions tell, with the masters of the game in
/// front and in the game's order.
pub open spec fn is_ordered(plugins: Seq<PluginFileView>, kind: GameKind) -> bool {
    &&& forall|i: int, j: int|
        0 <= i < j < plugins.len() ==> (#[trigger] plugins[i]).name != (#[trigger] plugins[j]).name
    &&& forall|i: int|
        0 <= i < plugins.len() ==> kind_fits_name(#[trigger] plugins[i]) && (plugins[i].is_vanilla
            <==> masters_of(kind).contains(plugins[i].name))
    &&& forall|i: int, j: int|
        0 <= i < j < plugins.len() && (#[trigger] plugins[j]).is_vanilla ==> (
        #[trigger] plugins[i]).is_vanilla
    &&& forall|i: int, j: int, a: int, b: int|
        #![trigger plugins[i], plugins[j], masters_of(kind)[a], masters_of(kind)[b]]
        0 <= i < j < plugins.len() && 0 <= a < masters_of(kind).len() && 0 <= b < masters_of(
            kind,
        ).len() && masters_of(kind)[a] == plugins[i].name && masters_of(kind)[b]
            == plugins[j].name ==> a < b
}

/// The order and the state of plugins that were saved are given back by the next
/// scan of their files, in whatever order these are listed.
pub proof fn saved_plugins_are_given_back(
    db: ModDatabaseView,
    plugins: Seq<PluginFileView>,
    kind: GameKind,
    files: Seq<Seq<char>>,
)
    requires
        is_ordered(plugins, kind),
        files.no_duplicates(),
        forall|name: Seq<char>| #[trigger]
            files.contains(name) <==> exists|i: int|
                0 <= i < plugins.len() && (#[trigger] plugins[i]).name == name,
    ensures
        load_order_of(
            scanned(files, kind, with_plugin_order(db, plugins).plugin_disabled),
            kind,
            with_plugin_order(db, plugins).plugin_load_order,
        ) == plugins,
{
    let after = with_plugin_order(db, plugins);
    let found = scanned(files, kind, after.plugin_disabled);
    let order = after.plugin_load_order;
    let got = load_order_of(found, kind, order);
    lemma_scanned_back(db, plugins, kind, files);
    load_order_keeps_all_plugins(found, kind, order);
    lemma_same_elements(found, got);
    let lt = |x: PluginFileView, y: PluginFileView|
        exists|i: int, j: int|
            0 <= i < j < plugins.len() && #[trigger] plugins[i] == x && #[trigger] plugins[j] == y;
    assert forall|x: PluginFileView, y: PluginFileView| #[trigger] lt(x, y) implies !lt(y, x) by {
        let (i, j) = choose|i: int, j: int|
            0 <= i < j < plugins.len() && #[trigger] plugins[i] == x && #[trigger] plugins[j] == y;
        if lt(y, x) {
            let (k, l) = choose|k: int, l: int|
                0 <= k < l < plugins.len() && #[trigger] plugins[k] == y && #[trigger] plugins[l]
                    == x;
            if i < l {
                assert(plugins[i].name != plugins[l].name);
            } else if l < i {
                assert(plugins[l].name != plugins[i].name);
            } else if j < k {
                assert(plugins[j].name != plugins[k].name);
            } else if k < j {
                assert(plugins[k].name != plugins[j].name);
            }
        }
    }
    assert forall|i: int, j: int| 0 <= i < j < plugins.len() implies lt(
        #[trigger] plugins[i],
        #[trigger] plugins[j],
    ) by {}
    assert forall|i: int, j: int| 0 <= i < j < got.len() implies lt(
        #[trigger] got[i],
        #[trigger] got[j],
    ) by {
        assert(got.contains(got[i]) && got.contains(got[j]));
        assert(plugins.contains(got[i]) && plugins.contains(got[j]));
        let a = choose|a: int| 0 <= a < plugins.len() && plugins[a] == got[i];
        let b = choose|b: int| 0 <= b < plugins.len() && plugins[b] == got[j];
        assert(got[i] != got[j]);
        load_order_is_layered(found, kind, order, i, j);
        if b < a {
            lemma_not_layered(plugins, kind, b, a);
            assert(order == order_names(plugins));
        }
        assert(a < b);
    }
    assert forall|x: PluginFileView| #[trigger] got.contains(x) <==> plugins.contains(x) by {
        assert(found.contains(x) <==> plugins.contains(x));
    }
    lemma_same_order(got, plugins, lt);
}

proof fn lemma_not_layered(plugins: Seq<PluginFileView>, kind: GameKind, b: int, a: int)
    requires
        is_ordered(plugins, kind),
        0 <= b < a < plugins.len(),
    ensures
        !belongs_before(plugins[a], plugins[b], kind, order_names(plugins)),
{
    let x = plugins[a];
    let y = plugins[b];
    let masters = masters_of(kind);
    lemma_position_in(masters, x.name);
    lemma_position_in(masters, y.name);
    if x.is_vanilla && y.is_vanilla {
        let p = position_in(masters, x.name);
        let q = position_in(masters, y.name);
        assert(masters[q] == plugins[b].name && masters[p] == plugins[a].name);
        assert(q < p);
    } else if !x.is_vanilla && !y.is_vanilla {
        lemma_saved_positions(plugins, b, a);
    }
}

proof fn lemma_same_elements(a: Seq<PluginFileView>, b: Seq<PluginFileView>)
    requires
        a.to_multiset() == b.to_multiset(),
        a.no_duplicates(),
    ensures
        b.no_duplicates(),
        forall|x: PluginFileView| #[trigger] b.contains(x) <==> a.contains(x),
{
    broadcast use vstd::seq_lib::group_to_multiset_ensures;

    a.lemma_multiset_has_no_duplicates();
    b.lemma_multiset_has_no_duplicates_conv();
    assert forall|x: PluginFileView| #[trigger] b.contains(x) <==> a.contains(x) by {
        assert(b.contains(x) <==> b.to_multiset().count(x) > 0);
        assert(a.contains(x) <==> a.to_multiset().count(x) > 0);
    }
}

proof fn lemma_scanned_back(
    db: ModDatabaseView,
    plugins: Seq<PluginFileView>,
    kind: GameKind,
    files: Seq<Seq<char>>,
)
    requires
        is_ordered(plugins, kind),
        files.no_duplicates(),
        forall|name: Seq<char>| #[trigger]
            files.contains(name) <==> exists|i: int|
                0 <= i < plugins.len() && (#[trigger] plugins[i]).name == name,
    ensures
        ({
            let found = scanned(files, kind, with_plugin_order(db, plugins).plugin_disabled);
            &&& found.no_duplicates()
            &&& forall|x: PluginFileView| #[trigger] found.contains(x) <==> plugins.contains(x)
        }),
{
    let after = with_plugin_order(db, plugins);
    let disabled = after.plugin_disabled;
    let found = scanned(files, kind, disabled);
    let name_of = |p: PluginFileView| p.name;
    let is_plugin = |f: Seq<char>| names_plugin(f);
    scan_finds_the_plugins(files, kind, disabled);
    saving_keeps_order_and_state(db, plugins);
    assert forall|i: int| 0 <= i < files.len() implies is_plugin(#[trigger] files[i]) by {
        assert(files.contains(files[i]));
        let k = choose|k: int| 0 <= k < plugins.len() && (#[trigger] plugins[k]).name == files[i];
        assert(kind_fits_name(plugins[k]));
    }
    lemma_filter_all(files, is_plugin);
    assert(found.len() == found.map_values(name_of).len());
    assert forall|i: int| 0 <= i < found.len() implies (#[trigger] found[i]).name == files[i]
        && plugins.contains(found[i]) by {
        assert(found.map_values(name_of)[i] == found[i].name);
        assert(files.contains(files[i]));
        let k = choose|k: int| 0 <= k < plugins.len() && (#[trigger] plugins[k]).name == files[i];
        let p = plugins[k];
        lemma_extensions_differ(lowercase(p.name));
        assert(kind_fits_name(plugins[k]) && kind_fits_name(found[i]));
        assert(disabled.contains(p.name) <==> !p.enabled) by {
            if disabled.contains(p.name) {
                let m = choose|m: int|
                    0 <= m < plugins.len() && (#[trigger] plugins[m]).name == p.name
                        && !plugins[m].enabled;
                if m < k {
                    assert(plugins[m].name != plugins[k].name);
                } else if k < m {
                    assert(plugins[k].name != plugins[m].name);
                }
            }
        }
        assert(found[i] =~= p);
    }
    assert forall|i: int, j: int| 0 <= i < found.len() && 0 <= j < found.len() && i
        != j implies found[i] != found[j] by {
        assert(files[i] != files[j]);
        assert(found[i].name == files[i] && found[j].name == files[j]);
    }
    assert forall|x: PluginFileView| #[trigger] found.contains(x) <==> plugins.contains(x) by {
        if found.contains(x) {
            let i = choose|i: int| 0 <= i < found.len() && found[i] == x;
            assert(plugins.contains(found[i]));
        }
        if plugins.contains(x) {
            let k = choose|k: int| 0 <= k < plugins.len() && plugins[k] == x;
            assert(plugins[k].name == x.name);
            assert(files.contains(x.name));
            let i = choose|i: int| 0 <= i < files.len() && files[i] == x.name;
            assert(found[i].name == files[i] && plugins.contains(found[i]));
            let m = choose|m: int| 0 <= m < plugins.len() && plugins[m] == found[i];
            if m < k {
                assert(plugins[m].name != plugins[k].name);
            } else if k < m {
                assert(plugins[k].name != plugins[m].name);
            }
            assert(found[i] == x);
        }
    }
}

proof fn lemma_filter_all<A>(s: Seq<A>, f: spec_fn(A) -> bool)
    requires
        forall|i: int| 0 <= i < s.len() ==> f(#[trigger] s[i]),
    ensures
        s.filter(f) == s,
    decreases s.len(),
{
    reveal(Seq::filter);
    if s.len() > 0 {
        let rest = s.drop_last();
        assert forall|i: int| 0 <= i < rest.len() implies f(#[trigger] rest[i]) by {
            assert(rest[i] == s[i]);
        }
        lemma_filter_all(rest, f);
        assert(f(s[s.len() - 1]));
        assert(rest.push(s.last()) =~= s);
    } else {
        assert(s.filter(f) =~= s);
    }
}

// ── Laws of plugins.txt ─────────────────────────────────────────────────────

/// A `plugins.txt` is a comment and then one line per plugin: its name, behind
/// a star if it is enabled.
pub proof fn plugins_txt_has_a_line_per_plugin(plugins: Seq<PluginFileView>)
    ensures
        plugins_txt_header().len() > 0,
        plugins_txt_header()[0] == '#',
        !plugins_txt_header().contains('\n'),
        plugins_txt_of(plugins) == written_lines(
            seq![plugins_txt_header()] + plugins.map_values(
                |p: PluginFileView|
                    if p.enabled {
                        seq!['*'] + p.name
                    } else {
                        p.name
                    },
            ),
        ),
    decreases plugins.len(),
{
    lemma_header();
    reveal_strlit("\n");
    reveal_strlit("*");
    assert("\n"@ =~= seq!['\n']);
    assert("*"@ =~= seq!['*']);
    let f = |p: PluginFileView|
        if p.enabled {
            seq!['*'] + p.name
        } else {
            p.name
        };
    let h = plugins_txt_header();
    let all = seq![h] + plugins.map_values(f);
    if plugins.len() == 0 {
        assert(all =~= seq![h]);
        assert(all.drop_last() =~= Seq::<Seq<char>>::empty());
        assert(written_lines(all.drop_last()) =~= Seq::<char>::empty());
        assert(written_lines(all) =~= h + seq!['\n']);
    } else {
        let rest = plugins.drop_last();
        plugins_txt_has_a_line_per_plugin(rest);
        assert(all.drop_last() =~= seq![h] + rest.map_values(f));
        assert(all.last() == f(plugins.last()));
    }
}

/// A line that says nothing of a plugin: empty but for white space, or a comment.
pub open spec fn is_comment(line: Seq<char>) -> bool {
    exists|front: Seq<char>, text: Seq<char>| #[trigger] comments(line, front, text)
}

/// The line is white space and then the text, which is empty or a comment.
pub open spec fn comments(line: Seq<char>, front: Seq<char>, text: Seq<char>) -> bool {
    &&& line == front + text
    &&& forall|i: int| 0 <= i < front.len() ==> is_white_space(#[trigger] front[i])
    &&& text.len() > 0 ==> text[0] == '#' && !is_white_space(text.last())
}

proof fn lemma_comment(line: Seq<char>)
    requires
        is_comment(line),
    ensures
        line_entry(line) is None,
{
    let (front, text) = choose|front: Seq<char>, text: Seq<char>| #[trigger]
        comments(line, front, text);
    let none = Seq::<char>::empty();
    only_white_space_is_trimmed(front, text, none);
    assert(front + text + none =~= line);
}

proof fn lemma_entries_insert(lines: Seq<Seq<char>>, k: int, line: Seq<char>)
    requires
        0 <= k <= lines.len(),
        line_entry(line) is None,
    ensures
        line_entries(lines.insert(k, line)) == line_entries(lines),
    decreases lines.len(),
{
    let more = lines.insert(k, line);
    if k == lines.len() {
        assert(more.drop_last() =~= lines);
    } else {
        lemma_entries_insert(lines.drop_last(), k, line);
        assert(more.drop_last() =~= lines.drop_last().insert(k, line));
        assert(more.last() == lines.last());
    }
}

/// Comments and empty lines of a `plugins.txt` do not count.
pub proof fn comments_in_plugins_txt_do_not_count(
    db: ModDatabaseView,
    lines: Seq<Seq<char>>,
    k: int,
    line: Seq<char>,
)
    requires
        forall|i: int| 0 <= i < lines.len() ==> is_line(#[trigger] lines[i]),
        is_line(line),
        is_comment(line),
        0 <= k <= lines.len(),
    ensures
        synced(db, written_lines(lines.insert(k, line))) == synced(db, written_lines(lines)),
{
    let more = lines.insert(k, line);
    assert forall|i: int| 0 <= i < more.len() implies is_line(#[trigger] more[i]) by {
        if i < k {
            assert(more[i] == lines[i]);
        } else if i > k {
            assert(more[i] == lines[i - 1]);
        }
    }
    written_lines_are_read_back(lines);
    written_lines_are_read_back(more);
    lemma_comment(line);
    lemma_entries_insert(lines, k, line);
}

/// Reading a `plugins.txt` takes over the order of its lines, and switches off
/// exactly the names without a star; one without plugins changes nothing.
pub proof fn plugins_txt_decides_order_and_state(
    db: ModDatabaseView,
    lines: Seq<(Seq<char>, bool)>,
)
    requires
        forall|i: int| 0 <= i < lines.len() ==> is_plain_name((#[trigger] lines[i]).0),
    ensures
        ({
            let text = written_lines(
                lines.map_values(
                    |l: (Seq<char>, bool)|
                        if l.1 {
                            seq!['*'] + l.0
                        } else {
                            l.0
                        },
                ),
            );
            &&& lines.len() == 0 ==> synced(db, text) == db
            &&& lines.len() > 0 ==> {
                &&& synced(db, text) == (ModDatabaseView {
                    plugin_load_order: lines.map_values(|l: (Seq<char>, bool)| l.0),
                    plugin_disabled: synced(db, text).plugin_disabled,
                    ..db
                })
                &&& forall|name: Seq<char>| #[trigger]
                    synced(db, text).plugin_disabled.contains(name) <==> exists|i: int|
                        0 <= i < lines.len() && (#[trigger] lines[i]).0 == name && !lines[i].1
            }
        }),
{
    let f = |l: (Seq<char>, bool)|
        if l.1 {
            seq!['*'] + l.0
        } else {
            l.0
        };
    let texts = lines.map_values(f);
    reveal_strlit("*");
    assert("*"@ =~= seq!['*']);
    assert forall|i: int| 0 <= i < texts.len() implies is_line(#[trigger] texts[i]) by {
        let p = PluginFileView {
            name: lines[i].0,
            kind: PluginKind::Plugin,
            enabled: lines[i].1,
            is_vanilla: false,
        };
        assert(is_plain_name(lines[i].0));
        lemma_plain_line(p);
        assert(texts[i] == plugin_line(p));
        assert(texts[i].last() == lines[i].0.last());
    }
    written_lines_are_read_back(texts);
    lemma_star_entries(lines);
    assert(entry_names(lines) =~= lines.map_values(|l: (Seq<char>, bool)| l.0));
    lemma_entry_disabled(lines);
}

proof fn lemma_star_entries(lines: Seq<(Seq<char>, bool)>)
    requires
        forall|i: int| 0 <= i < lines.len() ==> is_plain_name((#[trigger] lines[i]).0),
    ensures
        line_entries(
            lines.map_values(
                |l: (Seq<char>, bool)|
                    if l.1 {
                        seq!['*'] + l.0
                    } else {
                        l.0
                    },
            ),
        ) == lines,
    decreases lines.len(),
{
    let f = |l: (Seq<char>, bool)|
        if l.1 {
            seq!['*'] + l.0
        } else {
            l.0
        };
    let texts = lines.map_values(f);
    if lines.len() > 0 {
        let rest = lines.drop_last();
        assert forall|i: int| 0 <= i < rest.len() implies is_plain_name((#[trigger] rest[i]).0) by {
            assert(rest[i] == lines[i]);
        }
        lemma_star_entries(rest);
        assert(texts.drop_last() =~= rest.map_values(f));
        let last = lines[lines.len() - 1];
        assert(is_plain_name(lines[lines.len() - 1].0));
        let p = PluginFileView {
            name: last.0,
            kind: PluginKind::Plugin,
            enabled: last.1,
            is_vanilla: false,
        };
        reveal_strlit("*");
        assert("*"@ =~= seq!['*']);
        lemma_plain_line(p);
        assert(texts.last() == plugin_line(p));
        assert(rest.push(last) =~= lines);
    } else {
        assert(line_entries(texts) =~= lines);
    }
}

proof fn lemma_entry_disabled(entries: Seq<(Seq<char>, bool)>)
    ensures
        forall|name: Seq<char>| #[trigger]
            entry_disabled(entries).contains(name) <==> exists|i: int|
                0 <= i < entries.len() && (#[trigger] entries[i]).0 == name && !entries[i].1,
    decreases entries.len(),
{
    if entries.len() > 0 {
        let rest = entries.drop_last();
        lemma_entry_disabled(rest);
        assert forall|name: Seq<char>| #[trigger] entry_disabled(entries).contains(name)
            <==> exists|i: int|
            0 <= i < entries.len() && (#[trigger] entries[i]).0 == name && !entries[i].1 by {
            assert(entry_disabled(rest).contains(name) <==> exists|i: int|
                0 <= i < rest.len() && (#[trigger] rest[i]).0 == name && !rest[i].1);
            if exists|i: int| 0 <= i < rest.len() && (#[trigger] rest[i]).0 == name && !rest[i].1 {
                let i = choose|i: int|
                    0 <= i < rest.len() && (#[trigger] rest[i]).0 == name && !rest[i].1;
                assert(entries[i] == rest[i]);
            }
            if exists|i: int|
                0 <= i < entries.len() && (#[trigger] entries[i]).0 == name && !entries[i].1 {
                let i = choose|i: int|
                    0 <= i < entries.len() && (#[trigger] entries[i]).0 == name && !entries[i].1;
                if i < rest.len() {
                    assert(rest[i] == entries[i]);
                }
            }
            assert(entries[entries.len() - 1] == entries.last());
        }
    }
}

// ── Laws of sorting ─────────────────────────────────────────────────────────

/// Sorting by kind and name puts masters before light plugins before regular
/// ones, and those of one kind by name without regard to case.
pub proof fn sorting_follows_kind_and_name(plugins: Seq<PluginFileView>, i: int, j: int)
    requires
        0 <= i < j < plugins.len(),
    ensures
        ({
            let x = sorted_by_type(plugins)[i];
            let y = sorted_by_type(plugins)[j];
            &&& x.kind == PluginKind::Plugin ==> y.kind == PluginKind::Plugin
            &&& x.kind == PluginKind::Light ==> y.kind != PluginKind::Master
            &&& x.kind == y.kind ==> !precedes(lowercase(y.name), lowercase(x.name))
        }),
        sorted_by_type(plugins).to_multiset() == plugins.to_multiset(),
{
    sorting_by_type_is_in_order(plugins, i, j);
    lemma_sorted_keeps(
        plugins,
        |a: PluginFileView, b: PluginFileView| by_type_and_lowercase(a, b),
    );
    let x = sorted_by_type(plugins)[i];
    let y = sorted_by_type(plugins)[j];
    lemma_precedes_total(lowercase(x.name), lowercase(y.name));
}

/// The masters of the game stay in front when plugins are sorted, as they stood;
/// the plugins behind them are in the order of the names that came back, where
/// these name each of them once, in any case.
pub proof fn sorted_names_are_followed(
    ordered: Seq<PluginFileView>,
    names: Seq<Seq<char>>,
)
    requires
        distinct_keys(ordered.filter(|p: PluginFileView| !p.is_vanilla)),
        names.len() == ordered.filter(|p: PluginFileView| !p.is_vanilla).len(),
        forall|i: int, j: int|
            0 <= i < j < names.len() ==> lowercase(#[trigger] names[i]) != lowercase(
                #[trigger] names[j],
            ),
        forall|i: int|
            0 <= i < names.len() ==> has_key(
                ordered.filter(|p: PluginFileView| !p.is_vanilla),
                lowercase(#[trigger] names[i]),
            ),
    ensures
        ({
            let masters = ordered.filter(|p: PluginFileView| p.is_vanilla);
            let sorted = sorted_plugins(ordered, Some(names));
            &&& sorted.len() == masters.len() + names.len()
            &&& sorted.take(masters.len() as int) == masters
            &&& forall|i: int|
                0 <= i < names.len() ==> lowercase(sorted[masters.len() + i].name) == lowercase(
                    #[trigger] names[i],
                )
        }),
{
    let masters = ordered.filter(|p: PluginFileView| p.is_vanilla);
    let rest = ordered.filter(|p: PluginFileView| !p.is_vanilla);
    let sorted = sorted_plugins(ordered, Some(names));
    lemma_by_key_distinct(rest);
    assert(names.take(names.len() as int) =~= names);
    lemma_picked_in_order(names, rest, names.len() as int);
    let (out, left) = picked(names, rest);
    lemma_picked_keeps(names, rest);
    lemma_picked_count(names, rest);
    assert(left.len() == 0);
    assert(sorted_by_type(left) =~= Seq::empty());
    assert(sorted =~= masters + out);
    assert(sorted.take(masters.len() as int) =~= masters);
}

/// One of the plugins has the lowercase name.
pub open spec fn has_key(plugins: Seq<PluginFileView>, key: Seq<char>) -> bool {
    exists|i: int| 0 <= i < plugins.len() && lowercase((#[trigger] plugins[i]).name) == key
}

proof fn lemma_picked_count(names: Seq<Seq<char>>, plugins: Seq<PluginFileView>)
    ensures
        picked(names, plugins).0.len() + picked(names, plugins).1.len() == plugins.len(),
    decreases names.len(),
{
    if names.len() > 0 {
        lemma_picked_count(names.drop_last(), plugins);
        let rest = picked(names.drop_last(), plugins).1;
        lemma_key_index(rest, lowercase(names.last()));
    }
}

proof fn lemma_key_found(plugins: Seq<PluginFileView>, key: Seq<char>)
    ensures
        has_key(plugins, key) <==> key_index(plugins, key) < plugins.len(),
    decreases plugins.len(),
{
    lemma_key_index(plugins, key);
    if plugins.len() > 0 {
        let rest = plugins.skip(1);
        lemma_key_found(rest, key);
        if has_key(plugins, key) && lowercase(plugins[0].name) != key {
            let i = choose|i: int|
                0 <= i < plugins.len() && lowercase((#[trigger] plugins[i]).name) == key;
            assert(rest[i - 1] == plugins[i]);
        }
        if key_index(plugins, key) < plugins.len() {
            assert(lowercase(plugins[key_index(plugins, key)].name) == key);
        }
    }
}

proof fn lemma_picked_in_order(names: Seq<Seq<char>>, plugins: Seq<PluginFileView>, n: int)
    requires
        0 <= n <= names.len(),
        forall|i: int, j: int|
            0 <= i < j < names.len() ==> lowercase(#[trigger] names[i]) != lowercase(
                #[trigger] names[j],
            ),
        forall|i: int| 0 <= i < names.len() ==> has_key(plugins, lowercase(#[trigger] names[i])),
    ensures
        ({
            let (out, rest) = picked(names.take(n), plugins);
            &&& out.len() == n
            &&& forall|i: int| 0 <= i < n ==> lowercase(out[i].name) == lowercase(#[trigger] names[i])
            &&& forall|i: int|
                n <= i < names.len() ==> has_key(rest, lowercase(#[trigger] names[i]))
        }),
    decreases n,
{
    if n > 0 {
        lemma_picked_in_order(names, plugins, n - 1);
        let (out, rest) = picked(names.take(n - 1), plugins);
        assert(names.take(n).drop_last() =~= names.take(n - 1));
        let key = lowercase(names[n - 1]);
        lemma_key_found(rest, key);
        lemma_key_index(rest, key);
        let k = key_index(rest, key);
        assert(has_key(rest, lowercase(names[n - 1])));
        let left = rest.remove(k);
        assert forall|i: int| n <= i < names.len() implies has_key(
            left,
            lowercase(#[trigger] names[i]),
        ) by {
            assert(has_key(rest, lowercase(names[i])));
            let m = choose|m: int|
                0 <= m < rest.len() && lowercase((#[trigger] rest[m]).name) == lowercase(names[i]);
            assert(lowercase(names[n - 1]) != lowercase(names[i]));
            if m < k {
                assert(left[m] == rest[m]);
            } else {
                assert(left[m - 1] == rest[m]);
            }
        }
        assert forall|i: int| 0 <= i < n implies lowercase(
            picked(names.take(n), plugins).0[i].name,
        ) == lowercase(#[trigger] names[i]) by {
            if i < n - 1 {
                assert(out[i] == out.push(rest[k])[i]);
            }
        }
    }
}

} // verus!
