//! The downloads that are going on.
use vstd::prelude::*;

use crate::text::owned;

verus! {

/// A download that is going on.
#[derive(Debug)]
pub struct ActiveDownload {
    pub file_name: String,
    pub downloaded: u64,
    pub total: u64,
}

/// An [`ActiveDownload`] as a mathematical value.
#[verifier::ext_equal]
pub ghost struct ActiveDownloadView {
    pub file_name: Seq<char>,
    pub downloaded: u64,
    pub total: u64,
}

impl DeepView for ActiveDownload {
    type V = ActiveDownloadView;

    open spec fn deep_view(&self) -> ActiveDownloadView {
        ActiveDownloadView {
            file_name: self.file_name@,
            downloaded: self.downloaded,
            total: self.total,
        }
    }
}

impl Clone for ActiveDownload {
    fn clone(&self) -> (r: Self)
        ensures
            r.deep_view() == self.deep_view(),
    {
        ActiveDownload {
            file_name: owned(self.file_name.as_str()),
            downloaded: self.downloaded,
            total: self.total,
        }
    }
}

/// The numbers are in ascending order, below `next`.
spec fn ascending(entries: Seq<(u64, ActiveDownloadView)>, next: u64) -> bool {
    &&& forall|i: int| 0 <= i < entries.len() ==> (#[trigger] entries[i]).0 < next
    &&& forall|i: int, j: int|
        0 <= i < j < entries.len() ==> (#[trigger] entries[i]).0 < (#[trigger] entries[j]).0
}

/// The entries as a map from number to download.
spec fn entry_map(entries: Seq<(u64, ActiveDownloadView)>) -> Map<u64, ActiveDownloadView>
    decreases entries.len(),
{
    if entries.len() == 0 {
        Map::empty()
    } else {
        entry_map(entries.drop_last()).insert(entries.last().0, entries.last().1)
    }
}

/// The downloads that are going on, by their numbers.
pub struct DownloadState {
    next_id: u64,
    entries: Vec<(u64, ActiveDownload)>,
}

impl DownloadState {
    /// The number of the next download.
    pub closed spec fn next(&self) -> u64 {
        self.next_id
    }

    /// The downloads that are going on.
    pub closed spec fn active(&self) -> Map<u64, ActiveDownloadView> {
        entry_map(self.entries.deep_view())
    }

    #[verifier::type_invariant]
    spec fn valid(self) -> bool {
        ascending(self.entries.deep_view(), self.next_id)
    }

    /// No download is going on.
    pub fn new() -> (r: Self)
        ensures
            r.next() == 1,
            r.active() == Map::<u64, ActiveDownloadView>::empty(),
    {
        let entries: Vec<(u64, ActiveDownload)> = Vec::new();
        assert(entries.deep_view() =~= Seq::empty());
        DownloadState { next_id: 1, entries }
    }

    /// The number of the next download.
    pub fn next_download_id(&self) -> (r: u64)
        ensures
            r == self.next(),
    {
        self.next_id
    }
}

proof fn lemma_entry_map(entries: Seq<(u64, ActiveDownloadView)>, next: u64)
    requires
        ascending(entries, next),
    ensures
        forall|k: u64| #[trigger]
            entry_map(entries).contains_key(k) <==> exists|i: int|
                0 <= i < entries.len() && (#[trigger] entries[i]).0 == k,
        forall|i: int|
            0 <= i < entries.len() ==> entry_map(entries)[(#[trigger] entries[i]).0]
                == entries[i].1,
        forall|k: u64| #[trigger] entry_map(entries).contains_key(k) ==> k < next,
    decreases entries.len(),
{
    if entries.len() > 0 {
        let rest = entries.drop_last();
        assert(ascending(rest, next)) by {
            assert forall|i: int| 0 <= i < rest.len() implies (#[trigger] rest[i]).0 < next by {
                assert(rest[i] == entries[i]);
            }
            assert forall|i: int, j: int| 0 <= i < j < rest.len() implies (#[trigger] rest[i]).0 < (
            #[trigger] rest[j]).0 by {
                assert(rest[i] == entries[i] && rest[j] == entries[j]);
            }
        }
        lemma_entry_map(rest, next);
        assert forall|k: u64| #[trigger]
            entry_map(entries).contains_key(k) <==> exists|i: int|
                0 <= i < entries.len() && (#[trigger] entries[i]).0 == k by {
            if exists|i: int| 0 <= i < entries.len() && (#[trigger] entries[i]).0 == k {
                let i = choose|i: int| 0 <= i < entries.len() && (#[trigger] entries[i]).0 == k;
                if i < rest.len() {
                    assert(rest[i].0 == k);
                }
            }
            if rest.len() < entries.len() && k == entries.last().0 {
                assert(entries[entries.len() - 1].0 == k);
            }
            if entry_map(rest).contains_key(k) {
                let i = choose|i: int| 0 <= i < rest.len() && (#[trigger] rest[i]).0 == k;
                assert(entries[i].0 == k);
            }
        }
        assert forall|i: int| 0 <= i < entries.len() implies entry_map(entries)[(
        #[trigger] entries[i]).0] == entries[i].1 by {
            if i < rest.len() {
                assert(rest[i] == entries[i]);
                assert(entries[i].0 < entries[entries.len() - 1].0);
            }
        }
    }
}

/// Adds a download of which nothing has come yet, and gives its number.
pub fn set_active(state: &mut DownloadState, file_name: String) -> (r: u64)
    requires
        old(state).next() < u64::MAX,
    ensures
        r == old(state).next(),
        final(state).next() == r + 1,
        !old(state).active().contains_key(r),
        final(state).active() == old(state).active().insert(
            r,
            ActiveDownloadView { file_name: file_name@, downloaded: 0, total: 0 },
        ),
{
    proof {
        use_type_invariant(&*state);
        lemma_entry_map(state.entries.deep_view(), state.next_id);
    }
    let id = state.next_id;
    let ghost before = state.entries.deep_view();
    let ghost added = (
        id,
        ActiveDownloadView { file_name: file_name@, downloaded: 0, total: 0 },
    );
    let mut entries: Vec<(u64, ActiveDownload)> = Vec::new();
    std::mem::swap(&mut entries, &mut state.entries);
    entries.push((id, ActiveDownload { file_name, downloaded: 0, total: 0 }));
    assert(entries.deep_view() =~= before.push(added));
    assert(before.push(added).drop_last() =~= before);
    state.next_id = id + 1;
    state.entries = entries;
    id
}

/// Notes how far a download has come, if it is going on.
pub fn update_progress(state: &mut DownloadState, download_id: u64, downloaded: u64, total: u64)
    ensures
        final(state).next() == old(state).next(),
        final(state).active() == if old(state).active().contains_key(download_id) {
            old(state).active().insert(
                download_id,
                ActiveDownloadView {
                    downloaded,
                    total,
                    ..old(state).active()[download_id]
                },
            )
        } else {
            old(state).active()
        },
{
    proof {
        use_type_invariant(&*state);
        lemma_entry_map(state.entries.deep_view(), state.next_id);
    }
    let ghost before = state.entries.deep_view();
    let ghost next = state.next_id;
    let mut entries: Vec<(u64, ActiveDownload)> = Vec::new();
    std::mem::swap(&mut entries, &mut state.entries);
    let mut i: usize = 0;
    while i < entries.len() && entries[i].0 != download_id
        invariant
            before == entries.deep_view(),
            i <= entries@.len(),
            forall|j: int| 0 <= j < i ==> (#[trigger] before[j]).0 != download_id,
        decreases entries@.len() - i,
    {
        assert(before[i as int] == entries@[i as int].deep_view());
        i += 1;
    }
    if i < entries.len() {
        assert(before[i as int] == entries@[i as int].deep_view());
        assert(before[i as int].0 == download_id);
        let name = owned(entries[i].1.file_name.as_str());
        let ghost changed = (
            download_id,
            ActiveDownloadView { file_name: name@, downloaded, total },
        );
        let replaced = entries.remove(i);
        entries.insert(i, (download_id, ActiveDownload { file_name: name, downloaded, total }));
        assert(entries.deep_view() =~= before.update(i as int, changed));
        proof {
            let after = before.update(i as int, changed);
            assert(ascending(after, next)) by {
                assert forall|k: int| 0 <= k < after.len() implies (#[trigger] after[k]).0
                    == before[k].0 by {}
            }
            lemma_entry_map(after, next);
            lemma_updated(before, after, i as int, next);
        }
    }
    state.entries = entries;
}

proof fn lemma_updated(
    before: Seq<(u64, ActiveDownloadView)>,
    after: Seq<(u64, ActiveDownloadView)>,
    i: int,
    next: u64,
)
    requires
        ascending(before, next),
        0 <= i < before.len(),
        after == before.update(i, after[i]),
        after[i].0 == before[i].0,
    ensures
        entry_map(after) == entry_map(before).insert(before[i].0, after[i].1),
    decreases before.len(),
{
    let b = before.drop_last();
    let a = after.drop_last();
    assert(ascending(b, next)) by {
        assert forall|k: int| 0 <= k < b.len() implies (#[trigger] b[k]) == before[k] by {}
    }
    if i == before.len() - 1 {
        assert(a =~= b);
        assert(entry_map(after) =~= entry_map(before).insert(before[i].0, after[i].1));
    } else {
        assert(a =~= b.update(i, a[i]));
        assert(b[i] == before[i] && a[i] == after[i]);
        lemma_updated(b, a, i, next);
        assert(before[i].0 < before[before.len() - 1].0);
        assert(after.last() == before.last());
        assert(entry_map(after) =~= entry_map(before).insert(before[i].0, after[i].1));
    }
}

/// Forgets a download.
pub fn clear_active(state: &mut DownloadState, download_id: u64)
    ensures
        final(state).next() == old(state).next(),
        final(state).active() == old(state).active().remove(download_id),
{
    proof {
        use_type_invariant(&*state);
        lemma_entry_map(state.entries.deep_view(), state.next_id);
    }
    let ghost before = state.entries.deep_view();
    let ghost next = state.next_id;
    let mut entries: Vec<(u64, ActiveDownload)> = Vec::new();
    std::mem::swap(&mut entries, &mut state.entries);
    let mut i: usize = 0;
    while i < entries.len() && entries[i].0 != download_id
        invariant
            before == entries.deep_view(),
            i <= entries@.len(),
            forall|j: int| 0 <= j < i ==> (#[trigger] before[j]).0 != download_id,
        decreases entries@.len() - i,
    {
        assert(before[i as int] == entries@[i as int].deep_view());
        i += 1;
    }
    if i < entries.len() {
        assert(before[i as int] == entries@[i as int].deep_view());
        let removed = entries.remove(i);
        assert(entries.deep_view() =~= before.remove(i as int));
        proof {
            let after = before.remove(i as int);
            assert(ascending(after, next)) by {
                assert forall|k: int| 0 <= k < after.len() implies (#[trigger] after[k]) == before[
                if k < i {
                    k
                } else {
                    k + 1
                }] by {}
            }
            lemma_removed(before, i as int, next);
        }
    } else {
        assert(entry_map(before) =~= entry_map(before).remove(download_id));
    }
    state.entries = entries;
}

proof fn lemma_removed(before: Seq<(u64, ActiveDownloadView)>, i: int, next: u64)
    requires
        ascending(before, next),
        0 <= i < before.len(),
    ensures
        entry_map(before.remove(i)) == entry_map(before).remove(before[i].0),
    decreases before.len(),
{
    let b = before.drop_last();
    assert(ascending(b, next)) by {
        assert forall|k: int| 0 <= k < b.len() implies (#[trigger] b[k]) == before[k] by {}
    }
    lemma_entry_map(b, next);
    if i == before.len() - 1 {
        assert(before.remove(i) =~= b);
        assert(!entry_map(b).contains_key(before[i].0)) by {
            if entry_map(b).contains_key(before[i].0) {
                let k = choose|k: int| 0 <= k < b.len() && (#[trigger] b[k]).0 == before[i].0;
                assert(before[k].0 < before[i].0);
            }
        }
        assert(entry_map(b) =~= entry_map(before).remove(before[i].0));
    } else {
        lemma_removed(b, i, next);
        assert(b[i] == before[i]);
        assert(before.remove(i).drop_last() =~= b.remove(i));
        assert(before.remove(i).last() == before.last());
        assert(before[i].0 < before[before.len() - 1].0);
        assert(entry_map(before.remove(i)) =~= entry_map(before).remove(before[i].0));
    }
}

/// The download is the latest of those going on.
pub open spec fn is_latest(active: Map<u64, ActiveDownloadView>, id: u64) -> bool {
    active.contains_key(id) && forall|k: u64| #[trigger] active.contains_key(k) ==> k <= id
}

/// The latest of the downloads that are going on, if any is.
pub fn current(state: &DownloadState) -> (r: Option<ActiveDownload>)
    ensures
        match r {
            Some(d) => exists|id: u64| #[trigger]
                is_latest(state.active(), id) && state.active()[id] == d.deep_view(),
            None => state.active() == Map::<u64, ActiveDownloadView>::empty(),
        },
{
    proof {
        use_type_invariant(state);
        lemma_entry_map(state.entries.deep_view(), state.next_id);
    }
    let ghost all = state.entries.deep_view();
    if state.entries.len() == 0 {
        assert(all =~= Seq::empty());
        return None;
    }
    let last: usize = state.entries.len() - 1;
    assert(all[last as int] == state.entries@[last as int].deep_view());
    assert(is_latest(state.active(), all[last as int].0)) by {
        assert(state.active().contains_key(all[last as int].0));
        assert forall|k: u64| #[trigger] state.active().contains_key(k) implies k
            <= all[last as int].0 by {
            let i = choose|i: int| 0 <= i < all.len() && (#[trigger] all[i]).0 == k;
            if i < last {
                assert(all[i].0 < all[last as int].0);
            }
        }
    }
    Some(state.entries[last].1.clone())
}

/// A download keeps what is known of it whatever is noted of the others.
pub proof fn downloads_do_not_clobber(
    active: Map<u64, ActiveDownloadView>,
    id: u64,
    other: u64,
    d: ActiveDownloadView,
)
    requires
        id != other,
        active.contains_key(id),
    ensures
        active.insert(other, d).contains_key(id),
        active.insert(other, d)[id] == active[id],
        active.remove(other).contains_key(id),
        active.remove(other)[id] == active[id],
{
}

} // verus!
