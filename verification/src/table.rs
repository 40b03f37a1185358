//! Tables of values under names, and sets of names.
use vstd::prelude::*;

use crate::text::{is_listed, owned, same};

verus! {

/// The value of the first entry under `key`.
pub open spec fn value_under<A>(entries: Seq<(Seq<char>, A)>, key: Seq<char>) -> Option<A>
    decreases entries.len(),
{
    if entries.len() == 0 {
        None
    } else if entries[0].0 == key {
        Some(entries[0].1)
    } else {
        value_under(entries.skip(1), key)
    }
}

proof fn lemma_value_under<A>(entries: Seq<(Seq<char>, A)>, key: Seq<char>, n: int)
    requires
        0 <= n <= entries.len(),
        forall|j: int| 0 <= j < n ==> (#[trigger] entries[j]).0 != key,
        n < entries.len() ==> entries[n].0 == key,
    ensures
        value_under(entries, key) == (if n < entries.len() {
            Some(entries[n].1)
        } else {
            None
        }),
    decreases entries.len(),
{
    if n > 0 {
        assert(entries[0].0 != key);
        assert forall|j: int| 0 <= j < n - 1 implies (#[trigger] entries.skip(1)[j]).0 != key by {
            assert(entries.skip(1)[j] == entries[j + 1]);
        }
        lemma_value_under(entries.skip(1), key, n - 1);
    }
}

proof fn lemma_value_set<A>(
    entries: Seq<(Seq<char>, A)>,
    key: Seq<char>,
    value: A,
    n: int,
    k: Seq<char>,
)
    requires
        0 <= n < entries.len(),
        forall|j: int| 0 <= j < n ==> (#[trigger] entries[j]).0 != key,
        entries[n].0 == key,
    ensures
        value_under(entries.update(n, (key, value)), k) == (if k == key {
            Some(value)
        } else {
            value_under(entries, k)
        }),
    decreases entries.len(),
{
    let after = entries.update(n, (key, value));
    if n == 0 {
        assert(after.skip(1) =~= entries.skip(1));
    } else {
        assert(entries[0].0 != key);
        assert forall|j: int| 0 <= j < n - 1 implies (#[trigger] entries.skip(1)[j]).0 != key by {
            assert(entries.skip(1)[j] == entries[j + 1]);
        }
        lemma_value_set(entries.skip(1), key, value, n - 1, k);
        assert(after.skip(1) =~= entries.skip(1).update(n - 1, (key, value)));
    }
}

proof fn lemma_value_push<A>(
    entries: Seq<(Seq<char>, A)>,
    key: Seq<char>,
    value: A,
    k: Seq<char>,
)
    requires
        forall|j: int| 0 <= j < entries.len() ==> (#[trigger] entries[j]).0 != key,
    ensures
        value_under(entries.push((key, value)), k) == (if k == key {
            Some(value)
        } else {
            value_under(entries, k)
        }),
    decreases entries.len(),
{
    let after = entries.push((key, value));
    if entries.len() == 0 {
        assert(after.skip(1) =~= entries);
    } else {
        assert(entries[0].0 != key);
        assert forall|j: int| 0 <= j < entries.len() - 1 implies (#[trigger] entries.skip(
            1,
        )[j]).0 != key by {
            assert(entries.skip(1)[j] == entries[j + 1]);
        }
        lemma_value_push(entries.skip(1), key, value, k);
        assert(after.skip(1) =~= entries.skip(1).push((key, value)));
    }
}

proof fn lemma_value_remove<A>(
    entries: Seq<(Seq<char>, A)>,
    key: Seq<char>,
    n: int,
    k: Seq<char>,
)
    requires
        k != key,
        0 <= n < entries.len(),
        entries[n].0 == key,
    ensures
        value_under(entries.remove(n), k) == value_under(entries, k),
    decreases entries.len(),
{
    let after = entries.remove(n);
    if n == 0 {
        assert(after =~= entries.skip(1));
    } else {
        lemma_value_remove(entries.skip(1), key, n - 1, k);
        assert(after.skip(1) =~= entries.skip(1).remove(n - 1));
        assert(after[0] == entries[0]);
    }
}

proof fn lemma_row_is_found<A>(entries: Seq<(Seq<char>, A)>, i: int)
    requires
        0 <= i < entries.len(),
    ensures
        value_under(entries, entries[i].0) is Some,
    decreases entries.len(),
{
    if entries[0].0 != entries[i].0 {
        lemma_row_is_found(entries.skip(1), i - 1);
        assert(entries.skip(1)[i - 1] == entries[i]);
    }
}

proof fn lemma_found_is_row<A>(entries: Seq<(Seq<char>, A)>, key: Seq<char>)
    requires
        value_under(entries, key) is Some,
    ensures
        exists|i: int| 0 <= i < entries.len() && (#[trigger] entries[i]).0 == key,
    decreases entries.len(),
{
    if entries[0].0 != key {
        lemma_found_is_row(entries.skip(1), key);
        let j = choose|j: int|
            0 <= j < entries.skip(1).len() && (#[trigger] entries.skip(1)[j]).0 == key;
        assert(entries[j + 1].0 == key);
    }
}

/// A table of values under names.
pub struct Table<V> {
    entries: Vec<(String, V)>,
}

impl<V: DeepView> Table<V> {
    /// The names and values in the order in which they are kept.
    pub closed spec fn rows(&self) -> Seq<(Seq<char>, V::V)> {
        self.entries.deep_view()
    }

    /// The table as a map.
    pub open spec fn map(&self) -> Map<Seq<char>, V::V> {
        Map::new(
            |k: Seq<char>| value_under(self.rows(), k) is Some,
            |k: Seq<char>| value_under(self.rows(), k)->0,
        )
    }

    /// An empty table.
    pub fn new() -> (r: Self)
        ensures
            r.map() == Map::<Seq<char>, V::V>::empty(),
            r.rows() == Seq::<(Seq<char>, V::V)>::empty(),
    {
        let r = Table { entries: Vec::new() };
        assert(r.rows() =~= Seq::<(Seq<char>, V::V)>::empty());
        assert(r.map() =~= Map::<Seq<char>, V::V>::empty());
        r
    }

    fn index_of(&self, key: &str) -> (r: usize)
        ensures
            r <= self.entries@.len(),
            forall|j: int| 0 <= j < r ==> (#[trigger] self.rows()[j]).0 != key@,
            r < self.entries@.len() ==> self.rows()[r as int].0 == key@,
            value_under(self.rows(), key@) == (if r < self.entries@.len() {
                Some(self.rows()[r as int].1)
            } else {
                None
            }),
    {
        let ghost all = self.rows();
        let mut i: usize = 0;
        while i < self.entries.len()
            invariant
                all == self.rows(),
                i <= self.entries@.len(),
                forall|j: int| 0 <= j < i ==> (#[trigger] all[j]).0 != key@,
            decreases self.entries@.len() - i,
        {
            assert(all[i as int].0 == self.entries@[i as int].0@);
            if same(self.entries[i].0.as_str(), key) {
                proof {
                    lemma_value_under(all, key@, i as int);
                }
                return i;
            }
            i += 1;
        }
        proof {
            lemma_value_under(all, key@, i as int);
        }
        i
    }

    /// The value under a name.
    pub fn get(&self, key: &str) -> (r: Option<&V>)
        ensures
            match r {
                Some(v) => self.map().contains_key(key@) && self.map()[key@] == v.deep_view(),
                None => !self.map().contains_key(key@),
            },
    {
        let i = self.index_of(key);
        if i < self.entries.len() {
            assert(self.rows()[i as int].1 == self.entries@[i as int].1.deep_view());
            Some(&self.entries[i].1)
        } else {
            None
        }
    }

    /// Puts a value under a name; an earlier one is replaced.
    pub fn insert(&mut self, key: &str, value: V)
        ensures
            final(self).map() == old(self).map().insert(key@, value.deep_view()),
    {
        let ghost before = self.rows();
        let ghost row = (key@, value.deep_view());
        let i = self.index_of(key);
        let name = owned(key);
        if i < self.entries.len() {
            self.entries.set(i, (name, value));
            proof {
                assert(self.rows() =~= before.update(i as int, row));
                assert forall|k: Seq<char>| #[trigger]
                    value_under(self.rows(), k) == (if k == row.0 {
                        Some(row.1)
                    } else {
                        value_under(before, k)
                    }) by {
                    lemma_value_set(before, row.0, row.1, i as int, k);
                }
            }
        } else {
            self.entries.push((name, value));
            proof {
                assert(self.rows() =~= before.push(row));
                assert forall|k: Seq<char>| #[trigger]
                    value_under(self.rows(), k) == (if k == row.0 {
                        Some(row.1)
                    } else {
                        value_under(before, k)
                    }) by {
                    lemma_value_push(before, row.0, row.1, k);
                }
            }
        }
        assert(self.map() =~= old(self).map().insert(row.0, row.1));
    }

    /// Removes what stands under a name, and tells whether there was anything.
    pub fn remove(&mut self, key: &str) -> (found: bool)
        ensures
            final(self).map() == old(self).map().remove(key@),
            found == old(self).map().contains_key(key@),
    {
        let mut found = false;
        let mut i = self.index_of(key);
        while i < self.entries.len()
            invariant
                i <= self.entries@.len(),
                value_under(self.rows(), key@) == (if i < self.entries@.len() {
                    Some(self.rows()[i as int].1)
                } else {
                    None
                }),
                i < self.entries@.len() ==> self.rows()[i as int].0 == key@,
                !found ==> self.rows() == old(self).rows(),
                found ==> old(self).map().contains_key(key@),
                forall|k: Seq<char>|
                    k != key@ ==> #[trigger] value_under(self.rows(), k) == value_under(
                        old(self).rows(),
                        k,
                    ),
            decreases self.entries@.len(),
        {
            let ghost before = self.rows();
            self.entries.remove(i);
            found = true;
            proof {
                assert(self.rows() =~= before.remove(i as int));
                assert forall|k: Seq<char>| k != key@ implies #[trigger] value_under(
                    self.rows(),
                    k,
                ) == value_under(old(self).rows(), k) by {
                    lemma_value_remove(before, key@, i as int, k);
                }
            }
            i = self.index_of(key);
        }
        assert(self.map() =~= old(self).map().remove(key@));
        found
    }

    fn value_mut(&mut self, n: usize) -> (r: &mut V)
        requires
            n < old(self).rows().len(),
        ensures
            r.deep_view() == old(self).rows()[n as int].1,
            final(self).rows() == old(self).rows().update(
                n as int,
                (old(self).rows()[n as int].0, final(r).deep_view()),
            ),
    {
        &mut self.entries[n].1
    }

    /// The value under a name, to be changed; a name that is not there gets
    /// `default` first.
    pub fn get_or_insert(&mut self, key: &str, default: V) -> (r: &mut V)
        ensures
            r.deep_view() == (if old(self).map().contains_key(key@) {
                old(self).map()[key@]
            } else {
                default.deep_view()
            }),
            final(self).map() == old(self).map().insert(key@, final(r).deep_view()),
    {
        let ghost before = self.rows();
        let ghost first = default.deep_view();
        let n = self.index_of(key);
        if n == self.entries.len() {
            self.entries.push((owned(key), default));
            assert(self.rows() =~= before.push((key@, first)));
        }
        let r = self.value_mut(n);
        proof {
            let value = final(r).deep_view();
            if n < before.len() {
                assert forall|k: Seq<char>| #[trigger]
                    value_under(before.update(n as int, (key@, value)), k) == (if k == key@ {
                        Some(value)
                    } else {
                        value_under(before, k)
                    }) by {
                    lemma_value_set(before, key@, value, n as int, k);
                }
            } else {
                assert forall|k: Seq<char>| #[trigger]
                    value_under(before.push((key@, value)), k) == (if k == key@ {
                        Some(value)
                    } else {
                        value_under(before, k)
                    }) by {
                    lemma_value_push(before, key@, value, k);
                }
                assert(before.push((key@, first)).update(n as int, (key@, value)) =~= before.push(
                    (key@, value),
                ));
            }
        }
        r
    }

    /// Whether there is nothing in the table.
    pub fn is_empty(&self) -> (r: bool)
        ensures
            r == (self.map() == Map::<Seq<char>, V::V>::empty()),
    {
        if self.entries.len() == 0 {
            assert(self.map() =~= Map::<Seq<char>, V::V>::empty());
            true
        } else {
            proof {
                let key = self.rows()[0].0;
                assert(self.map().contains_key(key));
            }
            false
        }
    }

    /// How many rows there are.
    pub fn len(&self) -> (r: usize)
        ensures
            r == self.rows().len(),
    {
        self.entries.len()
    }

    /// The name in a row.
    pub fn key_at(&self, i: usize) -> (r: &str)
        requires
            i < self.rows().len(),
        ensures
            r@ == self.rows()[i as int].0,
    {
        self.entries[i].0.as_str()
    }

    /// Every row's name is in the map.
    pub proof fn lemma_row(&self, i: int)
        requires
            0 <= i < self.rows().len(),
        ensures
            self.map().contains_key(self.rows()[i].0),
    {
        lemma_row_is_found(self.rows(), i);
    }

    /// Every name in the map has a row.
    pub proof fn lemma_key_has_row(&self, key: Seq<char>)
        requires
            self.map().contains_key(key),
        ensures
            exists|i: int| 0 <= i < self.rows().len() && (#[trigger] self.rows()[i]).0 == key,
    {
        lemma_found_is_row(self.rows(), key);
    }

    /// The value in a row.
    pub fn value_at(&self, i: usize) -> (r: &V)
        requires
            i < self.rows().len(),
        ensures
            r.deep_view() == self.rows()[i as int].1,
    {
        &self.entries[i].1
    }
}

// ── Sets of names ───────────────────────────────────────────────────────────

/// A set of names.
pub struct NameSet {
    names: Vec<String>,
}

impl NameSet {
    /// The names in the order in which they are kept.
    pub closed spec fn listed(&self) -> Seq<Seq<char>> {
        self.names.deep_view()
    }

    /// The set of the names.
    pub open spec fn set(&self) -> Set<Seq<char>> {
        self.listed().to_set()
    }

    #[verifier::type_invariant]
    spec fn each_once(self) -> bool {
        self.names.deep_view().no_duplicates()
    }

    /// An empty set.
    pub fn new() -> (r: Self)
        ensures
            r.set() == Set::<Seq<char>>::empty(),
    {
        let names: Vec<String> = Vec::new();
        assert(names.deep_view() =~= Seq::<Seq<char>>::empty());
        let r = NameSet { names };
        assert(r.set() =~= Set::<Seq<char>>::empty());
        r
    }

    /// Whether a name is in the set.
    pub fn contains(&self, name: &str) -> (r: bool)
        ensures
            r == self.set().contains(name@),
    {
        is_listed(&self.names, name)
    }

    /// Adds a name.
    pub fn insert(&mut self, name: &str)
        ensures
            final(self).set() == old(self).set().insert(name@),
    {
        proof {
            use_type_invariant(&*self);
        }
        let ghost before = self.listed();
        if is_listed(&self.names, name) {
            assert(self.set() =~= old(self).set().insert(name@));
            return;
        }
        let mut names: Vec<String> = Vec::new();
        assert(names.deep_view().no_duplicates());
        std::mem::swap(&mut names, &mut self.names);
        names.push(owned(name));
        assert(names.deep_view() =~= before.push(name@));
        proof {
            lemma_push_set(before, name@);
        }
        self.names = names;
    }

    /// Takes a name out.
    pub fn remove(&mut self, name: &str)
        ensures
            final(self).set() == old(self).set().remove(name@),
    {
        proof {
            use_type_invariant(&*self);
        }
        let ghost before = self.listed();
        let mut names: Vec<String> = Vec::new();
        assert(names.deep_view() =~= Seq::<Seq<char>>::empty());
        for i in 0..self.names.len()
            invariant
                before == self.names.deep_view(),
                before.no_duplicates(),
                names.deep_view().no_duplicates(),
                forall|x: Seq<char>| #[trigger]
                    names.deep_view().contains(x) == (x != name@ && before.take(
                        i as int,
                    ).contains(x)),
        {
            let ghost kept = names.deep_view();
            assert(before[i as int] == self.names@[i as int]@);
            assert(before.take(i + 1) =~= before.take(i as int).push(before[i as int]));
            proof {
                lemma_push_set(before.take(i as int), before[i as int]);
                assert(!before.take(i as int).contains(before[i as int]));
            }
            if !same(self.names[i].as_str(), name) {
                names.push(owned(self.names[i].as_str()));
                assert(names.deep_view() =~= kept.push(before[i as int]));
                proof {
                    lemma_push_set(kept, before[i as int]);
                }
            }
            assert forall|x: Seq<char>| #[trigger]
                names.deep_view().contains(x) == (x != name@ && before.take(i + 1).contains(
                    x,
                )) by {
                assert(before.take(i + 1).to_set().contains(x) == before.take(
                    i as int,
                ).to_set().insert(before[i as int]).contains(x));
                assert(kept.contains(x) == (x != name@ && before.take(i as int).contains(x)));
                assert(names.deep_view().to_set().contains(x) == names.deep_view().contains(x));
            }
        }
        assert(before.take(before.len() as int) =~= before);
        self.names = names;
        assert(self.set() =~= old(self).set().remove(name@));
    }

    /// How many names there are.
    pub fn len(&self) -> (r: usize)
        ensures
            r == self.set().len(),
    {
        proof {
            use_type_invariant(self);
            self.names.deep_view().unique_seq_to_set();
        }
        self.names.len()
    }

    /// The names, each once.
    pub fn names(&self) -> (r: &Vec<String>)
        ensures
            r.deep_view() == self.listed(),
    {
        &self.names
    }
}

proof fn lemma_push_set(s: Seq<Seq<char>>, x: Seq<char>)
    ensures
        s.push(x).to_set() == s.to_set().insert(x),
        !s.contains(x) && s.no_duplicates() ==> s.push(x).no_duplicates(),
{
    let t = s.push(x);
    assert forall|y: Seq<char>| t.to_set().contains(y) == s.to_set().insert(x).contains(y) by {
        if s.contains(y) {
            let i = choose|i: int| 0 <= i < s.len() && s[i] == y;
            assert(t[i] == y);
        }
        if y == x {
            assert(t[s.len() as int] == x);
        }
    }
    assert(t.to_set() =~= s.to_set().insert(x));
}

impl Clone for NameSet {
    fn clone(&self) -> (r: Self)
        ensures
            r.set() == self.set(),
    {
        let mut r = NameSet::new();
        let ghost all = self.listed();
        assert(all.take(0).to_set() =~= Set::<Seq<char>>::empty());
        for i in 0..self.names.len()
            invariant
                all == self.names.deep_view(),
                r.set() == all.take(i as int).to_set(),
        {
            assert(all[i as int] == self.names@[i as int]@);
            proof {
                lemma_push_set(all.take(i as int), all[i as int]);
                assert(all.take(i + 1) =~= all.take(i as int).push(all[i as int]));
            }
            r.insert(self.names[i].as_str());
        }
        assert(all.take(all.len() as int) =~= all);
        r
    }
}

impl DeepView for NameSet {
    type V = Set<Seq<char>>;

    open spec fn deep_view(&self) -> Set<Seq<char>> {
        self.set()
    }
}

} // verus!
