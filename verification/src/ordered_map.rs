//! A map kept as a vector of key/value pairs in insertion order.
//!
//! Lookups scan from the back, so the entry that answers for a key is the last
//! one whose key matches; `insert` replaces that entry in place or appends a
//! new one, so keys never occur twice in a map built by these operations.
//!
//! The library's maps are keyed by text (device, attribute and rule ids).
//! vstd's specification of `std::collections::HashMap` holds only for key
//! types that `obeys_key_model` covers, which vstd establishes for integer
//! keys and not for `String`; this map is specified for any key with a
//! model, and keeps the insertion order that listings show.
use vstd::prelude::*;

verus! {

/// A key that can be compared in executable code against its model.
pub trait MapKey: Sized {
    type Model;

    spec fn model(&self) -> Self::Model;

    fn same_key(&self, other: &Self) -> (r: bool)
        ensures
            r == (self.model() == other.model()),
    ;
}

/// A value that can be copied exactly.
pub trait Duplicate: Sized {
    fn duplicate(&self) -> (r: Self)
        ensures
            r == *self,
    ;
}

impl MapKey for String {
    type Model = Seq<char>;

    open spec fn model(&self) -> Seq<char> {
        self@
    }

    fn same_key(&self, other: &Self) -> (r: bool) {
        *self == *other
    }
}

impl Duplicate for String {
    fn duplicate(&self) -> (r: Self) {
        self.clone()
    }
}

impl MapKey for usize {
    type Model = usize;

    open spec fn model(&self) -> usize {
        *self
    }

    fn same_key(&self, other: &Self) -> (r: bool) {
        *self == *other
    }
}

impl Duplicate for u64 {
    fn duplicate(&self) -> (r: Self) {
        *self
    }
}

/// Index of the last entry of `s` whose key has model `k`, or -1.
pub open spec fn find_index<K: MapKey, V>(s: Seq<(K, V)>, k: K::Model) -> int
    decreases s.len(),
{
    if s.len() == 0 {
        -1
    } else if s.last().0.model() == k {
        s.len() - 1
    } else {
        find_index(s.drop_last(), k)
    }
}

/// No two entries of `s` have keys with the same model.
pub open spec fn keys_unique<K: MapKey, V>(s: Seq<(K, V)>) -> bool {
    forall|i: int, j: int|
        0 <= i < s.len() && 0 <= j < s.len() && i != j ==> #[trigger] s[i].0.model()
            != #[trigger] s[j].0.model()
}

/// `find_index` answers the last matching position, or -1 when none matches.
pub proof fn lemma_find_index<K: MapKey, V>(s: Seq<(K, V)>, k: K::Model)
    ensures
        -1 <= find_index(s, k) < s.len(),
        find_index(s, k) >= 0 ==> s[find_index(s, k)].0.model() == k,
        forall|j: int| find_index(s, k) < j < s.len() ==> #[trigger] s[j].0.model() != k,
        find_index(s, k) == -1 <==> forall|j: int| 0 <= j < s.len() ==> #[trigger] s[j].0.model() != k,
    decreases s.len(),
{
    if s.len() > 0 {
        lemma_find_index(s.drop_last(), k);
        assert(forall|j: int| 0 <= j < s.len() - 1 ==> s.drop_last()[j] == s[j]);
    }
}

/// Two sequences with the same key models at every position answer every
/// key at the same position.
pub proof fn lemma_find_index_same_keys<K: MapKey, V>(s: Seq<(K, V)>, t: Seq<(K, V)>, k: K::Model)
    requires
        s.len() == t.len(),
        forall|i: int| 0 <= i < s.len() ==> #[trigger] s[i].0.model() == t[i].0.model(),
    ensures
        find_index(s, k) == find_index(t, k),
    decreases s.len(),
{
    if s.len() > 0 {
        let s2 = s.drop_last();
        let t2 = t.drop_last();
        assert forall|i: int| 0 <= i < s2.len() implies #[trigger] s2[i].0.model()
            == t2[i].0.model() by {
            assert(s2[i] == s[i]);
            assert(t2[i] == t[i]);
        }
        lemma_find_index_same_keys(s2, t2, k);
    }
}

/// Appending an entry makes it the answer for its key and leaves other keys alone.
pub proof fn lemma_find_index_push<K: MapKey, V>(s: Seq<(K, V)>, e: (K, V), k: K::Model)
    ensures
        find_index(s.push(e), k) == if e.0.model() == k {
            s.len() as int
        } else {
            find_index(s, k)
        },
{
    assert(s.push(e).drop_last() =~= s);
}

/// In a sequence with unique keys, removing the entry at `i` shifts the
/// answers of the other keys past `i` down by one.
pub proof fn lemma_find_index_remove<K: MapKey, V>(s: Seq<(K, V)>, i: int, k: K::Model)
    requires
        keys_unique(s),
        0 <= i < s.len(),
        s[i].0.model() != k,
    ensures
        find_index(s.remove(i), k) == if find_index(s, k) < i {
            find_index(s, k)
        } else {
            find_index(s, k) - 1
        },
        keys_unique(s.remove(i)),
{
    let r = s.remove(i);
    lemma_find_index(s, k);
    lemma_find_index(r, k);
    let f = find_index(s, k);
    let g = find_index(r, k);
    if f == -1 {
        if g >= 0 {
            if g < i {
                assert(r[g] == s[g]);
            } else {
                assert(r[g] == s[g + 1]);
            }
        }
    } else if f < i {
        assert(r[f] == s[f]);
        if g > f {
            if g < i {
                assert(r[g] == s[g]);
            } else {
                assert(r[g] == s[g + 1]);
            }
        }
    } else {
        assert(r[f - 1] == s[f]);
        if g > f - 1 {
            assert(r[g] == s[g + 1]);
        }
    }
    assert forall|a: int, b: int|
        0 <= a < r.len() && 0 <= b < r.len() && a != b implies #[trigger] r[a].0.model()
        != #[trigger] r[b].0.model() by {
        let a2 = if a < i { a } else { a + 1 };
        let b2 = if b < i { b } else { b + 1 };
        assert(r[a] == s[a2]);
        assert(r[b] == s[b2]);
    }
}

/// Replacing the value at one position keeps the keys, hence uniqueness and
/// the position answered for every key.
pub proof fn lemma_update_value<K: MapKey, V>(s: Seq<(K, V)>, i: int, e: (K, V))
    requires
        0 <= i < s.len(),
        e.0.model() == s[i].0.model(),
    ensures
        forall|k: K::Model| #[trigger] find_index(s.update(i, e), k) == find_index(s, k),
        keys_unique(s) ==> keys_unique(s.update(i, e)),
{
    let t = s.update(i, e);
    assert forall|j: int| 0 <= j < s.len() implies #[trigger] s[j].0.model() == t[j].0.model() by {}
    assert forall|k: K::Model| #[trigger] find_index(t, k) == find_index(s, k) by {
        lemma_find_index_same_keys(s, t, k);
    }
    if keys_unique(s) {
        assert forall|a: int, b: int|
            0 <= a < t.len() && 0 <= b < t.len() && a != b implies #[trigger] t[a].0.model()
            != #[trigger] t[b].0.model() by {
            assert(s[a].0.model() == t[a].0.model());
            assert(s[b].0.model() == t[b].0.model());
        }
    }
}

/// Storing `(k, v)` as `insert` does changes the map at `k` alone.
pub proof fn lemma_view_after_store<K: MapKey, V>(before: OrderedMap<K, V>, after: OrderedMap<K, V>, k: K, v: V)
    requires
        before.contains(k.model()) ==> after.entries@ == before.entries@.update(
            before.index_of(k.model()),
            (k, v),
        ),
        !before.contains(k.model()) ==> after.entries@ == before.entries@.push((k, v)),
    ensures
        after.view_map() == before.view_map().insert(k.model(), v),
{
    let km = k.model();
    lemma_find_index(before.entries@, km);
    if before.contains(km) {
        let p = before.index_of(km);
        lemma_update_value(before.entries@, p, (k, v));
        assert forall|key: K::Model| #[trigger] after.contains(key) == before.view_map().insert(km, v).contains_key(key)
            && (after.contains(key) ==> after.lookup(key) == before.view_map().insert(km, v)[key]) by {
            lemma_find_index(before.entries@, key);
            assert(find_index(after.entries@, key) == find_index(before.entries@, key));
            if key != km && before.contains(key) {
                assert(before.index_of(key) != p);
            }
        }
    } else {
        assert forall|key: K::Model| #[trigger] after.contains(key) == before.view_map().insert(km, v).contains_key(key)
            && (after.contains(key) ==> after.lookup(key) == before.view_map().insert(km, v)[key]) by {
            lemma_find_index_push(before.entries@, (k, v), key);
            lemma_find_index(before.entries@, key);
        }
    }
    assert(after.view_map() =~= before.view_map().insert(km, v));
}

#[derive(Clone, Debug)]
pub struct OrderedMap<K, V> {
    pub entries: Vec<(K, V)>,
}

impl<K: MapKey, V> OrderedMap<K, V> {
    pub open spec fn index_of(&self, k: K::Model) -> int {
        find_index(self.entries@, k)
    }

    pub open spec fn contains(&self, k: K::Model) -> bool {
        self.index_of(k) >= 0
    }

    /// The value stored for `k` (meaningful when `contains(k)`).
    pub open spec fn lookup(&self, k: K::Model) -> V {
        self.entries@[self.index_of(k)].1
    }

    pub open spec fn wf(&self) -> bool {
        keys_unique(self.entries@)
    }

    /// The map the entries stand for: each key to the value that answers
    /// for it.
    pub open spec fn view_map(&self) -> Map<K::Model, V> {
        Map::new(|k: K::Model| self.contains(k), |k: K::Model| self.lookup(k))
    }

    pub fn new() -> (m: Self)
        ensures
            m.entries@ == Seq::<(K, V)>::empty(),
            m.wf(),
    {
        OrderedMap { entries: Vec::new() }
    }

    pub fn len(&self) -> (n: usize)
        ensures
            n == self.entries@.len(),
    {
        self.entries.len()
    }

    /// Position of the entry for `k`.
    pub fn find(&self, k: &K) -> (r: Option<usize>)
        ensures
            r is None <==> !self.contains(k.model()),
            r matches Some(i) ==> i == self.index_of(k.model()),
    {
        let n = self.entries.len();
        let mut i = n;
        while i > 0
            invariant
                i <= n,
                n == self.entries@.len(),
                forall|j: int| i <= j < n ==> #[trigger] self.entries@[j].0.model() != k.model(),
            decreases i,
        {
            if self.entries[i - 1].0.same_key(k) {
                proof {
                    lemma_find_index(self.entries@, k.model());
                }
                return Some(i - 1);
            }
            i = i - 1;
        }
        proof {
            lemma_find_index(self.entries@, k.model());
        }
        None
    }

    pub fn contains_key(&self, k: &K) -> (r: bool)
        ensures
            r == self.contains(k.model()),
    {
        self.find(k).is_some()
    }

    pub fn get(&self, k: &K) -> (r: Option<&V>)
        ensures
            r is None <==> !self.contains(k.model()),
            r matches Some(v) ==> *v == self.lookup(k.model()),
    {
        proof {
            lemma_find_index(self.entries@, k.model());
        }
        match self.find(k) {
            Some(i) => Some(&self.entries[i].1),
            None => None,
        }
    }

    /// Stores `v` for `k`: the entry for `k` is replaced in place, or a new
    /// entry is appended.
    pub fn insert(&mut self, k: K, v: V)
        ensures
            old(self).contains(k.model()) ==> final(self).entries@ == old(self).entries@.update(
                old(self).index_of(k.model()),
                (k, v),
            ),
            !old(self).contains(k.model()) ==> final(self).entries@ == old(self).entries@.push(
                (k, v),
            ),
            final(self).contains(k.model()),
            final(self).lookup(k.model()) == v,
            forall|k2: K::Model|
                k2 != k.model() ==> (#[trigger] final(self).contains(k2) == old(self).contains(k2))
                    && (old(self).contains(k2) ==> final(self).lookup(k2) == old(self).lookup(k2)),
            old(self).wf() ==> final(self).wf(),
    {
        let ghost old_entries = self.entries@;
        let ghost km = k.model();
        proof {
            lemma_find_index(old_entries, km);
        }
        match self.find(&k) {
            Some(i) => {
                self.entries.set(i, (k, v));
                proof {
                    let new_entries = self.entries@;
                    assert forall|j: int| 0 <= j < old_entries.len() implies #[trigger] old_entries[j].0.model()
                        == new_entries[j].0.model() by {}
                    assert forall|k2: K::Model| true implies find_index(new_entries, k2)
                        == find_index(old_entries, k2) by {
                        lemma_find_index_same_keys(old_entries, new_entries, k2);
                    }
                    assert(find_index(new_entries, km) == find_index(old_entries, km));
                    assert forall|k2: K::Model| k2 != km implies (#[trigger] self.contains(k2)
                        == old(self).contains(k2)) && (old(self).contains(k2) ==> self.lookup(k2)
                        == old(self).lookup(k2)) by {
                        lemma_find_index_same_keys(old_entries, new_entries, k2);
                        lemma_find_index(old_entries, k2);
                    }
                    assert forall|a: int, b: int|
                        old_entries.len() > 0 && keys_unique(old_entries) && 0 <= a < new_entries.len() && 0
                            <= b < new_entries.len() && a != b implies #[trigger] new_entries[a].0.model()
                        != #[trigger] new_entries[b].0.model() by {
                        assert(old_entries[a].0.model() == new_entries[a].0.model());
                        assert(old_entries[b].0.model() == new_entries[b].0.model());
                    }
                }
            },
            None => {
                self.entries.push((k, v));
                proof {
                    let new_entries = self.entries@;
                    assert(new_entries == old_entries.push((k, v)));
                    assert forall|k2: K::Model| true implies find_index(new_entries, k2) == if km
                        == k2 {
                        old_entries.len() as int
                    } else {
                        find_index(old_entries, k2)
                    } by {
                        lemma_find_index_push(old_entries, (k, v), k2);
                    }
                    assert forall|k2: K::Model| k2 != km implies (#[trigger] self.contains(k2)
                        == old(self).contains(k2)) && (old(self).contains(k2) ==> self.lookup(k2)
                        == old(self).lookup(k2)) by {
                        lemma_find_index_push(old_entries, (k, v), k2);
                        lemma_find_index(old_entries, k2);
                    }
                    assert forall|a: int, b: int|
                        keys_unique(old_entries) && 0 <= a < new_entries.len() && 0 <= b
                            < new_entries.len() && a != b implies #[trigger] new_entries[a].0.model()
                        != #[trigger] new_entries[b].0.model() by {
                        if a < old_entries.len() && b < old_entries.len() {
                            assert(new_entries[a] == old_entries[a]);
                            assert(new_entries[b] == old_entries[b]);
                        } else if a < old_entries.len() {
                            assert(new_entries[a] == old_entries[a]);
                        } else {
                            assert(new_entries[b] == old_entries[b]);
                        }
                    }
                }
            },
        }
    }

    /// Removes the entry for `k` and hands back its value.
    pub fn remove(&mut self, k: &K) -> (r: Option<V>)
        requires
            old(self).wf(),
        ensures
            final(self).wf(),
            r is None <==> !old(self).contains(k.model()),
            r is None ==> final(self).entries@ == old(self).entries@,
            r matches Some(v) ==> v == old(self).lookup(k.model()) && final(self).entries@ == old(self).entries@.remove(old(self).index_of(k.model())),
            !final(self).contains(k.model()),
            forall|k2: K::Model|
                k2 != k.model() ==> (#[trigger] final(self).contains(k2) == old(self).contains(k2))
                    && (old(self).contains(k2) ==> final(self).lookup(k2) == old(self).lookup(k2)),
    {
        let ghost old_entries = self.entries@;
        let ghost km = k.model();
        proof {
            lemma_find_index(old_entries, km);
        }
        match self.find(k) {
            Some(i) => {
                let (_key, v) = self.entries.remove(i);
                proof {
                    let new_entries = self.entries@;
                    assert forall|k2: K::Model| k2 != km implies find_index(new_entries, k2) == if find_index(
                        old_entries,
                        k2,
                    ) < i {
                        find_index(old_entries, k2)
                    } else {
                        find_index(old_entries, k2) - 1
                    } by {
                        lemma_find_index_remove(old_entries, i as int, k2);
                        lemma_find_index(old_entries, k2);
                    }
                    assert forall|k2: K::Model| k2 != km && find_index(old_entries, k2) >= 0 implies
                        #[trigger] new_entries[find_index(new_entries, k2)] == old_entries[find_index(
                        old_entries,
                        k2,
                    )] by {
                        lemma_find_index_remove(old_entries, i as int, k2);
                        lemma_find_index(old_entries, k2);
                    }
                    assert forall|k2: K::Model| k2 != km implies (#[trigger] self.contains(k2)
                        == old(self).contains(k2)) && (old(self).contains(k2) ==> self.lookup(k2)
                        == old(self).lookup(k2)) by {
                        lemma_find_index_remove(old_entries, i as int, k2);
                        lemma_find_index(old_entries, k2);
                        if find_index(old_entries, k2) >= 0 {
                            if find_index(old_entries, k2) < i {
                                assert(new_entries[find_index(old_entries, k2)] == old_entries[find_index(old_entries, k2)]);
                            } else {
                                assert(new_entries[find_index(old_entries, k2) - 1] == old_entries[find_index(old_entries, k2)]);
                            }
                        }
                    }
                    lemma_find_index(new_entries, km);
                    if find_index(new_entries, km) >= 0 {
                        let g = find_index(new_entries, km);
                        if g < i {
                            assert(new_entries[g] == old_entries[g]);
                        } else {
                            assert(new_entries[g] == old_entries[g + 1]);
                        }
                    }
                    if old_entries.len() > 1 {
                        let j: int = if i == 0 { 1 } else { 0 };
                        lemma_find_index_remove(old_entries, i as int, old_entries[j].0.model());
                    } else {
                        assert(new_entries.len() == 0);
                    }
                }
                Some(v)
            },
            None => None,
        }
    }

    /// An entry-for-entry copy.
    pub fn copy(&self) -> (r: Self) where K: Duplicate, V: Duplicate
        ensures
            r.entries@ == self.entries@,
    {
        let mut entries: Vec<(K, V)> = Vec::new();
        let mut i: usize = 0;
        while i < self.entries.len()
            invariant
                i <= self.entries@.len(),
                entries@ == self.entries@.subrange(0, i as int),
            decreases self.entries@.len() - i,
        {
            let e = &self.entries[i];
            entries.push((e.0.duplicate(), e.1.duplicate()));
            i = i + 1;
        }
        assert(self.entries@.subrange(0, self.entries@.len() as int) =~= self.entries@);
        OrderedMap { entries }
    }

    /// Takes out the entry at position `i`.
    pub fn remove_at(&mut self, i: usize) -> (e: (K, V))
        requires
            i < old(self).entries@.len(),
        ensures
            e == old(self).entries@[i as int],
            final(self).entries@ == old(self).entries@.remove(i as int),
    {
        self.entries.remove(i)
    }

    /// Puts an entry back at position `i`.
    pub fn insert_at(&mut self, i: usize, e: (K, V))
        requires
            i <= old(self).entries@.len(),
        ensures
            final(self).entries@ == old(self).entries@.insert(i as int, e),
    {
        self.entries.insert(i, e);
    }

    pub fn clear(&mut self)
        ensures
            final(self).entries@ == Seq::<(K, V)>::empty(),
            final(self).wf(),
    {
        self.entries.clear();
    }
}

} // verus!
