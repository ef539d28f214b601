//! What the home should look like, kept across reboots: device → attribute
//! → desired value, with the bookkeeping that decides when it is written.
//!
//! Reading and writing the snapshot file are the caller's; this module
//! builds the store from a snapshot's contents and hands contents back.
use vstd::prelude::*;
use crate::ordered_map::{find_index, keys_unique, lemma_find_index_push, Duplicate, MapKey, OrderedMap};
use crate::types::{AttributeKey, DeviceId, Value};

verus! {

/// Attributes set one after another, later ones replacing earlier ones.
pub open spec fn put_all(m: Map<Seq<char>, Value>, attrs: Seq<(String, Value)>) -> Map<Seq<char>, Value>
    decreases attrs.len(),
{
    if attrs.len() == 0 {
        m
    } else {
        put_all(m, attrs.drop_last()).insert(attrs.last().0@, attrs.last().1)
    }
}

/// The attributes stored for device `d` in `m` (none when it is absent).
pub open spec fn attrs_of(m: Map<Seq<char>, Map<Seq<char>, Value>>, d: Seq<char>) -> Map<Seq<char>, Value> {
    if m.contains_key(d) {
        m[d]
    } else {
        Map::empty()
    }
}

/// The desired state a snapshot's device list gives, each device's
/// attributes laid over what earlier entries set.
pub open spec fn loaded_state(devs: Seq<(String, Vec<(String, Value)>)>) -> Map<Seq<char>, Map<Seq<char>, Value>>
    decreases devs.len(),
{
    if devs.len() == 0 {
        Map::empty()
    } else {
        let prev = loaded_state(devs.drop_last());
        let d = devs.last().0@;
        prev.insert(d, put_all(attrs_of(prev, d), devs.last().1@))
    }
}

/// `attrs` lists the entries of an attribute map, in order.
pub open spec fn attrs_listed(attrs: Seq<(String, Value)>, entries: Seq<(AttributeKey, Value)>) -> bool {
    &&& attrs.len() == entries.len()
    &&& forall|j: int| #![trigger attrs[j]] 0 <= j < attrs.len() ==> attrs[j].0@ == entries[j].0.0@
        && attrs[j].1 == entries[j].1
}

/// `devs` lists the devices of a store's entries, in order, each with its
/// attributes.
pub open spec fn snapshot_lists(
    devs: Seq<(String, Vec<(String, Value)>)>,
    entries: Seq<(DeviceId, OrderedMap<AttributeKey, Value>)>,
) -> bool {
    &&& devs.len() == entries.len()
    &&& forall|i: int| #![trigger devs[i]] 0 <= i < devs.len() ==> devs[i].0@ == entries[i].0.0@
        && attrs_listed(devs[i].1@, entries[i].1.entries@)
}

/// The map a sequence of attribute entries stands for, the last entry of a
/// key answering for it.
pub open spec fn entries_map(entries: Seq<(AttributeKey, Value)>) -> Map<Seq<char>, Value> {
    Map::new(
        |k: Seq<char>| find_index(entries, k) >= 0,
        |k: Seq<char>| entries[find_index(entries, k)].1,
    )
}

/// Setting listed attributes one after another on nothing gives the map
/// that the listed entries stand for.
proof fn lemma_put_all_listed(attrs: Seq<(String, Value)>, entries: Seq<(AttributeKey, Value)>)
    requires
        attrs_listed(attrs, entries),
    ensures
        put_all(Map::empty(), attrs) == entries_map(entries),
    decreases attrs.len(),
{
    if attrs.len() == 0 {
        assert(entries_map(entries) =~= Map::<Seq<char>, Value>::empty());
    } else {
        let a2 = attrs.drop_last();
        let e2 = entries.drop_last();
        assert(attrs_listed(a2, e2)) by {
            assert forall|j: int| 0 <= j < a2.len() implies a2[j].0@ == e2[j].0.0@ && a2[j].1
                == e2[j].1 by {
                assert(a2[j] == attrs[j]);
                assert(e2[j] == entries[j]);
            }
        }
        lemma_put_all_listed(a2, e2);
        assert(entries == e2.push(entries.last()));
        assert(attrs.last() == attrs[attrs.len() - 1]);
        assert forall|k: Seq<char>| true implies find_index(entries, k) == if entries.last().0.0@ == k {
            e2.len() as int
        } else {
            find_index(e2, k)
        } by {
            lemma_find_index_push(e2, entries.last(), k);
        }
        let n = attrs.len() - 1;
        assert(attrs[n].0@ == entries[n].0.0@ && attrs[n].1 == entries[n].1);
        let key = attrs.last().0@;
        assert forall|k: Seq<char>| #[trigger] entries_map(entries).contains_key(k) == entries_map(
            e2,
        ).insert(key, attrs.last().1).contains_key(k) by {}
        assert forall|k: Seq<char>| #[trigger] entries_map(entries).contains_key(k) implies entries_map(
            entries,
        )[k] == entries_map(e2).insert(key, attrs.last().1)[k] by {
            if k != key {
                crate::ordered_map::lemma_find_index(e2, k);
                assert(entries[find_index(e2, k)] == e2[find_index(e2, k)]);
            }
        }
        assert(entries_map(entries) =~= entries_map(e2).insert(key, attrs.last().1));
    }
}

/// Loading listed devices, each once, gives the map that the listed
/// entries stand for.
proof fn lemma_loaded_listed(
    devs: Seq<(String, Vec<(String, Value)>)>,
    entries: Seq<(DeviceId, OrderedMap<AttributeKey, Value>)>,
)
    requires
        snapshot_lists(devs, entries),
        keys_unique(entries),
    ensures
        loaded_state(devs) == Map::new(
            |d: Seq<char>| find_index(entries, d) >= 0,
            |d: Seq<char>| entries[find_index(entries, d)].1.view_map(),
        ),
    decreases devs.len(),
{
    let target = Map::new(
        |d: Seq<char>| find_index(entries, d) >= 0,
        |d: Seq<char>| entries[find_index(entries, d)].1.view_map(),
    );
    if devs.len() == 0 {
        assert(loaded_state(devs) =~= target);
    } else {
        let d2 = devs.drop_last();
        let e2 = entries.drop_last();
        let n = devs.len() - 1;
        assert(devs[n] == devs.last());
        assert(snapshot_lists(d2, e2)) by {
            assert forall|i: int| 0 <= i < d2.len() implies d2[i].0@ == e2[i].0.0@ && attrs_listed(
                d2[i].1@,
                e2[i].1.entries@,
            ) by {
                assert(d2[i] == devs[i]);
                assert(e2[i] == entries[i]);
            }
        }
        assert(keys_unique(e2)) by {
            assert forall|i: int, j: int|
                0 <= i < e2.len() && 0 <= j < e2.len() && i != j implies #[trigger] e2[i].0.model()
                != #[trigger] e2[j].0.model() by {
                assert(e2[i] == entries[i]);
                assert(e2[j] == entries[j]);
            }
        }
        lemma_loaded_listed(d2, e2);
        let d = devs.last().0@;
        assert(entries == e2.push(entries.last()));
        assert(entries.last() == entries[n]);
        crate::ordered_map::lemma_find_index(e2, d);
        assert(entries[n].0.model() == d);
        assert forall|j: int| 0 <= j < e2.len() implies #[trigger] e2[j].0.model() != d by {
            assert(e2[j] == entries[j]);
            assert(entries[j].0.model() != entries[n].0.model());
        }
        let prev = loaded_state(d2);
        assert(!prev.contains_key(d));
        assert(attrs_of(prev, d) == Map::<Seq<char>, Value>::empty());
        lemma_put_all_listed(devs.last().1@, entries[n].1.entries@);
        assert(entries[n].1.view_map() =~= entries_map(entries[n].1.entries@));
        assert forall|k: Seq<char>| true implies find_index(entries, k) == if entries.last().0.0@ == k {
            e2.len() as int
        } else {
            find_index(e2, k)
        } by {
            lemma_find_index_push(e2, entries.last(), k);
        }
        let t2 = Map::new(
            |x: Seq<char>| find_index(e2, x) >= 0,
            |x: Seq<char>| e2[find_index(e2, x)].1.view_map(),
        );
        assert(prev == t2);
        assert(devs[n].0@ == entries[n].0.0@ && attrs_listed(devs[n].1@, entries[n].1.entries@));
        let v = entries[n].1.view_map();
        assert(loaded_state(devs) == t2.insert(d, v));
        assert forall|k: Seq<char>| #[trigger] target.contains_key(k) == t2.insert(d, v).contains_key(
            k,
        ) by {}
        assert forall|k: Seq<char>| #[trigger] target.contains_key(k) implies target[k] == t2.insert(
            d,
            v,
        )[k] by {
            if k != d {
                crate::ordered_map::lemma_find_index(e2, k);
                assert(entries[find_index(e2, k)] == e2[find_index(e2, k)]);
            }
        }
        assert(loaded_state(devs) =~= target);
    }
}

/// What a store hands out on a flush, read back as a snapshot of the
/// current version (`from_snapshot`), gives the store's desired state
/// again: what the home should look like survives a restart.
pub proof fn law_snapshot_round_trip(s: DesiredStateStore, devs: Seq<(String, Vec<(String, Value)>)>)
    requires
        s.wf(),
        snapshot_lists(devs, s.state.entries@),
    ensures
        loaded_state(devs) == s.model(),
{
    lemma_loaded_listed(devs, s.state.entries@);
    assert(loaded_state(devs) =~= s.model());
}

/// The snapshot format this store reads and writes.
pub open spec fn snapshot_version() -> u32 {
    1
}

pub struct DesiredStateStore {
    pub path: String,
    pub state: OrderedMap<DeviceId, OrderedMap<AttributeKey, Value>>,
    pub dirty: bool,
    /// When the store was last written, in Unix millis.
    pub last_flush: u64,
    pub flush_interval_ms: u64,
}

#[derive(Debug, Clone)]
pub enum StoreError {
    Io(String),
    Serialize(String),
    Deserialize(String),
}

impl DesiredStateStore {
    /// Device → attribute → value.
    pub open spec fn model(&self) -> Map<Seq<char>, Map<Seq<char>, Value>> {
        Map::new(|d: Seq<char>| self.state.contains(d), |d: Seq<char>| self.state.lookup(d).view_map())
    }

    pub open spec fn wf(&self) -> bool {
        &&& self.state.wf()
        &&& forall|i: int| 0 <= i < self.state.entries@.len() ==> (#[trigger] self.state.entries@[i]).1.wf()
    }

    /// A store with nothing desired, last written at `now`, flushing at most
    /// every 30 s.
    pub fn empty(path: String, now: u64) -> (s: Self)
        ensures
            s.wf(),
            s.path == path,
            s.model() == Map::<Seq<char>, Map<Seq<char>, Value>>::empty(),
            !s.dirty,
            s.last_flush == now,
            s.flush_interval_ms == 30_000,
    {
        let s = DesiredStateStore {
            path,
            state: OrderedMap::new(),
            dirty: false,
            last_flush: now,
            flush_interval_ms: 30_000,
        };
        assert(s.model() =~= Map::<Seq<char>, Map<Seq<char>, Value>>::empty());
        s
    }

    /// The store a snapshot file gives: `None` when there is no file (first
    /// boot); a snapshot of another version is ignored. Either way the store
    /// then holds nothing.
    pub fn from_snapshot(
        path: String,
        snapshot: Option<(u32, Vec<(String, Vec<(String, Value)>)>)>,
        now: u64,
    ) -> (s: Self)
        ensures
            s.wf(),
            s.path == path,
            s.model() == match snapshot {
                Some((v, devs)) if v == snapshot_version() => loaded_state(devs@),
                _ => Map::empty(),
            },
            !s.dirty,
            s.last_flush == now,
            s.flush_interval_ms == 30_000,
    {
        let mut s = Self::empty(path, now);
        match snapshot {
            Some((version, devices)) => {
                if version == 1 {
                    let ghost devs = devices@;
                    let n = devices.len();
                    let mut i: usize = 0;
                    while i < n
                        invariant
                            n == devs.len(),
                            devices@ == devs,
                            i <= n,
                            s.wf(),
                            s.path == path,
                            s.last_flush == now,
                            s.flush_interval_ms == 30_000,
                            s.model() == loaded_state(devs.subrange(0, i as int)),
                        decreases n - i,
                    {
                        let (dev, attrs) = &devices[i];
                        let ghost before = s.model();
                        let m = attrs.len();
                        s.touch(&DeviceId(dev.clone()));
                        let mut j: usize = 0;
                        assert(attrs@.subrange(0, 0) =~= Seq::<(String, Value)>::empty());
                        while j < m
                            invariant
                                m == attrs@.len(),
                                j <= m,
                                s.wf(),
                                s.path == path,
                                s.last_flush == now,
                                s.flush_interval_ms == 30_000,
                                s.model() == before.insert(
                                    dev@,
                                    put_all(attrs_of(before, dev@), attrs@.subrange(0, j as int)),
                                ),
                            decreases m - j,
                        {
                            let (a, v) = &attrs[j];
                            let ghost mid = s.model();
                            s.set(&DeviceId(dev.clone()), AttributeKey(a.clone()), v.duplicate());
                            proof {
                                let sub = attrs@.subrange(0, j + 1);
                                assert(sub.drop_last() =~= attrs@.subrange(0, j as int));
                                assert(attrs_of(mid, dev@) == put_all(
                                    attrs_of(before, dev@),
                                    attrs@.subrange(0, j as int),
                                ));
                                assert(s.model() =~= before.insert(
                                    dev@,
                                    put_all(attrs_of(before, dev@), sub),
                                ));
                            }
                            j = j + 1;
                        }
                        proof {
                            assert(attrs@.subrange(0, m as int) =~= attrs@);
                            let sub = devs.subrange(0, i + 1);
                            assert(sub.drop_last() =~= devs.subrange(0, i as int));
                            assert(s.model() =~= loaded_state(sub));
                        }
                        i = i + 1;
                    }
                    proof {
                        assert(devs.subrange(0, n as int) =~= devs);
                    }
                    s.dirty = false;
                }
            },
            None => {},
        }
        s
    }

    /// Gives `device_id` an entry, with no attributes when it had none.
    fn touch(&mut self, device_id: &DeviceId)
        requires
            old(self).wf(),
        ensures
            final(self).wf(),
            final(self).model() == old(self).model().insert(
                device_id.0@,
                attrs_of(old(self).model(), device_id.0@),
            ),
            final(self).dirty == old(self).dirty,
            final(self).path == old(self).path,
            final(self).last_flush == old(self).last_flush,
            final(self).flush_interval_ms == old(self).flush_interval_ms,
    {
        let ghost old_model = self.model();
        let ghost d = device_id.0@;
        if self.state.contains_key(device_id) {
            assert(self.model() =~= old_model.insert(d, attrs_of(old_model, d)));
            return;
        }
        let ghost old_state = self.state;
        let attrs: OrderedMap<AttributeKey, Value> = OrderedMap::new();
        self.state.insert(device_id.duplicate(), attrs);
        proof {
            crate::ordered_map::lemma_find_index(old_state.entries@, d);
            assert forall|i: int| 0 <= i < self.state.entries@.len() implies (
            #[trigger] self.state.entries@[i]).1.wf() by {
                if i < old_state.entries@.len() {
                    assert(self.state.entries@[i] == old_state.entries@[i]);
                }
            }
            assert(attrs.view_map() =~= Map::<Seq<char>, Value>::empty());
            assert(self.model() =~= old_model.insert(d, attrs_of(old_model, d)));
        }
    }

    /// Records that `attr` of `device_id` should be `value`; the store is
    /// then dirty.
    pub fn set(&mut self, device_id: &DeviceId, attr: AttributeKey, value: Value)
        requires
            old(self).wf(),
        ensures
            final(self).wf(),
            final(self).model() == old(self).model().insert(
                device_id.0@,
                attrs_of(old(self).model(), device_id.0@).insert(attr.0@, value),
            ),
            final(self).dirty,
            final(self).path == old(self).path,
            final(self).last_flush == old(self).last_flush,
            final(self).flush_interval_ms == old(self).flush_interval_ms,
    {
        let ghost old_model = self.model();
        let ghost d = device_id.0@;
        let mut attrs: OrderedMap<AttributeKey, Value> = match self.state.get(device_id) {
            Some(m) => m.copy(),
            None => OrderedMap::new(),
        };
        proof {
            if self.state.contains(d) {
                crate::ordered_map::lemma_find_index(self.state.entries@, d);
                assert(attrs.view_map() =~= attrs_of(old_model, d));
                assert(attrs.wf());
            } else {
                assert(attrs.view_map() =~= attrs_of(old_model, d));
            }
        }
        let ghost before_attrs = attrs;
        attrs.insert(attr, value);
        proof {
            assert(attrs.view_map() =~= before_attrs.view_map().insert(attr.0@, value));
        }
        let ghost old_state = self.state;
        self.state.insert(device_id.duplicate(), attrs);
        self.dirty = true;
        proof {
            crate::ordered_map::lemma_find_index(old_state.entries@, d);
            assert forall|i: int| 0 <= i < self.state.entries@.len() implies (
            #[trigger] self.state.entries@[i]).1.wf() by {
                if old_state.contains(d) {
                    if i != old_state.index_of(d) {
                        assert(self.state.entries@[i] == old_state.entries@[i]);
                    }
                } else if i < old_state.entries@.len() {
                    assert(self.state.entries@[i] == old_state.entries@[i]);
                }
            }
            assert(self.model() =~= old_model.insert(d, attrs_of(old_model, d).insert(attr.0@, value)));
        }
    }

    pub fn get_all(&self) -> (r: &OrderedMap<DeviceId, OrderedMap<AttributeKey, Value>>)
        ensures
            *r == self.state,
    {
        &self.state
    }

    /// Whether a write is due at `now`: something changed and the flush
    /// interval has passed since the last write (a clock that went back
    /// counts as no time passed).
    pub fn flush_if_needed(&self, now: u64) -> (r: bool)
        ensures
            r == (self.dirty && (if now >= self.last_flush { now - self.last_flush } else { 0 })
                >= self.flush_interval_ms),
    {
        self.dirty && now.saturating_sub(self.last_flush) >= self.flush_interval_ms
    }

    /// The contents to write on a flush: every device with its attributes,
    /// in the store's order; `None` when nothing changed since the last
    /// write.
    pub fn flush(&self) -> (r: Option<Vec<(String, Vec<(String, Value)>)>>)
        ensures
            r is None <==> !self.dirty,
            r matches Some(devs) ==> snapshot_lists(devs@, self.state.entries@),
    {
        if !self.dirty {
            return None;
        }
        let mut devs: Vec<(String, Vec<(String, Value)>)> = Vec::new();
        let mut i: usize = 0;
        while i < self.state.entries.len()
            invariant
                i <= self.state.entries@.len(),
                devs@.len() == i,
                forall|k: int| #![trigger devs@[k]] 0 <= k < i ==> {
                    &&& devs@[k].0@ == self.state.entries@[k].0.0@
                    &&& devs@[k].1@.len() == self.state.entries@[k].1.entries@.len()
                    &&& forall|j: int| #![trigger devs@[k].1@[j]] 0 <= j < devs@[k].1@.len() ==>
                        devs@[k].1@[j].0@ == self.state.entries@[k].1.entries@[j].0.0@
                        && devs@[k].1@[j].1 == self.state.entries@[k].1.entries@[j].1
                },
            decreases self.state.entries@.len() - i,
        {
            let entry = &self.state.entries[i];
            let mut attrs: Vec<(String, Value)> = Vec::new();
            let mut j: usize = 0;
            while j < entry.1.entries.len()
                invariant
                    j <= entry.1.entries@.len(),
                    attrs@.len() == j,
                    forall|q: int| #![trigger attrs@[q]] 0 <= q < j ==> attrs@[q].0@
                        == entry.1.entries@[q].0.0@ && attrs@[q].1 == entry.1.entries@[q].1,
                decreases entry.1.entries@.len() - j,
            {
                let a = &entry.1.entries[j];
                attrs.push((a.0.0.clone(), a.1.duplicate()));
                j = j + 1;
            }
            devs.push((entry.0.0.clone(), attrs));
            i = i + 1;
        }
        assert(snapshot_lists(devs@, self.state.entries@)) by {
            assert forall|i: int| 0 <= i < devs@.len() implies devs@[i].0@
                == self.state.entries@[i].0.0@ && attrs_listed(
                devs@[i].1@,
                self.state.entries@[i].1.entries@,
            ) by {
                assert(devs@[i].0@ == self.state.entries@[i].0.0@);
            }
        }
        Some(devs)
    }

    /// Records a completed write at `now`.
    pub fn mark_flushed(&mut self, now: u64)
        ensures
            !final(self).dirty,
            final(self).last_flush == now,
            final(self).state == old(self).state,
            final(self).path == old(self).path,
            final(self).flush_interval_ms == old(self).flush_interval_ms,
    {
        self.dirty = false;
        self.last_flush = now;
    }
}

} // verus!
