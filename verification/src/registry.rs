//! The device registry: every known device, by internal and external id.
use vstd::prelude::*;
use crate::ordered_map::{lemma_find_index, Duplicate, OrderedMap};
use crate::strings::str_eq;
use crate::types::{AttributeKey, Capability, Device, DeviceId, DeviceKind, Value};

verus! {

pub struct DeviceRegistry {
    pub devices: OrderedMap<DeviceId, Device>,
    pub external_to_internal: OrderedMap<String, DeviceId>,
}

/// The kind a device file names: the variant of that name, or `Unknown`.
pub open spec fn device_kind_named(kind: Seq<char>) -> DeviceKind {
    if kind == "Gate"@ {
        DeviceKind::Gate
    } else if kind == "SecurityLight"@ {
        DeviceKind::SecurityLight
    } else if kind == "BoreholePump"@ {
        DeviceKind::BoreholePump
    } else if kind == "WaterTank"@ {
        DeviceKind::WaterTank
    } else if kind == "AlarmPanel"@ {
        DeviceKind::AlarmPanel
    } else if kind == "Camera"@ {
        DeviceKind::Camera
    } else if kind == "SmartPlug"@ {
        DeviceKind::SmartPlug
    } else if kind == "Inverter"@ {
        DeviceKind::Inverter
    } else if kind == "Generator"@ {
        DeviceKind::Generator
    } else if kind == "PowerMonitor"@ {
        DeviceKind::PowerMonitor
    } else if kind == "Sensor"@ {
        DeviceKind::Sensor
    } else {
        DeviceKind::Unknown
    }
}

/// Maps the `kind` text of a device entry to its `DeviceKind`.
pub fn parse_device_kind(kind: &str) -> (k: DeviceKind)
    ensures
        k == device_kind_named(kind@),
{
    if str_eq(kind, "Gate") {
        DeviceKind::Gate
    } else if str_eq(kind, "SecurityLight") {
        DeviceKind::SecurityLight
    } else if str_eq(kind, "BoreholePump") {
        DeviceKind::BoreholePump
    } else if str_eq(kind, "WaterTank") {
        DeviceKind::WaterTank
    } else if str_eq(kind, "AlarmPanel") {
        DeviceKind::AlarmPanel
    } else if str_eq(kind, "Camera") {
        DeviceKind::Camera
    } else if str_eq(kind, "SmartPlug") {
        DeviceKind::SmartPlug
    } else if str_eq(kind, "Inverter") {
        DeviceKind::Inverter
    } else if str_eq(kind, "Generator") {
        DeviceKind::Generator
    } else if str_eq(kind, "PowerMonitor") {
        DeviceKind::PowerMonitor
    } else if str_eq(kind, "Sensor") {
        DeviceKind::Sensor
    } else {
        DeviceKind::Unknown
    }
}

/// A capability table of a device file: the attribute it names under
/// `Writable` and under `Readable`, where that key holds text.
#[derive(Debug, Clone)]
pub struct CapabilityEntry {
    pub writable: Option<String>,
    pub readable: Option<String>,
}

/// One `[[devices]]` entry of a device file.
#[derive(Debug, Clone)]
pub struct DeviceEntry {
    pub id: String,
    pub external_id: String,
    pub name: String,
    pub kind: String,
    pub capabilities: Vec<CapabilityEntry>,
    pub confidence_decay_seconds: u64,
    pub safe_default: Vec<(String, Value)>,
}

#[derive(Debug, Clone)]
pub enum RegistryError {
    IoError(String),
    ParseError(String),
}

/// Position of the last device in `s` with internal id `k`, or -1.
pub open spec fn last_with_id(s: Seq<Device>, k: Seq<char>) -> int
    decreases s.len(),
{
    if s.len() == 0 {
        -1
    } else if s.last().id.0@ == k {
        s.len() - 1
    } else {
        last_with_id(s.drop_last(), k)
    }
}

/// Position of the last device in `s` with external id `x`, or -1.
pub open spec fn last_with_external(s: Seq<Device>, x: Seq<char>) -> int
    decreases s.len(),
{
    if s.len() == 0 {
        -1
    } else if s.last().external_id@ == x {
        s.len() - 1
    } else {
        last_with_external(s.drop_last(), x)
    }
}

proof fn lemma_last_with_id(s: Seq<Device>, k: Seq<char>)
    ensures
        -1 <= last_with_id(s, k) < s.len(),
        last_with_id(s, k) >= 0 ==> s[last_with_id(s, k)].id.0@ == k,
    decreases s.len(),
{
    if s.len() > 0 {
        lemma_last_with_id(s.drop_last(), k);
    }
}

proof fn lemma_last_with_external(s: Seq<Device>, x: Seq<char>)
    ensures
        -1 <= last_with_external(s, x) < s.len(),
        last_with_external(s, x) >= 0 ==> s[last_with_external(s, x)].external_id@ == x,
    decreases s.len(),
{
    if s.len() > 0 {
        lemma_last_with_external(s.drop_last(), x);
    }
}

/// Position of the last entry in `s` with id `k`, or -1.
pub open spec fn last_entry_with_id(s: Seq<DeviceEntry>, k: Seq<char>) -> int
    decreases s.len(),
{
    if s.len() == 0 {
        -1
    } else if s.last().id@ == k {
        s.len() - 1
    } else {
        last_entry_with_id(s.drop_last(), k)
    }
}

/// Position of the last entry in `s` with external id `x`, or -1.
pub open spec fn last_entry_with_external(s: Seq<DeviceEntry>, x: Seq<char>) -> int
    decreases s.len(),
{
    if s.len() == 0 {
        -1
    } else if s.last().external_id@ == x {
        s.len() - 1
    } else {
        last_entry_with_external(s.drop_last(), x)
    }
}

proof fn lemma_last_entry_matches(es: Seq<DeviceEntry>, ds: Seq<Device>, k: Seq<char>)
    requires
        es.len() == ds.len(),
        forall|q: int| #![trigger ds[q]] 0 <= q < ds.len() ==> device_of(es[q], ds[q]),
    ensures
        last_with_id(ds, k) == last_entry_with_id(es, k),
        last_with_external(ds, k) == last_entry_with_external(es, k),
    decreases es.len(),
{
    if es.len() > 0 {
        assert(device_of(es.last(), ds.last())) by {
            assert(ds[ds.len() - 1] == ds.last());
        }
        assert forall|q: int| #![trigger ds.drop_last()[q]] 0 <= q < ds.drop_last().len() implies device_of(
            es.drop_last()[q],
            ds.drop_last()[q],
        ) by {
            assert(ds.drop_last()[q] == ds[q]);
        }
        lemma_last_entry_matches(es.drop_last(), ds.drop_last(), k);
    }
}

/// The device an entry describes.
pub open spec fn device_of(e: DeviceEntry, d: Device) -> bool {
    &&& d.id.0@ == e.id@
    &&& d.external_id@ == e.external_id@
    &&& d.name@ == e.name@
    &&& d.kind == device_kind_named(e.kind@)
    &&& d.capabilities@.len() == e.capabilities@.len()
    &&& forall|i: int| #![trigger d.capabilities@[i]] 0 <= i < d.capabilities@.len() ==> capability_matches(
        d.capabilities@[i],
        e.capabilities@[i],
    )
    &&& d.confidence_decay_seconds == e.confidence_decay_seconds
    &&& d.safe_default.wf()
    &&& forall|k: Seq<char>| #[trigger] d.safe_default.contains(k) <==> exists|j: int|
        0 <= j < e.safe_default@.len() && e.safe_default@[j].0@ == k
    &&& forall|j: int| #![trigger e.safe_default@[j]] 0 <= j < e.safe_default@.len() && (forall|
        q: int,
    | j < q < e.safe_default@.len() ==> e.safe_default@[q].0@ != e.safe_default@[j].0@)
        ==> d.safe_default.lookup(e.safe_default@[j].0@) == e.safe_default@[j].1
}

/// The capability built from a table, compared by attribute text.
pub open spec fn capability_matches(cap: Capability, c: CapabilityEntry) -> bool {
    match c.writable {
        Some(a) => cap matches Capability::Writable(k) && k.0@ == a@,
        None => match c.readable {
            Some(a) => cap matches Capability::Readable(k) && k.0@ == a@,
            None => cap matches Capability::Readable(k) && k.0@ == "unknown"@,
        },
    }
}

fn capability_from(c: &CapabilityEntry) -> (cap: Capability)
    ensures
        capability_matches(cap, *c),
{
    match &c.writable {
        Some(a) => Capability::Writable(AttributeKey(a.clone())),
        None => match &c.readable {
            Some(a) => Capability::Readable(AttributeKey(a.clone())),
            None => Capability::Readable(AttributeKey("unknown".to_string())),
        },
    }
}

/// Builds the device an entry of the device file describes. A safe default
/// listed twice keeps its last value.
pub fn device_from_entry(e: DeviceEntry) -> (d: Device)
    ensures
        device_of(e, d),
{
    let mut capabilities: Vec<Capability> = Vec::new();
    let mut i: usize = 0;
    while i < e.capabilities.len()
        invariant
            i <= e.capabilities@.len(),
            capabilities@.len() == i,
            forall|q: int| #![trigger capabilities@[q]] 0 <= q < i ==> capability_matches(
                capabilities@[q],
                e.capabilities@[q],
            ),
        decreases e.capabilities@.len() - i,
    {
        capabilities.push(capability_from(&e.capabilities[i]));
        i = i + 1;
    }
    let mut safe_default: OrderedMap<AttributeKey, Value> = OrderedMap::new();
    let mut j: usize = 0;
    while j < e.safe_default.len()
        invariant
            j <= e.safe_default@.len(),
            safe_default.wf(),
            forall|k: Seq<char>| #[trigger] safe_default.contains(k) <==> exists|q: int|
                0 <= q < j && e.safe_default@[q].0@ == k,
            forall|q: int| #![trigger e.safe_default@[q]] 0 <= q < j && (forall|r: int|
                q < r < j ==> e.safe_default@[r].0@ != e.safe_default@[q].0@)
                ==> safe_default.lookup(e.safe_default@[q].0@) == e.safe_default@[q].1,
        decreases e.safe_default@.len() - j,
    {
        let (k, v) = &e.safe_default[j];
        let ghost before = safe_default;
        safe_default.insert(AttributeKey(k.clone()), v.duplicate());
        proof {
            assert forall|key: Seq<char>| #[trigger] safe_default.contains(key) <==> exists|q: int|
                0 <= q < j + 1 && e.safe_default@[q].0@ == key by {
                if key != k@ {
                    if exists|q: int| 0 <= q < j + 1 && e.safe_default@[q].0@ == key {
                        let q = choose|q: int| 0 <= q < j + 1 && e.safe_default@[q].0@ == key;
                        assert(q < j);
                        assert(before.contains(key));
                    }
                } else {
                    assert(e.safe_default@[j as int].0@ == key);
                }
            }
            assert forall|q: int| #![trigger e.safe_default@[q]] 0 <= q < j + 1 && (forall|r: int|
                q < r < j + 1 ==> e.safe_default@[r].0@ != e.safe_default@[q].0@)
                implies safe_default.lookup(e.safe_default@[q].0@) == e.safe_default@[q].1 by {
                if q < j {
                    assert(e.safe_default@[j as int].0@ != e.safe_default@[q].0@);
                    assert(before.contains(e.safe_default@[q].0@));
                    assert(before.lookup(e.safe_default@[q].0@) == e.safe_default@[q].1);
                    assert(safe_default.contains(e.safe_default@[q].0@));
                } else {
                    assert(*v == e.safe_default@[j as int].1);
                    assert(e.safe_default@[q].0@ == k@);
                    assert(safe_default.lookup(k@) == *v);
                }
            }
        }
        j = j + 1;
    }
    Device {
        id: DeviceId(e.id),
        external_id: e.external_id,
        name: e.name,
        kind: parse_device_kind(e.kind.as_str()),
        capabilities,
        confidence_decay_seconds: e.confidence_decay_seconds,
        safe_default,
    }
}

impl DeviceRegistry {
    /// Builds the registry from the entries of a device file, in order: a
    /// later entry with an id or external id already seen replaces the
    /// earlier one.
    pub fn from_entries(entries: Vec<DeviceEntry>) -> (r: Self)
        ensures
            r.wf(),
            forall|k: Seq<char>| #[trigger] r.devices.contains(k) <==> last_entry_with_id(entries@, k) >= 0,
            forall|k: Seq<char>|
                #[trigger] r.devices.contains(k) ==> device_of(
                    entries@[last_entry_with_id(entries@, k)],
                    r.devices.lookup(k),
                ),
            forall|x: Seq<char>|
                #[trigger] r.external_to_internal.contains(x) <==> last_entry_with_external(
                    entries@,
                    x,
                ) >= 0,
            forall|x: Seq<char>|
                #[trigger] r.external_to_internal.contains(x) ==> r.external_to_internal.lookup(x).0@
                    == entries@[last_entry_with_external(entries@, x)].id@,
    {
        let ghost es = entries@;
        let mut devices: Vec<Device> = Vec::new();
        let mut entries = entries;
        let n = entries.len();
        let mut i: usize = 0;
        while i < n
            invariant
                n == es.len(),
                i <= n,
                entries@ == es.subrange(i as int, n as int),
                devices@.len() == i,
                forall|q: int| #![trigger devices@[q]] 0 <= q < i ==> device_of(es[q], devices@[q]),
            decreases n - i,
        {
            let e = entries.remove(0);
            assert(e == es[i as int]);
            devices.push(device_from_entry(e));
            i = i + 1;
        }
        let ghost ds = devices@;
        let r = Self::from_devices(devices);
        proof {
            assert forall|k: Seq<char>| #[trigger] r.devices.contains(k) implies device_of(
                es[last_entry_with_id(es, k)],
                r.devices.lookup(k),
            ) by {
                lemma_last_entry_matches(es, ds, k);
                lemma_last_with_id(ds, k);
            }
            assert forall|k: Seq<char>| #[trigger] r.devices.contains(k) <==> last_entry_with_id(es, k) >= 0 by {
                lemma_last_entry_matches(es, ds, k);
            }
            assert forall|x: Seq<char>| #[trigger] r.external_to_internal.contains(x) <==> last_entry_with_external(es, x) >= 0 by {
                lemma_last_entry_matches(es, ds, x);
            }
            assert forall|x: Seq<char>| #[trigger] r.external_to_internal.contains(x) implies r.external_to_internal.lookup(x).0@
                == es[last_entry_with_external(es, x)].id@ by {
                lemma_last_entry_matches(es, ds, x);
                lemma_last_with_external(ds, x);
            }
        }
        r
    }

    pub open spec fn wf(&self) -> bool {
        &&& self.devices.wf()
        &&& self.external_to_internal.wf()
        &&& forall|i: int|
            0 <= i < self.devices.entries@.len() ==> #[trigger] self.devices.entries@[i].1.id
                == self.devices.entries@[i].0
    }

    /// Builds the registry from parsed devices. A later device with an id or
    /// external id already seen replaces the earlier one.
    pub fn from_devices(list: Vec<Device>) -> (r: Self)
        ensures
            r.wf(),
            forall|k: Seq<char>| #[trigger] r.devices.contains(k) <==> last_with_id(list@, k) >= 0,
            forall|k: Seq<char>|
                #[trigger] r.devices.contains(k) ==> r.devices.lookup(k) == list@[last_with_id(
                    list@,
                    k,
                )],
            forall|x: Seq<char>|
                #[trigger] r.external_to_internal.contains(x) <==> last_with_external(list@, x) >= 0,
            forall|x: Seq<char>|
                #[trigger] r.external_to_internal.contains(x) ==> r.external_to_internal.lookup(x)
                    == list@[last_with_external(list@, x)].id,
    {
        let mut devices: OrderedMap<DeviceId, Device> = OrderedMap::new();
        let mut external_to_internal: OrderedMap<String, DeviceId> = OrderedMap::new();
        let mut list = list;
        let ghost orig = list@;
        let n = list.len();
        let mut i: usize = 0;
        while i < n
            invariant
                n == orig.len(),
                i <= n,
                list@ == orig.subrange(i as int, n as int),
                devices.wf(),
                external_to_internal.wf(),
                forall|j: int|
                    0 <= j < devices.entries@.len() ==> #[trigger] devices.entries@[j].1.id
                        == devices.entries@[j].0,
                forall|k: Seq<char>|
                    #[trigger] devices.contains(k) <==> last_with_id(orig.take(i as int), k) >= 0,
                forall|k: Seq<char>|
                    #[trigger] devices.contains(k) ==> devices.lookup(k) == orig[last_with_id(
                        orig.take(i as int),
                        k,
                    )],
                forall|x: Seq<char>|
                    #[trigger] external_to_internal.contains(x) <==> last_with_external(
                        orig.take(i as int),
                        x,
                    ) >= 0,
                forall|x: Seq<char>|
                    #[trigger] external_to_internal.contains(x) ==> external_to_internal.lookup(x)
                        == orig[last_with_external(orig.take(i as int), x)].id,
            decreases n - i,
        {
            let device = list.remove(0);
            assert(device == orig[i as int]);
            let ghost before = devices;
            let ghost before_ext = external_to_internal;
            let ghost km = device.id.0@;
            let ghost xm = device.external_id@;
            external_to_internal.insert(device.external_id.clone(), device.id.duplicate());
            let id = device.id.duplicate();
            let ghost dv = device;
            devices.insert(id, device);
            proof {
                let pre = orig.take(i as int);
                let cur = orig.take(i + 1);
                assert(cur.drop_last() =~= pre);
                lemma_find_index(before.entries@, km);
                if before.contains(km) {
                    assert(devices.entries@ == before.entries@.update(before.index_of(km), (dv.id, dv)));
                } else {
                    assert(devices.entries@ == before.entries@.push((dv.id, dv)));
                }
                assert forall|j: int|
                    0 <= j < devices.entries@.len() implies #[trigger] devices.entries@[j].1.id
                    == devices.entries@[j].0 by {
                    if before.contains(km) {
                        if j != before.index_of(km) {
                            assert(devices.entries@[j] == before.entries@[j]);
                        }
                    } else {
                        if j < before.entries@.len() {
                            assert(devices.entries@[j] == before.entries@[j]);
                        }
                    }
                }
                assert forall|k: Seq<char>| #[trigger] devices.contains(k) <==> last_with_id(cur, k) >= 0 by {
                    lemma_last_with_id(pre, k);
                }
                assert forall|x: Seq<char>| #[trigger] external_to_internal.contains(x) <==> last_with_external(cur, x) >= 0 by {
                    lemma_last_with_external(pre, x);
                }
                assert forall|k: Seq<char>| #[trigger] devices.contains(k) implies devices.lookup(k)
                    == orig[last_with_id(cur, k)] by {
                    if k != km {
                        assert(last_with_id(cur, k) == last_with_id(pre, k));
                    }
                }
                assert forall|x: Seq<char>| #[trigger] external_to_internal.contains(x) implies
                    external_to_internal.lookup(x) == orig[last_with_external(cur, x)].id by {
                    if x != xm {
                        assert(last_with_external(cur, x) == last_with_external(pre, x));
                    }
                }
            }
            i = i + 1;
        }
        proof {
            assert(orig.take(n as int) =~= orig);
        }
        let r = DeviceRegistry { devices, external_to_internal };
        r
    }

    pub fn get(&self, id: &DeviceId) -> (r: Option<&Device>)
        ensures
            r is None <==> !self.devices.contains(id.0@),
            r matches Some(d) ==> *d == self.devices.lookup(id.0@),
    {
        self.devices.get(id)
    }

    /// The internal id of the device with this external id.
    pub fn resolve_external(&self, external_id: &str) -> (r: Option<&DeviceId>)
        ensures
            r is None <==> !self.external_to_internal.contains(external_id@),
            r matches Some(d) ==> *d == self.external_to_internal.lookup(external_id@),
    {
        let key = external_id.to_owned();
        self.external_to_internal.get(&key)
    }

    /// Every device, in registration order.
    pub fn all(&self) -> (r: Vec<&Device>)
        ensures
            r@.len() == self.devices.entries@.len(),
            forall|i: int| 0 <= i < r@.len() ==> *(#[trigger] r@[i]) == self.devices.entries@[i].1,
    {
        let mut r: Vec<&Device> = Vec::new();
        let mut i: usize = 0;
        while i < self.devices.entries.len()
            invariant
                i <= self.devices.entries@.len(),
                r@.len() == i,
                forall|j: int| 0 <= j < i ==> *(#[trigger] r@[j]) == self.devices.entries@[j].1,
            decreases self.devices.entries@.len() - i,
        {
            r.push(&self.devices.entries[i].1);
            i = i + 1;
        }
        r
    }

    pub fn len(&self) -> (n: usize)
        ensures
            n == self.devices.entries@.len(),
    {
        self.devices.len()
    }
}

} // verus!
