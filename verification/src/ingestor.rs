//! The event ingestor: maps adapter reports to internal device ids, drops
//! repeated values within the dedup window, and numbers what it lets through.
use vstd::prelude::*;
use crate::ordered_map::{Duplicate, OrderedMap};
use crate::registry::DeviceRegistry;
use crate::types::{value_eq, DeviceId, Event, EventKind, EventSource, RawDeviceEvent, Value};

verus! {

pub struct EventIngestor {
    pub registry: std::sync::Arc<DeviceRegistry>,
    pub sequence: u64,
    /// Last accepted (timestamp, value) per device.
    pub last_events: OrderedMap<DeviceId, (u64, Value)>,
    pub dedup_window_ms: u64,
}

pub open spec fn sat_sub(a: u64, b: u64) -> int {
    if a >= b {
        a - b
    } else {
        0
    }
}

/// The internal id of the reporting device, when the registry knows it.
pub open spec fn reporting_device(ing: EventIngestor, raw: RawDeviceEvent) -> Option<DeviceId> {
    if ing.registry.external_to_internal.contains(raw.external_id@) {
        Some(ing.registry.external_to_internal.lookup(raw.external_id@))
    } else {
        None
    }
}

/// The report repeats the device's last accepted value within the window.
pub open spec fn is_duplicate(ing: EventIngestor, d: DeviceId, raw: RawDeviceEvent) -> bool {
    &&& ing.last_events.contains(d.0@)
    &&& sat_sub(raw.timestamp, ing.last_events.lookup(d.0@).0) < ing.dedup_window_ms
    &&& value_eq(ing.last_events.lookup(d.0@).1, raw.value)
}

impl EventIngestor {
    pub fn new(registry: std::sync::Arc<DeviceRegistry>, dedup_window_ms: u64) -> (ing: Self)
        ensures
            ing.registry == registry,
            ing.sequence == 0,
            ing.last_events.entries@.len() == 0,
            ing.dedup_window_ms == dedup_window_ms,
    {
        EventIngestor { registry, sequence: 0, last_events: OrderedMap::new(), dedup_window_ms }
    }

    /// Turns an adapter report into a `DeviceStateChanged` event.
    ///
    /// Reports from unknown devices and repeats of a device's last value
    /// within the dedup window are dropped and change nothing. Otherwise the
    /// report becomes the device's last accepted one and the event carries
    /// the next sequence number, the device as source, and a payload with
    /// the attribute, the value and the device id.
    pub fn ingest(&mut self, raw: RawDeviceEvent) -> (r: Option<Event>)
        requires
            old(self).sequence < u64::MAX,
        ensures
            match reporting_device(*old(self), raw) {
                None => r is None && *final(self) == *old(self),
                Some(d) => if is_duplicate(*old(self), d, raw) {
                    r is None && *final(self) == *old(self)
                } else {
                    &&& final(self).sequence == old(self).sequence + 1
                    &&& final(self).registry == old(self).registry
                    &&& final(self).dedup_window_ms == old(self).dedup_window_ms
                    &&& final(self).last_events.contains(d.0@)
                    &&& final(self).last_events.lookup(d.0@) == (raw.timestamp, raw.value)
                    &&& forall|k: Seq<char>|
                        k != d.0@ ==> (#[trigger] final(self).last_events.contains(k)
                            == old(self).last_events.contains(k)) && (old(self).last_events.contains(k)
                            ==> final(self).last_events.lookup(k) == old(self).last_events.lookup(k))
                    &&& r matches Some(e) && {
                        &&& e.sequence == final(self).sequence
                        &&& e.kind == EventKind::DeviceStateChanged
                        &&& e.source == EventSource::Device(d)
                        &&& e.payload.contains("attribute"@)
                        &&& e.payload.lookup("attribute"@) == Value::Text(raw.attribute)
                        &&& e.payload.contains("value"@)
                        &&& e.payload.lookup("value"@) == raw.value
                        &&& e.payload.contains("device_id"@)
                        &&& e.payload.lookup("device_id"@) == Value::Text(d.0)
                        &&& e.payload.entries@.len() == 3
                    }
                }
            },
    {
        let device_id = match self.registry.resolve_external(raw.external_id.as_str()) {
            Some(d) => d.duplicate(),
            None => return None,
        };
        match self.last_events.get(&device_id) {
            Some(last) => {
                let age: u64 = if raw.timestamp >= last.0 { raw.timestamp - last.0 } else { 0 };
                if age < self.dedup_window_ms && last.1.equals(&raw.value) {
                    return None;
                }
            },
            None => {},
        }
        self.last_events.insert(device_id.duplicate(), (raw.timestamp, raw.value.duplicate()));
        self.sequence = self.sequence + 1;
        let mut payload: OrderedMap<String, Value> = OrderedMap::new();
        payload.insert("attribute".to_owned(), Value::Text(raw.attribute.clone()));
        payload.insert("value".to_owned(), raw.value.duplicate());
        payload.insert("device_id".to_owned(), Value::Text(device_id.0.clone()));
        proof {
            reveal_strlit("attribute");
            reveal_strlit("value");
            reveal_strlit("device_id");
            assert("attribute"@[0] != "value"@[0]);
            assert("attribute"@[0] != "device_id"@[0]);
            assert("value"@[0] != "device_id"@[0]);
        }
        let mut event = Event::new(EventSource::Device(device_id), EventKind::DeviceStateChanged, payload);
        event.sequence = self.sequence;
        proof {
            assert(event.payload.contains("attribute"@));
            assert(event.payload.lookup("attribute"@) == Value::Text(raw.attribute));
            assert(event.payload.contains("value"@));
            assert(event.payload.lookup("value"@) == raw.value);
            assert(event.payload.contains("device_id"@));
            assert(event.payload.entries@.len() == 3);
        }
        Some(event)
    }
}


/// Once a report is accepted, the same value from the same device again
/// within the dedup window is a duplicate, and is dropped.
pub proof fn law_repeat_within_window_is_duplicate(
    before: EventIngestor,
    after: EventIngestor,
    raw: RawDeviceEvent,
    again: RawDeviceEvent,
)
    requires
        reporting_device(before, raw) is Some,
        after.registry == before.registry,
        after.dedup_window_ms == before.dedup_window_ms,
        after.last_events.contains((reporting_device(before, raw)->0).0@),
        after.last_events.lookup((reporting_device(before, raw)->0).0@) == (raw.timestamp, raw.value),
        again.external_id@ == raw.external_id@,
        value_eq(raw.value, again.value),
        sat_sub(again.timestamp, raw.timestamp) < before.dedup_window_ms,
    ensures
        reporting_device(after, again) == reporting_device(before, raw),
        is_duplicate(after, reporting_device(before, raw)->0, again),
{
}

} // verus!
