//! The demonstration feed of the mock adapter, tick by tick.
use vstd::prelude::*;
use vstd::string::StringExecFns;
use crate::outside::now_ms;
use crate::types::{EventSource, RawDeviceEvent, Value};

verus! {

/// Seconds the feed waits before the report that follows `tick`: 10 during
/// the outage, 5 otherwise.
pub open spec fn wait_after(tick: u64) -> u64 {
    if 5 <= tick <= 10 {
        10
    } else {
        5
    }
}

/// The report the feed gives at `tick` (counted from 1): external id,
/// attribute, value text and raw message.
pub open spec fn simulated_report(tick: u64) -> (Seq<char>, Seq<char>, Seq<char>, Seq<char>) {
    if 5 <= tick <= 11 {
        ("binary_sensor.mains_power"@, "source"@, "outage"@, "{\"state\":\"outage\"}"@)
    } else if tick == 12 {
        ("binary_sensor.mains_power"@, "source"@, "kplc"@, "{\"state\":\"kplc\"}"@)
    } else if tick % 2 == 0 {
        (
            "switch.main_gate"@,
            "state"@,
            "open"@,
            "{\"entity_id\":\"switch.main_gate\",\"state\":\"open\"}"@,
        )
    } else {
        (
            "switch.main_gate"@,
            "state"@,
            "closed"@,
            "{\"entity_id\":\"switch.main_gate\",\"state\":\"closed\"}"@,
        )
    }
}

pub struct MockFeed {
    pub connected: bool,
    pub tick: u64,
}

fn report(external_id: &str, attribute: &str, value: &str, raw: &str, timestamp: u64) -> (e:
    RawDeviceEvent)
    ensures
        e.external_id@ == external_id@,
        e.attribute@ == attribute@,
        e.value matches Value::Text(t) && t@ == value@,
        e.timestamp == timestamp,
        e.source is Adapter,
        e.raw@ == raw@,
{
    RawDeviceEvent {
        external_id: String::from_str(external_id),
        attribute: String::from_str(attribute),
        value: Value::Text(String::from_str(value)),
        timestamp,
        source: EventSource::Adapter,
        raw: String::from_str(raw),
    }
}

impl MockFeed {
    pub fn new() -> (f: Self)
        ensures
            !f.connected,
            f.tick == 0,
    {
        MockFeed { connected: false, tick: 0 }
    }

    pub fn connect(&mut self)
        ensures
            final(self).connected,
            final(self).tick == old(self).tick,
    {
        self.connected = true;
    }

    pub fn disconnect(&mut self)
        ensures
            !final(self).connected,
            final(self).tick == old(self).tick,
    {
        self.connected = false;
    }

    pub fn is_connected(&self) -> (r: bool)
        ensures
            r == self.connected,
    {
        self.connected
    }

    /// How long to wait before the next report.
    pub fn sleep_secs(&self) -> (s: u64)
        ensures
            s == wait_after(self.tick),
    {
        if 5 <= self.tick && self.tick <= 10 {
            10
        } else {
            5
        }
    }

    /// Advances the simulation one step and gives its report, stamped `now`.
    pub fn next_event_at(&mut self, now: u64) -> (e: RawDeviceEvent)
        requires
            old(self).tick < u64::MAX,
        ensures
            final(self).tick == old(self).tick + 1,
            final(self).connected == old(self).connected,
            ({
                let (x, a, v, raw) = simulated_report(final(self).tick);
                &&& e.external_id@ == x
                &&& e.attribute@ == a
                &&& e.value matches Value::Text(t) && t@ == v
                &&& e.raw@ == raw
                &&& e.timestamp == now
                &&& e.source is Adapter
            }),
    {
        self.tick = self.tick + 1;
        let t = self.tick;
        proof {
            reveal_strlit("binary_sensor.mains_power");
            reveal_strlit("source");
            reveal_strlit("outage");
            reveal_strlit("kplc");
            reveal_strlit("switch.main_gate");
            reveal_strlit("state");
            reveal_strlit("open");
            reveal_strlit("closed");
            reveal_strlit("{\"state\":\"outage\"}");
            reveal_strlit("{\"state\":\"kplc\"}");
            reveal_strlit("{\"entity_id\":\"switch.main_gate\",\"state\":\"open\"}");
            reveal_strlit("{\"entity_id\":\"switch.main_gate\",\"state\":\"closed\"}");
        }
        if 5 <= t && t <= 11 {
            report("binary_sensor.mains_power", "source", "outage", "{\"state\":\"outage\"}", now)
        } else if t == 12 {
            report("binary_sensor.mains_power", "source", "kplc", "{\"state\":\"kplc\"}", now)
        } else if t % 2 == 0 {
            report(
                "switch.main_gate",
                "state",
                "open",
                "{\"entity_id\":\"switch.main_gate\",\"state\":\"open\"}",
                now,
            )
        } else {
            report(
                "switch.main_gate",
                "state",
                "closed",
                "{\"entity_id\":\"switch.main_gate\",\"state\":\"closed\"}",
                now,
            )
        }
    }

    /// Advances the simulation one step, stamping the report with the clock.
    pub fn next_event(&mut self) -> (e: RawDeviceEvent)
        requires
            old(self).tick < u64::MAX,
        ensures
            final(self).tick == old(self).tick + 1,
            final(self).connected == old(self).connected,
            ({
                let (x, a, v, raw) = simulated_report(final(self).tick);
                &&& e.external_id@ == x
                &&& e.attribute@ == a
                &&& e.value matches Value::Text(t) && t@ == v
                &&& e.raw@ == raw
                &&& e.source is Adapter
            }),
    {
        self.next_event_at(now_ms())
    }
}

} // verus!
