//! The state engine: desired, actual and confidence for every known device.
use vstd::prelude::*;
use crate::floats::{f32_bits_le, f32_le, F32_ZERO};
use crate::ordered_map::{lemma_find_index, lemma_update_value, Duplicate, MapKey, OrderedMap};
use crate::outside::now_ms;
use crate::registry::DeviceRegistry;
use crate::types::{
    applied_report, device_state_wf, opt_value_equals, value_eq, AttributeKey, Confidence, DeviceId,
    DeviceState, Event, EventKind, EventSource, StateMismatch, StateUpdate, Value,
};

verus! {

pub struct StateEngine {
    pub devices: OrderedMap<DeviceId, DeviceState>,
    /// Bit pattern of the `f32` degraded threshold.
    pub degraded_threshold: u32,
    /// Bit pattern of the `f32` unknown threshold.
    pub unknown_threshold: u32,
}

/// `s` is the state a device starts with: never seen, unknown confidence,
/// the device's decay period and safe defaults, no values.
pub open spec fn fresh_state(d: crate::types::Device, s: DeviceState) -> bool {
    &&& s.device_id == d.id
    &&& s.confidence.value == F32_ZERO
    &&& s.confidence.decays_after_secs == d.confidence_decay_seconds
    &&& s.confidence.safe_default.entries@ == d.safe_default.entries@
    &&& s.desired.entries@.len() == 0
    &&& s.actual.entries@.len() == 0
    &&& s.previous.entries@.len() == 0
    &&& s.last_seen == 0
}

/// The device, attribute and value that a `DeviceStateChanged` event from a
/// device reports, when its payload carries a text `attribute` and a `value`.
pub open spec fn reported(e: Event) -> Option<(Seq<char>, AttributeKey, Value)> {
    if e.kind == EventKind::DeviceStateChanged && e.source is Device && e.payload.contains(
        "attribute"@,
    ) && e.payload.lookup("attribute"@) is Text && e.payload.contains("value"@) {
        Some(
            (
                e.source->Device_0.0@,
                AttributeKey(e.payload.lookup("attribute"@)->Text_0),
                e.payload.lookup("value"@),
            ),
        )
    } else {
        None
    }
}

/// The mismatches of one device's desired entries, in the order of the
/// desired map: an entry mismatches when actual lacks the attribute or holds
/// a value that does not compare equal.
pub open spec fn attr_mismatches(
    dev: DeviceId,
    st: DeviceState,
    desired: Seq<(AttributeKey, Value)>,
) -> Seq<StateMismatch>
    decreases desired.len(),
{
    if desired.len() == 0 {
        Seq::empty()
    } else {
        let prev = attr_mismatches(dev, st, desired.drop_last());
        let a = desired.last().0;
        let v = desired.last().1;
        if st.actual.contains(a.0@) && value_eq(st.actual.lookup(a.0@), v) {
            prev
        } else {
            prev.push(
                StateMismatch {
                    device_id: dev,
                    attribute: a,
                    desired: v,
                    actual: if st.actual.contains(a.0@) {
                        Some(st.actual.lookup(a.0@))
                    } else {
                        None
                    },
                    confidence: st.confidence.value,
                },
            )
        }
    }
}

/// All mismatches, device by device in the order of the device map.
pub open spec fn all_mismatches(devs: Seq<(DeviceId, DeviceState)>) -> Seq<StateMismatch>
    decreases devs.len(),
{
    if devs.len() == 0 {
        Seq::empty()
    } else {
        all_mismatches(devs.drop_last()) + attr_mismatches(
            devs.last().0,
            devs.last().1,
            devs.last().1.desired.entries@,
        )
    }
}

/// What the decay step needs to know of a device that is past its grace
/// period: how long past, the grace period, and the confidence it has now.
#[derive(Debug, Clone)]
pub struct DecayInput {
    pub device_id: DeviceId,
    /// Milliseconds since the grace period ended.
    pub overdue_ms: u64,
    pub decays_after_secs: u64,
    /// Bit pattern of the current `f32` confidence.
    pub confidence: u32,
}

/// Milliseconds since a device was last seen, as of `now` (0 when `now`
/// is earlier).
pub open spec fn age_ms(st: DeviceState, now: u64) -> int {
    if now >= st.last_seen {
        now - st.last_seen
    } else {
        0
    }
}

/// A device decays at `now` when it has been seen and is past its grace period.
pub open spec fn is_decaying(st: DeviceState, now: u64) -> bool {
    st.last_seen != 0 && age_ms(st, now) > st.confidence.decays_after_secs * 1000
}

/// The decay inputs for the devices of `devs` that decay at `now`, in order.
pub open spec fn decay_inputs(devs: Seq<(DeviceId, DeviceState)>, now: u64) -> Seq<DecayInput>
    decreases devs.len(),
{
    if devs.len() == 0 {
        Seq::empty()
    } else {
        let prev = decay_inputs(devs.drop_last(), now);
        let st = devs.last().1;
        if is_decaying(st, now) {
            prev.push(
                DecayInput {
                    device_id: devs.last().0,
                    overdue_ms: (age_ms(st, now) - st.confidence.decays_after_secs * 1000) as u64,
                    decays_after_secs: st.confidence.decays_after_secs,
                    confidence: st.confidence.value,
                },
            )
        } else {
            prev
        }
    }
}

/// `x` describes device `d` in state `st` at `now` as past its grace
/// period: seen at `last_seen` (not never), with `overdue_ms` the time since
/// it was last seen beyond the grace of `decays_after_secs` seconds, which
/// is positive.
pub open spec fn describes_overdue(x: DecayInput, d: DeviceId, st: DeviceState, now: u64) -> bool {
    &&& x.device_id == d
    &&& st.last_seen != 0
    &&& now >= st.last_seen
    &&& x.decays_after_secs == st.confidence.decays_after_secs
    &&& x.overdue_ms + x.decays_after_secs * 1000 == now - st.last_seen
    &&& x.overdue_ms > 0
    &&& x.confidence == st.confidence.value
}

/// The decay step's inputs are exactly the devices past their grace
/// period, each with how far past it: every input describes a device that
/// was seen and whose time since last seen exceeds its grace by exactly
/// `overdue_ms`, and every seen device whose time since last seen exceeds
/// its grace has an input.
pub proof fn law_decay_inputs_measure_time_past_grace(devs: Seq<(DeviceId, DeviceState)>, now: u64)
    ensures
        forall|k: int| #![trigger decay_inputs(devs, now)[k]] 0 <= k < decay_inputs(devs, now).len()
            ==> exists|i: int| #![trigger devs[i]] 0 <= i < devs.len() && describes_overdue(
                decay_inputs(devs, now)[k],
                devs[i].0,
                devs[i].1,
                now,
            ),
        forall|i: int| #![trigger devs[i]]
            0 <= i < devs.len() && devs[i].1.last_seen != 0 && now >= devs[i].1.last_seen && now
                - devs[i].1.last_seen > devs[i].1.confidence.decays_after_secs * 1000 ==> exists|k: int|
                #![trigger decay_inputs(devs, now)[k]] 0 <= k < decay_inputs(devs, now).len()
                    && decay_inputs(devs, now)[k].device_id == devs[i].0,
    decreases devs.len(),
{
    if devs.len() > 0 {
        let d = devs.drop_last();
        law_decay_inputs_measure_time_past_grace(d, now);
        let n = devs.len() - 1;
        assert(devs.last() == devs[n]);
        let r = decay_inputs(devs, now);
        let rd = decay_inputs(d, now);
        let st = devs[n].1;
        if is_decaying(st, now) {
            assert(r.drop_last() == rd && r.len() == rd.len() + 1);
        } else {
            assert(r == rd);
        }
        assert forall|k: int| #![trigger r[k]] 0 <= k < r.len() implies exists|i: int| #![trigger devs[i]]
            0 <= i < devs.len() && describes_overdue(r[k], devs[i].0, devs[i].1, now) by {
            if k < rd.len() {
                assert(r[k] == rd[k]);
                let i = choose|i: int| 0 <= i < d.len() && describes_overdue(rd[k], d[i].0, d[i].1, now);
                assert(d[i] == devs[i]);
            } else {
                assert(describes_overdue(r[k], devs[n].0, devs[n].1, now));
            }
        }
        assert forall|i: int| #![trigger devs[i]]
            0 <= i < devs.len() && devs[i].1.last_seen != 0 && now >= devs[i].1.last_seen && now
                - devs[i].1.last_seen > devs[i].1.confidence.decays_after_secs * 1000 implies exists|k: int|
                #![trigger r[k]] 0 <= k < r.len() && r[k].device_id == devs[i].0 by {
            if i < n {
                assert(d[i] == devs[i]);
                let k = choose|k: int| 0 <= k < rd.len() && rd[k].device_id == d[i].0;
                assert(r[k] == rd[k]);
            } else {
                assert(r[rd.len() as int].device_id == devs[n].0);
            }
        }
    }
}

/// `after` is `before` with only its confidence value changed.
pub open spec fn only_confidence_changed(before: DeviceState, after: DeviceState) -> bool {
    &&& after.device_id == before.device_id
    &&& after.desired == before.desired
    &&& after.actual == before.actual
    &&& after.previous == before.previous
    &&& after.confidence.decays_after_secs == before.confidence.decays_after_secs
    &&& after.confidence.safe_default == before.confidence.safe_default
    &&& after.last_seen == before.last_seen
    &&& after.desired_set_at == before.desired_set_at
    &&& after.desired_set_by == before.desired_set_by
}

/// The last position of `updates` that names device `k`, or -1.
pub open spec fn update_for(updates: Seq<(DeviceId, u32)>, k: Seq<char>) -> int
    decreases updates.len(),
{
    if updates.len() == 0 {
        -1
    } else if updates.last().0.0@ == k {
        updates.len() - 1
    } else {
        update_for(updates.drop_last(), k)
    }
}

/// The devices of `updates` that are known to `devs` and whose new
/// confidence is at or below `threshold`, in order.
pub open spec fn degraded_ids(
    updates: Seq<(DeviceId, u32)>,
    devs: OrderedMap<DeviceId, DeviceState>,
    threshold: u32,
) -> Seq<DeviceId>
    decreases updates.len(),
{
    if updates.len() == 0 {
        Seq::empty()
    } else {
        let prev = degraded_ids(updates.drop_last(), devs, threshold);
        let u = updates.last();
        if devs.contains(u.0.0@) && f32_le(u.1, threshold) {
            prev.push(u.0)
        } else {
            prev
        }
    }
}

/// `after` is `before` with `event` applied at `now`, and `update` is what
/// `apply_event` reports: a report from a known device updates that device
/// alone; any other event changes nothing.
pub open spec fn event_applied(
    before: StateEngine,
    after: StateEngine,
    event: Event,
    update: StateUpdate,
    now: u64,
) -> bool {
    &&& after.wf()
    &&& after.degraded_threshold == before.degraded_threshold
    &&& after.unknown_threshold == before.unknown_threshold
    &&& match reported(event) {
                Some((d, attr, value)) => if before.devices.contains(d) {
                    let i = before.devices.index_of(d);
                    &&& update.changed_devices@.len() == 1
                    &&& update.changed_devices@[0].0@ == d
                    &&& after.devices.entries@.len() == before.devices.entries@.len()
                    &&& after.devices.entries@[i].0 == before.devices.entries@[i].0
                    &&& applied_report(
                        before.devices.entries@[i].1,
                        after.devices.entries@[i].1,
                        attr.0@,
                        value,
                        now,
                    )
                    &&& forall|j: int|
                        0 <= j < after.devices.entries@.len() && j != i
                            ==> #[trigger] after.devices.entries@[j] == before.devices.entries@[j]
                } else {
                    update.changed_devices@.len() == 0 && after.devices == before.devices
                },
                None => update.changed_devices@.len() == 0 && after.devices == before.devices,
            }
}

impl StateEngine {
    pub open spec fn wf(&self) -> bool {
        &&& self.devices.wf()
        &&& forall|i: int|
            0 <= i < self.devices.entries@.len() ==> device_state_wf(
                #[trigger] self.devices.entries@[i].1,
            )
    }

    /// One fresh state for every registered device, in registration order.
    pub fn new(registry: &DeviceRegistry, degraded_threshold: u32, unknown_threshold: u32) -> (e:
        Self)
        requires
            registry.wf(),
        ensures
            e.wf(),
            e.degraded_threshold == degraded_threshold,
            e.unknown_threshold == unknown_threshold,
            e.devices.entries@.len() == registry.devices.entries@.len(),
            forall|i: int|
                0 <= i < e.devices.entries@.len() ==> #[trigger] e.devices.entries@[i].0
                    == registry.devices.entries@[i].0 && fresh_state(
                    registry.devices.entries@[i].1,
                    e.devices.entries@[i].1,
                ),
    {
        let mut devices: OrderedMap<DeviceId, DeviceState> = OrderedMap::new();
        let all = registry.all();
        let n = all.len();
        let mut i: usize = 0;
        while i < n
            invariant
                registry.wf(),
                n == all@.len(),
                n == registry.devices.entries@.len(),
                forall|j: int| 0 <= j < n ==> *(#[trigger] all@[j]) == registry.devices.entries@[j].1,
                i <= n,
                devices.wf(),
                devices.entries@.len() == i,
                forall|j: int|
                    0 <= j < i ==> #[trigger] devices.entries@[j].0 == registry.devices.entries@[j].0
                        && fresh_state(registry.devices.entries@[j].1, devices.entries@[j].1),
                forall|j: int| 0 <= j < i ==> device_state_wf(#[trigger] devices.entries@[j].1),
            decreases n - i,
        {
            let device = all[i];
            let confidence = Confidence::new(
                device.confidence_decay_seconds,
                device.safe_default.copy(),
            );
            let state = DeviceState::new(device.id.duplicate(), confidence);
            proof {
                lemma_find_index(devices.entries@, device.id.0@);
                assert(registry.devices.entries@[i as int].1.id == registry.devices.entries@[i as int].0);
                assert forall|j: int| 0 <= j < i implies #[trigger] devices.entries@[j].0.0@
                    != device.id.0@ by {
                    assert(registry.devices.entries@[j].0.model() != registry.devices.entries@[i as int].0.model());
                }
            }
            devices.insert(device.id.duplicate(), state);
            i = i + 1;
        }
        StateEngine { devices, degraded_threshold, unknown_threshold }
    }

    /// Applies a device report at time `now`: a `DeviceStateChanged` event
    /// from a known device with a text `attribute` and a `value` updates that
    /// device's actual state; anything else changes nothing.
    pub fn apply_event_at(&mut self, event: &Event, now: u64) -> (update: StateUpdate)
        requires
            old(self).wf(),
        ensures
            final(self).wf(),
            final(self).degraded_threshold == old(self).degraded_threshold,
            final(self).unknown_threshold == old(self).unknown_threshold,
            event_applied(*old(self), *final(self), *event, update, now),
    {
        let mut changed: Vec<DeviceId> = Vec::new();
        if event.kind == EventKind::DeviceStateChanged {
            if let EventSource::Device(device_id) = &event.source {
                let attr_key = "attribute".to_owned();
                let value_key = "value".to_owned();
                let attribute = match event.payload.get(&attr_key) {
                    Some(Value::Text(s)) => Some(AttributeKey(s.clone())),
                    _ => None,
                };
                let value = match event.payload.get(&value_key) {
                    Some(v) => Some(v.duplicate()),
                    None => None,
                };
                if let (Some(attr), Some(val)) = (attribute, value) {
                    if let Some(i) = self.devices.find(device_id) {
                        proof {
                            lemma_find_index(self.devices.entries@, device_id.0@);
                        }
                        let ghost before = self.devices.entries@;
                        let (k, mut state) = self.devices.remove_at(i);
                        assert(device_state_wf(state));
                        state.update_actual(attr, val, now);
                        self.devices.insert_at(i, (k, state));
                        proof {
                            assert(self.devices.entries@ =~= before.update(i as int, (k, state)));
                            lemma_update_value(before, i as int, (k, state));
                            assert forall|j: int| 0 <= j < self.devices.entries@.len() implies device_state_wf(
                                #[trigger] self.devices.entries@[j].1,
                            ) by {
                                if j != i {
                                    assert(self.devices.entries@[j] == before[j]);
                                }
                            }
                        }
                        changed.push(device_id.duplicate());
                    }
                }
            }
        }
        StateUpdate { changed_devices: changed }
    }

    /// Applies a device report at the current time (see `apply_event_at`).
    pub fn apply_event(&mut self, event: &Event) -> (update: StateUpdate)
        requires
            old(self).wf(),
        ensures
            final(self).wf(),
            exists|now: u64| #[trigger] event_applied(*old(self), *final(self), *event, update, now),
    {
        let now = now_ms();
        self.apply_event_at(event, now)
    }

    /// The devices that decay at `now`: seen at least once and past their
    /// grace period, with how far past it they are.
    pub fn decaying_devices(&self, now: u64) -> (r: Vec<DecayInput>)
        ensures
            r@ == decay_inputs(self.devices.entries@, now),
    {
        let mut r: Vec<DecayInput> = Vec::new();
        let n = self.devices.entries.len();
        let mut i: usize = 0;
        while i < n
            invariant
                n == self.devices.entries@.len(),
                i <= n,
                r@ == decay_inputs(self.devices.entries@.subrange(0, i as int), now),
            decreases n - i,
        {
            let entry = &self.devices.entries[i];
            let st = &entry.1;
            let age: u64 = if now >= st.last_seen { now - st.last_seen } else { 0 };
            let grace: u128 = (st.confidence.decays_after_secs as u128) * 1000;
            proof {
                let s2 = self.devices.entries@.subrange(0, i + 1);
                assert(s2.drop_last() =~= self.devices.entries@.subrange(0, i as int));
                assert(s2.last() == *entry);
            }
            if st.last_seen != 0 && (age as u128) > grace {
                let overdue: u64 = (age as u128 - grace) as u64;
                r.push(
                    DecayInput {
                        device_id: entry.0.duplicate(),
                        overdue_ms: overdue,
                        decays_after_secs: st.confidence.decays_after_secs,
                        confidence: st.confidence.value,
                    },
                );
            }
            i = i + 1;
        }
        assert(self.devices.entries@.subrange(0, n as int) =~= self.devices.entries@);
        r
    }

    /// Stores the confidences computed by the decay step. Each known device
    /// named in `updates` takes its new confidence (the last one given for
    /// it); nothing else about any
    /// device changes. Returns, in order, the updated devices whose new
    /// confidence is at or below the degraded threshold.
    pub fn apply_decay(&mut self, updates: Vec<(DeviceId, u32)>) -> (degraded: Vec<DeviceId>)
        requires
            old(self).wf(),
        ensures
            final(self).wf(),
            final(self).degraded_threshold == old(self).degraded_threshold,
            final(self).unknown_threshold == old(self).unknown_threshold,
            final(self).devices.entries@.len() == old(self).devices.entries@.len(),
            forall|j: int|
                0 <= j < final(self).devices.entries@.len() ==> {
                    let k = old(self).devices.entries@[j].0;
                    let u = update_for(updates@, k.0@);
                    &&& (#[trigger] final(self).devices.entries@[j]).0 == k
                    &&& only_confidence_changed(
                        old(self).devices.entries@[j].1,
                        final(self).devices.entries@[j].1,
                    )
                    &&& u >= 0 ==> final(self).devices.entries@[j].1.confidence.value
                        == updates@[u].1
                    &&& u < 0 ==> final(self).devices.entries@[j].1.confidence.value == old(
                        self,
                    ).devices.entries@[j].1.confidence.value
                },
            degraded@ == degraded_ids(updates@, old(self).devices, old(self).degraded_threshold),
    {
        let ghost orig = self.devices;
        let mut degraded: Vec<DeviceId> = Vec::new();
        let n = updates.len();
        let mut i: usize = 0;
        while i < n
            invariant
                n == updates@.len(),
                i <= n,
                self.wf(),
                self.degraded_threshold == old(self).degraded_threshold,
                self.unknown_threshold == old(self).unknown_threshold,
                orig == old(self).devices,
                self.devices.entries@.len() == orig.entries@.len(),
                forall|j: int|
                    0 <= j < self.devices.entries@.len() ==> {
                        let k = orig.entries@[j].0;
                        let u = update_for(updates@.subrange(0, i as int), k.0@);
                        &&& (#[trigger] self.devices.entries@[j]).0 == k
                        &&& only_confidence_changed(orig.entries@[j].1, self.devices.entries@[j].1)
                        &&& u >= 0 ==> self.devices.entries@[j].1.confidence.value == updates@[u].1
                        &&& u < 0 ==> self.devices.entries@[j].1.confidence.value
                            == orig.entries@[j].1.confidence.value
                    },
                degraded@ == degraded_ids(updates@.subrange(0, i as int), orig, self.degraded_threshold),
            decreases n - i,
        {
            let ghost pre = self.devices.entries@;
            let ghost sub = updates@.subrange(0, i as int);
            let ghost sub1 = updates@.subrange(0, i + 1);
            proof {
                assert(sub1.drop_last() =~= sub);
                assert(sub1.last() == updates@[i as int]);
                crate::ordered_map::lemma_find_index_same_keys(pre, orig.entries@, updates@[i as int].0.0@);
                assert forall|j: int| 0 <= j < pre.len() implies #[trigger] pre[j].0.model() == orig.entries@[j].0.model() by {}
            }
            let id = &updates[i].0;
            let value = updates[i].1;
            let pos = self.devices.find(id);
            proof {
                lemma_find_index(pre, id.0@);
            }
            match pos {
                Some(p) => {
                    let (k, mut state) = self.devices.remove_at(p);
                    state.confidence.value = value;
                    self.devices.insert_at(p, (k, state));
                    proof {
                        assert(self.devices.entries@ =~= pre.update(p as int, (k, state)));
                        lemma_update_value(pre, p as int, (k, state));
                    }
                    if f32_bits_le(value, self.degraded_threshold) {
                        degraded.push(id.duplicate());
                    }
                },
                None => {},
            }
            proof {
                assert forall|j: int| 0 <= j < self.devices.entries@.len() implies {
                    let k = orig.entries@[j].0;
                    let u = update_for(sub1, k.0@);
                    &&& (#[trigger] self.devices.entries@[j]).0 == k
                    &&& only_confidence_changed(orig.entries@[j].1, self.devices.entries@[j].1)
                    &&& u >= 0 ==> self.devices.entries@[j].1.confidence.value == updates@[u].1
                    &&& u < 0 ==> self.devices.entries@[j].1.confidence.value
                        == orig.entries@[j].1.confidence.value
                } by {
                    let k = orig.entries@[j].0;
                    assert(pre[j].0 == k);
                    assert(update_for(sub1, k.0@) == if sub1.last().0.0@ == k.0@ {
                        sub1.len() - 1
                    } else {
                        update_for(sub, k.0@)
                    });
                    match pos {
                        Some(p) => {
                            if j != p {
                                assert(pre[j].0.model() != pre[p as int].0.model());
                                assert(self.devices.entries@[j] == pre[j]);
                            }
                        },
                        None => {
                            assert(pre[j].0.model() != id.0@);
                        },
                    }
                }
                assert forall|j: int| 0 <= j < self.devices.entries@.len() implies device_state_wf(
                    #[trigger] self.devices.entries@[j].1,
                ) by {
                    assert(device_state_wf(pre[j].1));
                }
                assert(degraded@ == degraded_ids(sub1, orig, self.degraded_threshold)) by {
                    assert(orig.contains(id.0@) == (pos is Some));
                }
            }
            i = i + 1;
        }
        assert(updates@.subrange(0, n as int) =~= updates@);
        degraded
    }

    /// Drops a device's confidence to 0.0 at once (unknown devices: no effect).
    pub fn zero_confidence(&mut self, device_id: &DeviceId)
        requires
            old(self).wf(),
        ensures
            final(self).wf(),
            final(self).degraded_threshold == old(self).degraded_threshold,
            final(self).unknown_threshold == old(self).unknown_threshold,
            final(self).devices.entries@.len() == old(self).devices.entries@.len(),
            forall|j: int|
                0 <= j < final(self).devices.entries@.len() ==> {
                    &&& (#[trigger] final(self).devices.entries@[j]).0 == old(
                        self,
                    ).devices.entries@[j].0
                    &&& only_confidence_changed(
                        old(self).devices.entries@[j].1,
                        final(self).devices.entries@[j].1,
                    )
                    &&& if j == old(self).devices.index_of(device_id.0@) {
                        final(self).devices.entries@[j].1.confidence.value == F32_ZERO
                    } else {
                        final(self).devices.entries@[j].1.confidence.value == old(
                            self,
                        ).devices.entries@[j].1.confidence.value
                    }
                },
    {
        let ghost pre = self.devices.entries@;
        proof {
            lemma_find_index(pre, device_id.0@);
        }
        match self.devices.find(device_id) {
            Some(p) => {
                let (k, mut state) = self.devices.remove_at(p);
                state.zero_confidence();
                self.devices.insert_at(p, (k, state));
                proof {
                    assert(self.devices.entries@ =~= pre.update(p as int, (k, state)));
                    lemma_update_value(pre, p as int, (k, state));
                    assert forall|j: int| 0 <= j < self.devices.entries@.len() implies device_state_wf(
                        #[trigger] self.devices.entries@[j].1,
                    ) by {
                        assert(device_state_wf(pre[j].1));
                    }
                }
            },
            None => {},
        }
    }

    /// Records what a device should be: on a known device, `attribute` is
    /// set to `value` in desired, stamped with `now` and `source`; an unknown
    /// device is ignored.
    pub fn set_desired_at(
        &mut self,
        device_id: &DeviceId,
        attribute: AttributeKey,
        value: Value,
        source: EventSource,
        now: u64,
    )
        requires
            old(self).wf(),
        ensures
            final(self).wf(),
            final(self).degraded_threshold == old(self).degraded_threshold,
            final(self).unknown_threshold == old(self).unknown_threshold,
            final(self).devices.entries@.len() == old(self).devices.entries@.len(),
            !old(self).devices.contains(device_id.0@) ==> final(self).devices == old(self).devices,
            old(self).devices.contains(device_id.0@) ==> {
                let i = old(self).devices.index_of(device_id.0@);
                let b = old(self).devices.entries@[i].1;
                let a = final(self).devices.entries@[i].1;
                &&& final(self).devices.entries@[i].0 == old(self).devices.entries@[i].0
                &&& a.desired.contains(attribute.0@)
                &&& a.desired.lookup(attribute.0@) == value
                &&& forall|k: Seq<char>|
                    k != attribute.0@ ==> (#[trigger] a.desired.contains(k) == b.desired.contains(k))
                        && (b.desired.contains(k) ==> a.desired.lookup(k) == b.desired.lookup(k))
                &&& a.desired_set_at == now
                &&& a.desired_set_by == source
                &&& a.actual == b.actual
                &&& a.previous == b.previous
                &&& a.confidence == b.confidence
                &&& a.last_seen == b.last_seen
                &&& a.device_id == b.device_id
                &&& forall|j: int|
                    0 <= j < final(self).devices.entries@.len() && j != i
                        ==> #[trigger] final(self).devices.entries@[j] == old(
                        self,
                    ).devices.entries@[j]
            },
    {
        let ghost pre = self.devices.entries@;
        proof {
            lemma_find_index(pre, device_id.0@);
        }
        match self.devices.find(device_id) {
            Some(p) => {
                let (k, mut state) = self.devices.remove_at(p);
                assert(device_state_wf(state));
                state.desired.insert(attribute, value);
                state.desired_set_at = now;
                state.desired_set_by = source;
                self.devices.insert_at(p, (k, state));
                proof {
                    assert(self.devices.entries@ =~= pre.update(p as int, (k, state)));
                    lemma_update_value(pre, p as int, (k, state));
                    assert forall|j: int| 0 <= j < self.devices.entries@.len() implies device_state_wf(
                        #[trigger] self.devices.entries@[j].1,
                    ) by {
                        assert(device_state_wf(pre[j].1));
                    }
                }
            },
            None => {},
        }
    }

    /// `set_desired_at` at the current time.
    pub fn set_desired(
        &mut self,
        device_id: &DeviceId,
        attribute: AttributeKey,
        value: Value,
        source: EventSource,
    )
        requires
            old(self).wf(),
        ensures
            final(self).wf(),
            final(self).degraded_threshold == old(self).degraded_threshold,
            final(self).unknown_threshold == old(self).unknown_threshold,
            final(self).devices.entries@.len() == old(self).devices.entries@.len(),
            !old(self).devices.contains(device_id.0@) ==> final(self).devices == old(self).devices,
            old(self).devices.contains(device_id.0@) ==> {
                let i = old(self).devices.index_of(device_id.0@);
                let b = old(self).devices.entries@[i].1;
                let a = final(self).devices.entries@[i].1;
                &&& final(self).devices.entries@[i].0 == old(self).devices.entries@[i].0
                &&& a.desired.contains(attribute.0@)
                &&& a.desired.lookup(attribute.0@) == value
                &&& forall|k: Seq<char>|
                    k != attribute.0@ ==> (#[trigger] a.desired.contains(k) == b.desired.contains(k))
                        && (b.desired.contains(k) ==> a.desired.lookup(k) == b.desired.lookup(k))
                &&& a.desired_set_by == source
                &&& a.actual == b.actual
                &&& a.previous == b.previous
                &&& a.confidence == b.confidence
                &&& a.last_seen == b.last_seen
                &&& a.device_id == b.device_id
                &&& forall|j: int|
                    0 <= j < final(self).devices.entries@.len() && j != i
                        ==> #[trigger] final(self).devices.entries@[j] == old(
                        self,
                    ).devices.entries@[j]
            },
    {
        let now = now_ms();
        self.set_desired_at(device_id, attribute, value, source, now);
    }

    /// Every desired attribute whose actual value is missing or differs,
    /// device by device, with the device's confidence.
    pub fn diff(&self) -> (r: Vec<StateMismatch>)
        ensures
            r@ == all_mismatches(self.devices.entries@),
    {
        let mut r: Vec<StateMismatch> = Vec::new();
        let n = self.devices.entries.len();
        let mut i: usize = 0;
        while i < n
            invariant
                n == self.devices.entries@.len(),
                i <= n,
                r@ == all_mismatches(self.devices.entries@.subrange(0, i as int)),
            decreases n - i,
        {
            let entry = &self.devices.entries[i];
            let st = &entry.1;
            let ghost base = r@;
            let m = st.desired.entries.len();
            let mut j: usize = 0;
            while j < m
                invariant
                    m == st.desired.entries@.len(),
                    j <= m,
                    r@ == base + attr_mismatches(entry.0, *st, st.desired.entries@.subrange(0, j as int)),
                decreases m - j,
            {
                let d = &st.desired.entries[j];
                let actual = st.actual.get(&d.0);
                proof {
                    let s2 = st.desired.entries@.subrange(0, j + 1);
                    assert(s2.drop_last() =~= st.desired.entries@.subrange(0, j as int));
                    assert(s2.last() == *d);
                }
                if !opt_value_equals(actual, Some(&d.1)) {
                    let a = match actual {
                        Some(v) => Some(v.duplicate()),
                        None => None,
                    };
                    r.push(
                        StateMismatch {
                            device_id: entry.0.duplicate(),
                            attribute: d.0.duplicate(),
                            desired: d.1.duplicate(),
                            actual: a,
                            confidence: st.confidence.value,
                        },
                    );
                    proof {
                        assert(r@ =~= base + attr_mismatches(entry.0, *st, st.desired.entries@.subrange(0, j + 1)));
                    }
                }
                j = j + 1;
            }
            proof {
                assert(st.desired.entries@.subrange(0, m as int) =~= st.desired.entries@);
                let s2 = self.devices.entries@.subrange(0, i + 1);
                assert(s2.drop_last() =~= self.devices.entries@.subrange(0, i as int));
                assert(s2.last() == *entry);
            }
            i = i + 1;
        }
        assert(self.devices.entries@.subrange(0, n as int) =~= self.devices.entries@);
        r
    }

    pub fn get(&self, id: &DeviceId) -> (r: Option<&DeviceState>)
        ensures
            r is None <==> !self.devices.contains(id.0@),
            r matches Some(s) ==> *s == self.devices.lookup(id.0@),
    {
        self.devices.get(id)
    }

    pub fn get_all(&self) -> (r: &OrderedMap<DeviceId, DeviceState>)
        ensures
            *r == self.devices,
    {
        &self.devices
    }
}


/// Two engines that hold the same devices, in the same order, with the same
/// desired, actual and previous values and the same confidence: they differ
/// at most in when each device was last heard from.
pub open spec fn same_but_time(a: StateEngine, b: StateEngine) -> bool {
    &&& a.devices.entries@.len() == b.devices.entries@.len()
    &&& forall|j: int|
        0 <= j < a.devices.entries@.len() ==> {
            &&& (#[trigger] a.devices.entries@[j]).0 == b.devices.entries@[j].0
            &&& a.devices.entries@[j].1.actual.view_map() == b.devices.entries@[j].1.actual.view_map()
            &&& a.devices.entries@[j].1.previous.view_map() == b.devices.entries@[j].1.previous.view_map()
            &&& a.devices.entries@[j].1.desired == b.devices.entries@[j].1.desired
            &&& a.devices.entries@[j].1.confidence == b.devices.entries@[j].1.confidence
        }
}

/// `states` is the run of an engine through `events`: each state is the
/// one before with the next event applied, at its time in `times`.
pub open spec fn replayed(
    states: Seq<StateEngine>,
    events: Seq<Event>,
    updates: Seq<StateUpdate>,
    times: Seq<u64>,
) -> bool {
    &&& states.len() == events.len() + 1
    &&& updates.len() == events.len()
    &&& times.len() == events.len()
    &&& forall|i: int|
        0 <= i < events.len() ==> #[trigger] event_applied(states[i], states[i + 1], events[i], updates[i], times[i])
}

/// Applying one event to two engines that agree but for time keeps them in
/// agreement, whenever each applies it.
proof fn lemma_step_keeps_agreement(
    a0: StateEngine,
    b0: StateEngine,
    a1: StateEngine,
    b1: StateEngine,
    event: Event,
    ua: StateUpdate,
    ub: StateUpdate,
    ta: u64,
    tb: u64,
)
    requires
        same_but_time(a0, b0),
        event_applied(a0, a1, event, ua, ta),
        event_applied(b0, b1, event, ub, tb),
    ensures
        same_but_time(a1, b1),
{
    match reported(event) {
        Some((d, attr, value)) => {
            assert forall|j: int| 0 <= j < a0.devices.entries@.len() implies #[trigger] a0.devices.entries@[j].0.model()
                == b0.devices.entries@[j].0.model() by {
                assert(a0.devices.entries@[j].0 == b0.devices.entries@[j].0);
            }
            crate::ordered_map::lemma_find_index_same_keys(a0.devices.entries@, b0.devices.entries@, d);
            lemma_find_index(a0.devices.entries@, d);
            if a0.devices.contains(d) {
                let i = a0.devices.index_of(d);
                assert(b0.devices.index_of(d) == i);
                assert(applied_report(a0.devices.entries@[i].1, a1.devices.entries@[i].1, attr.0@, value, ta));
                assert(applied_report(b0.devices.entries@[i].1, b1.devices.entries@[i].1, attr.0@, value, tb));
                assert(a0.devices.entries@[i].0 == b0.devices.entries@[i].0);
                assert forall|j: int| 0 <= j < a1.devices.entries@.len() implies {
                    &&& (#[trigger] a1.devices.entries@[j]).0 == b1.devices.entries@[j].0
                    &&& a1.devices.entries@[j].1.actual.view_map() == b1.devices.entries@[j].1.actual.view_map()
                    &&& a1.devices.entries@[j].1.previous.view_map() == b1.devices.entries@[j].1.previous.view_map()
                    &&& a1.devices.entries@[j].1.desired == b1.devices.entries@[j].1.desired
                    &&& a1.devices.entries@[j].1.confidence == b1.devices.entries@[j].1.confidence
                } by {
                    if j == i {
                        let sa = a1.devices.entries@[i].1;
                        let sb = b1.devices.entries@[i].1;
                        let pa = a0.devices.entries@[i].1;
                        let pb = b0.devices.entries@[i].1;
                        assert(pa.actual.view_map() == pb.actual.view_map());
                        assert(pa.previous.view_map() == pb.previous.view_map());
                        assert forall|k: Seq<char>| #[trigger] sa.actual.contains(k) == sb.actual.contains(k)
                            && (sa.actual.contains(k) ==> sa.actual.lookup(k) == sb.actual.lookup(k)) by {
                            assert(pa.actual.view_map().contains_key(k) == pb.actual.view_map().contains_key(k));
                            if pa.actual.contains(k) {
                                assert(pa.actual.view_map()[k] == pb.actual.view_map()[k]);
                            }
                        }
                        assert(sa.actual.view_map() =~= sb.actual.view_map());
                        assert(pa.actual.view_map().contains_key(attr.0@) == pb.actual.view_map().contains_key(
                            attr.0@,
                        ));
                        if pa.actual.contains(attr.0@) {
                            assert(pa.actual.view_map()[attr.0@] == pb.actual.view_map()[attr.0@]);
                        }
                        assert forall|k: Seq<char>| #[trigger] sa.previous.contains(k) == sb.previous.contains(k)
                            && (sa.previous.contains(k) ==> sa.previous.lookup(k) == sb.previous.lookup(k)) by {
                            assert(pa.previous.view_map().contains_key(k) == pb.previous.view_map().contains_key(k));
                            if pa.previous.contains(k) {
                                assert(pa.previous.view_map()[k] == pb.previous.view_map()[k]);
                            }
                        }
                        assert(sa.previous.view_map() =~= sb.previous.view_map());
                    } else {
                        assert(a1.devices.entries@[j] == a0.devices.entries@[j]);
                        assert(b1.devices.entries@[j] == b0.devices.entries@[j]);
                    }
                }
            }
        },
        None => {},
    }
}

/// Replay rebuilds the state: running the same events from engines that
/// agree (such as the engine booted from the same registry and desired
/// state) gives engines that agree, whenever each event is applied. Only
/// the time each device was last heard from can differ.
pub proof fn law_replay_reconstructs_state(
    xs: Seq<StateEngine>,
    ys: Seq<StateEngine>,
    events: Seq<Event>,
    ux: Seq<StateUpdate>,
    uy: Seq<StateUpdate>,
    tx: Seq<u64>,
    ty: Seq<u64>,
)
    requires
        replayed(xs, events, ux, tx),
        replayed(ys, events, uy, ty),
        same_but_time(xs[0], ys[0]),
    ensures
        same_but_time(xs.last(), ys.last()),
{
    lemma_replay_prefix(xs, ys, events, ux, uy, tx, ty, events.len() as int);
}

proof fn lemma_replay_prefix(
    xs: Seq<StateEngine>,
    ys: Seq<StateEngine>,
    events: Seq<Event>,
    ux: Seq<StateUpdate>,
    uy: Seq<StateUpdate>,
    tx: Seq<u64>,
    ty: Seq<u64>,
    i: int,
)
    requires
        replayed(xs, events, ux, tx),
        replayed(ys, events, uy, ty),
        same_but_time(xs[0], ys[0]),
        0 <= i <= events.len(),
    ensures
        same_but_time(xs[i], ys[i]),
    decreases i,
{
    if i > 0 {
        let k = i - 1;
        lemma_replay_prefix(xs, ys, events, ux, uy, tx, ty, k);
        assert(event_applied(xs[k], xs[k + 1], events[k], ux[k], tx[k]));
        assert(event_applied(ys[k], ys[k + 1], events[k], uy[k], ty[k]));
        lemma_step_keeps_agreement(xs[k], ys[k], xs[k + 1], ys[k + 1], events[k], ux[k], uy[k], tx[k], ty[k]);
    }
}

/// Replaying a report rebuilds the same actual and previous values whenever
/// the replay runs: only the time of last contact depends on the clock.
pub proof fn law_replay_is_independent_of_time(
    before: StateEngine,
    a: StateEngine,
    b: StateEngine,
    event: Event,
    ua: StateUpdate,
    ub: StateUpdate,
    ta: u64,
    tb: u64,
)
    requires
        event_applied(before, a, event, ua, ta),
        event_applied(before, b, event, ub, tb),
    ensures
        a.devices.entries@.len() == b.devices.entries@.len(),
        forall|j: int|
            0 <= j < a.devices.entries@.len() ==> {
                &&& (#[trigger] a.devices.entries@[j]).0 == b.devices.entries@[j].0
                &&& a.devices.entries@[j].1.actual.view_map() == b.devices.entries@[j].1.actual.view_map()
                &&& a.devices.entries@[j].1.previous.view_map() == b.devices.entries@[j].1.previous.view_map()
                &&& a.devices.entries@[j].1.desired == b.devices.entries@[j].1.desired
                &&& a.devices.entries@[j].1.confidence == b.devices.entries@[j].1.confidence
            },
{
    match reported(event) {
        Some((d, attr, value)) => {
            if before.devices.contains(d) {
                let i = before.devices.index_of(d);
                assert forall|j: int| 0 <= j < a.devices.entries@.len() implies {
                    &&& (#[trigger] a.devices.entries@[j]).0 == b.devices.entries@[j].0
                    &&& a.devices.entries@[j].1.actual.view_map() == b.devices.entries@[j].1.actual.view_map()
                    &&& a.devices.entries@[j].1.previous.view_map() == b.devices.entries@[j].1.previous.view_map()
                    &&& a.devices.entries@[j].1.desired == b.devices.entries@[j].1.desired
                    &&& a.devices.entries@[j].1.confidence == b.devices.entries@[j].1.confidence
                } by {
                    if j == i {
                        let sa = a.devices.entries@[i].1;
                        let sb = b.devices.entries@[i].1;
                        let s0 = before.devices.entries@[i].1;
                        assert forall|k: Seq<char>| #[trigger] sa.actual.contains(k) == sb.actual.contains(k)
                            && (sa.actual.contains(k) ==> sa.actual.lookup(k) == sb.actual.lookup(k)) by {
                            if k != attr.0@ {
                                assert(sa.actual.contains(k) == s0.actual.contains(k));
                                assert(sb.actual.contains(k) == s0.actual.contains(k));
                            }
                        }
                        assert(sa.actual.view_map() =~= sb.actual.view_map());
                        assert forall|k: Seq<char>| #[trigger] sa.previous.contains(k) == sb.previous.contains(k)
                            && (sa.previous.contains(k) ==> sa.previous.lookup(k) == sb.previous.lookup(k)) by {
                            if k != attr.0@ {
                                assert(sa.previous.contains(k) == s0.previous.contains(k));
                                assert(sb.previous.contains(k) == s0.previous.contains(k));
                            } else if !s0.actual.contains(k) {
                                assert(sa.previous == s0.previous);
                                assert(sb.previous == s0.previous);
                            }
                        }
                        assert(sa.previous.view_map() =~= sb.previous.view_map());
                    } else {
                        assert(a.devices.entries@[j] == before.devices.entries@[j]);
                        assert(b.devices.entries@[j] == before.devices.entries@[j]);
                    }
                }
            }
        },
        None => {},
    }
}

} // verus!
