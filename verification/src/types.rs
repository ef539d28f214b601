//! Identifiers, values, events, devices, device state and commands.
//!
//! Times are whole milliseconds since the Unix epoch; 0 stands for "never".
//! Floating-point numbers are held as their IEEE bit patterns (see `floats`).
use vstd::prelude::*;
use crate::floats::{f32_bits_le, f32_le, f64_bits_eq, f64_eq, F32_ONE, F32_ZERO};
use crate::ordered_map::{Duplicate, MapKey, OrderedMap};
use crate::outside::{new_ulid, now_ms};

verus! {

// ── Identifiers ──────────────────────────────────────────────

#[derive(Debug, Clone, PartialEq, Eq, Hash)]
pub struct DeviceId(pub String);

#[derive(Debug, Clone, PartialEq, Eq, Hash)]
pub struct RuleId(pub String);

#[derive(Debug, Clone, PartialEq, Eq, Hash)]
pub struct AttributeKey(pub String);

impl MapKey for DeviceId {
    type Model = Seq<char>;

    open spec fn model(&self) -> Seq<char> {
        self.0@
    }

    fn same_key(&self, other: &Self) -> (r: bool) {
        self.0 == other.0
    }
}

impl Duplicate for DeviceId {
    fn duplicate(&self) -> (r: Self) {
        DeviceId(self.0.clone())
    }
}

impl MapKey for RuleId {
    type Model = Seq<char>;

    open spec fn model(&self) -> Seq<char> {
        self.0@
    }

    fn same_key(&self, other: &Self) -> (r: bool) {
        self.0 == other.0
    }
}

impl Duplicate for RuleId {
    fn duplicate(&self) -> (r: Self) {
        RuleId(self.0.clone())
    }
}

impl MapKey for AttributeKey {
    type Model = Seq<char>;

    open spec fn model(&self) -> Seq<char> {
        self.0@
    }

    fn same_key(&self, other: &Self) -> (r: bool) {
        self.0 == other.0
    }
}

impl Duplicate for AttributeKey {
    fn duplicate(&self) -> (r: Self) {
        AttributeKey(self.0.clone())
    }
}

impl DeviceId {
    /// The text of the identifier.
    pub fn to_text(&self) -> (s: String)
        ensures
            s@ == self.0@,
    {
        self.0.clone()
    }
}

impl RuleId {
    /// The text of the identifier.
    pub fn to_text(&self) -> (s: String)
        ensures
            s@ == self.0@,
    {
        self.0.clone()
    }
}

impl AttributeKey {
    /// The text of the key.
    pub fn to_text(&self) -> (s: String)
        ensures
            s@ == self.0@,
    {
        self.0.clone()
    }
}

impl<K: Duplicate, V: Duplicate> Duplicate for (K, V) {
    fn duplicate(&self) -> (r: Self) {
        (self.0.duplicate(), self.1.duplicate())
    }
}

impl<T: Duplicate> Duplicate for Option<T> {
    fn duplicate(&self) -> (r: Self) {
        match self {
            Some(t) => Some(t.duplicate()),
            None => None,
        }
    }
}

/// Copies a vector element by element.
pub fn duplicate_vec<T: Duplicate>(v: &Vec<T>) -> (r: Vec<T>)
    ensures
        r@ == v@,
{
    let mut r: Vec<T> = Vec::new();
    let mut i: usize = 0;
    while i < v.len()
        invariant
            i <= v.len(),
            r@ == v@.subrange(0, i as int),
        decreases v.len() - i,
    {
        r.push(v[i].duplicate());
        i = i + 1;
    }
    assert(v@.subrange(0, v@.len() as int) =~= v@);
    r
}


// ── Values ───────────────────────────────────────────────────

/// A device attribute value. `Float` holds the bit pattern of an `f64`.
#[derive(Debug, Clone, PartialEq)]
pub enum Value {
    Bool(bool),
    Int(i64),
    Float(u64),
    Text(String),
    Null,
}

/// Whether two values compare equal: floats by IEEE equality, text by its
/// characters, the rest by variant and payload.
pub open spec fn value_eq(a: Value, b: Value) -> bool {
    match (a, b) {
        (Value::Bool(x), Value::Bool(y)) => x == y,
        (Value::Int(x), Value::Int(y)) => x == y,
        (Value::Float(x), Value::Float(y)) => f64_eq(x, y),
        (Value::Text(x), Value::Text(y)) => x@ == y@,
        (Value::Null, Value::Null) => true,
        _ => false,
    }
}

/// Whether two optional values compare equal (`None` only equals `None`).
pub open spec fn opt_value_eq(a: Option<Value>, b: Option<Value>) -> bool {
    match (a, b) {
        (Some(x), Some(y)) => value_eq(x, y),
        (None, None) => true,
        _ => false,
    }
}

impl Value {
    /// Equality as the device values compare.
    pub fn equals(&self, other: &Value) -> (r: bool)
        ensures
            r == value_eq(*self, *other),
    {
        match (self, other) {
            (Value::Bool(x), Value::Bool(y)) => *x == *y,
            (Value::Int(x), Value::Int(y)) => *x == *y,
            (Value::Float(x), Value::Float(y)) => f64_bits_eq(*x, *y),
            (Value::Text(x), Value::Text(y)) => *x == *y,
            (Value::Null, Value::Null) => true,
            _ => false,
        }
    }
}

/// Equality of optional values.
pub fn opt_value_equals(a: Option<&Value>, b: Option<&Value>) -> (r: bool)
    ensures
        r == opt_value_eq(
            match a {
                Some(x) => Some(*x),
                None => None,
            },
            match b {
                Some(x) => Some(*x),
                None => None,
            },
        ),
{
    match (a, b) {
        (Some(x), Some(y)) => x.equals(y),
        (None, None) => true,
        _ => false,
    }
}

impl Duplicate for Value {
    fn duplicate(&self) -> (r: Self) {
        match self {
            Value::Bool(b) => Value::Bool(*b),
            Value::Int(i) => Value::Int(*i),
            Value::Float(f) => Value::Float(*f),
            Value::Text(s) => Value::Text(s.clone()),
            Value::Null => Value::Null,
        }
    }
}

// ── Events ───────────────────────────────────────────────────

#[derive(Debug, Clone)]
pub enum EventSource {
    Device(DeviceId),
    System,
    Rule(RuleId),
    User,
    /// A report as an adapter delivers it, before the ingestor names the
    /// device.
    Adapter,
}

impl Duplicate for EventSource {
    fn duplicate(&self) -> (r: Self) {
        match self {
            EventSource::Device(d) => EventSource::Device(d.duplicate()),
            EventSource::System => EventSource::System,
            EventSource::Rule(r) => EventSource::Rule(r.duplicate()),
            EventSource::User => EventSource::User,
            EventSource::Adapter => EventSource::Adapter,
        }
    }
}

#[derive(Debug, Clone, Copy, PartialEq, Eq, Structural)]
pub enum EventKind {
    DeviceStateChanged,
    CommandSent,
    CommandConfirmed,
    CommandFailed,
    RuleTriggered,
    RuleConflict,
    SystemBoot,
    SystemShutdown,
    ReconciliationStarted,
    ReconciliationCompleted,
}

#[derive(Debug, Clone)]
pub struct Event {
    /// ULID
    pub id: String,
    /// WAL position
    pub sequence: u64,
    /// Unix millis
    pub timestamp: u64,
    pub source: EventSource,
    pub kind: EventKind,
    pub payload: OrderedMap<String, Value>,
}


impl Event {
    /// A new event with a fresh ULID, the current time, and sequence 0
    /// (the WAL assigns the sequence on append).
    pub fn new(source: EventSource, kind: EventKind, payload: OrderedMap<String, Value>) -> (e: Self)
        ensures
            e.sequence == 0,
            e.source == source,
            e.kind == kind,
            e.payload == payload,
            e.id@.len() == 26,
    {
        Event { id: new_ulid(), sequence: 0, timestamp: now_ms(), source, kind, payload }
    }
}

// ── Device ───────────────────────────────────────────────────

#[derive(Debug, Clone)]
pub struct Device {
    pub id: DeviceId,
    pub external_id: String,
    pub name: String,
    pub kind: DeviceKind,
    pub capabilities: Vec<Capability>,
    pub confidence_decay_seconds: u64,
    pub safe_default: OrderedMap<AttributeKey, Value>,
}

#[derive(Debug, Clone, Copy, PartialEq, Eq, Structural)]
pub enum DeviceKind {
    Gate,
    SecurityLight,
    BoreholePump,
    WaterTank,
    AlarmPanel,
    Camera,
    SmartPlug,
    Inverter,
    Generator,
    PowerMonitor,
    Sensor,
    Unknown,
}

#[derive(Debug, Clone)]
pub enum Capability {
    Readable(AttributeKey),
    Writable(AttributeKey),
}

impl Duplicate for Capability {
    fn duplicate(&self) -> (r: Self) {
        match self {
            Capability::Readable(a) => Capability::Readable(a.duplicate()),
            Capability::Writable(a) => Capability::Writable(a.duplicate()),
        }
    }
}


impl Device {
    /// Whether any capability of the device is writable.
    pub fn is_writable(&self) -> (r: bool)
        ensures
            r == exists|i: int|
                0 <= i < self.capabilities@.len() && #[trigger] self.capabilities@[i] is Writable,
    {
        let mut i: usize = 0;
        while i < self.capabilities.len()
            invariant
                i <= self.capabilities@.len(),
                forall|j: int| 0 <= j < i ==> !(#[trigger] self.capabilities@[j] is Writable),
            decreases self.capabilities.len() - i,
        {
            if let Capability::Writable(_) = &self.capabilities[i] {
                return true;
            }
            i = i + 1;
        }
        false
    }
}

// ── Confidence ───────────────────────────────────────────────

#[derive(Debug, Clone)]
pub struct Confidence {
    /// Bit pattern of an `f32`: 0.0 = unknown, 1.0 = certain.
    pub value: u32,
    /// Grace period in seconds: confidence stays at 1.0 this long after
    /// last_seen, then decays linearly to 0.0 over the same duration again.
    pub decays_after_secs: u64,
    /// What to act on when confidence is at or below the unknown threshold.
    /// Never written into actual; applied at read time by `get_effective`.
    pub safe_default: OrderedMap<AttributeKey, Value>,
}


impl Confidence {
    /// Unknown (0.0) until the first report.
    pub fn new(decays_after_secs: u64, safe_default: OrderedMap<AttributeKey, Value>) -> (c: Self)
        ensures
            c.value == F32_ZERO,
            c.decays_after_secs == decays_after_secs,
            c.safe_default == safe_default,
    {
        Confidence { value: F32_ZERO, decays_after_secs, safe_default }
    }
}

// ── Device State ─────────────────────────────────────────────

#[derive(Debug, Clone)]
pub struct DeviceState {
    pub device_id: DeviceId,
    /// What we want the device to be.
    pub desired: OrderedMap<AttributeKey, Value>,
    /// What the device last told us it is. Never overwritten by assumptions
    /// or safe defaults.
    pub actual: OrderedMap<AttributeKey, Value>,
    /// The value each attribute held immediately before the most recent
    /// `update_actual`. One value deep, not a history.
    pub previous: OrderedMap<AttributeKey, Value>,
    pub confidence: Confidence,
    /// When we last heard from this device; 0 means never seen.
    pub last_seen: u64,
    pub desired_set_at: u64,
    pub desired_set_by: EventSource,
}


/// The three attribute maps of a device state hold unique keys.
pub open spec fn device_state_wf(s: DeviceState) -> bool {
    s.desired.wf() && s.actual.wf() && s.previous.wf()
}

/// The value `get_effective` answers for `attr` under `threshold`.
pub open spec fn effective_value(s: DeviceState, attr: Seq<char>, threshold: u32) -> Option<Value> {
    if f32_le(s.confidence.value, threshold) {
        if s.confidence.safe_default.contains(attr) {
            Some(s.confidence.safe_default.lookup(attr))
        } else {
            None
        }
    } else {
        if s.actual.contains(attr) {
            Some(s.actual.lookup(attr))
        } else {
            None
        }
    }
}

/// `after` is `before` with a genuine report of `value` for `attr` at `now`
/// recorded: the old actual value (if any) moved to previous, the reported
/// value actual, confidence 1.0, last_seen `now`; nothing else changed.
pub open spec fn applied_report(
    before: DeviceState,
    after: DeviceState,
    attr: Seq<char>,
    value: Value,
    now: u64,
) -> bool {
    &&& after.actual.contains(attr)
    &&& after.actual.lookup(attr) == value
    &&& forall|k: Seq<char>|
        k != attr ==> (#[trigger] after.actual.contains(k) == before.actual.contains(k)) && (
        before.actual.contains(k) ==> after.actual.lookup(k) == before.actual.lookup(k))
    &&& before.actual.contains(attr) ==> after.previous.contains(attr) && after.previous.lookup(attr)
        == before.actual.lookup(attr)
    &&& !before.actual.contains(attr) ==> after.previous == before.previous
    &&& forall|k: Seq<char>|
        k != attr ==> (#[trigger] after.previous.contains(k) == before.previous.contains(k)) && (
        before.previous.contains(k) ==> after.previous.lookup(k) == before.previous.lookup(k))
    &&& after.confidence.value == F32_ONE
    &&& after.confidence.decays_after_secs == before.confidence.decays_after_secs
    &&& after.confidence.safe_default == before.confidence.safe_default
    &&& after.last_seen == now
    &&& after.desired == before.desired
    &&& after.device_id == before.device_id
    &&& after.desired_set_at == before.desired_set_at
    &&& after.desired_set_by == before.desired_set_by
}

impl DeviceState {
    /// A never-seen device: no desired, actual or previous values.
    pub fn new(device_id: DeviceId, confidence: Confidence) -> (s: Self)
        ensures
            s.device_id == device_id,
            s.confidence == confidence,
            s.desired.entries@.len() == 0,
            s.actual.entries@.len() == 0,
            s.previous.entries@.len() == 0,
            s.last_seen == 0,
            s.desired_set_by == EventSource::System,
    {
        DeviceState {
            device_id,
            desired: OrderedMap::new(),
            actual: OrderedMap::new(),
            previous: OrderedMap::new(),
            confidence,
            last_seen: 0,
            desired_set_at: now_ms(),
            desired_set_by: EventSource::System,
        }
    }

    /// Records a genuine device report: the current actual value (if any)
    /// moves to previous, the reported value becomes actual, confidence
    /// resets to 1.0 and last_seen becomes `now`.
    pub fn update_actual(&mut self, attribute: AttributeKey, value: Value, now: u64)
        requires
            device_state_wf(*old(self)),
        ensures
            device_state_wf(*final(self)),
            applied_report(*old(self), *final(self), attribute.0@, value, now),
    {
        match self.actual.get(&attribute) {
            Some(current) => {
                let c = current.duplicate();
                self.previous.insert(attribute.duplicate(), c);
            },
            None => {},
        }
        self.actual.insert(attribute, value);
        self.confidence.value = F32_ONE;
        self.last_seen = now;
    }

    /// The value to act on for `attr` right now: above the threshold the
    /// actual value, at or below it the safe default (or nothing).
    pub fn get_effective(&self, attr: &AttributeKey, unknown_threshold: u32) -> (r: Option<&Value>)
        ensures
            match r {
                Some(v) => effective_value(*self, attr.0@, unknown_threshold) == Some(*v),
                None => effective_value(*self, attr.0@, unknown_threshold) is None,
            },
    {
        if f32_bits_le(self.confidence.value, unknown_threshold) {
            self.confidence.safe_default.get(attr)
        } else {
            self.actual.get(attr)
        }
    }

    /// Drops confidence to 0.0 at once.
    pub fn zero_confidence(&mut self)
        ensures
            final(self).confidence.value == F32_ZERO,
            final(self).confidence.decays_after_secs == old(self).confidence.decays_after_secs,
            final(self).confidence.safe_default == old(self).confidence.safe_default,
            final(self).device_id == old(self).device_id,
            final(self).desired == old(self).desired,
            final(self).actual == old(self).actual,
            final(self).previous == old(self).previous,
            final(self).last_seen == old(self).last_seen,
            final(self).desired_set_at == old(self).desired_set_at,
            final(self).desired_set_by == old(self).desired_set_by,
    {
        self.confidence.value = F32_ZERO;
    }
}


/// What a device reports is what is read back for that attribute, as long
/// as the unknown threshold is below full confidence.
pub proof fn law_report_is_read_back(
    before: DeviceState,
    after: DeviceState,
    attr: Seq<char>,
    value: Value,
    now: u64,
    unknown_threshold: u32,
)
    requires
        applied_report(before, after, attr, value, now),
        !f32_le(F32_ONE, unknown_threshold),
    ensures
        effective_value(after, attr, unknown_threshold) == Some(value),
{
}

/// A device whose confidence is zero is read through its safe defaults
/// (for any threshold of zero or more), whatever it last reported.
pub proof fn law_zero_confidence_reads_safe_default(s: DeviceState, attr: Seq<char>, unknown_threshold: u32)
    requires
        s.confidence.value == F32_ZERO,
        f32_le(F32_ZERO, unknown_threshold),
    ensures
        effective_value(s, attr, unknown_threshold) == if s.confidence.safe_default.contains(attr) {
            Some(s.confidence.safe_default.lookup(attr))
        } else {
            None
        },
{
}

// ── State Update ─────────────────────────────────────────────

/// Returned by apply_event: the devices whose state changed.
#[derive(Debug, Clone)]
pub struct StateUpdate {
    pub changed_devices: Vec<DeviceId>,
}

// ── State Mismatch ───────────────────────────────────────────

/// A mismatch between desired and actual for one attribute.
#[derive(Debug, Clone)]
pub struct StateMismatch {
    pub device_id: DeviceId,
    pub attribute: AttributeKey,
    pub desired: Value,
    /// None if the device has never reported this attribute.
    pub actual: Option<Value>,
    /// Bit pattern of the device's `f32` confidence.
    pub confidence: u32,
}

// ── Commands ─────────────────────────────────────────────────

#[derive(Debug, Clone)]
pub struct Command {
    /// ULID
    pub id: String,
    pub rule_id: Option<RuleId>,
    pub device_id: DeviceId,
    pub attribute: AttributeKey,
    pub value: Value,
    /// Unix millis
    pub issued_at: u64,
    pub status: CommandStatus,
    pub retry_count: u8,
    /// Stamped by the producer; 255 for reconciler corrections.
    pub priority: u8,
}

#[derive(Debug, Clone)]
pub enum CommandStatus {
    Pending,
    Sent,
    Confirmed,
    Failed(String),
    Timeout,
}

impl Duplicate for CommandStatus {
    fn duplicate(&self) -> (r: Self) {
        match self {
            CommandStatus::Pending => CommandStatus::Pending,
            CommandStatus::Sent => CommandStatus::Sent,
            CommandStatus::Confirmed => CommandStatus::Confirmed,
            CommandStatus::Failed(s) => CommandStatus::Failed(s.clone()),
            CommandStatus::Timeout => CommandStatus::Timeout,
        }
    }
}

impl Duplicate for Command {
    fn duplicate(&self) -> (r: Self) {
        Command {
            id: self.id.clone(),
            rule_id: self.rule_id.duplicate(),
            device_id: self.device_id.duplicate(),
            attribute: self.attribute.duplicate(),
            value: self.value.duplicate(),
            issued_at: self.issued_at,
            status: self.status.duplicate(),
            retry_count: self.retry_count,
            priority: self.priority,
        }
    }
}

/// A command as `Command::new` builds it, whatever id and issue time it got.
pub open spec fn is_new_command(
    c: Command,
    device_id: DeviceId,
    attribute: AttributeKey,
    value: Value,
    rule_id: Option<RuleId>,
    priority: u8,
) -> bool {
    &&& c.device_id == device_id
    &&& c.attribute == attribute
    &&& c.value == value
    &&& c.rule_id == rule_id
    &&& c.priority == priority
    &&& c.status is Pending
    &&& c.retry_count == 0
    &&& c.id@.len() == 26
}

impl Command {
    /// A pending command with a fresh ULID, issued now.
    pub fn new(
        device_id: DeviceId,
        attribute: AttributeKey,
        value: Value,
        rule_id: Option<RuleId>,
        priority: u8,
    ) -> (c: Self)
        ensures
            is_new_command(c, device_id, attribute, value, rule_id, priority),
    {
        Command {
            id: new_ulid(),
            rule_id,
            device_id,
            attribute,
            value,
            issued_at: now_ms(),
            status: CommandStatus::Pending,
            retry_count: 0,
            priority,
        }
    }
}

// ── Adapter Types ────────────────────────────────────────────

/// A state report as an adapter delivers it. `raw` is the adapter's message
/// as JSON text.
#[derive(Debug, Clone)]
pub struct RawDeviceEvent {
    pub external_id: String,
    pub attribute: String,
    pub value: Value,
    pub timestamp: u64,
    pub source: EventSource,
    pub raw: String,
}

#[derive(Debug, Clone)]
pub struct AdapterCommand {
    pub external_id: String,
    pub attribute: String,
    pub value: Value,
    pub command_id: String,
}

} // verus!
