//! The Home Assistant bridge's decisions: which entity state becomes which
//! device report, which report confirms a command in flight, and which
//! service a command calls.
//!
//! The WebSocket and REST traffic is the caller's; it hands this module
//! each message's contents as plain values and performs the calls it plans.
use vstd::prelude::*;
use vstd::string::StringExecFns;
use crate::config::{HaConfig, HaDeviceConfig};
use crate::ordered_map::OrderedMap;
use crate::outside::now_ms;
use crate::text::{i64_text, replace_all, replace_text, signed_decimal, trim_end_slashes, trim_trailing_slashes};
use crate::types::{AdapterCommand, EventSource, RawDeviceEvent, Value};

verus! {

#[derive(Debug, Clone)]
pub enum AdapterError {
    ConnectionFailed(String),
    Disconnected,
    Timeout,
    DeviceNotFound(String),
    CommandRejected(String),
    ParseError(String),
    Transport(String),
    Auth(String),
    NotConnected(String),
}

/// A value under a key of a state's `attributes` object: text, a number in
/// the text JSON gives it, a boolean, or anything else.
#[derive(Debug, Clone)]
pub enum HaAttributeValue {
    Text(String),
    Number(String),
    Flag(bool),
    Other,
}

/// An entity state as Home Assistant reports it. `attributes` is `None`
/// when the state has none, and empty when they are not an object.
#[derive(Debug, Clone)]
pub struct HaState {
    pub state: String,
    pub attributes: Option<OrderedMap<String, HaAttributeValue>>,
    pub last_changed: Option<String>,
}

/// A service call a command turns into: `POST {url}` for `entity_id`.
#[derive(Debug, Clone)]
pub struct ServiceCall {
    pub url: String,
    pub entity_id: String,
    pub service: String,
}

/// What one `state_changed` message yields: the device report it maps to,
/// and the command it confirms.
#[derive(Debug, Clone)]
pub struct HaObservation {
    pub event: Option<RawDeviceEvent>,
    pub confirmed: Option<String>,
}

/// The text a command value is sent as. A float is rendered by the caller.
#[derive(Debug, Clone)]
pub enum ValueText {
    Text(String),
    FloatBits(u64),
    NoValue,
}

pub open spec fn bool_text(b: bool) -> Seq<char> {
    if b {
        "true"@
    } else {
        "false"@
    }
}

/// The raw text of an entity state: the configured attribute, or the state
/// itself; `None` when the attribute is missing or not text, number or flag.
pub open spec fn raw_text(st: HaState, cfg: HaDeviceConfig) -> Option<Seq<char>> {
    match cfg.ha_attribute_key {
        Some(key) => match st.attributes {
            None => None,
            Some(attrs) => if attrs.contains(key@) {
                match attrs.lookup(key@) {
                    HaAttributeValue::Text(s) => Some(s@),
                    HaAttributeValue::Number(n) => Some(n@),
                    HaAttributeValue::Flag(b) => Some(bool_text(b)),
                    HaAttributeValue::Other => None,
                }
            } else {
                None
            },
        },
        None => Some(st.state@),
    }
}

/// The value a state maps to for a device: the raw text renamed through the
/// state map (when the map is not empty); `None` when the text has no entry.
pub open spec fn mapped_value(st: HaState, cfg: HaDeviceConfig) -> Option<Seq<char>> {
    match raw_text(st, cfg) {
        None => None,
        Some(raw) => if cfg.state_map.entries@.len() == 0 {
            Some(raw)
        } else if cfg.state_map.contains(raw) {
            Some(cfg.state_map.lookup(raw)@)
        } else {
            None
        },
    }
}

/// The REST endpoint listing every entity state of the instance at `url`.
pub fn states_url_of(url: &str) -> (u: String)
    ensures
        u@ == trim_end_slashes(url@) + "/api/states"@,
{
    let mut u = trim_trailing_slashes(url);
    u.append("/api/states");
    u
}

/// The error for a handshake message of type `actual` where `expected` was
/// due.
pub open spec fn unexpected_message(expected: Seq<char>, actual: Seq<char>) -> Seq<char> {
    "expected "@ + expected + ", got '"@ + actual + "'"@
}

/// Checks the type of a handshake message.
pub fn expect_msg_type(actual: &str, expected: &str) -> (r: Result<(), AdapterError>)
    ensures
        actual@ == expected@ ==> r is Ok,
        actual@ != expected@ ==> (r matches Err(AdapterError::Transport(m)) && m@
            == unexpected_message(expected@, actual@)),
{
    if crate::strings::str_eq(actual, expected) {
        return Ok(());
    }
    let mut m = String::from_str("expected ");
    m.append(expected);
    m.append(", got '");
    m.append(actual);
    m.append("'");
    Err(AdapterError::Transport(m))
}

/// The outcome of waiting for `auth_ok`: any failure there is a rejected
/// token.
pub fn auth_result(waited: Result<(), AdapterError>) -> (r: Result<(), AdapterError>)
    ensures
        waited is Ok ==> r is Ok,
        waited is Err ==> (r matches Err(AdapterError::Auth(m)) && m@
            == "HA authentication failed — check long-lived token"@),
{
    match waited {
        Ok(()) => Ok(()),
        Err(_) => Err(AdapterError::Auth(String::from_str("HA authentication failed — check long-lived token"))),
    }
}

/// The outcome of the `subscribe_events` acknowledgement.
pub fn subscribe_result(success: Option<bool>) -> (r: Result<(), AdapterError>)
    ensures
        success == Some(true) ==> r is Ok,
        success != Some(true) ==> (r matches Err(AdapterError::Transport(m)) && m@
            == "subscribe_events failed"@),
{
    match success {
        Some(true) => Ok(()),
        _ => Err(AdapterError::Transport(String::from_str("subscribe_events failed"))),
    }
}

/// Position of the first device mapping for `entity`, or -1.
pub open spec fn first_for_entity(devs: Seq<HaDeviceConfig>, entity: Seq<char>) -> int
    decreases devs.len(),
{
    if devs.len() == 0 {
        -1
    } else if devs[0].ha_entity_id@ == entity {
        0
    } else {
        let r = first_for_entity(devs.skip(1), entity);
        if r < 0 {
            -1
        } else {
            r + 1
        }
    }
}

/// Position of the last device mapping for `entity`, or -1.
pub open spec fn last_for_entity(devs: Seq<HaDeviceConfig>, entity: Seq<char>) -> int
    decreases devs.len(),
{
    if devs.len() == 0 {
        -1
    } else if devs.last().ha_entity_id@ == entity {
        devs.len() - 1
    } else {
        last_for_entity(devs.drop_last(), entity)
    }
}

/// Position of the first device mapping for internal device `id`, or -1.
pub open spec fn first_for_device(devs: Seq<HaDeviceConfig>, id: Seq<char>) -> int
    decreases devs.len(),
{
    if devs.len() == 0 {
        -1
    } else if devs[0].device_id@ == id {
        0
    } else {
        let r = first_for_device(devs.skip(1), id);
        if r < 0 {
            -1
        } else {
            r + 1
        }
    }
}

/// The report a mapped state gives for a device.
pub open spec fn report_of(cfg: HaDeviceConfig, value: Seq<char>, timestamp: u64, raw: String, e: RawDeviceEvent) -> bool {
    &&& e.external_id@ == cfg.device_id@
    &&& e.attribute@ == cfg.attribute@
    &&& e.value matches Value::Text(t) && t@ == value
    &&& e.timestamp == timestamp
    &&& e.source is Adapter
    &&& e.raw == raw
}

/// The `u64` a Unix-millis `i64` is stored as (wrapping, as `as u64` does).
pub open spec fn millis_u64(ms: i64) -> u64 {
    ms as u64
}

/// The Unix millis of an RFC 3339 timestamp, as chrono parses it; `None`
/// when chrono rejects the text.
pub uninterp spec fn rfc3339_millis(s: Seq<char>) -> Option<i64>;

/// Parses `s` with `chrono::DateTime::parse_from_rfc3339` and reads it with
/// `DateTime::timestamp_millis`. The result is named `rfc3339_millis`: a
/// function of the text alone.
#[verifier::external_body]
fn parse_rfc3339_millis(s: &str) -> (r: Option<i64>)
    ensures
        r == rfc3339_millis(s@),
{
    match chrono::DateTime::parse_from_rfc3339(s) {
        Ok(dt) => Some(dt.timestamp_millis()),
        Err(_) => None,
    }
}

/// The time a REST state changed: its `last_changed` parsed, else `now`.
pub open spec fn state_time(last_changed: Option<String>, now: u64) -> u64 {
    match last_changed {
        Some(s) => match rfc3339_millis(s@) {
            Some(ms) => millis_u64(ms),
            None => now,
        },
        None => now,
    }
}

/// The time a parsed `last_changed` gives: its Unix millis as stored, or
/// `now` when it did not parse.
pub fn time_from_parsed(parsed: Option<i64>, now: u64) -> (t: u64)
    ensures
        t == match parsed {
            Some(ms) => millis_u64(ms),
            None => now,
        },
{
    match parsed {
        Some(ms) => ms as u64,
        None => now,
    }
}

/// The time a state's `last_changed` names, or `now` when it names none.
pub fn state_time_at(last_changed: &Option<String>, now: u64) -> (t: u64)
    ensures
        t == state_time(*last_changed, now),
{
    match last_changed {
        Some(s) => time_from_parsed(parse_rfc3339_millis(s.as_str()), now),
        None => now,
    }
}

/// The time of a `state_changed` message stamped `now`: the Unix millis of
/// its RFC 3339 `time_fired`, or `now` when that text does not parse.
pub fn time_fired_at(s: &str, now: u64) -> (t: u64)
    ensures
        t == match rfc3339_millis(s@) {
            Some(ms) => millis_u64(ms),
            None => now,
        },
{
    time_from_parsed(parse_rfc3339_millis(s), now)
}

/// The time of a `state_changed` message: the Unix millis of its RFC 3339
/// `time_fired`; the current time when that text does not parse.
pub fn parse_time_fired(s: &str) -> (t: u64)
    ensures
        rfc3339_millis(s@) matches Some(ms) ==> t == millis_u64(ms),
{
    time_fired_at(s, now_ms())
}

/// The next reconnect delay: doubled, at most 30 s.
pub fn next_backoff(backoff_secs: u64) -> (b: u64)
    requires
        backoff_secs <= u64::MAX / 2,
    ensures
        b == if backoff_secs * 2 < 30 { backoff_secs * 2 } else { 30 },
{
    let d = backoff_secs * 2;
    if d < 30 {
        d
    } else {
        30
    }
}

/// The text a value is sent as: text as is, booleans and integers as Rust
/// renders them, a float left to the caller, nothing for null.
pub fn value_text(v: &Value) -> (t: ValueText)
    ensures
        match *v {
            Value::Text(s) => t matches ValueText::Text(x) && x@ == s@,
            Value::Bool(b) => t matches ValueText::Text(x) && x@ == bool_text(b),
            Value::Int(i) => t matches ValueText::Text(x) && x@ == signed_decimal(i as int),
            Value::Float(f) => t == ValueText::FloatBits(f),
            Value::Null => t is NoValue,
        },
{
    match v {
        Value::Text(s) => ValueText::Text(s.clone()),
        Value::Bool(b) => {
            proof {
                reveal_strlit("true");
                reveal_strlit("false");
            }
            if *b {
                ValueText::Text(String::from_str("true"))
            } else {
                ValueText::Text(String::from_str("false"))
            }
        },
        Value::Int(i) => ValueText::Text(i64_text(*i)),
        Value::Float(f) => ValueText::FloatBits(*f),
        Value::Null => ValueText::NoValue,
    }
}

fn attribute_text(a: &HaAttributeValue) -> (r: Option<String>)
    ensures
        match *a {
            HaAttributeValue::Text(s) => r matches Some(x) && x@ == s@,
            HaAttributeValue::Number(n) => r matches Some(x) && x@ == n@,
            HaAttributeValue::Flag(b) => r matches Some(x) && x@ == bool_text(b),
            HaAttributeValue::Other => r is None,
        },
{
    match a {
        HaAttributeValue::Text(s) => Some(s.clone()),
        HaAttributeValue::Number(n) => Some(n.clone()),
        HaAttributeValue::Flag(b) => {
            proof {
                reveal_strlit("true");
                reveal_strlit("false");
            }
            if *b {
                Some(String::from_str("true"))
            } else {
                Some(String::from_str("false"))
            }
        },
        HaAttributeValue::Other => None,
    }
}

/// Extracts and maps the value of a state for a device.
pub fn map_raw_value(ha_state: &HaState, device_cfg: &HaDeviceConfig) -> (r: Option<String>)
    ensures
        match r {
            Some(x) => mapped_value(*ha_state, *device_cfg) == Some(x@),
            None => mapped_value(*ha_state, *device_cfg) is None,
        },
{
    let raw = match &device_cfg.ha_attribute_key {
        Some(key) => match &ha_state.attributes {
            None => {
                return None;
            },
            Some(attrs) => match attrs.get(key) {
                Some(a) => match attribute_text(a) {
                    Some(t) => t,
                    None => {
                        return None;
                    },
                },
                None => {
                    return None;
                },
            },
        },
        None => ha_state.state.clone(),
    };
    if device_cfg.state_map.len() == 0 {
        return Some(raw);
    }
    match device_cfg.state_map.get(&raw) {
        Some(mapped) => Some(mapped.clone()),
        None => None,
    }
}

proof fn lemma_first_for_entity(devs: Seq<HaDeviceConfig>, entity: Seq<char>, i: int)
    requires
        0 <= i <= devs.len(),
        forall|j: int| 0 <= j < i ==> devs[j].ha_entity_id@ != entity,
    ensures
        i < devs.len() && devs[i].ha_entity_id@ == entity ==> first_for_entity(devs, entity) == i,
        i == devs.len() ==> first_for_entity(devs, entity) == -1,
    decreases i,
{
    if i > 0 {
        lemma_first_for_entity(devs.skip(1), entity, i - 1);
    } else if devs.len() == 0 {
    }
}

proof fn lemma_first_for_device(devs: Seq<HaDeviceConfig>, id: Seq<char>, i: int)
    requires
        0 <= i <= devs.len(),
        forall|j: int| 0 <= j < i ==> devs[j].device_id@ != id,
    ensures
        i < devs.len() && devs[i].device_id@ == id ==> first_for_device(devs, id) == i,
        i == devs.len() ==> first_for_device(devs, id) == -1,
    decreases i,
{
    if i > 0 {
        lemma_first_for_device(devs.skip(1), id, i - 1);
    }
}

proof fn lemma_last_for_entity(devs: Seq<HaDeviceConfig>, entity: Seq<char>)
    ensures
        -1 <= last_for_entity(devs, entity) < devs.len(),
        last_for_entity(devs, entity) >= 0 ==> devs[last_for_entity(devs, entity)].ha_entity_id@
            == entity,
    decreases devs.len(),
{
    if devs.len() > 0 {
        lemma_last_for_entity(devs.drop_last(), entity);
    }
}

/// Whether a `state_changed` for `entity` with `new_state` confirms the
/// command waiting on it: the state maps to the value the command expects.
pub open spec fn confirms_command(link: HaLink, entity: Seq<char>, new_state: Option<HaState>) -> bool {
    match new_state {
        None => false,
        Some(st) => {
            let i = first_for_entity(link.config.devices@, entity);
            i >= 0 && match mapped_value(st, link.config.devices@[i]) {
                None => false,
                Some(v) => link.pending_expected.contains(entity) && link.pending_expected.lookup(
                    entity,
                )@ == v && link.pending_confirmations.contains(entity),
            }
        },
    }
}

/// The bridge's own state: its configuration, the commands waiting for the
/// state that confirms them, the next message id, and the reports fetched
/// on connect that are still to be handed out.
pub struct HaLink {
    pub config: HaConfig,
    /// Entity → id of the command sent to it.
    pub pending_confirmations: OrderedMap<String, String>,
    /// Entity → value text that command expects to see.
    pub pending_expected: OrderedMap<String, String>,
    pub next_id: u64,
    pub initial_events: Vec<RawDeviceEvent>,
}

impl HaLink {
    pub open spec fn wf(&self) -> bool {
        self.pending_confirmations.wf() && self.pending_expected.wf()
    }

    pub fn new(config: HaConfig) -> (l: Self)
        ensures
            l.wf(),
            l.config == config,
            l.pending_confirmations.entries@.len() == 0,
            l.pending_expected.entries@.len() == 0,
            l.next_id == 1,
            l.initial_events@.len() == 0,
    {
        HaLink {
            config,
            pending_confirmations: OrderedMap::new(),
            pending_expected: OrderedMap::new(),
            next_id: 1,
            initial_events: Vec::new(),
        }
    }

    /// A fresh WebSocket message id.
    pub fn alloc_id(&mut self) -> (id: u64)
        requires
            old(self).next_id < u64::MAX,
        ensures
            id == old(self).next_id,
            final(self).next_id == old(self).next_id + 1,
            final(self).config == old(self).config,
            final(self).pending_confirmations == old(self).pending_confirmations,
            final(self).pending_expected == old(self).pending_expected,
            final(self).initial_events == old(self).initial_events,
    {
        let id = self.next_id;
        self.next_id = self.next_id + 1;
        id
    }

    /// The base URL without trailing slashes.
    pub open spec fn base_url(&self) -> Seq<char> {
        trim_end_slashes(self.config.url@)
    }

    /// The WebSocket endpoint: the base URL with its scheme switched to
    /// `ws://` or `wss://`, then `/api/websocket`.
    pub fn websocket_url(&self) -> (u: String)
        ensures
            u@ == replace_all(replace_all(self.base_url(), "http://"@, "ws://"@), "https://"@, "wss://"@)
                + "/api/websocket"@,
    {
        proof {
            reveal_strlit("http://");
            reveal_strlit("https://");
        }
        let base = trim_trailing_slashes(self.config.url.as_str());
        let ws = replace_text(base.as_str(), "http://", "ws://");
        let mut u = replace_text(ws.as_str(), "https://", "wss://");
        u.append("/api/websocket");
        u
    }

    /// The REST endpoint listing every entity state.
    pub fn states_url(&self) -> (u: String)
        ensures
            u@ == self.base_url() + "/api/states"@,
    {
        states_url_of(self.config.url.as_str())
    }

    /// The `Authorization` header value.
    pub fn auth_header(&self) -> (h: String)
        ensures
            h@ == "Bearer "@ + self.config.token@,
    {
        let mut h = String::from_str("Bearer ");
        h.append(self.config.token.as_str());
        h
    }

    /// Keeps the reports fetched on connect, to be handed out one by one.
    pub fn set_initial_events(&mut self, events: Vec<RawDeviceEvent>)
        ensures
            final(self).initial_events == events,
            final(self).config == old(self).config,
            final(self).pending_confirmations == old(self).pending_confirmations,
            final(self).pending_expected == old(self).pending_expected,
            final(self).next_id == old(self).next_id,
    {
        self.initial_events = events;
    }

    /// The next report fetched on connect still to be handed out, taken from
    /// the back.
    pub fn take_initial_event(&mut self) -> (e: Option<RawDeviceEvent>)
        ensures
            old(self).initial_events@.len() == 0 ==> e is None && final(self).initial_events@.len()
                == 0,
            old(self).initial_events@.len() > 0 ==> e == Some(old(self).initial_events@.last())
                && final(self).initial_events@ == old(self).initial_events@.drop_last(),
            final(self).config == old(self).config,
            final(self).pending_confirmations == old(self).pending_confirmations,
            final(self).pending_expected == old(self).pending_expected,
            final(self).next_id == old(self).next_id,
    {
        self.initial_events.pop()
    }

    fn find_entity(&self, entity_id: &String) -> (r: Option<usize>)
        ensures
            match r {
                Some(i) => i == first_for_entity(self.config.devices@, entity_id@) && i
                    < self.config.devices@.len(),
                None => first_for_entity(self.config.devices@, entity_id@) == -1,
            },
    {
        let n = self.config.devices.len();
        let mut i: usize = 0;
        while i < n
            invariant
                n == self.config.devices@.len(),
                i <= n,
                forall|j: int| 0 <= j < i ==> self.config.devices@[j].ha_entity_id@ != entity_id@,
            decreases n - i,
        {
            if self.config.devices[i].ha_entity_id == *entity_id {
                proof {
                    lemma_first_for_entity(self.config.devices@, entity_id@, i as int);
                }
                return Some(i);
            }
            i = i + 1;
        }
        proof {
            lemma_first_for_entity(self.config.devices@, entity_id@, i as int);
        }
        None
    }

    fn find_device(&self, device_id: &String) -> (r: Option<usize>)
        ensures
            match r {
                Some(i) => i == first_for_device(self.config.devices@, device_id@) && i
                    < self.config.devices@.len(),
                None => first_for_device(self.config.devices@, device_id@) == -1,
            },
    {
        let n = self.config.devices.len();
        let mut i: usize = 0;
        while i < n
            invariant
                n == self.config.devices@.len(),
                i <= n,
                forall|j: int| 0 <= j < i ==> self.config.devices@[j].device_id@ != device_id@,
            decreases n - i,
        {
            if self.config.devices[i].device_id == *device_id {
                proof {
                    lemma_first_for_device(self.config.devices@, device_id@, i as int);
                }
                return Some(i);
            }
            i = i + 1;
        }
        proof {
            lemma_first_for_device(self.config.devices@, device_id@, i as int);
        }
        None
    }

    /// Handles a `state_changed` event for `entity_id`. A removed entity, an
    /// entity no device maps, or a state that does not map yield nothing.
    /// Otherwise the mapped value is reported for the first device mapping
    /// the entity, and, when it is the value a command sent to the entity
    /// expects, that command is confirmed and no longer waits.
    pub fn on_state_changed(
        &mut self,
        entity_id: &String,
        new_state: Option<HaState>,
        timestamp: u64,
        raw: String,
    ) -> (o: HaObservation)
        requires
            old(self).wf(),
        ensures
            final(self).wf(),
            final(self).config == old(self).config,
            final(self).next_id == old(self).next_id,
            final(self).initial_events == old(self).initial_events,
            ({
                let i = first_for_entity(old(self).config.devices@, entity_id@);
                match new_state {
                    None => o.event is None,
                    Some(st) => if i < 0 {
                        o.event is None
                    } else {
                        let cfg = old(self).config.devices@[i];
                        match mapped_value(st, cfg) {
                            None => o.event is None,
                            Some(v) => o.event matches Some(e) && report_of(cfg, v, timestamp, raw, e),
                        }
                    },
                }
            }),
            ({
                let confirms = confirms_command(*old(self), entity_id@, new_state);
                &&& confirms ==> {
                    &&& o.confirmed == Some(old(self).pending_confirmations.lookup(entity_id@))
                    &&& final(self).pending_confirmations.view_map() == old(
                        self,
                    ).pending_confirmations.view_map().remove(entity_id@)
                    &&& final(self).pending_expected.view_map() == old(
                        self,
                    ).pending_expected.view_map().remove(entity_id@)
                }
                &&& !confirms ==> {
                    &&& o.confirmed is None
                    &&& final(self).pending_confirmations == old(self).pending_confirmations
                    &&& final(self).pending_expected == old(self).pending_expected
                }
            }),
    {
        let st = match new_state {
            Some(s) => s,
            None => {
                return HaObservation { event: None, confirmed: None };
            },
        };
        let i = match self.find_entity(entity_id) {
            Some(i) => i,
            None => {
                return HaObservation { event: None, confirmed: None };
            },
        };
        let mapped = match map_raw_value(&st, &self.config.devices[i]) {
            Some(v) => v,
            None => {
                return HaObservation { event: None, confirmed: None };
            },
        };
        let mut confirmed: Option<String> = None;
        let expects = match self.pending_expected.get(entity_id) {
            Some(expected) => *expected == mapped,
            None => false,
        };
        if expects && self.pending_confirmations.contains_key(entity_id) {
            let ghost pc = self.pending_confirmations;
            let ghost pe = self.pending_expected;
            match self.pending_confirmations.remove(entity_id) {
                Some(command_id) => {
                    self.pending_expected.remove(entity_id);
                    confirmed = Some(command_id);
                    proof {
                        assert(self.pending_confirmations.view_map() =~= pc.view_map().remove(
                            entity_id@,
                        ));
                        assert(self.pending_expected.view_map() =~= pe.view_map().remove(
                            entity_id@,
                        ));
                    }
                },
                None => {},
            }
        }
        let cfg = &self.config.devices[i];
        let event = RawDeviceEvent {
            external_id: cfg.device_id.clone(),
            attribute: cfg.attribute.clone(),
            value: Value::Text(mapped),
            timestamp,
            source: EventSource::Adapter,
            raw,
        };
        HaObservation { event: Some(event), confirmed }
    }

    /// The reports a full state listing gives, in its order: for each entity
    /// some device maps (the last mapping, when several do), the mapped state
    /// stamped with its `last_changed` time or `now`. Each entry carries the
    /// raw text to report it with.
    pub fn initial_events_at(&self, states: &Vec<(String, HaState, String)>, now: u64) -> (r: Vec<
        RawDeviceEvent,
    >)
        ensures
            reports_are(r@, initial_reports(self.config.devices@, states@, now)),
    {
        let mut r: Vec<RawDeviceEvent> = Vec::new();
        let mut k: usize = 0;
        while k < states.len()
            invariant
                k <= states@.len(),
                reports_are(r@, initial_reports(self.config.devices@, states@.take(k as int), now)),
            decreases states@.len() - k,
        {
            let (entity, st, raw) = &states[k];
            let ghost pre = states@.take(k as int);
            proof {
                assert(states@.take(k + 1).drop_last() =~= pre);
            }
            let n = self.config.devices.len();
            let mut j = n;
            proof {
                assert(self.config.devices@.take(n as int) =~= self.config.devices@);
            }
            while j > 0 && self.config.devices[j - 1].ha_entity_id != *entity
                invariant
                    n == self.config.devices@.len(),
                    j <= n,
                    last_for_entity(self.config.devices@, entity@) == last_for_entity(
                        self.config.devices@.take(j as int),
                        entity@,
                    ),
                decreases j,
            {
                assert(self.config.devices@.take(j as int).drop_last() =~= self.config.devices@.take(
                    j - 1,
                ));
                j = j - 1;
            }
            proof {
                if j == 0 {
                    assert(self.config.devices@.take(0) =~= Seq::<HaDeviceConfig>::empty());
                } else {
                    assert(self.config.devices@.take(j as int).last() == self.config.devices@[j - 1]);
                }
            }
            if j > 0 {
                let cfg = &self.config.devices[j - 1];
                match map_raw_value(st, cfg) {
                    Some(mapped) => {
                        r.push(
                            RawDeviceEvent {
                                external_id: cfg.device_id.clone(),
                                attribute: cfg.attribute.clone(),
                                value: Value::Text(mapped),
                                timestamp: state_time_at(&st.last_changed, now),
                                source: EventSource::Adapter,
                                raw: raw.clone(),
                            },
                        );
                    },
                    None => {},
                }
            }
            k = k + 1;
        }
        proof {
            assert(states@.take(states@.len() as int) =~= states@);
        }
        r
    }

    /// The reports a full state listing gives, stamped with the current
    /// time where a state names none.
    pub fn initial_events(&self, states: &Vec<(String, HaState, String)>) -> (r: Vec<RawDeviceEvent>)
        ensures
            exists|now: u64| reports_are(r@, initial_reports(self.config.devices@, states@, now)),
    {
        self.initial_events_at(states, now_ms())
    }

    /// Plans the service call for `command`, whose value is sent as
    /// `value_text` (`None` for null). The device must be mapped, else the
    /// command fails with `DeviceNotFound`. A read-only device (no services),
    /// a null value, or a value with no service is a no-op. Otherwise the
    /// command waits for the state it sets, and the call is
    /// `{base}/api/services/{service}` for the device's entity.
    pub fn plan_command(&mut self, command: &AdapterCommand, value_text: Option<String>) -> (r:
        Result<Option<ServiceCall>, AdapterError>)
        requires
            old(self).wf(),
        ensures
            final(self).wf(),
            final(self).config == old(self).config,
            final(self).next_id == old(self).next_id,
            final(self).initial_events == old(self).initial_events,
            ({
                let i = first_for_device(old(self).config.devices@, command.external_id@);
                if i < 0 {
                    &&& r matches Err(AdapterError::DeviceNotFound(x)) && x@ == command.external_id@
                    &&& *final(self) == *old(self)
                } else {
                    let cfg = old(self).config.devices@[i];
                    let call = match value_text {
                        Some(t) => cfg.service_map.entries@.len() > 0 && cfg.service_map.contains(t@),
                        None => false,
                    };
                    if !call {
                        &&& r matches Ok(None)
                        &&& *final(self) == *old(self)
                    } else {
                        let t = value_text->0;
                        let service = cfg.service_map.lookup(t@);
                        &&& r matches Ok(Some(c)) && c.url@ == old(self).base_url() + "/api/services/"@ + service@
                            && c.entity_id@ == cfg.ha_entity_id@ && c.service@ == service@
                        &&& final(self).pending_confirmations.view_map() == old(
                            self,
                        ).pending_confirmations.view_map().insert(cfg.ha_entity_id@, command.command_id)
                        &&& final(self).pending_expected.view_map() == old(
                            self,
                        ).pending_expected.view_map().insert(cfg.ha_entity_id@, t)
                    }
                }
            }),
    {
        let i = match self.find_device(&command.external_id) {
            Some(i) => i,
            None => {
                return Err(AdapterError::DeviceNotFound(command.external_id.clone()));
            },
        };
        if self.config.devices[i].service_map.len() == 0 {
            return Ok(None);
        }
        let text = match value_text {
            Some(t) => t,
            None => {
                return Ok(None);
            },
        };
        let service = match self.config.devices[i].service_map.get(&text) {
            Some(s) => s.clone(),
            None => {
                return Ok(None);
            },
        };
        let mut url = trim_trailing_slashes(self.config.url.as_str());
        url.append("/api/services/");
        url.append(service.as_str());
        let entity = self.config.devices[i].ha_entity_id.clone();
        let ghost pc = self.pending_confirmations;
        let ghost pe = self.pending_expected;
        self.pending_confirmations.insert(entity.clone(), command.command_id.clone());
        self.pending_expected.insert(entity.clone(), text);
        proof {
            assert(self.pending_confirmations.view_map() =~= pc.view_map().insert(
                entity@,
                command.command_id,
            ));
            assert(self.pending_expected.view_map() =~= pe.view_map().insert(entity@, value_text->0));
        }
        Ok(Some(ServiceCall { url, entity_id: entity, service }))
    }

    /// Forgets the command waiting on `entity_id`: its call was rejected.
    pub fn command_rejected(&mut self, entity_id: &String)
        requires
            old(self).wf(),
        ensures
            final(self).wf(),
            final(self).pending_confirmations.view_map() == old(
                self,
            ).pending_confirmations.view_map().remove(entity_id@),
            final(self).pending_expected.view_map() == old(self).pending_expected.view_map().remove(
                entity_id@,
            ),
            final(self).config == old(self).config,
            final(self).next_id == old(self).next_id,
            final(self).initial_events == old(self).initial_events,
    {
        let ghost pc = self.pending_confirmations;
        let ghost pe = self.pending_expected;
        self.pending_confirmations.remove(entity_id);
        self.pending_expected.remove(entity_id);
        proof {
            assert(self.pending_confirmations.view_map() =~= pc.view_map().remove(entity_id@));
            assert(self.pending_expected.view_map() =~= pe.view_map().remove(entity_id@));
        }
    }
}


/// A command waiting on an entity is confirmed by the first state report of
/// that entity that maps to the value the command sent.
pub proof fn law_sent_value_confirms_command(
    before: HaLink,
    after: HaLink,
    entity: Seq<char>,
    command_id: String,
    sent: String,
    st: HaState,
)
    requires
        after.config == before.config,
        after.pending_confirmations.view_map() == before.pending_confirmations.view_map().insert(
            entity,
            command_id,
        ),
        after.pending_expected.view_map() == before.pending_expected.view_map().insert(entity, sent),
        first_for_entity(after.config.devices@, entity) >= 0,
        mapped_value(st, after.config.devices@[first_for_entity(after.config.devices@, entity)])
            == Some(sent@),
    ensures
        confirms_command(after, entity, Some(st)),
        after.pending_confirmations.lookup(entity) == command_id,
{
    assert(after.pending_confirmations.view_map().contains_key(entity));
    assert(after.pending_expected.view_map().contains_key(entity));
    assert(after.pending_expected.view_map()[entity] == sent);
    assert(after.pending_confirmations.view_map()[entity] == command_id);
}

/// A text report seen as plain values: external id, attribute, value text,
/// timestamp and raw text. `None` for a report whose value is not text.
pub open spec fn text_report(e: RawDeviceEvent) -> Option<(Seq<char>, Seq<char>, Seq<char>, u64, Seq<char>)> {
    match e.value {
        Value::Text(t) => Some((e.external_id@, e.attribute@, t@, e.timestamp, e.raw@)),
        _ => None,
    }
}

/// Whether `r` holds exactly the text reports `v`, in order.
pub open spec fn reports_are(r: Seq<RawDeviceEvent>, v: Seq<(Seq<char>, Seq<char>, Seq<char>, u64, Seq<char>)>) -> bool {
    &&& r.len() == v.len()
    &&& forall|i: int| #![trigger r[i]] 0 <= i < r.len() ==> text_report(r[i]) == Some(v[i])
        && r[i].source is Adapter
}

/// The reports a full state listing yields, in its order.
pub open spec fn initial_reports(
    devs: Seq<HaDeviceConfig>,
    states: Seq<(String, HaState, String)>,
    now: u64,
) -> Seq<(Seq<char>, Seq<char>, Seq<char>, u64, Seq<char>)>
    decreases states.len(),
{
    if states.len() == 0 {
        Seq::empty()
    } else {
        let prev = initial_reports(devs, states.drop_last(), now);
        let (entity, st, raw) = states.last();
        let i = last_for_entity(devs, entity@);
        if i < 0 {
            prev
        } else {
            match mapped_value(st, devs[i]) {
                None => prev,
                Some(v) => prev.push(
                    (devs[i].device_id@, devs[i].attribute@, v, state_time(st.last_changed, now), raw@),
                ),
            }
        }
    }
}

} // verus!
