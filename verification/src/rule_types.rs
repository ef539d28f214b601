//! Rule file entries, parsed rules, runtime rule state and UI summaries.
use vstd::prelude::*;
use crate::ordered_map::{Duplicate, OrderedMap};
use crate::types::{AttributeKey, DeviceId, RuleId, Value};

verus! {

// ── File shape ───────────────────────────────────────────────
// Mirrors rules.toml: strings everywhere, no validation. Float fields hold
// the bit pattern of an `f64`; params are already plain values.

#[derive(Debug, Clone)]
pub struct RuleFile {
    pub rules: Vec<RuleEntry>,
}

#[derive(Debug, Clone)]
pub struct RuleEntry {
    pub id: String,
    pub name: String,
    pub enabled: bool,
    pub priority: u8,
    pub conflict_group: String,
    pub trigger: TriggerEntry,
    pub conditions: Vec<ConditionEntry>,
    pub actions: Vec<ActionEntry>,
    pub stateful: Option<StatefulEntry>,
}

#[derive(Debug, Clone)]
pub struct TriggerEntry {
    pub kind: String,
    pub device_id: Option<String>,
    pub attribute: Option<String>,
}

#[derive(Debug, Clone)]
pub struct ConditionEntry {
    pub subject_device_id: String,
    pub subject_attribute: String,
    pub operator: String,
    pub value_text: Option<String>,
    pub value_float: Option<u64>,
    pub value_int: Option<i64>,
    pub value_bool: Option<bool>,
    pub value_range_min: Option<u64>,
    pub value_range_max: Option<u64>,
    pub duration_seconds: Option<u64>,
}

#[derive(Debug, Clone)]
pub struct ActionEntry {
    pub device_id: String,
    pub attribute: String,
    pub value_text: Option<String>,
    pub value_float: Option<u64>,
    pub value_int: Option<i64>,
    pub value_bool: Option<bool>,
    pub delay_seconds: Option<u64>,
    pub params: OrderedMap<String, Value>,
}

#[derive(Debug, Clone)]
pub struct StatefulEntry {
    pub timeout_seconds: u64,
    pub on_timeout_actions: Vec<ActionEntry>,
}

// ── Parsed types ─────────────────────────────────────────────

#[derive(Debug, Clone)]
pub struct Rule {
    pub id: RuleId,
    pub name: String,
    pub enabled: bool,
    pub priority: u8,
    pub conflict_group: String,
    pub trigger: Trigger,
    pub conditions: Vec<Condition>,
    pub actions: Vec<Action>,
    pub stateful: Option<StatefulConfig>,
}

#[derive(Debug, Clone)]
pub enum Trigger {
    DeviceStateChanged { device_id: DeviceId, attribute: AttributeKey },
}

#[derive(Debug, Clone)]
pub struct Condition {
    pub device_id: DeviceId,
    pub attribute: AttributeKey,
    pub operator: Operator,
    pub value: ConditionValue,
    pub duration_seconds: Option<u64>,
}

/// The value(s) a condition compares against: `NoValue` for IsUnknown, a
/// range for Between, a single value for every other operator.
#[derive(Debug, Clone)]
pub enum ConditionValue {
    NoValue,
    Single(Value),
    Range(Value, Value),
}

#[derive(Debug, Clone, Copy, PartialEq, Eq, Structural)]
pub enum Operator {
    Equals,
    NotEquals,
    GreaterThan,
    LessThan,
    Between,
    Changed,
    WasPreviously,
    IsUnknown,
}

#[derive(Debug, Clone)]
pub struct Action {
    pub device_id: DeviceId,
    pub attribute: AttributeKey,
    pub value: Value,
    pub params: OrderedMap<String, Value>,
    pub delay_seconds: Option<u64>,
}

#[derive(Debug, Clone)]
pub struct StatefulConfig {
    pub timeout_seconds: u64,
    pub on_timeout_actions: Vec<Action>,
}

// ── Runtime state ────────────────────────────────────────────

#[derive(Debug, Clone)]
pub struct RuleState {
    pub rule_id: String,
    /// When each duration condition first became true (unix millis), by
    /// condition index.
    pub condition_met_at: OrderedMap<usize, u64>,
    /// All active in-flight entries for this rule.
    pub in_flight: Vec<InFlightEntry>,
}

#[derive(Debug, Clone)]
pub struct InFlightEntry {
    /// Unix millis when this entry should fire.
    pub execute_at: u64,
    /// Actions to dispatch when execute_at is reached.
    pub actions: Vec<SerializedAction>,
    pub kind: InFlightKind,
}

/// An action in plain strings, as stored with an in-flight entry.
#[derive(Debug, Clone)]
pub struct SerializedAction {
    pub device_id: String,
    pub attribute: String,
    pub value: Value,
    pub params: OrderedMap<String, Value>,
}

#[derive(Debug, Clone, Copy, PartialEq, Eq, Structural)]
pub enum InFlightKind {
    DelayedAction,
    Timeout,
}

/// `s` is `a` in plain strings.
pub open spec fn serializes(s: SerializedAction, a: Action) -> bool {
    &&& s.device_id == a.device_id.0
    &&& s.attribute == a.attribute.0
    &&& s.value == a.value
    &&& s.params.entries@ == a.params.entries@
}

/// The entries of `s` that are not timeouts, in order.
pub open spec fn without_timeouts(s: Seq<InFlightEntry>) -> Seq<InFlightEntry>
    decreases s.len(),
{
    if s.len() == 0 {
        s
    } else if s.last().kind == InFlightKind::Timeout {
        without_timeouts(s.drop_last())
    } else {
        without_timeouts(s.drop_last()).push(s.last())
    }
}

pub open spec fn has_timeout_entry(s: Seq<InFlightEntry>) -> bool {
    exists|i: int| 0 <= i < s.len() && #[trigger] s[i].kind == InFlightKind::Timeout
}

impl RuleState {
    pub fn new(rule_id: &str) -> (s: Self)
        ensures
            s.rule_id@ == rule_id@,
            s.condition_met_at.entries@.len() == 0,
            s.in_flight@.len() == 0,
    {
        RuleState { rule_id: rule_id.to_owned(), condition_met_at: OrderedMap::new(), in_flight: Vec::new() }
    }

    /// Whether a timeout entry is in flight.
    pub fn has_timeout(&self) -> (r: bool)
        ensures
            r == has_timeout_entry(self.in_flight@),
    {
        let mut i: usize = 0;
        while i < self.in_flight.len()
            invariant
                i <= self.in_flight@.len(),
                forall|j: int| 0 <= j < i ==> #[trigger] self.in_flight@[j].kind != InFlightKind::Timeout,
            decreases self.in_flight@.len() - i,
        {
            if self.in_flight[i].kind == InFlightKind::Timeout {
                return true;
            }
            i = i + 1;
        }
        false
    }

    /// Drops every timeout entry and keeps the rest in order.
    pub fn clear_timeout(&mut self)
        ensures
            final(self).in_flight@ == without_timeouts(old(self).in_flight@),
            final(self).rule_id == old(self).rule_id,
            final(self).condition_met_at == old(self).condition_met_at,
    {
        let mut kept: Vec<InFlightEntry> = Vec::new();
        let ghost orig = self.in_flight@;
        let mut rest: Vec<InFlightEntry> = Vec::new();
        std::mem::swap(&mut rest, &mut self.in_flight);
        let n = rest.len();
        let mut i: usize = 0;
        while i < n
            invariant
                n == orig.len(),
                i <= n,
                rest@ == orig.subrange(i as int, n as int),
                kept@ == without_timeouts(orig.subrange(0, i as int)),
            decreases n - i,
        {
            let e = rest.remove(0);
            proof {
                let s2 = orig.subrange(0, i + 1);
                assert(s2.drop_last() =~= orig.subrange(0, i as int));
                assert(s2.last() == e);
            }
            if e.kind != InFlightKind::Timeout {
                kept.push(e);
            }
            i = i + 1;
        }
        assert(orig.subrange(0, n as int) =~= orig);
        self.in_flight = kept;
    }
}

impl SerializedAction {
    pub fn from_action(action: &Action) -> (s: Self)
        ensures
            serializes(s, *action),
    {
        SerializedAction {
            device_id: action.device_id.0.clone(),
            attribute: action.attribute.0.clone(),
            value: action.value.duplicate(),
            params: action.params.copy(),
        }
    }

    /// Back to an action, with no delay.
    pub fn to_action(&self) -> (a: Action)
        ensures
            serializes(*self, a),
            a.delay_seconds is None,
    {
        Action {
            device_id: DeviceId(self.device_id.clone()),
            attribute: AttributeKey(self.attribute.clone()),
            value: self.value.duplicate(),
            params: self.params.copy(),
            delay_seconds: None,
        }
    }
}

// ── UI summary types ─────────────────────────────────────────

/// One row in the rules panel.
#[derive(Debug, Clone)]
pub struct RuleSummary {
    pub id: String,
    pub name: String,
    pub enabled: bool,
    pub priority: u8,
    pub conflict_group: String,
}

pub open spec fn summarizes(s: RuleSummary, rule: Rule) -> bool {
    &&& s.id == rule.id.0
    &&& s.name == rule.name
    &&& s.enabled == rule.enabled
    &&& s.priority == rule.priority
    &&& s.conflict_group == rule.conflict_group
}

impl RuleSummary {
    pub fn from_rule(rule: &Rule) -> (s: Self)
        ensures
            summarizes(s, *rule),
    {
        RuleSummary {
            id: rule.id.0.clone(),
            name: rule.name.clone(),
            enabled: rule.enabled,
            priority: rule.priority,
            conflict_group: rule.conflict_group.clone(),
        }
    }
}

/// One row in the in-flight panel: a delayed action or timeout waiting to
/// fire, shown by its first action.
#[derive(Debug, Clone)]
pub struct InFlightSummary {
    pub rule_id: String,
    pub device_id: String,
    pub attribute: String,
    pub value: Value,
    /// Unix millis when this entry fires.
    pub fires_at_ms: u64,
    pub kind: InFlightKind,
}

// ── Hot reload report ────────────────────────────────────────

#[derive(Debug, Clone)]
pub struct HotReloadReport {
    pub rules_loaded: u32,
    pub rules_rejected: u32,
    pub rules_added: u32,
    pub rules_removed: u32,
    pub in_flight_cancelled: u32,
}

// ── Errors ───────────────────────────────────────────────────

#[derive(Debug, Clone, PartialEq, Eq)]
pub enum RuleError {
    IoError(String),
    ParseError(String),
    UnknownOperator(String, String),
    UnknownTrigger(String, String),
    UnknownDevice(String, String),
    UnknownAttribute(String, String, String),
    MissingValue(String, String),
    MissingRange(String),
}

} // verus!
