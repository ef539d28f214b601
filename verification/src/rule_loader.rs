//! Validation and conversion of rule file entries into rules, against the
//! device registry. Invalid rules are rejected one by one; disabled rules
//! are skipped.
use vstd::prelude::*;
use crate::registry::DeviceRegistry;
use crate::rule_types::{
    Action, ActionEntry, Condition, ConditionEntry, ConditionValue, Operator, Rule, RuleEntry, RuleError,
    StatefulConfig, Trigger,
};
use crate::strings::str_eq;
use crate::types::{AttributeKey, DeviceId, RuleId, Value};

verus! {

/// The operator a rule file names, if it names one.
pub open spec fn operator_named(op: Seq<char>) -> Option<Operator> {
    if op == "Equals"@ {
        Some(Operator::Equals)
    } else if op == "NotEquals"@ {
        Some(Operator::NotEquals)
    } else if op == "GreaterThan"@ {
        Some(Operator::GreaterThan)
    } else if op == "LessThan"@ {
        Some(Operator::LessThan)
    } else if op == "Between"@ {
        Some(Operator::Between)
    } else if op == "Changed"@ {
        Some(Operator::Changed)
    } else if op == "WasPreviously"@ {
        Some(Operator::WasPreviously)
    } else if op == "IsUnknown"@ {
        Some(Operator::IsUnknown)
    } else {
        None
    }
}

/// The name of an operator, as it is written in a rule file.
pub open spec fn operator_text(op: Operator) -> Seq<char> {
    match op {
        Operator::Equals => "Equals"@,
        Operator::NotEquals => "NotEquals"@,
        Operator::GreaterThan => "GreaterThan"@,
        Operator::LessThan => "LessThan"@,
        Operator::Between => "Between"@,
        Operator::Changed => "Changed"@,
        Operator::WasPreviously => "WasPreviously"@,
        Operator::IsUnknown => "IsUnknown"@,
    }
}

/// The single comparison value of a condition: text, then float, then
/// integer, then boolean, whichever is set first.
pub open spec fn single_value(c: ConditionEntry) -> Option<Value> {
    if c.value_text is Some {
        Some(Value::Text(c.value_text->0))
    } else if c.value_float is Some {
        Some(Value::Float(c.value_float->0))
    } else if c.value_int is Some {
        Some(Value::Int(c.value_int->0))
    } else if c.value_bool is Some {
        Some(Value::Bool(c.value_bool->0))
    } else {
        None
    }
}

/// The value of an action: text, float, integer or boolean in that order
/// of preference, otherwise Null.
pub open spec fn action_value(a: ActionEntry) -> Value {
    if a.value_text is Some {
        Value::Text(a.value_text->0)
    } else if a.value_float is Some {
        Value::Float(a.value_float->0)
    } else if a.value_int is Some {
        Value::Int(a.value_int->0)
    } else if a.value_bool is Some {
        Value::Bool(a.value_bool->0)
    } else {
        Value::Null
    }
}

pub open spec fn knows(registry: DeviceRegistry, id: Seq<char>) -> bool {
    registry.devices.contains(id)
}

/// The error a condition entry is rejected with, or None when it is valid.
pub open spec fn condition_error(c: ConditionEntry, rule_id: Seq<char>, registry: DeviceRegistry) -> Option<
    RuleErrorView,
> {
    match operator_named(c.operator@) {
        None => Some(RuleErrorView::UnknownOperator(rule_id, c.operator@)),
        Some(op) => if !knows(registry, c.subject_device_id@) {
            Some(RuleErrorView::UnknownDevice(rule_id, c.subject_device_id@))
        } else if op == Operator::IsUnknown {
            None
        } else if op == Operator::Between {
            if c.value_range_min is None || c.value_range_max is None {
                Some(RuleErrorView::MissingRange(rule_id))
            } else {
                None
            }
        } else if single_value(c) is None {
            Some(RuleErrorView::MissingValue(rule_id, operator_text(op)))
        } else {
            None
        },
    }
}

/// `out` is the condition that a valid entry `c` describes.
pub open spec fn condition_parsed(c: ConditionEntry, out: Condition) -> bool {
    let op = operator_named(c.operator@)->0;
    &&& out.device_id.0 == c.subject_device_id
    &&& out.attribute.0 == c.subject_attribute
    &&& out.operator == op
    &&& out.duration_seconds == c.duration_seconds
    &&& out.value == if op == Operator::IsUnknown {
        ConditionValue::NoValue
    } else if op == Operator::Between {
        ConditionValue::Range(Value::Float(c.value_range_min->0), Value::Float(c.value_range_max->0))
    } else {
        ConditionValue::Single(single_value(c)->0)
    }
}

/// `out` is the action that entry `a` describes.
pub open spec fn action_parsed(a: ActionEntry, out: Action) -> bool {
    &&& out.device_id.0 == a.device_id
    &&& out.attribute.0 == a.attribute
    &&& out.value == action_value(a)
    &&& out.params.entries@ == a.params.entries@
    &&& out.delay_seconds == a.delay_seconds
}

/// A rule error by the text it carries.
pub enum RuleErrorView {
    UnknownOperator(Seq<char>, Seq<char>),
    UnknownTrigger(Seq<char>, Seq<char>),
    UnknownDevice(Seq<char>, Seq<char>),
    MissingValue(Seq<char>, Seq<char>),
    MissingRange(Seq<char>),
}

pub open spec fn error_view(e: RuleError) -> Option<RuleErrorView> {
    match e {
        RuleError::UnknownOperator(a, b) => Some(RuleErrorView::UnknownOperator(a@, b@)),
        RuleError::UnknownTrigger(a, b) => Some(RuleErrorView::UnknownTrigger(a@, b@)),
        RuleError::UnknownDevice(a, b) => Some(RuleErrorView::UnknownDevice(a@, b@)),
        RuleError::MissingValue(a, b) => Some(RuleErrorView::MissingValue(a@, b@)),
        RuleError::MissingRange(a) => Some(RuleErrorView::MissingRange(a@)),
        _ => None,
    }
}

/// The first rejected condition's error, if any.
pub open spec fn conditions_error(cs: Seq<ConditionEntry>, rule_id: Seq<char>, registry: DeviceRegistry) -> Option<
    RuleErrorView,
>
    decreases cs.len(),
{
    if cs.len() == 0 {
        None
    } else {
        match conditions_error(cs.drop_last(), rule_id, registry) {
            Some(e) => Some(e),
            None => condition_error(cs.last(), rule_id, registry),
        }
    }
}

/// The first action naming an unknown device gives the error, if any.
pub open spec fn actions_error(acts: Seq<ActionEntry>, rule_id: Seq<char>, registry: DeviceRegistry) -> Option<
    RuleErrorView,
>
    decreases acts.len(),
{
    if acts.len() == 0 {
        None
    } else {
        match actions_error(acts.drop_last(), rule_id, registry) {
            Some(e) => Some(e),
            None => if knows(registry, acts.last().device_id@) {
                None
            } else {
                Some(RuleErrorView::UnknownDevice(rule_id, acts.last().device_id@))
            },
        }
    }
}

/// The error of a rule's trigger, if any.
pub open spec fn trigger_error(e: RuleEntry, registry: DeviceRegistry) -> Option<RuleErrorView> {
    if e.trigger.kind@ == "DeviceStateChanged"@ {
        if e.trigger.device_id is None {
            Some(RuleErrorView::UnknownTrigger(e.id@, "DeviceStateChanged requires device_id"@))
        } else if e.trigger.attribute is None {
            Some(RuleErrorView::UnknownTrigger(e.id@, "DeviceStateChanged requires attribute"@))
        } else if !knows(registry, e.trigger.device_id->0@) {
            Some(RuleErrorView::UnknownDevice(e.id@, e.trigger.device_id->0@))
        } else {
            None
        }
    } else {
        Some(RuleErrorView::UnknownTrigger(e.id@, e.trigger.kind@))
    }
}

/// The error a rule entry is rejected with: trigger first, then conditions,
/// then actions, then the timeout actions of a stateful rule.
pub open spec fn rule_error(e: RuleEntry, registry: DeviceRegistry) -> Option<RuleErrorView> {
    match trigger_error(e, registry) {
        Some(x) => Some(x),
        None => match conditions_error(e.conditions@, e.id@, registry) {
            Some(x) => Some(x),
            None => match actions_error(e.actions@, e.id@, registry) {
                Some(x) => Some(x),
                None => match e.stateful {
                    Some(s) => actions_error(s.on_timeout_actions@, e.id@, registry),
                    None => None,
                },
            },
        },
    }
}

pub open spec fn actions_parsed(entries: Seq<ActionEntry>, out: Seq<Action>) -> bool {
    &&& out.len() == entries.len()
    &&& forall|i: int| 0 <= i < out.len() ==> #[trigger] action_parsed(entries[i], out[i])
}

/// `r` is the rule that the valid entry `e` describes.
pub open spec fn rule_parsed(e: RuleEntry, r: Rule) -> bool {
    &&& r.id.0 == e.id
    &&& r.name == e.name
    &&& r.enabled == e.enabled
    &&& r.priority == e.priority
    &&& r.conflict_group == e.conflict_group
    &&& match r.trigger {
        Trigger::DeviceStateChanged { device_id, attribute } => device_id.0 == e.trigger.device_id->0
            && attribute.0 == e.trigger.attribute->0,
    }
    &&& r.conditions@.len() == e.conditions@.len()
    &&& forall|i: int| 0 <= i < r.conditions@.len() ==> #[trigger] condition_parsed(e.conditions@[i], r.conditions@[i])
    &&& actions_parsed(e.actions@, r.actions@)
    &&& match (e.stateful, r.stateful) {
        (Some(s), Some(t)) => t.timeout_seconds == s.timeout_seconds && actions_parsed(
            s.on_timeout_actions@,
            t.on_timeout_actions@,
        ),
        (None, None) => true,
        _ => false,
    }
}

fn device_known(registry: &DeviceRegistry, id: &String) -> (r: bool)
    ensures
        r == knows(*registry, id@),
{
    registry.get(&DeviceId(id.clone())).is_some()
}

/// Maps an operator name to its operator, or rejects it.
pub fn parse_operator(op: &str, rule_id: &str) -> (r: Result<Operator, RuleError>)
    ensures
        match r {
            Ok(o) => operator_named(op@) == Some(o),
            Err(e) => operator_named(op@) is None && error_view(e) == Some(
                RuleErrorView::UnknownOperator(rule_id@, op@),
            ),
        },
{
    if str_eq(op, "Equals") {
        Ok(Operator::Equals)
    } else if str_eq(op, "NotEquals") {
        Ok(Operator::NotEquals)
    } else if str_eq(op, "GreaterThan") {
        Ok(Operator::GreaterThan)
    } else if str_eq(op, "LessThan") {
        Ok(Operator::LessThan)
    } else if str_eq(op, "Between") {
        Ok(Operator::Between)
    } else if str_eq(op, "Changed") {
        Ok(Operator::Changed)
    } else if str_eq(op, "WasPreviously") {
        Ok(Operator::WasPreviously)
    } else if str_eq(op, "IsUnknown") {
        Ok(Operator::IsUnknown)
    } else {
        Err(RuleError::UnknownOperator(rule_id.to_owned(), op.to_owned()))
    }
}

/// The name of an operator as text.
pub fn operator_name(op: Operator) -> (s: String)
    ensures
        s@ == operator_text(op),
{
    match op {
        Operator::Equals => "Equals".to_owned(),
        Operator::NotEquals => "NotEquals".to_owned(),
        Operator::GreaterThan => "GreaterThan".to_owned(),
        Operator::LessThan => "LessThan".to_owned(),
        Operator::Between => "Between".to_owned(),
        Operator::Changed => "Changed".to_owned(),
        Operator::WasPreviously => "WasPreviously".to_owned(),
        Operator::IsUnknown => "IsUnknown".to_owned(),
    }
}

pub fn parse_single_value(c: &ConditionEntry) -> (r: Option<Value>)
    ensures
        r == single_value(*c),
{
    if let Some(v) = &c.value_text {
        return Some(Value::Text(v.clone()));
    }
    if let Some(v) = c.value_float {
        return Some(Value::Float(v));
    }
    if let Some(v) = c.value_int {
        return Some(Value::Int(v));
    }
    if let Some(v) = c.value_bool {
        return Some(Value::Bool(v));
    }
    None
}

pub fn parse_action_value(a: &ActionEntry) -> (r: Value)
    ensures
        r == action_value(*a),
{
    if let Some(v) = &a.value_text {
        return Value::Text(v.clone());
    }
    if let Some(v) = a.value_float {
        return Value::Float(v);
    }
    if let Some(v) = a.value_int {
        return Value::Int(v);
    }
    if let Some(v) = a.value_bool {
        return Value::Bool(v);
    }
    Value::Null
}

fn parse_condition(c: &ConditionEntry, rule_id: &String, registry: &DeviceRegistry) -> (r: Result<
    Condition,
    RuleError,
>)
    ensures
        match r {
            Ok(out) => condition_error(*c, rule_id@, *registry) is None && condition_parsed(*c, out),
            Err(e) => condition_error(*c, rule_id@, *registry) is Some && error_view(e)
                == condition_error(*c, rule_id@, *registry),
        },
{
    let operator = match parse_operator(c.operator.as_str(), rule_id.as_str()) {
        Ok(o) => o,
        Err(e) => return Err(e),
    };
    if !device_known(registry, &c.subject_device_id) {
        return Err(RuleError::UnknownDevice(rule_id.clone(), c.subject_device_id.clone()));
    }
    let value = match operator {
        Operator::IsUnknown => ConditionValue::NoValue,
        Operator::Between => {
            let min = match c.value_range_min {
                Some(v) => v,
                None => return Err(RuleError::MissingRange(rule_id.clone())),
            };
            let max = match c.value_range_max {
                Some(v) => v,
                None => return Err(RuleError::MissingRange(rule_id.clone())),
            };
            ConditionValue::Range(Value::Float(min), Value::Float(max))
        },
        _ => match parse_single_value(c) {
            Some(v) => ConditionValue::Single(v),
            None => return Err(RuleError::MissingValue(rule_id.clone(), operator_name(operator))),
        },
    };
    Ok(
        Condition {
            device_id: DeviceId(c.subject_device_id.clone()),
            attribute: AttributeKey(c.subject_attribute.clone()),
            operator,
            value,
            duration_seconds: c.duration_seconds,
        },
    )
}

fn parse_conditions(entry: &RuleEntry, registry: &DeviceRegistry) -> (r: Result<Vec<Condition>, RuleError>)
    ensures
        match r {
            Ok(out) => conditions_error(entry.conditions@, entry.id@, *registry) is None && out@.len()
                == entry.conditions@.len() && forall|i: int|
                0 <= i < out@.len() ==> #[trigger] condition_parsed(entry.conditions@[i], out@[i]),
            Err(e) => conditions_error(entry.conditions@, entry.id@, *registry) is Some && error_view(e)
                == conditions_error(entry.conditions@, entry.id@, *registry),
        },
{
    let mut out: Vec<Condition> = Vec::new();
    let n = entry.conditions.len();
    let mut i: usize = 0;
    while i < n
        invariant
            n == entry.conditions@.len(),
            i <= n,
            conditions_error(entry.conditions@.subrange(0, i as int), entry.id@, *registry) is None,
            out@.len() == i,
            forall|j: int| 0 <= j < i ==> #[trigger] condition_parsed(entry.conditions@[j], out@[j]),
        decreases n - i,
    {
        proof {
            let t = entry.conditions@.subrange(0, i + 1);
            assert(t.drop_last() =~= entry.conditions@.subrange(0, i as int));
            lemma_conditions_error_prefix(entry.conditions@, entry.id@, *registry, i + 1);
        }
        match parse_condition(&entry.conditions[i], &entry.id, registry) {
            Ok(c) => {
                out.push(c);
            },
            Err(e) => {
                return Err(e);
            },
        }
        i = i + 1;
    }
    assert(entry.conditions@.subrange(0, n as int) =~= entry.conditions@);
    Ok(out)
}

/// An error in a prefix is the error of the whole.
proof fn lemma_conditions_error_prefix(
    cs: Seq<ConditionEntry>,
    rule_id: Seq<char>,
    registry: DeviceRegistry,
    k: int,
)
    requires
        0 <= k <= cs.len(),
    ensures
        conditions_error(cs.subrange(0, k), rule_id, registry) is Some ==> conditions_error(
            cs,
            rule_id,
            registry,
        ) == conditions_error(cs.subrange(0, k), rule_id, registry),
    decreases cs.len() - k,
{
    if k < cs.len() {
        lemma_conditions_error_prefix(cs, rule_id, registry, k + 1);
        let t = cs.subrange(0, k + 1);
        assert(t.drop_last() =~= cs.subrange(0, k));
    } else {
        assert(cs.subrange(0, k) =~= cs);
    }
}

proof fn lemma_actions_error_prefix(acts: Seq<ActionEntry>, rule_id: Seq<char>, registry: DeviceRegistry, k: int)
    requires
        0 <= k <= acts.len(),
    ensures
        actions_error(acts.subrange(0, k), rule_id, registry) is Some ==> actions_error(
            acts,
            rule_id,
            registry,
        ) == actions_error(acts.subrange(0, k), rule_id, registry),
    decreases acts.len() - k,
{
    if k < acts.len() {
        lemma_actions_error_prefix(acts, rule_id, registry, k + 1);
        let t = acts.subrange(0, k + 1);
        assert(t.drop_last() =~= acts.subrange(0, k));
    } else {
        assert(acts.subrange(0, k) =~= acts);
    }
}

fn parse_actions(entries: &Vec<ActionEntry>, rule_id: &String, registry: &DeviceRegistry) -> (r: Result<
    Vec<Action>,
    RuleError,
>)
    ensures
        match r {
            Ok(out) => actions_error(entries@, rule_id@, *registry) is None && actions_parsed(entries@, out@),
            Err(e) => actions_error(entries@, rule_id@, *registry) is Some && error_view(e) == actions_error(
                entries@,
                rule_id@,
                *registry,
            ),
        },
{
    let mut out: Vec<Action> = Vec::new();
    let n = entries.len();
    let mut i: usize = 0;
    while i < n
        invariant
            n == entries@.len(),
            i <= n,
            actions_error(entries@.subrange(0, i as int), rule_id@, *registry) is None,
            out@.len() == i,
            forall|j: int| 0 <= j < i ==> #[trigger] action_parsed(entries@[j], out@[j]),
        decreases n - i,
    {
        let a = &entries[i];
        proof {
            let t = entries@.subrange(0, i + 1);
            assert(t.drop_last() =~= entries@.subrange(0, i as int));
            assert(t.last() == *a);
            lemma_actions_error_prefix(entries@, rule_id@, *registry, i + 1);
        }
        if !device_known(registry, &a.device_id) {
            return Err(RuleError::UnknownDevice(rule_id.clone(), a.device_id.clone()));
        }
        out.push(
            Action {
                device_id: DeviceId(a.device_id.clone()),
                attribute: AttributeKey(a.attribute.clone()),
                value: parse_action_value(a),
                params: a.params.copy(),
                delay_seconds: a.delay_seconds,
            },
        );
        i = i + 1;
    }
    assert(entries@.subrange(0, n as int) =~= entries@);
    Ok(out)
}

fn parse_trigger(entry: &RuleEntry, registry: &DeviceRegistry) -> (r: Result<Trigger, RuleError>)
    ensures
        match r {
            Ok(t) => trigger_error(*entry, *registry) is None && match t {
                Trigger::DeviceStateChanged { device_id, attribute } => device_id.0
                    == entry.trigger.device_id->0 && attribute.0 == entry.trigger.attribute->0,
            },
            Err(e) => trigger_error(*entry, *registry) is Some && error_view(e) == trigger_error(
                *entry,
                *registry,
            ),
        },
{
    if str_eq(entry.trigger.kind.as_str(), "DeviceStateChanged") {
        let device_id_str = match &entry.trigger.device_id {
            Some(d) => d,
            None => {
                let msg = "DeviceStateChanged requires device_id".to_owned();
                return Err(RuleError::UnknownTrigger(entry.id.clone(), msg));
            },
        };
        let attribute_str = match &entry.trigger.attribute {
            Some(a) => a,
            None => {
                let msg = "DeviceStateChanged requires attribute".to_owned();
                return Err(RuleError::UnknownTrigger(entry.id.clone(), msg));
            },
        };
        if !device_known(registry, device_id_str) {
            return Err(RuleError::UnknownDevice(entry.id.clone(), device_id_str.clone()));
        }
        Ok(
            Trigger::DeviceStateChanged {
                device_id: DeviceId(device_id_str.clone()),
                attribute: AttributeKey(attribute_str.clone()),
            },
        )
    } else {
        Err(RuleError::UnknownTrigger(entry.id.clone(), entry.trigger.kind.clone()))
    }
}

/// Validates and converts one rule entry.
pub fn parse_rule(entry: RuleEntry, registry: &DeviceRegistry) -> (r: Result<Rule, RuleError>)
    ensures
        match r {
            Ok(rule) => rule_error(entry, *registry) is None && rule_parsed(entry, rule),
            Err(e) => rule_error(entry, *registry) is Some && error_view(e) == rule_error(entry, *registry),
        },
{
    let trigger = match parse_trigger(&entry, registry) {
        Ok(t) => t,
        Err(e) => return Err(e),
    };
    let conditions = match parse_conditions(&entry, registry) {
        Ok(c) => c,
        Err(e) => return Err(e),
    };
    let actions = match parse_actions(&entry.actions, &entry.id, registry) {
        Ok(a) => a,
        Err(e) => return Err(e),
    };
    let stateful = match &entry.stateful {
        None => None,
        Some(s) => match parse_actions(&s.on_timeout_actions, &entry.id, registry) {
            Ok(on_timeout_actions) => Some(
                StatefulConfig { timeout_seconds: s.timeout_seconds, on_timeout_actions },
            ),
            Err(e) => return Err(e),
        },
    };
    Ok(
        Rule {
            id: RuleId(entry.id),
            name: entry.name,
            enabled: entry.enabled,
            priority: entry.priority,
            conflict_group: entry.conflict_group,
            trigger,
            conditions,
            actions,
            stateful,
        },
    )
}

/// The entries of a rule file that are enabled and valid, in order.
pub open spec fn loadable(entries: Seq<RuleEntry>, registry: DeviceRegistry) -> Seq<RuleEntry>
    decreases entries.len(),
{
    if entries.len() == 0 {
        entries
    } else if entries.last().enabled && rule_error(entries.last(), registry) is None {
        loadable(entries.drop_last(), registry).push(entries.last())
    } else {
        loadable(entries.drop_last(), registry)
    }
}

/// The rules of a parsed rule file: disabled entries are skipped, invalid
/// ones rejected, the rest converted in file order.
pub fn load_rules_from_entries(entries: Vec<RuleEntry>, registry: &DeviceRegistry) -> (rules: Vec<Rule>)
    ensures
        rules@.len() == loadable(entries@, *registry).len(),
        forall|i: int| 0 <= i < rules@.len() ==> #[trigger] rule_parsed(loadable(entries@, *registry)[i], rules@[i]),
{
    let ghost orig = entries@;
    let mut rest = entries;
    let mut rules: Vec<Rule> = Vec::new();
    let n = rest.len();
    let mut i: usize = 0;
    while i < n
        invariant
            n == orig.len(),
            i <= n,
            rest@ == orig.subrange(i as int, n as int),
            rules@.len() == loadable(orig.subrange(0, i as int), *registry).len(),
            forall|j: int| 0 <= j < rules@.len() ==> #[trigger] rule_parsed(
                loadable(orig.subrange(0, i as int), *registry)[j],
                rules@[j],
            ),
        decreases n - i,
    {
        let entry = rest.remove(0);
        let ghost t = orig.subrange(0, i + 1);
        let ghost e = entry;
        proof {
            assert(t.drop_last() =~= orig.subrange(0, i as int));
            assert(t.last() == entry);
        }
        if entry.enabled {
            match parse_rule(entry, registry) {
                Ok(rule) => {
                    let ghost rb = rules@;
                    rules.push(rule);
                    proof {
                        let l = loadable(t, *registry);
                        assert(l == loadable(orig.subrange(0, i as int), *registry).push(e));
                        assert forall|j: int| 0 <= j < rules@.len() implies #[trigger] rule_parsed(l[j], rules@[j]) by {
                            if j < rb.len() {
                                assert(rules@[j] == rb[j]);
                            }
                        }
                    }
                },
                Err(_) => {},
            }
        }
        i = i + 1;
    }
    assert(orig.subrange(0, n as int) =~= orig);
    rules
}

} // verus!
