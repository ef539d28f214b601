//! Condition evaluation: what a single rule condition answers against the
//! current state of its subject device.
use vstd::prelude::*;
use crate::floats::{
    f32_bits_le, f32_le, f64_bits_le, f64_bits_lt, f64_le, f64_lt, int_to_f64, int_to_f64_bits,
    F32_POINT_TWO,
};
use crate::ordered_map::OrderedMap;
use crate::rule_types::{Condition, ConditionValue, Operator};
use crate::types::{effective_value, opt_value_eq, opt_value_equals, value_eq, DeviceId, DeviceState, Value};

verus! {

/// Confidence at or below which a device counts as unknown to the rule
/// engine (bit pattern of `0.2f32`).
pub const UNKNOWN_THRESHOLD: u32 = F32_POINT_TWO;

/// The state held for device `id`, if any.
pub open spec fn lookup_state(devices: OrderedMap<DeviceId, DeviceState>, id: Seq<char>) -> Option<
    DeviceState,
> {
    if devices.contains(id) {
        Some(devices.lookup(id))
    } else {
        None
    }
}

/// `effective > expected` as conditions compare numbers: float against
/// float, integer against integer, float against an integer cast to float.
pub open spec fn numeric_gt(effective: Option<Value>, expected: ConditionValue) -> bool {
    match (effective, expected) {
        (Some(Value::Float(a)), ConditionValue::Single(Value::Float(b))) => f64_lt(b, a),
        (Some(Value::Int(a)), ConditionValue::Single(Value::Int(b))) => a > b,
        (Some(Value::Float(a)), ConditionValue::Single(Value::Int(b))) => f64_lt(int_to_f64_bits(b), a),
        _ => false,
    }
}

/// `effective < expected`, with the same pairings as `numeric_gt`.
pub open spec fn numeric_lt(effective: Option<Value>, expected: ConditionValue) -> bool {
    match (effective, expected) {
        (Some(Value::Float(a)), ConditionValue::Single(Value::Float(b))) => f64_lt(a, b),
        (Some(Value::Int(a)), ConditionValue::Single(Value::Int(b))) => a < b,
        (Some(Value::Float(a)), ConditionValue::Single(Value::Int(b))) => f64_lt(a, int_to_f64_bits(b)),
        _ => false,
    }
}

/// `lo <= effective <= hi` for a float within float bounds or an integer
/// within integer bounds.
pub open spec fn numeric_between(effective: Option<Value>, expected: ConditionValue) -> bool {
    match (effective, expected) {
        (Some(Value::Float(a)), ConditionValue::Range(Value::Float(lo), Value::Float(hi))) => f64_le(
            lo,
            a,
        ) && f64_le(a, hi),
        (Some(Value::Int(a)), ConditionValue::Range(Value::Int(lo), Value::Int(hi))) => lo <= a
            && a <= hi,
        _ => false,
    }
}

/// What a condition answers for its subject device (None when the device is
/// unknown to the state engine). IsUnknown reads confidence only;
/// WasPreviously reads the previous value; every other operator reads the
/// effective value under the unknown threshold.
pub open spec fn condition_holds(c: Condition, ds: Option<DeviceState>) -> bool {
    if c.operator == Operator::IsUnknown {
        match ds {
            Some(s) => f32_le(s.confidence.value, UNKNOWN_THRESHOLD),
            None => true,
        }
    } else {
        match ds {
            None => false,
            Some(s) => if c.operator == Operator::WasPreviously {
                match c.value {
                    ConditionValue::Single(expected) => s.previous.contains(c.attribute.0@)
                        && value_eq(s.previous.lookup(c.attribute.0@), expected),
                    _ => false,
                }
            } else {
                let eff = effective_value(s, c.attribute.0@, UNKNOWN_THRESHOLD);
                match c.operator {
                    Operator::Equals => match c.value {
                        ConditionValue::Single(v) => opt_value_eq(eff, Some(v)),
                        _ => false,
                    },
                    Operator::NotEquals => match c.value {
                        ConditionValue::Single(v) => !opt_value_eq(eff, Some(v)),
                        _ => false,
                    },
                    Operator::GreaterThan => numeric_gt(eff, c.value),
                    Operator::LessThan => numeric_lt(eff, c.value),
                    Operator::Between => numeric_between(eff, c.value),
                    _ => true,
                }
            },
        }
    }
}

/// The comparison operators compare the subject's actual value with the
/// condition's bound, the way round their names say: for a device trusted
/// above the unknown threshold whose attribute holds actual value `v`,
/// `LessThan b` holds exactly when `v < b`, `GreaterThan b` exactly when
/// `v > b` (IEEE order for floats, integer order for integers), `Between`
/// exactly when `lo <= v <= hi`, and `Equals`/`NotEquals` exactly when the
/// values are (not) equal.
pub proof fn law_comparisons_read_the_actual_value(c: Condition, s: DeviceState)
    requires
        !f32_le(s.confidence.value, UNKNOWN_THRESHOLD),
        s.actual.contains(c.attribute.0@),
    ensures
        ({
            let v = s.actual.lookup(c.attribute.0@);
            let holds = condition_holds(c, Some(s));
            &&& (c.operator == Operator::LessThan ==> match (v, c.value) {
                (Value::Float(a), ConditionValue::Single(Value::Float(b))) => holds == f64_lt(a, b),
                (Value::Int(a), ConditionValue::Single(Value::Int(b))) => holds == (a < b),
                (Value::Float(a), ConditionValue::Single(Value::Int(b))) => holds == f64_lt(a, int_to_f64_bits(b)),
                _ => !holds,
            })
            &&& (c.operator == Operator::GreaterThan ==> match (v, c.value) {
                (Value::Float(a), ConditionValue::Single(Value::Float(b))) => holds == f64_lt(b, a),
                (Value::Int(a), ConditionValue::Single(Value::Int(b))) => holds == (a > b),
                (Value::Float(a), ConditionValue::Single(Value::Int(b))) => holds == f64_lt(int_to_f64_bits(b), a),
                _ => !holds,
            })
            &&& (c.operator == Operator::Between ==> match (v, c.value) {
                (Value::Float(a), ConditionValue::Range(Value::Float(lo), Value::Float(hi))) => holds == (f64_le(lo, a)
                    && f64_le(a, hi)),
                (Value::Int(a), ConditionValue::Range(Value::Int(lo), Value::Int(hi))) => holds == (lo <= a && a <= hi),
                _ => !holds,
            })
            &&& (c.operator == Operator::Equals ==> match c.value {
                ConditionValue::Single(b) => holds == value_eq(v, b),
                _ => !holds,
            })
            &&& (c.operator == Operator::NotEquals ==> match c.value {
                ConditionValue::Single(b) => holds == !value_eq(v, b),
                _ => !holds,
            })
        }),
{
}

/// A device at or below the unknown threshold is judged by its safe
/// default, never by its stale actual value: `IsUnknown` holds for it, and
/// the comparison operators compare the safe default of the attribute (when
/// there is one) with the bound, the way round their names say. A device
/// above the threshold is not unknown.
pub proof fn law_unknown_devices_read_safe_defaults(c: Condition, s: DeviceState)
    ensures
        c.operator == Operator::IsUnknown ==> (condition_holds(c, Some(s)) == f32_le(
            s.confidence.value,
            UNKNOWN_THRESHOLD,
        )),
        c.operator == Operator::IsUnknown ==> condition_holds(c, None),
        c.operator != Operator::IsUnknown ==> !condition_holds(c, None),
        ({
            let holds = condition_holds(c, Some(s));
            f32_le(s.confidence.value, UNKNOWN_THRESHOLD) && s.confidence.safe_default.contains(c.attribute.0@)
                ==> {
                let v = s.confidence.safe_default.lookup(c.attribute.0@);
                &&& (c.operator == Operator::LessThan ==> match (v, c.value) {
                    (Value::Float(a), ConditionValue::Single(Value::Float(b))) => holds == f64_lt(a, b),
                    (Value::Int(a), ConditionValue::Single(Value::Int(b))) => holds == (a < b),
                    _ => true,
                })
                &&& (c.operator == Operator::GreaterThan ==> match (v, c.value) {
                    (Value::Float(a), ConditionValue::Single(Value::Float(b))) => holds == f64_lt(b, a),
                    (Value::Int(a), ConditionValue::Single(Value::Int(b))) => holds == (a > b),
                    _ => true,
                })
                &&& (c.operator == Operator::Equals ==> match c.value {
                    ConditionValue::Single(b) => holds == value_eq(v, b),
                    _ => !holds,
                })
            }
        }),
        ({
            let holds = condition_holds(c, Some(s));
            f32_le(s.confidence.value, UNKNOWN_THRESHOLD) && !s.confidence.safe_default.contains(c.attribute.0@)
                && (c.operator == Operator::LessThan || c.operator == Operator::GreaterThan || c.operator
                == Operator::Between) ==> !holds
        }),
{
}

/// Evaluates a condition against the state of its subject device.
pub fn evaluate_condition_value(condition: &Condition, device_state: Option<&DeviceState>) -> (r:
    bool)
    ensures
        r == condition_holds(
            *condition,
            match device_state {
                Some(s) => Some(*s),
                None => None,
            },
        ),
{
    if condition.operator == Operator::IsUnknown {
        return match device_state {
            Some(s) => f32_bits_le(s.confidence.value, UNKNOWN_THRESHOLD),
            None => true,
        };
    }
    let ds = match device_state {
        Some(s) => s,
        None => return false,
    };
    if condition.operator == Operator::WasPreviously {
        let prev = ds.previous.get(&condition.attribute);
        return match &condition.value {
            ConditionValue::Single(expected) => match prev {
                Some(p) => p.equals(expected),
                None => false,
            },
            _ => false,
        };
    }
    let effective = ds.get_effective(&condition.attribute, UNKNOWN_THRESHOLD);
    match condition.operator {
        Operator::Equals => match &condition.value {
            ConditionValue::Single(v) => opt_value_equals(effective, Some(v)),
            _ => false,
        },
        Operator::NotEquals => match &condition.value {
            ConditionValue::Single(v) => !opt_value_equals(effective, Some(v)),
            _ => false,
        },
        Operator::GreaterThan => match (effective, &condition.value) {
            (Some(Value::Float(a)), ConditionValue::Single(Value::Float(b))) => f64_bits_lt(*b, *a),
            (Some(Value::Int(a)), ConditionValue::Single(Value::Int(b))) => *a > *b,
            (Some(Value::Float(a)), ConditionValue::Single(Value::Int(b))) => f64_bits_lt(
                int_to_f64(*b),
                *a,
            ),
            _ => false,
        },
        Operator::LessThan => match (effective, &condition.value) {
            (Some(Value::Float(a)), ConditionValue::Single(Value::Float(b))) => f64_bits_lt(*a, *b),
            (Some(Value::Int(a)), ConditionValue::Single(Value::Int(b))) => *a < *b,
            (Some(Value::Float(a)), ConditionValue::Single(Value::Int(b))) => f64_bits_lt(
                *a,
                int_to_f64(*b),
            ),
            _ => false,
        },
        Operator::Between => match (effective, &condition.value) {
            (
                Some(Value::Float(a)),
                ConditionValue::Range(Value::Float(lo), Value::Float(hi)),
            ) => f64_bits_le(*lo, *a) && f64_bits_le(*a, *hi),
            (
                Some(Value::Int(a)),
                ConditionValue::Range(Value::Int(lo), Value::Int(hi)),
            ) => *a >= *lo && *a <= *hi,
            _ => false,
        },
        _ => true,
    }
}

} // verus!
