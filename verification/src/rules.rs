//! The rule engine: trigger matching, condition evaluation with duration
//! timers, immediate and delayed actions, stateful timeouts, timer firing and
//! hot reload.
use vstd::prelude::*;
use crate::conditions::{condition_holds, evaluate_condition_value, lookup_state};
use crate::ordered_map::{find_index, lemma_find_index, lemma_update_value, Duplicate, MapKey, OrderedMap};
use crate::rule_types::{
    serializes, without_timeouts, Action, InFlightEntry, InFlightKind, Rule, RuleState, SerializedAction,
    StatefulConfig,
};
use crate::types::{
    is_new_command, AttributeKey, Command, DeviceId, DeviceState, RuleId, StateUpdate, Value,
};

verus! {

// ── Models ───────────────────────────────────────────────────

/// An action as the engine stores it, in plain text.
pub struct ActionView {
    pub device_id: Seq<char>,
    pub attribute: Seq<char>,
    pub value: Value,
    pub params: Seq<(Seq<char>, Value)>,
}

pub struct InFlightView {
    pub execute_at: u64,
    pub actions: Seq<ActionView>,
    pub kind: InFlightKind,
}

pub struct RuleStateView {
    pub rule_id: Seq<char>,
    pub met: Seq<(usize, u64)>,
    pub in_flight: Seq<InFlightView>,
}

/// A command to be issued, up to its fresh id and issue time.
pub struct CommandPlan {
    pub device_id: Seq<char>,
    pub attribute: Seq<char>,
    pub value: Value,
    pub rule_id: Option<Seq<char>>,
    pub priority: u8,
}

pub open spec fn params_view(p: OrderedMap<String, Value>) -> Seq<(Seq<char>, Value)> {
    p.entries@.map_values(|e: (String, Value)| (e.0@, e.1))
}

pub open spec fn action_view(a: SerializedAction) -> ActionView {
    ActionView {
        device_id: a.device_id@,
        attribute: a.attribute@,
        value: a.value,
        params: params_view(a.params),
    }
}

pub open spec fn rule_action_view(a: Action) -> ActionView {
    ActionView {
        device_id: a.device_id.0@,
        attribute: a.attribute.0@,
        value: a.value,
        params: params_view(a.params),
    }
}

pub open spec fn in_flight_view(e: InFlightEntry) -> InFlightView {
    InFlightView {
        execute_at: e.execute_at,
        actions: e.actions@.map_values(|a: SerializedAction| action_view(a)),
        kind: e.kind,
    }
}

pub open spec fn rule_state_view(s: RuleState) -> RuleStateView {
    RuleStateView {
        rule_id: s.rule_id@,
        met: s.condition_met_at.entries@,
        in_flight: s.in_flight@.map_values(|e: InFlightEntry| in_flight_view(e)),
    }
}

pub open spec fn states_view(m: OrderedMap<String, RuleState>) -> Seq<(Seq<char>, RuleStateView)> {
    m.entries@.map_values(|e: (String, RuleState)| (e.0@, rule_state_view(e.1)))
}

/// `c` is a freshly made command carrying what `p` plans.
pub open spec fn command_matches(c: Command, p: CommandPlan) -> bool {
    &&& c.device_id.0@ == p.device_id
    &&& c.attribute.0@ == p.attribute
    &&& c.value == p.value
    &&& match (c.rule_id, p.rule_id) {
        (Some(r), Some(q)) => r.0@ == q,
        (None, None) => true,
        _ => false,
    }
    &&& c.priority == p.priority
    &&& c.status is Pending
    &&& c.retry_count == 0
    &&& c.id@.len() == 26
}

pub open spec fn commands_match(cs: Seq<Command>, ps: Seq<CommandPlan>) -> bool {
    &&& cs.len() == ps.len()
    &&& forall|i: int| 0 <= i < cs.len() ==> #[trigger] command_matches(cs[i], ps[i])
}

/// Position of key `k` in a sequence of keyed models (last match), or -1.
pub open spec fn key_pos<X>(s: Seq<(Seq<char>, X)>, k: Seq<char>) -> int
    decreases s.len(),
{
    if s.len() == 0 {
        -1
    } else if s.last().0 == k {
        s.len() - 1
    } else {
        key_pos(s.drop_last(), k)
    }
}

/// The map of `s` with `(k, v)` stored: replaced in place or appended.
pub open spec fn seq_insert<K: MapKey, V>(s: Seq<(K, V)>, k: K, v: V) -> Seq<(K, V)> {
    if find_index(s, k.model()) >= 0 {
        s.update(find_index(s, k.model()), (k, v))
    } else {
        s.push((k, v))
    }
}

/// The map of `s` without key `k`.
pub open spec fn seq_remove<K: MapKey, V>(s: Seq<(K, V)>, k: K::Model) -> Seq<(K, V)> {
    if find_index(s, k) >= 0 {
        s.remove(find_index(s, k))
    } else {
        s
    }
}

pub open spec fn sat_sub(a: u64, b: u64) -> int {
    if a >= b {
        a - b
    } else {
        0
    }
}

// ── One rule ─────────────────────────────────────────────────

/// Whether evaluation gets past condition `i`: the condition holds and, for
/// a duration condition, it has held for at least its duration.
pub open spec fn passes(
    rule: Rule,
    i: int,
    devices: OrderedMap<DeviceId, DeviceState>,
    met: Seq<(usize, u64)>,
    now: u64,
) -> bool {
    let c = rule.conditions@[i];
    &&& condition_holds(c, lookup_state(devices, c.device_id.0@))
    &&& match c.duration_seconds {
        None => true,
        Some(d) => find_index(met, i as usize) >= 0 && sat_sub(now, met[find_index(met, i as usize)].1)
            >= d * 1000,
    }
}

/// The first condition from `k` on that stops evaluation, or the number of
/// conditions when none does.
pub open spec fn blocking(
    rule: Rule,
    devices: OrderedMap<DeviceId, DeviceState>,
    met: Seq<(usize, u64)>,
    now: u64,
    k: int,
) -> int
    decreases rule.conditions@.len() - k,
{
    if k >= rule.conditions@.len() || k < 0 {
        rule.conditions@.len() as int
    } else if !passes(rule, k, devices, met, now) {
        k
    } else {
        blocking(rule, devices, met, now, k + 1)
    }
}

pub open spec fn fires(
    rule: Rule,
    devices: OrderedMap<DeviceId, DeviceState>,
    s: RuleStateView,
    now: u64,
) -> bool {
    blocking(rule, devices, s.met, now, 0) == rule.conditions@.len()
}

/// In-flight entries for the delayed actions of `acts`, in order.
pub open spec fn delayed_entries(acts: Seq<Action>, now: u64) -> Seq<InFlightView>
    decreases acts.len(),
{
    if acts.len() == 0 {
        Seq::empty()
    } else {
        let prev = delayed_entries(acts.drop_last(), now);
        let a = acts.last();
        match a.delay_seconds {
            Some(d) => prev.push(
                InFlightView {
                    execute_at: (now + d * 1000) as u64,
                    actions: seq![rule_action_view(a)],
                    kind: InFlightKind::DelayedAction,
                },
            ),
            None => prev,
        }
    }
}

/// Commands for the immediate actions of `acts`, in order.
pub open spec fn immediate_plans(acts: Seq<Action>, rule: Rule) -> Seq<CommandPlan>
    decreases acts.len(),
{
    if acts.len() == 0 {
        Seq::empty()
    } else {
        let prev = immediate_plans(acts.drop_last(), rule);
        let a = acts.last();
        match a.delay_seconds {
            Some(_) => prev,
            None => prev.push(
                CommandPlan {
                    device_id: a.device_id.0@,
                    attribute: a.attribute.0@,
                    value: a.value,
                    rule_id: Some(rule.id.0@),
                    priority: rule.priority,
                },
            ),
        }
    }
}

pub open spec fn timeout_entry(st: StatefulConfig, now: u64) -> InFlightView {
    InFlightView {
        execute_at: (now + st.timeout_seconds * 1000) as u64,
        actions: st.on_timeout_actions@.map_values(|a: Action| rule_action_view(a)),
        kind: InFlightKind::Timeout,
    }
}

pub open spec fn without_timeout_views(s: Seq<InFlightView>) -> Seq<InFlightView>
    decreases s.len(),
{
    if s.len() == 0 {
        s
    } else if s.last().kind == InFlightKind::Timeout {
        without_timeout_views(s.drop_last())
    } else {
        without_timeout_views(s.drop_last()).push(s.last())
    }
}

/// The rule state after evaluating `rule` once at `now`.
///
/// When a condition stops evaluation: a false condition forgets when it
/// became true; a true duration condition not yet timed starts its timer;
/// otherwise nothing changes. When every condition passes the rule fires:
/// duration timers are cleared, each delayed action is scheduled, and a
/// stateful rule replaces any running timeout with a new one.
pub open spec fn step_state(
    rule: Rule,
    devices: OrderedMap<DeviceId, DeviceState>,
    s: RuleStateView,
    now: u64,
) -> RuleStateView {
    let b = blocking(rule, devices, s.met, now, 0);
    if b < rule.conditions@.len() {
        let c = rule.conditions@[b];
        let met2 = if !condition_holds(c, lookup_state(devices, c.device_id.0@)) {
            seq_remove(s.met, b as usize)
        } else if c.duration_seconds is Some && find_index(s.met, b as usize) < 0 {
            seq_insert(s.met, b as usize, now)
        } else {
            s.met
        };
        RuleStateView { rule_id: s.rule_id, met: met2, in_flight: s.in_flight }
    } else {
        let base = if rule.stateful is Some {
            without_timeout_views(s.in_flight)
        } else {
            s.in_flight
        };
        let with_delayed = base + delayed_entries(rule.actions@, now);
        RuleStateView {
            rule_id: s.rule_id,
            met: Seq::empty(),
            in_flight: match rule.stateful {
                Some(st) => with_delayed.push(timeout_entry(st, now)),
                None => with_delayed,
            },
        }
    }
}

/// The commands evaluating `rule` once issues: its immediate actions when it
/// fires, nothing otherwise.
pub open spec fn step_plans(
    rule: Rule,
    devices: OrderedMap<DeviceId, DeviceState>,
    s: RuleStateView,
    now: u64,
) -> Seq<CommandPlan> {
    if fires(rule, devices, s, now) {
        immediate_plans(rule.actions@, rule)
    } else {
        Seq::empty()
    }
}

pub open spec fn fresh_rule_state(id: Seq<char>) -> RuleStateView {
    RuleStateView { rule_id: id, met: Seq::empty(), in_flight: Seq::empty() }
}

/// `states` with a fresh state for `id` appended when it has none.
pub open spec fn ensure_state(states: Seq<(Seq<char>, RuleStateView)>, id: Seq<char>) -> Seq<
    (Seq<char>, RuleStateView),
> {
    if key_pos(states, id) >= 0 {
        states
    } else {
        states.push((id, fresh_rule_state(id)))
    }
}

/// The rule states after evaluating `rule` once.
pub open spec fn rule_step(
    states: Seq<(Seq<char>, RuleStateView)>,
    rule: Rule,
    devices: OrderedMap<DeviceId, DeviceState>,
    now: u64,
) -> Seq<(Seq<char>, RuleStateView)> {
    let s1 = ensure_state(states, rule.id.0@);
    let i = key_pos(s1, rule.id.0@);
    s1.update(i, (rule.id.0@, step_state(rule, devices, s1[i].1, now)))
}

pub open spec fn rule_step_plans(
    states: Seq<(Seq<char>, RuleStateView)>,
    rule: Rule,
    devices: OrderedMap<DeviceId, DeviceState>,
    now: u64,
) -> Seq<CommandPlan> {
    let s1 = ensure_state(states, rule.id.0@);
    step_plans(rule, devices, s1[key_pos(s1, rule.id.0@)].1, now)
}

pub open spec fn rule_step_fires(
    states: Seq<(Seq<char>, RuleStateView)>,
    rule: Rule,
    devices: OrderedMap<DeviceId, DeviceState>,
    now: u64,
) -> bool {
    let s1 = ensure_state(states, rule.id.0@);
    fires(rule, devices, s1[key_pos(s1, rule.id.0@)].1, now)
}

/// Scheduling the rule's delayed actions and timeout at `now` fits in u64.
pub open spec fn rule_timers_fit(rule: Rule, now: u64) -> bool {
    &&& forall|j: int|
        0 <= j < rule.actions@.len() ==> ((#[trigger] rule.actions@[j]).delay_seconds matches Some(d)
            ==> now + d * 1000 <= u64::MAX)
    &&& (rule.stateful matches Some(st) ==> now + st.timeout_seconds * 1000 <= u64::MAX)
}

// ── Lemmas on the models ─────────────────────────────────────

proof fn lemma_key_pos_of_map(s: Seq<(String, RuleState)>, k: Seq<char>)
    ensures
        find_index(s, k) == key_pos(
            s.map_values(|e: (String, RuleState)| (e.0@, rule_state_view(e.1))),
            k,
        ),
    decreases s.len(),
{
    let f = |e: (String, RuleState)| (e.0@, rule_state_view(e.1));
    if s.len() > 0 {
        lemma_key_pos_of_map(s.drop_last(), k);
        assert(s.drop_last().map_values(f) =~= s.map_values(f).drop_last());
    }
}

proof fn lemma_key_pos_bounds<X>(s: Seq<(Seq<char>, X)>, k: Seq<char>)
    ensures
        -1 <= key_pos(s, k) < s.len(),
        key_pos(s, k) >= 0 ==> s[key_pos(s, k)].0 == k,
    decreases s.len(),
{
    if s.len() > 0 {
        lemma_key_pos_bounds(s.drop_last(), k);
    }
}

proof fn lemma_blocking_skip(
    rule: Rule,
    devices: OrderedMap<DeviceId, DeviceState>,
    met: Seq<(usize, u64)>,
    now: u64,
    k: int,
    i: int,
)
    requires
        0 <= k <= i <= rule.conditions@.len(),
        forall|j: int| k <= j < i ==> passes(rule, j, devices, met, now),
    ensures
        blocking(rule, devices, met, now, k) == blocking(rule, devices, met, now, i),
    decreases i - k,
{
    if k < i {
        lemma_blocking_skip(rule, devices, met, now, k + 1, i);
    }
}

proof fn lemma_blocking_range(
    rule: Rule,
    devices: OrderedMap<DeviceId, DeviceState>,
    met: Seq<(usize, u64)>,
    now: u64,
    k: int,
)
    requires
        0 <= k <= rule.conditions@.len(),
    ensures
        k <= blocking(rule, devices, met, now, k) <= rule.conditions@.len(),
        blocking(rule, devices, met, now, k) < rule.conditions@.len() ==> !passes(
            rule,
            blocking(rule, devices, met, now, k),
            devices,
            met,
            now,
        ),
    decreases rule.conditions@.len() - k,
{
    if k < rule.conditions@.len() && passes(rule, k, devices, met, now) {
        lemma_blocking_range(rule, devices, met, now, k + 1);
    }
}

proof fn lemma_without_timeouts_view(s: Seq<InFlightEntry>)
    ensures
        without_timeouts(s).map_values(|e: InFlightEntry| in_flight_view(e)) == without_timeout_views(
            s.map_values(|e: InFlightEntry| in_flight_view(e)),
        ),
    decreases s.len(),
{
    let f = |e: InFlightEntry| in_flight_view(e);
    if s.len() > 0 {
        lemma_without_timeouts_view(s.drop_last());
        assert(s.drop_last().map_values(f) =~= s.map_values(f).drop_last());
        if s.last().kind != InFlightKind::Timeout {
            assert(without_timeouts(s.drop_last()).push(s.last()).map_values(f) =~= without_timeouts(
                s.drop_last(),
            ).map_values(f).push(f(s.last())));
        }
    } else {
        assert(s.map_values(f) =~= Seq::<InFlightView>::empty());
    }
}

// ── Executable pieces of one evaluation ──────────────────────

/// Index of the first condition that stops evaluation (or the count).
fn first_blocking(
    rule: &Rule,
    met: &OrderedMap<usize, u64>,
    devices: &OrderedMap<DeviceId, DeviceState>,
    now: u64,
) -> (b: usize)
    ensures
        b == blocking(*rule, *devices, met.entries@, now, 0),
{
    let n = rule.conditions.len();
    let mut i: usize = 0;
    while i < n
        invariant
            n == rule.conditions@.len(),
            i <= n,
            forall|j: int| 0 <= j < i ==> passes(*rule, j, *devices, met.entries@, now),
        decreases n - i,
    {
        let c = &rule.conditions[i];
        let base = evaluate_condition_value(c, devices.get(&c.device_id));
        let mut ok = base;
        if base {
            if let Some(d) = c.duration_seconds {
                proof {
                    lemma_find_index(met.entries@, i);
                }
                match met.get(&i) {
                    None => {
                        ok = false;
                    },
                    Some(met_at) => {
                        let elapsed: u64 = if now >= *met_at { now - *met_at } else { 0 };
                        if (elapsed as u128) < (d as u128) * 1000 {
                            ok = false;
                        }
                    },
                }
            }
        }
        if !ok {
            proof {
                lemma_blocking_skip(*rule, *devices, met.entries@, now, 0, i as int);
            }
            return i;
        }
        i = i + 1;
    }
    proof {
        lemma_blocking_skip(*rule, *devices, met.entries@, now, 0, n as int);
    }
    n
}

/// The in-flight entry for one delayed action.
fn delayed_entry(action: &Action, d: u64, now: u64) -> (e: InFlightEntry)
    requires
        action.delay_seconds == Some(d),
        now + d * 1000 <= u64::MAX,
    ensures
        in_flight_view(e) == (InFlightView {
            execute_at: (now + d * 1000) as u64,
            actions: seq![rule_action_view(*action)],
            kind: InFlightKind::DelayedAction,
        }),
{
    let s = SerializedAction::from_action(action);
    let e = InFlightEntry { execute_at: now + d * 1000, actions: vec![s], kind: InFlightKind::DelayedAction };
    proof {
        assert(e.actions@.map_values(|a: SerializedAction| action_view(a)) =~= seq![rule_action_view(*action)]);
    }
    e
}

/// The timeout entry of a stateful rule.
fn make_timeout_entry(st: &StatefulConfig, now: u64) -> (e: InFlightEntry)
    requires
        now + st.timeout_seconds * 1000 <= u64::MAX,
    ensures
        in_flight_view(e) == timeout_entry(*st, now),
{
    let mut actions: Vec<SerializedAction> = Vec::new();
    let n = st.on_timeout_actions.len();
    let mut i: usize = 0;
    while i < n
        invariant
            n == st.on_timeout_actions@.len(),
            i <= n,
            actions@.map_values(|a: SerializedAction| action_view(a)) == st.on_timeout_actions@.subrange(
                0,
                i as int,
            ).map_values(|a: Action| rule_action_view(a)),
        decreases n - i,
    {
        let s = SerializedAction::from_action(&st.on_timeout_actions[i]);
        let ghost before = actions@;
        actions.push(s);
        proof {
            assert(actions@.map_values(|a: SerializedAction| action_view(a)) =~= before.map_values(
                |a: SerializedAction| action_view(a),
            ).push(action_view(s)));
            assert(st.on_timeout_actions@.subrange(0, i + 1).map_values(|a: Action| rule_action_view(a))
                =~= st.on_timeout_actions@.subrange(0, i as int).map_values(
                |a: Action| rule_action_view(a),
            ).push(rule_action_view(st.on_timeout_actions@[i as int])));
        }
        i = i + 1;
    }
    assert(st.on_timeout_actions@.subrange(0, n as int) =~= st.on_timeout_actions@);
    InFlightEntry { execute_at: now + st.timeout_seconds * 1000, actions, kind: InFlightKind::Timeout }
}

/// Immediate commands and delayed entries for the actions of a firing rule.
fn fire_actions(rule: &Rule, now: u64) -> (r: (Vec<Command>, Vec<InFlightEntry>))
    requires
        rule_timers_fit(*rule, now),
    ensures
        commands_match(r.0@, immediate_plans(rule.actions@, *rule)),
        r.1@.map_values(|e: InFlightEntry| in_flight_view(e)) == delayed_entries(rule.actions@, now),
{
    let mut commands: Vec<Command> = Vec::new();
    let mut entries: Vec<InFlightEntry> = Vec::new();
    let n = rule.actions.len();
    let mut i: usize = 0;
    while i < n
        invariant
            n == rule.actions@.len(),
            i <= n,
            rule_timers_fit(*rule, now),
            commands_match(commands@, immediate_plans(rule.actions@.subrange(0, i as int), *rule)),
            entries@.map_values(|e: InFlightEntry| in_flight_view(e)) == delayed_entries(
                rule.actions@.subrange(0, i as int),
                now,
            ),
        decreases n - i,
    {
        let action = &rule.actions[i];
        let ghost sub = rule.actions@.subrange(0, i as int);
        let ghost sub1 = rule.actions@.subrange(0, i + 1);
        proof {
            assert(sub1.drop_last() =~= sub);
            assert(sub1.last() == *action);
        }
        match action.delay_seconds {
            Some(d) => {
                assert(rule.actions@[i as int].delay_seconds == Some(d));
                let e = delayed_entry(action, d, now);
                let ghost before = entries@;
                entries.push(e);
                proof {
                    assert(entries@.map_values(|e: InFlightEntry| in_flight_view(e)) =~= before.map_values(
                        |e: InFlightEntry| in_flight_view(e),
                    ).push(in_flight_view(e)));
                }
            },
            None => {
                let c = Command::new(
                    action.device_id.duplicate(),
                    action.attribute.duplicate(),
                    action.value.duplicate(),
                    Some(rule.id.duplicate()),
                    rule.priority,
                );
                let ghost before = commands@;
                commands.push(c);
                proof {
                    let plans = immediate_plans(sub1, *rule);
                    assert(plans == immediate_plans(sub, *rule).push(
                        CommandPlan {
                            device_id: action.device_id.0@,
                            attribute: action.attribute.0@,
                            value: action.value,
                            rule_id: Some(rule.id.0@),
                            priority: rule.priority,
                        },
                    ));
                    assert forall|j: int| 0 <= j < commands@.len() implies #[trigger] command_matches(
                        commands@[j],
                        plans[j],
                    ) by {
                        if j < before.len() {
                            assert(commands@[j] == before[j]);
                        }
                    }
                }
            },
        }
        i = i + 1;
    }
    assert(rule.actions@.subrange(0, n as int) =~= rule.actions@);
    (commands, entries)
}

/// Evaluates `rule` once at `now` against `devices`, updating its state in
/// `rule_states` (created when missing). Returns the immediate commands
/// when the rule fires, `None` when a condition stops it.
pub fn evaluate_rule(
    rule: &Rule,
    rule_states: &mut OrderedMap<String, RuleState>,
    devices: &OrderedMap<DeviceId, DeviceState>,
    now: u64,
) -> (r: Option<Vec<Command>>)
    requires
        rule_states_wf(*old(rule_states)),
        rule_timers_fit(*rule, now),
    ensures
        rule_states_wf(*final(rule_states)),
        states_view(*final(rule_states)) == rule_step(states_view(*old(rule_states)), *rule, *devices, now),
        r is Some == rule_step_fires(states_view(*old(rule_states)), *rule, *devices, now),
        r matches Some(cmds) ==> commands_match(
            cmds@,
            rule_step_plans(states_view(*old(rule_states)), *rule, *devices, now),
        ),
{
    let ghost sv0 = states_view(*rule_states);
    let ghost id = rule.id.0@;
    proof {
        lemma_key_pos_of_map(rule_states.entries@, id);
        lemma_find_index(rule_states.entries@, id);
    }
    let idx = match rule_states.find(&rule.id.0) {
        Some(i) => i,
        None => {
            let ghost pre = rule_states.entries@;
            let fresh = RuleState::new(rule.id.0.as_str());
            rule_states.insert(rule.id.0.clone(), fresh);
            proof {
                let f = |e: (String, RuleState)| (e.0@, rule_state_view(e.1));
                assert(rule_states.entries@ == pre.push((rule.id.0, fresh)));
                assert(rule_states.entries@.map_values(f) =~= pre.map_values(f).push(f((rule.id.0, fresh))));
                assert(rule_state_view(fresh) == fresh_rule_state(id)) by {
                    assert(fresh.in_flight@.map_values(|e: InFlightEntry| in_flight_view(e)) =~= Seq::<
                        InFlightView,
                    >::empty());
                    assert(fresh.condition_met_at.entries@ =~= Seq::<(usize, u64)>::empty());
                }
                assert(rule_states.entries@[pre.len() as int] == (rule.id.0, fresh));
                assert forall|a: int, b: int|
                    0 <= a < rule_states.entries@.len() && 0 <= b < rule_states.entries@.len() && a
                        != b implies #[trigger] rule_states.entries@[a].0.model()
                    != #[trigger] rule_states.entries@[b].0.model() by {}
            }
            rule_states.len() - 1
        },
    };
    let ghost s1 = states_view(*rule_states);
    let ghost pre1 = rule_states.entries@;
    proof {
        assert(s1 == ensure_state(sv0, id));
        lemma_key_pos_of_map(pre1, id);
        lemma_find_index(pre1, id);
        assert(key_pos(s1, id) == idx);
        assert(s1[idx as int].1 == rule_state_view(pre1[idx as int].1));
    }
    let (key, mut rs) = rule_states.remove_at(idx);
    let ghost rs0 = rs;
    let ghost v0 = rule_state_view(rs0);
    assert(rs.condition_met_at.wf());
    let b = first_blocking(rule, &rs.condition_met_at, devices, now);
    proof {
        lemma_blocking_range(*rule, *devices, rs.condition_met_at.entries@, now, 0);
    }
    let n = rule.conditions.len();
    let result = if b < n {
        let c = &rule.conditions[b];
        let holds = evaluate_condition_value(c, devices.get(&c.device_id));
        proof {
            lemma_find_index(rs.condition_met_at.entries@, b);
        }
        if !holds {
            rs.condition_met_at.remove(&b);
        } else if c.duration_seconds.is_some() && !rs.condition_met_at.contains_key(&b) {
            rs.condition_met_at.insert(b, now);
        }
        None
    } else {
        rs.condition_met_at.clear();
        let (commands, mut entries) = fire_actions(rule, now);
        match &rule.stateful {
            Some(st) => {
                proof {
                    lemma_without_timeouts_view(rs.in_flight@);
                }
                rs.clear_timeout();
                let ghost kept = rs.in_flight@;
                let ghost added = entries@;
                rs.in_flight.append(&mut entries);
                let t = make_timeout_entry(st, now);
                rs.in_flight.push(t);
                proof {
                    let f = |e: InFlightEntry| in_flight_view(e);
                    assert(rs.in_flight@ == (kept + added).push(t));
                    assert(rs.in_flight@.map_values(f) =~= (kept.map_values(f) + added.map_values(f)).push(
                        f(t),
                    ));
                }
            },
            None => {
                let ghost kept = rs.in_flight@;
                let ghost added = entries@;
                rs.in_flight.append(&mut entries);
                proof {
                    let f = |e: InFlightEntry| in_flight_view(e);
                    assert(rs.in_flight@ == kept + added);
                    assert(rs.in_flight@.map_values(f) =~= kept.map_values(f) + added.map_values(f));
                }
            },
        }
        Some(commands)
    };
    proof {
        let v1 = rule_state_view(rs);
        assert(v1 =~= step_state(*rule, *devices, v0, now));
    }
    rule_states.insert_at(idx, (key, rs));
    proof {
        let f = |e: (String, RuleState)| (e.0@, rule_state_view(e.1));
        assert(rule_states.entries@ =~= pre1.update(idx as int, (key, rs)));
        lemma_update_value(pre1, idx as int, (key, rs));
        assert(rule_states.entries@.map_values(f) =~= s1.update(
            idx as int,
            (id, step_state(*rule, *devices, s1[idx as int].1, now)),
        ));
        assert forall|j: int| 0 <= j < rule_states.entries@.len() implies (#[trigger] rule_states.entries@[j]).1.condition_met_at.wf() by {
            if j != idx {
                assert(rule_states.entries@[j] == pre1[j]);
            }
        }
    }
    result
}

/// Every rule state keeps unique condition indices, and the states unique ids.
pub open spec fn rule_states_wf(m: OrderedMap<String, RuleState>) -> bool {
    &&& m.wf()
    &&& forall|j: int| 0 <= j < m.entries@.len() ==> (#[trigger] m.entries@[j]).1.condition_met_at.wf()
}

} // verus!

verus! {

// ── The engine ───────────────────────────────────────────────

/// Whether some changed device is the rule's trigger device.
pub open spec fn triggered(rule: Rule, update: StateUpdate) -> bool {
    exists|i: int|
        0 <= i < update.changed_devices@.len() && #[trigger] update.changed_devices@[i].0@
            == trigger_device(rule)
}

/// The device whose change triggers the rule.
pub open spec fn trigger_device(rule: Rule) -> Seq<char> {
    match rule.trigger {
        crate::rule_types::Trigger::DeviceStateChanged { device_id, .. } => device_id.0@,
    }
}

/// Rule states after evaluating, in order, every rule of `rules` that the
/// update triggers.
pub open spec fn eval_states(
    states: Seq<(Seq<char>, RuleStateView)>,
    rules: Seq<Rule>,
    update: StateUpdate,
    devices: OrderedMap<DeviceId, DeviceState>,
    now: u64,
) -> Seq<(Seq<char>, RuleStateView)>
    decreases rules.len(),
{
    if rules.len() == 0 {
        states
    } else {
        let prev = eval_states(states, rules.drop_last(), update, devices, now);
        if triggered(rules.last(), update) {
            rule_step(prev, rules.last(), devices, now)
        } else {
            prev
        }
    }
}

/// Commands issued by that evaluation, rule by rule.
pub open spec fn eval_plans(
    states: Seq<(Seq<char>, RuleStateView)>,
    rules: Seq<Rule>,
    update: StateUpdate,
    devices: OrderedMap<DeviceId, DeviceState>,
    now: u64,
) -> Seq<CommandPlan>
    decreases rules.len(),
{
    if rules.len() == 0 {
        Seq::empty()
    } else {
        let prev_states = eval_states(states, rules.drop_last(), update, devices, now);
        let prev = eval_plans(states, rules.drop_last(), update, devices, now);
        if triggered(rules.last(), update) {
            prev + rule_step_plans(prev_states, rules.last(), devices, now)
        } else {
            prev
        }
    }
}

/// States with a state ensured for every rule id, in rule order.
pub open spec fn ensure_all(states: Seq<(Seq<char>, RuleStateView)>, rules: Seq<Rule>) -> Seq<
    (Seq<char>, RuleStateView),
>
    decreases rules.len(),
{
    if rules.len() == 0 {
        states
    } else {
        ensure_state(ensure_all(states, rules.drop_last()), rules.last().id.0@)
    }
}

/// The priority of the last rule with id `id`, or 0.
pub open spec fn rule_priority(rules: Seq<Rule>, id: Seq<char>) -> u8
    decreases rules.len(),
{
    if rules.len() == 0 {
        0
    } else if rules.last().id.0@ == id {
        rules.last().priority
    } else {
        rule_priority(rules.drop_last(), id)
    }
}

pub open spec fn fired_action_plan(a: ActionView, rule_id: Seq<char>, priority: u8) -> CommandPlan {
    CommandPlan {
        device_id: a.device_id,
        attribute: a.attribute,
        value: a.value,
        rule_id: Some(rule_id),
        priority,
    }
}

pub open spec fn action_plans(acts: Seq<ActionView>, rule_id: Seq<char>, priority: u8) -> Seq<CommandPlan> {
    acts.map_values(|a: ActionView| fired_action_plan(a, rule_id, priority))
}

/// Commands for the entries due at `now`, entry by entry, action by action.
pub open spec fn due_plans(entries: Seq<InFlightView>, rule_id: Seq<char>, priority: u8, now: u64) -> Seq<
    CommandPlan,
>
    decreases entries.len(),
{
    if entries.len() == 0 {
        Seq::empty()
    } else {
        let prev = due_plans(entries.drop_last(), rule_id, priority, now);
        let e = entries.last();
        if now >= e.execute_at {
            prev + action_plans(e.actions, rule_id, priority)
        } else {
            prev
        }
    }
}

/// The entries not yet due at `now`, in order.
pub open spec fn not_due(entries: Seq<InFlightView>, now: u64) -> Seq<InFlightView>
    decreases entries.len(),
{
    if entries.len() == 0 {
        entries
    } else if now >= entries.last().execute_at {
        not_due(entries.drop_last(), now)
    } else {
        not_due(entries.drop_last(), now).push(entries.last())
    }
}

pub open spec fn tick_plans(states: Seq<(Seq<char>, RuleStateView)>, rules: Seq<Rule>, now: u64) -> Seq<
    CommandPlan,
>
    decreases states.len(),
{
    if states.len() == 0 {
        Seq::empty()
    } else {
        let s = states.last().1;
        tick_plans(states.drop_last(), rules, now) + due_plans(
            s.in_flight,
            s.rule_id,
            rule_priority(rules, s.rule_id),
            now,
        )
    }
}

pub open spec fn tick_state(s: RuleStateView, now: u64) -> RuleStateView {
    RuleStateView { rule_id: s.rule_id, met: s.met, in_flight: not_due(s.in_flight, now) }
}

pub open spec fn tick_states(states: Seq<(Seq<char>, RuleStateView)>, now: u64) -> Seq<
    (Seq<char>, RuleStateView),
> {
    states.map_values(|e: (Seq<char>, RuleStateView)| (e.0, tick_state(e.1, now)))
}

pub struct RuleEngine {
    pub rules: Vec<Rule>,
    pub rule_states: OrderedMap<String, RuleState>,
}

impl Default for RuleEngine {
    /// An engine with no rules.
    fn default() -> (e: Self)
        ensures
            e.wf(),
            e.rules@.len() == 0,
            e.rule_states.entries@.len() == 0,
    {
        RuleEngine::new()
    }
}

impl RuleEngine {
    pub open spec fn wf(&self) -> bool {
        rule_states_wf(self.rule_states)
    }

    pub open spec fn timers_fit(&self, now: u64) -> bool {
        forall|i: int| 0 <= i < self.rules@.len() ==> rule_timers_fit(#[trigger] self.rules@[i], now)
    }

    pub fn new() -> (e: Self)
        ensures
            e.wf(),
            e.rules@.len() == 0,
            e.rule_states.entries@.len() == 0,
    {
        RuleEngine { rules: Vec::new(), rule_states: OrderedMap::new() }
    }

    /// Whether scheduling every rule's delays and timeouts at `now` stays
    /// within u64 milliseconds.
    pub fn timers_fit_at(&self, now: u64) -> (r: bool)
        ensures
            r == self.timers_fit(now),
    {
        let n = self.rules.len();
        let mut i: usize = 0;
        while i < n
            invariant
                n == self.rules@.len(),
                i <= n,
                forall|j: int| 0 <= j < i ==> rule_timers_fit(#[trigger] self.rules@[j], now),
            decreases n - i,
        {
            let rule = &self.rules[i];
            let m = rule.actions.len();
            let mut j: usize = 0;
            while j < m
                invariant
                    n == self.rules@.len(),
                    i < n,
                    *rule == self.rules@[i as int],
                    m == rule.actions@.len(),
                    j <= m,
                    forall|k: int|
                        0 <= k < j ==> ((#[trigger] rule.actions@[k]).delay_seconds matches Some(d) ==> now
                            + d * 1000 <= u64::MAX),
                decreases m - j,
            {
                if let Some(d) = rule.actions[j].delay_seconds {
                    if (d as u128) * 1000 + (now as u128) > (u64::MAX as u128) {
                        proof {
                            assert(rule.actions@[j as int].delay_seconds == Some(d));
                            assert(!rule_timers_fit(self.rules@[i as int], now));
                        }
                        return false;
                    }
                }
                j = j + 1;
            }
            if let Some(st) = &rule.stateful {
                if (st.timeout_seconds as u128) * 1000 + (now as u128) > (u64::MAX as u128) {
                    proof {
                        assert(!rule_timers_fit(self.rules@[i as int], now));
                    }
                    return false;
                }
            }
            i = i + 1;
        }
        true
    }

    /// Ensures a state for every rule's id (keeping existing ones) and
    /// installs `rules`.
    pub fn load_rules(&mut self, rules: Vec<Rule>)
        requires
            old(self).wf(),
        ensures
            final(self).wf(),
            final(self).rules@ == rules@,
            states_view(final(self).rule_states) == ensure_all(states_view(old(self).rule_states), rules@),
    {
        let n = rules.len();
        let mut i: usize = 0;
        while i < n
            invariant
                n == rules@.len(),
                i <= n,
                rule_states_wf(self.rule_states),
                states_view(self.rule_states) == ensure_all(
                    states_view(old(self).rule_states),
                    rules@.subrange(0, i as int),
                ),
            decreases n - i,
        {
            let ghost pre = self.rule_states;
            proof {
                let r1 = rules@.subrange(0, i + 1);
                assert(r1.drop_last() =~= rules@.subrange(0, i as int));
            }
            ensure_rule_state(&mut self.rule_states, &rules[i].id.0);
            i = i + 1;
        }
        assert(rules@.subrange(0, n as int) =~= rules@);
        self.rules = rules;
    }

    /// Evaluates every rule the update triggers, in rule order, and returns
    /// the immediate commands of the rules that fire.
    pub fn evaluate(
        &mut self,
        update: &StateUpdate,
        state: &OrderedMap<DeviceId, DeviceState>,
        now: u64,
    ) -> (commands: Vec<Command>)
        requires
            old(self).wf(),
            old(self).timers_fit(now),
        ensures
            final(self).wf(),
            final(self).rules == old(self).rules,
            states_view(final(self).rule_states) == eval_states(
                states_view(old(self).rule_states),
                old(self).rules@,
                *update,
                *state,
                now,
            ),
            commands_match(
                commands@,
                eval_plans(states_view(old(self).rule_states), old(self).rules@, *update, *state, now),
            ),
    {
        let ghost s0 = states_view(self.rule_states);
        let mut commands: Vec<Command> = Vec::new();
        let n = self.rules.len();
        let mut i: usize = 0;
        while i < n
            invariant
                n == self.rules@.len(),
                i <= n,
                self.rules == old(self).rules,
                self.timers_fit(now),
                rule_states_wf(self.rule_states),
                s0 == states_view(old(self).rule_states),
                states_view(self.rule_states) == eval_states(
                    s0,
                    self.rules@.subrange(0, i as int),
                    *update,
                    *state,
                    now,
                ),
                commands_match(
                    commands@,
                    eval_plans(s0, self.rules@.subrange(0, i as int), *update, *state, now),
                ),
            decreases n - i,
        {
            let ghost sub1 = self.rules@.subrange(0, i + 1);
            let ghost prev_states = states_view(self.rule_states);
            proof {
                assert(sub1.drop_last() =~= self.rules@.subrange(0, i as int));
                assert(sub1.last() == self.rules@[i as int]);
                assert(rule_timers_fit(self.rules@[i as int], now));
            }
            if is_triggered(&self.rules[i], update) {
                let ghost before = commands@;
                match evaluate_rule(&self.rules[i], &mut self.rule_states, state, now) {
                    Some(mut cmds) => {
                        let ghost added = cmds@;
                        commands.append(&mut cmds);
                        proof {
                            let plans = eval_plans(s0, sub1, *update, *state, now);
                            let p0 = eval_plans(s0, self.rules@.subrange(0, i as int), *update, *state, now);
                            let p1 = rule_step_plans(prev_states, self.rules@[i as int], *state, now);
                            assert(plans == p0 + p1);
                            assert forall|j: int| 0 <= j < commands@.len() implies #[trigger] command_matches(
                                commands@[j],
                                plans[j],
                            ) by {
                                if j < before.len() {
                                    assert(commands@[j] == before[j]);
                                    assert(plans[j] == p0[j]);
                                } else {
                                    assert(commands@[j] == added[j - before.len()]);
                                    assert(plans[j] == p1[j - before.len()]);
                                }
                            }
                        }
                    },
                    None => {
                        proof {
                            assert(step_plans(
                                self.rules@[i as int],
                                *state,
                                ensure_state(prev_states, self.rules@[i as int].id.0@)[key_pos(
                                    ensure_state(prev_states, self.rules@[i as int].id.0@),
                                    self.rules@[i as int].id.0@,
                                )].1,
                                now,
                            ) =~= Seq::<CommandPlan>::empty());
                            assert(eval_plans(s0, sub1, *update, *state, now) =~= eval_plans(
                                s0,
                                self.rules@.subrange(0, i as int),
                                *update,
                                *state,
                                now,
                            ));
                        }
                    },
                }
            }
            i = i + 1;
        }
        assert(self.rules@.subrange(0, n as int) =~= self.rules@);
        commands
    }

    /// Fires every in-flight entry due at `now`: one command per action,
    /// carrying the rule's id and the priority of the last rule with that
    /// id (0 when no rule has it); fired entries are removed, the rest kept
    /// in order.
    pub fn tick(&mut self, now: u64, state: &OrderedMap<DeviceId, DeviceState>) -> (commands: Vec<
        Command,
    >)
        requires
            old(self).wf(),
        ensures
            final(self).wf(),
            final(self).rules == old(self).rules,
            states_view(final(self).rule_states) == tick_states(states_view(old(self).rule_states), now),
            commands_match(
                commands@,
                tick_plans(states_view(old(self).rule_states), old(self).rules@, now),
            ),
    {
        let ghost s0 = states_view(self.rule_states);
        let ghost e0 = self.rule_states.entries@;
        let mut commands: Vec<Command> = Vec::new();
        let n = self.rule_states.entries.len();
        let mut i: usize = 0;
        while i < n
            invariant
                n == self.rule_states.entries@.len(),
                n == e0.len(),
                i <= n,
                self.rules == old(self).rules,
                rule_states_wf(self.rule_states),
                s0 == states_view(old(self).rule_states),
                e0 == old(self).rule_states.entries@,
                s0 == e0.map_values(|e: (String, RuleState)| (e.0@, rule_state_view(e.1))),
                forall|j: int| i <= j < n ==> #[trigger] self.rule_states.entries@[j] == e0[j],
                forall|j: int|
                    0 <= j < i ==> states_view(self.rule_states)[j] == #[trigger] tick_states(s0, now)[j],
                commands_match(commands@, tick_plans(s0.subrange(0, i as int), self.rules@, now)),
            decreases n - i,
        {
            let ghost pre = self.rule_states.entries@;
            let ghost before = commands@;
            let (key, mut rs) = self.rule_states.remove_at(i);
            assert(rs == e0[i as int].1);
            let priority = rule_priority_of(&self.rules, &rs.rule_id);
            let (fired, kept) = fire_due(&mut rs, priority, now);
            let ghost sv = rule_state_view(e0[i as int].1);
            let mut fired = fired;
            commands.append(&mut fired);
            self.rule_states.insert_at(i, (key, rs));
            proof {
                let f = |e: (String, RuleState)| (e.0@, rule_state_view(e.1));
                assert(self.rule_states.entries@ =~= pre.update(i as int, (key, rs)));
                lemma_update_value(pre, i as int, (key, rs));
                assert(s0[i as int] == f(e0[i as int]));
                assert(s0.subrange(0, i + 1).drop_last() =~= s0.subrange(0, i as int));
                assert(s0.subrange(0, i + 1).last() == s0[i as int]);
                let plans = tick_plans(s0.subrange(0, i + 1), self.rules@, now);
                let p0 = tick_plans(s0.subrange(0, i as int), self.rules@, now);
                let p1 = due_plans(sv.in_flight, sv.rule_id, rule_priority(self.rules@, sv.rule_id), now);
                assert(plans == p0 + p1);
                assert forall|j: int| 0 <= j < commands@.len() implies #[trigger] command_matches(
                    commands@[j],
                    plans[j],
                ) by {
                    if j < before.len() {
                        assert(plans[j] == p0[j]);
                    } else {
                        assert(plans[j] == p1[j - before.len()]);
                    }
                }
                assert(states_view(self.rule_states)[i as int] == tick_states(s0, now)[i as int]);
                assert forall|j: int|
                    0 <= j < i + 1 implies states_view(self.rule_states)[j] == #[trigger] tick_states(
                        s0,
                        now,
                    )[j] by {
                    if j < i {
                        assert(self.rule_states.entries@[j] == pre[j]);
                    }
                }
                assert forall|j: int| 0 <= j < self.rule_states.entries@.len() implies (#[trigger] self.rule_states.entries@[j]).1.condition_met_at.wf() by {
                    if j != i {
                        assert(self.rule_states.entries@[j] == pre[j]);
                    }
                }
            }
            i = i + 1;
        }
        proof {
            assert(s0.subrange(0, n as int) =~= s0);
            assert(states_view(self.rule_states) =~= tick_states(s0, now));
        }
        let _ = state;
        commands
    }

    /// One summary per rule, in rule order.
    pub fn rule_summaries(&self) -> (r: Vec<crate::rule_types::RuleSummary>)
        ensures
            r@.len() == self.rules@.len(),
            forall|i: int| 0 <= i < r@.len() ==> crate::rule_types::summarizes(#[trigger] r@[i], self.rules@[i]),
    {
        let mut r: Vec<crate::rule_types::RuleSummary> = Vec::new();
        let n = self.rules.len();
        let mut i: usize = 0;
        while i < n
            invariant
                n == self.rules@.len(),
                i <= n,
                r@.len() == i,
                forall|j: int| 0 <= j < i ==> crate::rule_types::summarizes(#[trigger] r@[j], self.rules@[j]),
            decreases n - i,
        {
            r.push(crate::rule_types::RuleSummary::from_rule(&self.rules[i]));
            i = i + 1;
        }
        r
    }
}

/// Whether the update triggers the rule.
pub fn is_triggered(rule: &Rule, update: &StateUpdate) -> (r: bool)
    ensures
        r == triggered(*rule, *update),
{
    match &rule.trigger {
        crate::rule_types::Trigger::DeviceStateChanged { device_id, .. } => {
            assert(device_id.0@ == trigger_device(*rule));
            let n = update.changed_devices.len();
            let mut i: usize = 0;
            while i < n
                invariant
                    n == update.changed_devices@.len(),
                    i <= n,
                    device_id.0@ == trigger_device(*rule),
                    forall|j: int| 0 <= j < i ==> #[trigger] update.changed_devices@[j].0@ != device_id.0@,
                decreases n - i,
            {
                if update.changed_devices[i].0 == device_id.0 {
                    proof {
                        assert(update.changed_devices@[i as int].0@ == device_id.0@);
                        assert(exists|j: int|
                            0 <= j < update.changed_devices@.len() && #[trigger] update.changed_devices@[j].0@
                                == device_id.0@);
                    }
                    return true;
                }
                i = i + 1;
            }
            false
        },
    }
}

/// The priority of the last rule with this id, or 0.
fn rule_priority_of(rules: &Vec<Rule>, id: &String) -> (p: u8)
    ensures
        p == rule_priority(rules@, id@),
{
    let mut i = rules.len();
    assert(rules@.subrange(0, rules@.len() as int) =~= rules@);
    while i > 0
        invariant
            i <= rules@.len(),
            rule_priority(rules@, id@) == rule_priority(rules@.subrange(0, i as int), id@),
        decreases i,
    {
        let ghost s = rules@.subrange(0, i as int);
        proof {
            assert(s.drop_last() =~= rules@.subrange(0, i - 1));
        }
        if rules[i - 1].id.0 == *id {
            return rules[i - 1].priority;
        }
        i = i - 1;
    }
    0
}

/// Ensures `rule_states` holds a state for `id`, appending a fresh one.
fn ensure_rule_state(rule_states: &mut OrderedMap<String, RuleState>, id: &String)
    requires
        rule_states_wf(*old(rule_states)),
    ensures
        rule_states_wf(*final(rule_states)),
        states_view(*final(rule_states)) == ensure_state(states_view(*old(rule_states)), id@),
{
    proof {
        lemma_key_pos_of_map(rule_states.entries@, id@);
        lemma_find_index(rule_states.entries@, id@);
    }
    if !rule_states.contains_key(id) {
        let ghost pre = rule_states.entries@;
        let fresh = RuleState::new(id.as_str());
        rule_states.insert(id.clone(), fresh);
        proof {
            let f = |e: (String, RuleState)| (e.0@, rule_state_view(e.1));
            assert(rule_states.entries@ == pre.push((*id, fresh)));
            assert(rule_states.entries@.map_values(f) =~= pre.map_values(f).push(f((*id, fresh))));
            assert(rule_state_view(fresh) == fresh_rule_state(id@)) by {
                assert(fresh.in_flight@.map_values(|e: InFlightEntry| in_flight_view(e)) =~= Seq::<
                    InFlightView,
                >::empty());
                assert(fresh.condition_met_at.entries@ =~= Seq::<(usize, u64)>::empty());
            }
            assert forall|j: int| 0 <= j < rule_states.entries@.len() implies (#[trigger] rule_states.entries@[j]).1.condition_met_at.wf() by {
                if j < pre.len() {
                    assert(rule_states.entries@[j] == pre[j]);
                }
            }
        }
    }
}

/// Splits a rule state's in-flight entries into commands for those due at
/// `now` and the entries kept.
fn fire_due(rs: &mut RuleState, priority: u8, now: u64) -> (r: (Vec<Command>, usize))
    ensures
        final(rs).rule_id == old(rs).rule_id,
        final(rs).condition_met_at == old(rs).condition_met_at,
        rule_state_view(*final(rs)) == tick_state(rule_state_view(*old(rs)), now),
        commands_match(
            r.0@,
            due_plans(rule_state_view(*old(rs)).in_flight, old(rs).rule_id@, priority, now),
        ),
{
    let ghost orig = rs.in_flight@;
    let ghost ov = rule_state_view(*rs);
    let mut rest: Vec<InFlightEntry> = Vec::new();
    std::mem::swap(&mut rest, &mut rs.in_flight);
    let mut kept: Vec<InFlightEntry> = Vec::new();
    let mut commands: Vec<Command> = Vec::new();
    let n = rest.len();
    let mut i: usize = 0;
    while i < n
        invariant
            n == orig.len(),
            i <= n,
            rest@ == orig.subrange(i as int, n as int),
            ov.in_flight == orig.map_values(|e: InFlightEntry| in_flight_view(e)),
            rs.rule_id == old(rs).rule_id,
            rs.condition_met_at == old(rs).condition_met_at,
            ov == rule_state_view(*old(rs)),
            kept@.map_values(|e: InFlightEntry| in_flight_view(e)) == not_due(
                orig.subrange(0, i as int).map_values(|e: InFlightEntry| in_flight_view(e)),
                now,
            ),
            commands_match(
                commands@,
                due_plans(
                    orig.subrange(0, i as int).map_values(|e: InFlightEntry| in_flight_view(e)),
                    ov.rule_id,
                    priority,
                    now,
                ),
            ),
        decreases n - i,
    {
        let e = rest.remove(0);
        let ghost sub = orig.subrange(0, i as int).map_values(|e: InFlightEntry| in_flight_view(e));
        let ghost sub1 = orig.subrange(0, i + 1).map_values(|e: InFlightEntry| in_flight_view(e));
        proof {
            assert(e == orig[i as int]);
            assert(sub1.drop_last() =~= sub);
            assert(sub1.last() == in_flight_view(e));
        }
        if now >= e.execute_at {
            let m = e.actions.len();
            let ghost before = commands@;
            let mut j: usize = 0;
            while j < m
                invariant
                    m == e.actions@.len(),
                    j <= m,
                    rs.rule_id@ == ov.rule_id,
                    commands@.len() == before.len() + j,
                    forall|k: int| 0 <= k < before.len() ==> commands@[k] == before[k],
                    forall|k: int|
                        0 <= k < j ==> #[trigger] command_matches(
                            commands@[before.len() + k],
                            fired_action_plan(action_view(e.actions@[k]), ov.rule_id, priority),
                        ),
                decreases m - j,
            {
                let a = &e.actions[j];
                let c = Command::new(
                    DeviceId(a.device_id.clone()),
                    AttributeKey(a.attribute.clone()),
                    a.value.duplicate(),
                    Some(RuleId(rs.rule_id.clone())),
                    priority,
                );
                let ghost cb = commands@;
                commands.push(c);
                proof {
                    assert(commands@[before.len() + j] == c);
                    assert forall|k: int| 0 <= k < j + 1 implies #[trigger] command_matches(
                        commands@[before.len() + k],
                        fired_action_plan(action_view(e.actions@[k]), ov.rule_id, priority),
                    ) by {
                        if k < j {
                            assert(commands@[before.len() + k] == cb[before.len() + k]);
                        }
                    }
                }
                j = j + 1;
            }
            proof {
                let plans = due_plans(sub1, ov.rule_id, priority, now);
                let p0 = due_plans(sub, ov.rule_id, priority, now);
                let p1 = action_plans(in_flight_view(e).actions, ov.rule_id, priority);
                assert(plans == p0 + p1);
                assert(p0.len() == before.len());
                assert(p1.len() == m);
                assert(commands@.len() == plans.len());
                assert forall|k: int| 0 <= k < commands@.len() implies #[trigger] command_matches(
                    commands@[k],
                    plans[k],
                ) by {
                    if k < before.len() {
                        assert(plans[k] == p0[k]);
                        assert(commands@[k] == before[k]);
                        assert(command_matches(before[k], p0[k]));
                    } else {
                        assert(plans[k] == p1[k - before.len()]);
                        assert(p1[k - before.len()] == fired_action_plan(
                            action_view(e.actions@[k - before.len()]),
                            ov.rule_id,
                            priority,
                        ));
                        assert(command_matches(
                            commands@[before.len() + (k - before.len())],
                            fired_action_plan(action_view(e.actions@[k - before.len()]), ov.rule_id, priority),
                        ));
                    }
                }
            }
        } else {
            let ghost kb = kept@;
            kept.push(e);
            proof {
                assert(kept@.map_values(|e: InFlightEntry| in_flight_view(e)) =~= kb.map_values(
                    |e: InFlightEntry| in_flight_view(e),
                ).push(in_flight_view(e)));
            }
        }
        i = i + 1;
    }
    proof {
        assert(orig.subrange(0, n as int) =~= orig);
    }
    let count = kept.len();
    rs.in_flight = kept;
    proof {
        assert(rule_state_view(*rs) =~= tick_state(ov, now));
    }
    (commands, count)
}

} // verus!

verus! {

// ── Hot reload ───────────────────────────────────────────────

pub open spec fn rule_listed(rules: Seq<Rule>, k: Seq<char>) -> bool {
    exists|i: int| 0 <= i < rules.len() && #[trigger] rules[i].id.0@ == k
}

/// The states whose rule is still listed, in order.
pub open spec fn retained(states: Seq<(Seq<char>, RuleStateView)>, rules: Seq<Rule>) -> Seq<
    (Seq<char>, RuleStateView),
>
    decreases states.len(),
{
    if states.len() == 0 {
        states
    } else if rule_listed(rules, states.last().0) {
        retained(states.drop_last(), rules).push(states.last())
    } else {
        retained(states.drop_last(), rules)
    }
}

/// How many states belong to rules no longer listed.
pub open spec fn removed_count(states: Seq<(Seq<char>, RuleStateView)>, rules: Seq<Rule>) -> nat
    decreases states.len(),
{
    if states.len() == 0 {
        0
    } else {
        removed_count(states.drop_last(), rules) + if rule_listed(rules, states.last().0) {
            0nat
        } else {
            1nat
        }
    }
}

/// How many in-flight entries those removed states held.
pub open spec fn cancelled_count(states: Seq<(Seq<char>, RuleStateView)>, rules: Seq<Rule>) -> nat
    decreases states.len(),
{
    if states.len() == 0 {
        0
    } else {
        cancelled_count(states.drop_last(), rules) + if rule_listed(rules, states.last().0) {
            0nat
        } else {
            states.last().1.in_flight.len()
        }
    }
}

/// How many distinct rule ids of `rules` have no state in `states`.
pub open spec fn added_count(rules: Seq<Rule>, states: Seq<(Seq<char>, RuleStateView)>) -> nat
    decreases rules.len(),
{
    if rules.len() == 0 {
        0
    } else {
        added_count(rules.drop_last(), states) + if key_pos(states, rules.last().id.0@) < 0
            && !rule_listed(rules.drop_last(), rules.last().id.0@) {
            1nat
        } else {
            0nat
        }
    }
}

/// Whether some rule among the first `upto` has id `k`.
fn listed_before(rules: &Vec<Rule>, upto: usize, k: &String) -> (r: bool)
    requires
        upto <= rules@.len(),
    ensures
        r == rule_listed(rules@.subrange(0, upto as int), k@),
{
    let mut i: usize = 0;
    while i < upto
        invariant
            upto <= rules@.len(),
            i <= upto,
            forall|j: int| 0 <= j < i ==> #[trigger] rules@[j].id.0@ != k@,
        decreases upto - i,
    {
        if rules[i].id.0 == *k {
            proof {
                let s = rules@.subrange(0, upto as int);
                assert(s[i as int].id.0@ == k@);
            }
            return true;
        }
        i = i + 1;
    }
    proof {
        let s = rules@.subrange(0, upto as int);
        assert forall|j: int| 0 <= j < s.len() implies #[trigger] s[j].id.0@ != k@ by {
            assert(s[j] == rules@[j]);
        }
    }
    false
}

impl RuleEngine {
    /// Replaces the rule set. States of rules that are still listed (by id)
    /// keep their in-flight entries and timers; states of removed rules are
    /// dropped with their in-flight entries; new rules get fresh states.
    pub fn hot_reload(&mut self, rules: Vec<Rule>) -> (report: crate::rule_types::HotReloadReport)
        requires
            old(self).wf(),
            cancelled_count(states_view(old(self).rule_states), rules@) <= u32::MAX,
        ensures
            final(self).wf(),
            final(self).rules@ == rules@,
            states_view(final(self).rule_states) == ensure_all(
                retained(states_view(old(self).rule_states), rules@),
                rules@,
            ),
            report.rules_loaded == rules@.len() as u32,
            report.rules_rejected == 0,
            report.rules_added == added_count(rules@, states_view(old(self).rule_states)) as u32,
            report.rules_removed == removed_count(states_view(old(self).rule_states), rules@) as u32,
            report.in_flight_cancelled == cancelled_count(states_view(old(self).rule_states), rules@),
    {
        let ghost s0 = states_view(self.rule_states);
        let ghost orig = self.rule_states.entries@;
        let nr = rules.len();
        // Distinct new ids without a state.
        let mut added: u64 = 0;
        let mut i: usize = 0;
        while i < nr
            invariant
                nr == rules@.len(),
                i <= nr,
                added <= i,
                rule_states_wf(self.rule_states),
                s0 == states_view(self.rule_states),
                added == added_count(rules@.subrange(0, i as int), s0),
            decreases nr - i,
        {
            let id = &rules[i].id.0;
            proof {
                lemma_key_pos_of_map(self.rule_states.entries@, id@);
                lemma_find_index(self.rule_states.entries@, id@);
                let r1 = rules@.subrange(0, i + 1);
                assert(r1.drop_last() =~= rules@.subrange(0, i as int));
                assert(r1.last() == rules@[i as int]);
            }
            if !self.rule_states.contains_key(id) && !listed_before(&rules, i, id) {
                added = added + 1;
            }
            i = i + 1;
        }
        assert(rules@.subrange(0, nr as int) =~= rules@);
        // Keep the states of listed rules; count what is dropped.
        let mut rest: Vec<(String, RuleState)> = Vec::new();
        std::mem::swap(&mut rest, &mut self.rule_states.entries);
        let mut kept: Vec<(String, RuleState)> = Vec::new();
        let ghost mut idx: Seq<int> = Seq::empty();
        let mut removed: u64 = 0;
        let mut cancelled: u32 = 0;
        let n = rest.len();
        let mut k: usize = 0;
        while k < n
            invariant
                n == orig.len(),
                nr == rules@.len(),
                k <= n,
                removed <= k,
                s0 == orig.map_values(|e: (String, RuleState)| (e.0@, rule_state_view(e.1))),
                crate::ordered_map::keys_unique(orig),
                forall|j: int| 0 <= j < orig.len() ==> (#[trigger] orig[j]).1.condition_met_at.wf(),
                rest@ == orig.subrange(k as int, n as int),
                kept@.len() == idx.len(),
                forall|a: int| 0 <= a < idx.len() ==> 0 <= #[trigger] idx[a] < k,
                forall|a: int| 0 <= a < idx.len() ==> kept@[a] == orig[#[trigger] idx[a]],
                forall|a: int, b: int| 0 <= a < b < idx.len() ==> #[trigger] idx[a] < #[trigger] idx[b],
                kept@.map_values(|e: (String, RuleState)| (e.0@, rule_state_view(e.1))) == retained(
                    s0.subrange(0, k as int),
                    rules@,
                ),
                removed == removed_count(s0.subrange(0, k as int), rules@),
                cancelled == cancelled_count(s0.subrange(0, k as int), rules@),
                cancelled_count(s0, rules@) <= u32::MAX,
            decreases n - k,
        {
            let e = rest.remove(0);
            let ghost sub = s0.subrange(0, k as int);
            let ghost sub1 = s0.subrange(0, k + 1);
            proof {
                assert(e == orig[k as int]);
                assert(sub1.drop_last() =~= sub);
                assert(sub1.last() == (e.0@, rule_state_view(e.1)));
                lemma_counts_prefix(s0, rules@, k + 1);
            }
            let listed = listed_before(&rules, nr, &e.0);
            proof {
                assert(rules@.subrange(0, nr as int) =~= rules@);
            }
            if listed {
                let ghost kb = kept@;
                kept.push(e);
                proof {
                    idx = idx.push(k as int);
                    assert(kept@.map_values(|e: (String, RuleState)| (e.0@, rule_state_view(e.1))) =~= kb.map_values(
                        |e: (String, RuleState)| (e.0@, rule_state_view(e.1)),
                    ).push((e.0@, rule_state_view(e.1))));
                }
            } else {
                removed = removed + 1;
                proof {
                    assert(rule_state_view(e.1).in_flight.len() == e.1.in_flight@.len());
                }
                cancelled = cancelled + e.1.in_flight.len() as u32;
            }
            k = k + 1;
        }
        assert(s0.subrange(0, n as int) =~= s0);
        let mut kept_map: OrderedMap<String, RuleState> = OrderedMap { entries: kept };
        proof {
            assert forall|a: int, b: int|
                0 <= a < kept_map.entries@.len() && 0 <= b < kept_map.entries@.len() && a != b implies #[trigger] kept_map.entries@[a].0.model()
                != #[trigger] kept_map.entries@[b].0.model() by {
                assert(idx[a] != idx[b]) by {
                    if a < b {
                        assert(idx[a] < idx[b]);
                    } else {
                        assert(idx[b] < idx[a]);
                    }
                }
                assert(orig[idx[a]].0.model() != orig[idx[b]].0.model());
            }
            assert forall|j: int| 0 <= j < kept_map.entries@.len() implies (#[trigger] kept_map.entries@[j]).1.condition_met_at.wf() by {
                assert(kept_map.entries@[j] == orig[idx[j]]);
                assert(orig[idx[j]].1.condition_met_at.wf());
            }
        }
        // Fresh states for new rules.
        let mut j: usize = 0;
        while j < nr
            invariant
                nr == rules@.len(),
                j <= nr,
                rule_states_wf(kept_map),
                states_view(kept_map) == ensure_all(retained(s0, rules@), rules@.subrange(0, j as int)),
            decreases nr - j,
        {
            proof {
                let r1 = rules@.subrange(0, j + 1);
                assert(r1.drop_last() =~= rules@.subrange(0, j as int));
            }
            ensure_rule_state(&mut kept_map, &rules[j].id.0);
            j = j + 1;
        }
        self.rule_states = kept_map;
        let rules_loaded = #[verifier::truncate] (rules.len() as u32);
        self.rules = rules;
        crate::rule_types::HotReloadReport {
            rules_loaded,
            rules_rejected: 0,
            rules_added: #[verifier::truncate] (added as u32),
            rules_removed: #[verifier::truncate] (removed as u32),
            in_flight_cancelled: cancelled,
        }
    }

    /// How many in-flight entries a reload to `rules` would cancel: those of
    /// the states whose rule is no longer listed. `None` when that count
    /// does not fit in `u32`.
    pub fn cancellations_for(&self, rules: &Vec<Rule>) -> (r: Option<u32>)
        ensures
            match r {
                Some(c) => c == cancelled_count(states_view(self.rule_states), rules@),
                None => cancelled_count(states_view(self.rule_states), rules@) > u32::MAX,
            },
    {
        let ghost s0 = states_view(self.rule_states);
        let n = self.rule_states.entries.len();
        let nr = rules.len();
        let mut total: u32 = 0;
        let mut k: usize = 0;
        while k < n
            invariant
                n == self.rule_states.entries@.len(),
                nr == rules@.len(),
                k <= n,
                s0 == states_view(self.rule_states),
                total == cancelled_count(s0.subrange(0, k as int), rules@),
            decreases n - k,
        {
            let e = &self.rule_states.entries[k];
            let ghost sub1 = s0.subrange(0, k + 1);
            proof {
                assert(sub1.drop_last() =~= s0.subrange(0, k as int));
                assert(sub1.last() == (e.0@, rule_state_view(e.1)));
                assert(rules@.subrange(0, nr as int) =~= rules@);
                assert(rule_state_view(e.1).in_flight.len() == e.1.in_flight@.len());
            }
            let listed = listed_before(rules, nr, &e.0);
            if !listed {
                let c = e.1.in_flight.len();
                if c > (u32::MAX - total) as usize {
                    proof {
                        lemma_counts_prefix(s0, rules@, k + 1);
                    }
                    return None;
                }
                total = total + c as u32;
            }
            k = k + 1;
        }
        assert(s0.subrange(0, n as int) =~= s0);
        Some(total)
    }
}

/// A duration condition waits out its duration before its rule fires. For
/// a rule with one condition that holds and must hold for `d` seconds, and
/// whose state has no timer for it: the first evaluation (at `t0`) does not
/// fire and starts the timer at `t0`; a later evaluation with the same
/// device states (at `t1`) fires exactly when `d` seconds have passed since
/// `t0`. When it does not fire the timer keeps its start; when it fires the
/// timers are cleared.
pub proof fn law_duration_condition_waits(
    rule: Rule,
    devices: OrderedMap<DeviceId, DeviceState>,
    s: RuleStateView,
    t0: u64,
    t1: u64,
)
    requires
        rule.conditions@.len() == 1,
        rule.conditions@[0].duration_seconds is Some,
        condition_holds(
            rule.conditions@[0],
            lookup_state(devices, rule.conditions@[0].device_id.0@),
        ),
        find_index(s.met, 0usize) < 0,
        t0 <= t1,
    ensures
        ({
            let d = rule.conditions@[0].duration_seconds->0;
            let s1 = step_state(rule, devices, s, t0);
            let s2 = step_state(rule, devices, s1, t1);
            &&& !fires(rule, devices, s, t0)
            &&& find_index(s1.met, 0usize) >= 0 && s1.met[find_index(s1.met, 0usize)].1 == t0
            &&& fires(rule, devices, s1, t1) <==> t1 - t0 >= d * 1000
            &&& !fires(rule, devices, s1, t1) ==> s2.met == s1.met
            &&& fires(rule, devices, s1, t1) ==> s2.met.len() == 0
        }),
{
    let c = rule.conditions@[0];
    assert(!passes(rule, 0, devices, s.met, t0));
    assert(blocking(rule, devices, s.met, t0, 0) == 0);
    let s1 = step_state(rule, devices, s, t0);
    assert(s1.met == s.met.push((0usize, t0)));
    crate::ordered_map::lemma_find_index_push(s.met, (0usize, t0), 0usize);
    assert(find_index(s1.met, 0usize) == s.met.len());
    assert(blocking(rule, devices, s1.met, t1, 1) == 1);
    if passes(rule, 0, devices, s1.met, t1) {
        assert(blocking(rule, devices, s1.met, t1, 0) == 1);
    } else {
        assert(blocking(rule, devices, s1.met, t1, 0) == 0);
    }
}

/// Replacing the entry that answers for `k` by another keyed `k` keeps it
/// the answer.
proof fn lemma_key_pos_update<X>(s: Seq<(Seq<char>, X)>, k: Seq<char>, e: (Seq<char>, X))
    requires
        key_pos(s, k) >= 0,
        e.0 == k,
    ensures
        key_pos(s.update(key_pos(s, k), e), k) == key_pos(s, k),
    decreases s.len(),
{
    lemma_key_pos_bounds(s, k);
    let i = key_pos(s, k);
    let t = s.update(i, e);
    if i < s.len() - 1 {
        assert(s.last().0 != k);
        assert(t.drop_last() =~= s.drop_last().update(i, e));
        lemma_key_pos_update(s.drop_last(), k, e);
    }
}

/// The duration law through two evaluations of a rule against the rule
/// states (what `evaluate_rule` does to them): for a rule with one
/// condition that holds and must hold for `d` seconds, whose state (or the
/// fresh one it gets) has no timer, the evaluation at `t0` does not fire and
/// leaves the timer started at `t0`; the evaluation at `t1` with the same
/// device states fires exactly when `d` seconds have passed since `t0`, keeps
/// the timer when it does not fire and clears the timers when it does.
pub proof fn law_duration_rule_waits(
    states: Seq<(Seq<char>, RuleStateView)>,
    rule: Rule,
    devices: OrderedMap<DeviceId, DeviceState>,
    t0: u64,
    t1: u64,
)
    requires
        rule.conditions@.len() == 1,
        rule.conditions@[0].duration_seconds is Some,
        condition_holds(
            rule.conditions@[0],
            lookup_state(devices, rule.conditions@[0].device_id.0@),
        ),
        find_index(
            ensure_state(states, rule.id.0@)[key_pos(ensure_state(states, rule.id.0@), rule.id.0@)].1.met,
            0usize,
        ) < 0,
        t0 <= t1,
    ensures
        ({
            let id = rule.id.0@;
            let d = rule.conditions@[0].duration_seconds->0;
            let st1 = rule_step(states, rule, devices, t0);
            let st2 = rule_step(st1, rule, devices, t1);
            let m1 = st1[key_pos(st1, id)].1.met;
            &&& !rule_step_fires(states, rule, devices, t0)
            &&& key_pos(st1, id) >= 0
            &&& find_index(m1, 0usize) >= 0 && m1[find_index(m1, 0usize)].1 == t0
            &&& rule_step_fires(st1, rule, devices, t1) <==> t1 - t0 >= d * 1000
            &&& key_pos(st2, id) == key_pos(st1, id)
            &&& !rule_step_fires(st1, rule, devices, t1) ==> st2[key_pos(st2, id)].1.met == m1
            &&& rule_step_fires(st1, rule, devices, t1) ==> st2[key_pos(st2, id)].1.met.len() == 0
        }),
{
    let id = rule.id.0@;
    let s1 = ensure_state(states, id);
    lemma_key_pos_bounds(states, id);
    if key_pos(states, id) < 0 {
        assert(s1.drop_last() =~= states);
    }
    lemma_key_pos_bounds(s1, id);
    let i = key_pos(s1, id);
    let s = s1[i].1;
    law_duration_condition_waits(rule, devices, s, t0, t1);
    let v1 = step_state(rule, devices, s, t0);
    let st1 = rule_step(states, rule, devices, t0);
    assert(st1 == s1.update(i, (id, v1)));
    lemma_key_pos_update(s1, id, (id, v1));
    assert(key_pos(st1, id) == i);
    assert(st1[i].1 == v1);
    assert(ensure_state(st1, id) == st1);
    let v2 = step_state(rule, devices, v1, t1);
    lemma_key_pos_update(st1, id, (id, v2));
}

/// The counts over a prefix never exceed those over the whole.
proof fn lemma_counts_prefix(s: Seq<(Seq<char>, RuleStateView)>, rules: Seq<Rule>, k: int)
    requires
        0 <= k <= s.len(),
    ensures
        cancelled_count(s.subrange(0, k), rules) <= cancelled_count(s, rules),
    decreases s.len() - k,
{
    if k < s.len() {
        lemma_counts_prefix(s, rules, k + 1);
        let t = s.subrange(0, k + 1);
        assert(t.drop_last() =~= s.subrange(0, k));
    } else {
        assert(s.subrange(0, k) =~= s);
    }
}

/// `p` is the priority of the rule loaded under `id`: that of the last rule
/// of `rules` with that id, or 0 when none has it.
pub open spec fn loaded_priority(rules: Seq<Rule>, id: Seq<char>, p: u8) -> bool {
    &&& (forall|q: int| 0 <= q < rules.len() ==> (#[trigger] rules[q]).id.0@ != id) ==> p == 0
    &&& forall|q: int|
        0 <= q < rules.len() && (#[trigger] rules[q]).id.0@ == id && (forall|q2: int|
            q < q2 < rules.len() ==> (#[trigger] rules[q2]).id.0@ != id) ==> p == rules[q].priority
}

#[verifier::spinoff_prover]
#[verifier::rlimit(40)]
proof fn lemma_rule_priority_loaded(rules: Seq<Rule>, id: Seq<char>)
    ensures
        loaded_priority(rules, id, rule_priority(rules, id)),
    decreases rules.len(),
{
    if rules.len() > 0 {
        let d = rules.drop_last();
        lemma_rule_priority_loaded(d, id);
        let n = rules.len() - 1;
        assert(rules.last() == rules[n]);
        assert forall|q: int| 0 <= q < d.len() implies d[q] == rules[q] by {}
        if rules[n].id.0@ != id {
            assert forall|q: int|
                0 <= q < rules.len() && (#[trigger] rules[q]).id.0@ == id && (forall|q2: int|
                    q < q2 < rules.len() ==> (#[trigger] rules[q2]).id.0@ != id) implies rule_priority(rules, id)
                == rules[q].priority by {
                assert(q < n);
                assert(d[q] == rules[q]);
                assert forall|q2: int| q < q2 < d.len() implies (#[trigger] d[q2]).id.0@ != id by {
                    assert(d[q2] == rules[q2]);
                }
            }
            if forall|q: int| 0 <= q < rules.len() ==> (#[trigger] rules[q]).id.0@ != id {
                assert forall|q: int| 0 <= q < d.len() implies (#[trigger] d[q]).id.0@ != id by {
                    assert(d[q] == rules[q]);
                }
            }
        } else {
            assert forall|q: int|
                0 <= q < rules.len() && (#[trigger] rules[q]).id.0@ == id && (forall|q2: int|
                    q < q2 < rules.len() ==> (#[trigger] rules[q2]).id.0@ != id) implies rule_priority(rules, id)
                == rules[q].priority by {
                if q < n {
                    assert(rules[n].id.0@ != id);
                }
            }
        }
    }
}

proof fn lemma_due_plans_tagged(entries: Seq<InFlightView>, rule_id: Seq<char>, priority: u8, now: u64)
    ensures
        forall|k: int| 0 <= k < due_plans(entries, rule_id, priority, now).len() ==> {
            &&& (#[trigger] due_plans(entries, rule_id, priority, now)[k]).rule_id == Some(rule_id)
            &&& due_plans(entries, rule_id, priority, now)[k].priority == priority
        },
    decreases entries.len(),
{
    if entries.len() > 0 {
        let d = entries.drop_last();
        lemma_due_plans_tagged(d, rule_id, priority, now);
        let prev = due_plans(d, rule_id, priority, now);
        let acts = action_plans(entries.last().actions, rule_id, priority);
        let all = due_plans(entries, rule_id, priority, now);
        if now >= entries.last().execute_at {
            assert(all == prev + acts);
            assert forall|k: int| 0 <= k < all.len() implies (#[trigger] all[k]).rule_id == Some(rule_id)
                && all[k].priority == priority by {
                if k < prev.len() {
                    assert(all[k] == prev[k]);
                } else {
                    assert(all[k] == acts[k - prev.len()]);
                }
            }
        }
    }
}

/// `p` commands what action `a` sets: its device, attribute and value.
pub open spec fn commands_action(p: CommandPlan, a: ActionView) -> bool {
    &&& p.device_id == a.device_id
    &&& p.attribute == a.attribute
    &&& p.value == a.value
}

/// `p` performs an action of one of `entries` whose time has come at `now`.
pub open spec fn performs_due_action(p: CommandPlan, entries: Seq<InFlightView>, now: u64) -> bool {
    exists|i: int, j: int|
        #![trigger entries[i].actions[j]]
        0 <= i < entries.len() && entries[i].execute_at <= now && 0 <= j < entries[i].actions.len()
            && commands_action(p, entries[i].actions[j])
}

/// A tick fires the in-flight entries that are due and keeps the rest: every
/// command it issues for a rule's entries performs an action of an entry
/// whose time has come (`execute_at <= now`); the entries kept are exactly
/// those whose time has not come, in order.
pub proof fn law_tick_fires_only_due_entries(entries: Seq<InFlightView>, rule_id: Seq<char>, priority: u8, now: u64)
    ensures
        forall|k: int| #![trigger due_plans(entries, rule_id, priority, now)[k]]
            0 <= k < due_plans(entries, rule_id, priority, now).len() ==> performs_due_action(
                due_plans(entries, rule_id, priority, now)[k],
                entries,
                now,
            ),
        forall|k: int| #![trigger not_due(entries, now)[k]]
            0 <= k < not_due(entries, now).len() ==> not_due(entries, now)[k].execute_at > now
                && entries.contains(not_due(entries, now)[k]),
        forall|i: int| #![trigger entries[i]]
            0 <= i < entries.len() && entries[i].execute_at > now ==> not_due(entries, now).contains(entries[i]),
    decreases entries.len(),
{
    if entries.len() > 0 {
        let d = entries.drop_last();
        law_tick_fires_only_due_entries(d, rule_id, priority, now);
        let n = entries.len() - 1;
        let e = entries.last();
        assert(e == entries[n]);
        let all = due_plans(entries, rule_id, priority, now);
        let prev = due_plans(d, rule_id, priority, now);
        let acts = action_plans(e.actions, rule_id, priority);
        if now >= e.execute_at {
            assert(all == prev + acts);
        } else {
            assert(all == prev);
        }
        assert forall|k: int| #![trigger all[k]] 0 <= k < all.len() implies performs_due_action(all[k], entries, now) by {
            if k < prev.len() {
                assert(all[k] == prev[k]);
                assert(performs_due_action(prev[k], d, now));
                let (i, j) = choose|i: int, j: int|
                    0 <= i < d.len() && d[i].execute_at <= now && 0 <= j < d[i].actions.len() && commands_action(
                        prev[k],
                        #[trigger] d[i].actions[j],
                    );
                assert(d[i] == entries[i]);
                assert(commands_action(all[k], entries[i].actions[j]));
            } else {
                let j = k - prev.len();
                assert(all[k] == acts[j]);
                assert(commands_action(all[k], entries[n].actions[j]));
            }
        }
        let nd = not_due(entries, now);
        let ndd = not_due(d, now);
        if now >= e.execute_at {
            assert(nd == ndd);
        } else {
            assert(nd == ndd.push(e));
        }
        assert forall|k: int| #![trigger nd[k]] 0 <= k < nd.len() implies nd[k].execute_at > now && entries.contains(
            nd[k],
        ) by {
            if k < ndd.len() {
                assert(nd[k] == ndd[k]);
                let i = choose|i: int| 0 <= i < d.len() && d[i] == ndd[k];
                assert(entries[i] == d[i]);
            } else {
                assert(nd[k] == entries[n]);
            }
        }
        assert forall|i: int| #![trigger entries[i]] 0 <= i < entries.len() && entries[i].execute_at > now implies nd.contains(
            entries[i],
        ) by {
            if i < n {
                assert(d[i] == entries[i]);
                let k = choose|k: int| 0 <= k < ndd.len() && ndd[k] == d[i];
                assert(nd[k] == ndd[k]);
            } else {
                assert(nd[ndd.len() as int] == entries[i]);
            }
        }
    } else {
        assert(due_plans(entries, rule_id, priority, now).len() == 0);
    }
}

/// A rule's delayed actions and timeouts fire with the rule's priority:
/// every command a tick issues names the rule whose in-flight entry fired,
/// and carries the priority of the rule loaded under that id (the last one
/// listed with it), or 0 when no loaded rule has it.
pub proof fn law_tick_fires_with_rule_priority(
    states: Seq<(Seq<char>, RuleStateView)>,
    rules: Seq<Rule>,
    now: u64,
)
    ensures
        forall|k: int| 0 <= k < tick_plans(states, rules, now).len() ==> {
            &&& (#[trigger] tick_plans(states, rules, now)[k]).rule_id is Some
            &&& loaded_priority(
                rules,
                tick_plans(states, rules, now)[k].rule_id->0,
                tick_plans(states, rules, now)[k].priority,
            )
        },
    decreases states.len(),
{
    if states.len() > 0 {
        let d = states.drop_last();
        law_tick_fires_with_rule_priority(d, rules, now);
        let sv = states.last().1;
        let pr = rule_priority(rules, sv.rule_id);
        lemma_rule_priority_loaded(rules, sv.rule_id);
        lemma_due_plans_tagged(sv.in_flight, sv.rule_id, pr, now);
        let prev = tick_plans(d, rules, now);
        let due = due_plans(sv.in_flight, sv.rule_id, pr, now);
        let all = tick_plans(states, rules, now);
        assert(all == prev + due);
        assert forall|k: int| 0 <= k < all.len() implies (#[trigger] all[k]).rule_id is Some && loaded_priority(
            rules,
            all[k].rule_id->0,
            all[k].priority,
        ) by {
            if k < prev.len() {
                assert(all[k] == prev[k]);
            } else {
                assert(all[k] == due[k - prev.len()]);
            }
        }
    }
}

} // verus!

verus! {

// ── In-flight summaries ──────────────────────────────────────

pub struct SummaryView {
    pub rule_id: Seq<char>,
    pub device_id: Seq<char>,
    pub attribute: Seq<char>,
    pub value: Value,
    pub fires_at_ms: u64,
    pub kind: InFlightKind,
}

pub open spec fn summary_view(s: crate::rule_types::InFlightSummary) -> SummaryView {
    SummaryView {
        rule_id: s.rule_id@,
        device_id: s.device_id@,
        attribute: s.attribute@,
        value: s.value,
        fires_at_ms: s.fires_at_ms,
        kind: s.kind,
    }
}

/// One row per entry that has an action, shown by its first action.
pub open spec fn entry_rows(rule_id: Seq<char>, entries: Seq<InFlightView>) -> Seq<SummaryView>
    decreases entries.len(),
{
    if entries.len() == 0 {
        Seq::empty()
    } else {
        let prev = entry_rows(rule_id, entries.drop_last());
        let e = entries.last();
        if e.actions.len() > 0 {
            prev.push(
                SummaryView {
                    rule_id,
                    device_id: e.actions[0].device_id,
                    attribute: e.actions[0].attribute,
                    value: e.actions[0].value,
                    fires_at_ms: e.execute_at,
                    kind: e.kind,
                },
            )
        } else {
            prev
        }
    }
}

pub open spec fn summary_rows(states: Seq<(Seq<char>, RuleStateView)>) -> Seq<SummaryView>
    decreases states.len(),
{
    if states.len() == 0 {
        Seq::empty()
    } else {
        summary_rows(states.drop_last()) + entry_rows(states.last().1.rule_id, states.last().1.in_flight)
    }
}

/// `x` placed after every row of `sorted` that fires no later than it.
pub open spec fn insert_by_time(sorted: Seq<SummaryView>, x: SummaryView) -> Seq<SummaryView>
    decreases sorted.len(),
{
    if sorted.len() == 0 || sorted.last().fires_at_ms <= x.fires_at_ms {
        sorted.push(x)
    } else {
        insert_by_time(sorted.drop_last(), x).push(sorted.last())
    }
}

/// The rows in firing order, soonest first; rows firing together keep their
/// relative order.
pub open spec fn sort_by_time(s: Seq<SummaryView>) -> Seq<SummaryView>
    decreases s.len(),
{
    if s.len() == 0 {
        s
    } else {
        insert_by_time(sort_by_time(s.drop_last()), s.last())
    }
}

proof fn lemma_insert_by_time(s: Seq<SummaryView>, x: SummaryView, p: int)
    requires
        0 <= p <= s.len(),
        forall|j: int| p <= j < s.len() ==> (#[trigger] s[j]).fires_at_ms > x.fires_at_ms,
        p == 0 || s[p - 1].fires_at_ms <= x.fires_at_ms,
    ensures
        insert_by_time(s, x) == s.insert(p, x),
    decreases s.len() - p,
{
    if p == s.len() {
        assert(s.push(x) =~= s.insert(p, x));
    } else {
        let t = s.drop_last();
        assert forall|j: int| p <= j < t.len() implies (#[trigger] t[j]).fires_at_ms > x.fires_at_ms by {
            assert(t[j] == s[j]);
        }
        if p > 0 {
            assert(t[p - 1] == s[p - 1]);
        }
        lemma_insert_by_time(t, x, p);
        assert(t.insert(p, x).push(s.last()) =~= s.insert(p, x));
    }
}

/// Every row of `sort_by_time(s)` fires no later than the rows after it.
pub proof fn lemma_sort_by_time_sorted(s: Seq<SummaryView>)
    ensures
        sort_by_time(s).len() == s.len(),
        forall|i: int, j: int|
            0 <= i < j < sort_by_time(s).len() ==> (#[trigger] sort_by_time(s)[i]).fires_at_ms
                <= (#[trigger] sort_by_time(s)[j]).fires_at_ms,
    decreases s.len(),
{
    if s.len() > 0 {
        lemma_sort_by_time_sorted(s.drop_last());
        lemma_insert_sorted(sort_by_time(s.drop_last()), s.last());
    }
}

proof fn lemma_insert_sorted(s: Seq<SummaryView>, x: SummaryView)
    requires
        forall|i: int, j: int| 0 <= i < j < s.len() ==> (#[trigger] s[i]).fires_at_ms <= (#[trigger] s[j]).fires_at_ms,
    ensures
        insert_by_time(s, x).len() == s.len() + 1,
        forall|i: int, j: int|
            0 <= i < j < insert_by_time(s, x).len() ==> (#[trigger] insert_by_time(s, x)[i]).fires_at_ms
                <= (#[trigger] insert_by_time(s, x)[j]).fires_at_ms,
        forall|i: int|
            0 <= i < insert_by_time(s, x).len() ==> (#[trigger] insert_by_time(s, x)[i]) == x || s.contains(
                insert_by_time(s, x)[i],
            ),
    decreases s.len(),
{
    if s.len() > 0 && s.last().fires_at_ms > x.fires_at_ms {
        let t = s.drop_last();
        assert forall|i: int, j: int| 0 <= i < j < t.len() implies (#[trigger] t[i]).fires_at_ms
            <= (#[trigger] t[j]).fires_at_ms by {
            assert(t[i] == s[i] && t[j] == s[j]);
        }
        lemma_insert_sorted(t, x);
        let r = insert_by_time(s, x);
        let q = insert_by_time(t, x);
        assert(r == q.push(s.last()));
        assert forall|i: int| 0 <= i < q.len() implies (#[trigger] q[i]).fires_at_ms <= s.last().fires_at_ms by {
            if q[i] != x {
                assert(t.contains(q[i]));
                let k = choose|k: int| 0 <= k < t.len() && t[k] == q[i];
                assert(t[k] == s[k]);
            }
        }
        assert forall|i: int| 0 <= i < r.len() implies (#[trigger] r[i]) == x || s.contains(r[i]) by {
            if i < q.len() {
                assert(r[i] == q[i]);
                if q[i] != x {
                    let k = choose|k: int| 0 <= k < t.len() && t[k] == q[i];
                    assert(s[k] == q[i]);
                }
            } else {
                assert(r[i] == s[s.len() - 1]);
            }
        }
    } else {
        let r = insert_by_time(s, x);
        assert(r == s.push(x));
        assert forall|i: int| 0 <= i < r.len() implies (#[trigger] r[i]) == x || s.contains(r[i]) by {
            if i < s.len() {
                assert(r[i] == s[i]);
            }
        }
    }
}

impl RuleEngine {
    /// The in-flight entries, one row per entry (shown by its first
    /// action), soonest first.
    pub fn in_flight_summaries(&self) -> (r: Vec<crate::rule_types::InFlightSummary>)
        ensures
            r@.map_values(|s: crate::rule_types::InFlightSummary| summary_view(s)) == sort_by_time(
                summary_rows(states_view(self.rule_states)),
            ),
    {
        let ghost sv = states_view(self.rule_states);
        let mut rows: Vec<crate::rule_types::InFlightSummary> = Vec::new();
        let n = self.rule_states.entries.len();
        let mut i: usize = 0;
        while i < n
            invariant
                n == self.rule_states.entries@.len(),
                sv == states_view(self.rule_states),
                i <= n,
                rows@.map_values(|s: crate::rule_types::InFlightSummary| summary_view(s)) == summary_rows(
                    sv.subrange(0, i as int),
                ),
            decreases n - i,
        {
            let rs = &self.rule_states.entries[i].1;
            let ghost base = rows@.map_values(|s: crate::rule_types::InFlightSummary| summary_view(s));
            let ghost fv = rs.in_flight@.map_values(|e: InFlightEntry| in_flight_view(e));
            let ghost before = rows@;
            let m = rs.in_flight.len();
            let mut j: usize = 0;
            while j < m
                invariant
                    m == rs.in_flight@.len(),
                    j <= m,
                    fv == rs.in_flight@.map_values(|e: InFlightEntry| in_flight_view(e)),
                    rows@.map_values(|s: crate::rule_types::InFlightSummary| summary_view(s)) == base
                        + entry_rows(rs.rule_id@, fv.subrange(0, j as int)),
                decreases m - j,
            {
                let e = &rs.in_flight[j];
                proof {
                    let t = fv.subrange(0, j + 1);
                    assert(t.drop_last() =~= fv.subrange(0, j as int));
                    assert(t.last() == in_flight_view(*e));
                }
                if e.actions.len() > 0 {
                    let first = &e.actions[0];
                    let row = crate::rule_types::InFlightSummary {
                        rule_id: rs.rule_id.clone(),
                        device_id: first.device_id.clone(),
                        attribute: first.attribute.clone(),
                        value: first.value.duplicate(),
                        fires_at_ms: e.execute_at,
                        kind: e.kind,
                    };
                    let ghost rb = rows@;
                    rows.push(row);
                    proof {
                        assert(in_flight_view(*e).actions[0] == action_view(e.actions@[0]));
                        assert(rows@.map_values(|s: crate::rule_types::InFlightSummary| summary_view(s))
                            =~= rb.map_values(|s: crate::rule_types::InFlightSummary| summary_view(s)).push(
                            summary_view(row),
                        ));
                    }
                } else {
                    proof {
                        assert(in_flight_view(*e).actions.len() == 0);
                    }
                }
                j = j + 1;
            }
            proof {
                assert(fv.subrange(0, m as int) =~= fv);
                assert(sv[i as int] == (self.rule_states.entries@[i as int].0@, rule_state_view(*rs)));
                let t = sv.subrange(0, i + 1);
                assert(t.drop_last() =~= sv.subrange(0, i as int));
                assert(t.last() == sv[i as int]);
            }
            i = i + 1;
        }
        assert(sv.subrange(0, n as int) =~= sv);
        // Stable insertion sort by firing time.
        let ghost all_rows = rows@.map_values(|s: crate::rule_types::InFlightSummary| summary_view(s));
        let mut sorted: Vec<crate::rule_types::InFlightSummary> = Vec::new();
        let mut rest = rows;
        let total = rest.len();
        let mut k: usize = 0;
        while k < total
            invariant
                total == all_rows.len(),
                k <= total,
                rest@.len() == total - k,
                rest@.map_values(|s: crate::rule_types::InFlightSummary| summary_view(s)) == all_rows.subrange(
                    k as int,
                    total as int,
                ),
                sorted@.map_values(|s: crate::rule_types::InFlightSummary| summary_view(s)) == sort_by_time(
                    all_rows.subrange(0, k as int),
                ),
            decreases total - k,
        {
            let ghost rest_before = rest@;
            let x = rest.remove(0);
            let ghost sv_sorted = sorted@.map_values(|s: crate::rule_types::InFlightSummary| summary_view(s));
            proof {
                let rv = all_rows.subrange(k as int, total as int);
                assert(rv[0] == rest_before.map_values(|s: crate::rule_types::InFlightSummary| summary_view(s))[0]);
                assert(summary_view(x) == rv[0]);
                let t = all_rows.subrange(0, k + 1);
                assert(t.drop_last() =~= all_rows.subrange(0, k as int));
                assert(t.last() == all_rows[k as int]);
                let rbv = rest_before.map_values(|s: crate::rule_types::InFlightSummary| summary_view(s));
                assert forall|j: int| 0 <= j < rest@.len() implies #[trigger] summary_view(rest@[j]) == all_rows[k + 1 + j] by {
                    assert(rest@[j] == rest_before[j + 1]);
                    assert(rbv[j + 1] == summary_view(rest_before[j + 1]));
                    assert(rbv[j + 1] == rv[j + 1]);
                }
                assert(rest@.map_values(|s: crate::rule_types::InFlightSummary| summary_view(s)) =~= all_rows.subrange(
                    k + 1,
                    total as int,
                ));
            }
            let mut p = sorted.len();
            while p > 0 && sorted[p - 1].fires_at_ms > x.fires_at_ms
                invariant
                    p <= sorted@.len(),
                    forall|j: int| p <= j < sorted@.len() ==> (#[trigger] sorted@[j]).fires_at_ms > x.fires_at_ms,
                decreases p,
            {
                p = p - 1;
            }
            let ghost xv = summary_view(x);
            sorted.insert(p, x);
            proof {
                assert forall|j: int| p <= j < sv_sorted.len() implies (#[trigger] sv_sorted[j]).fires_at_ms
                    > xv.fires_at_ms by {}
                lemma_insert_by_time(sv_sorted, xv, p as int);
                assert(sorted@.map_values(|s: crate::rule_types::InFlightSummary| summary_view(s))
                    =~= sv_sorted.insert(p as int, xv));
            }
            k = k + 1;
        }
        assert(all_rows.subrange(0, total as int) =~= all_rows);
        sorted
    }
}


// ── Hot-reload laws ──────────────────────────────────────────

proof fn lemma_retained_key(s: Seq<(Seq<char>, RuleStateView)>, rules: Seq<Rule>, k: Seq<char>)
    ensures
        rule_listed(rules, k) ==> ((key_pos(retained(s, rules), k) >= 0) == (key_pos(s, k) >= 0)),
        rule_listed(rules, k) && key_pos(s, k) >= 0 ==> retained(s, rules)[key_pos(
            retained(s, rules),
            k,
        )].1 == s[key_pos(s, k)].1,
        !rule_listed(rules, k) ==> key_pos(retained(s, rules), k) == -1,
    decreases s.len(),
{
    if s.len() > 0 {
        let t = s.drop_last();
        let x = s.last();
        lemma_retained_key(t, rules, k);
        lemma_key_pos_bounds(retained(t, rules), k);
        lemma_key_pos_bounds(t, k);
        if x.0 != k {
            assert(key_pos(s, k) == key_pos(t, k));
            if key_pos(t, k) >= 0 {
                assert(s[key_pos(t, k)] == t[key_pos(t, k)]);
            }
        }
        if rule_listed(rules, x.0) {
            let r = retained(t, rules).push(x);
            assert(retained(s, rules) == r);
            assert(r.drop_last() == retained(t, rules));
            if x.0 != k {
                assert(key_pos(r, k) == key_pos(retained(t, rules), k));
                if key_pos(r, k) >= 0 {
                    assert(r[key_pos(r, k)] == retained(t, rules)[key_pos(r, k)]);
                }
            } else {
                assert(key_pos(r, k) == r.len() - 1);
                assert(r[r.len() - 1] == x);
                assert(key_pos(s, k) == s.len() - 1);
            }
        } else {
            assert(retained(s, rules) == retained(t, rules));
            if x.0 == k {
                assert(!rule_listed(rules, k));
            }
        }
    }
}

proof fn lemma_ensure_all_key(st: Seq<(Seq<char>, RuleStateView)>, rules: Seq<Rule>, k: Seq<char>)
    ensures
        key_pos(st, k) >= 0 ==> key_pos(ensure_all(st, rules), k) >= 0 && ensure_all(st, rules)[key_pos(
            ensure_all(st, rules),
            k,
        )].1 == st[key_pos(st, k)].1,
        key_pos(st, k) < 0 && rule_listed(rules, k) ==> key_pos(ensure_all(st, rules), k) >= 0
            && ensure_all(st, rules)[key_pos(ensure_all(st, rules), k)].1 == fresh_rule_state(k),
        key_pos(st, k) < 0 && !rule_listed(rules, k) ==> key_pos(ensure_all(st, rules), k) == -1,
    decreases rules.len(),
{
    lemma_key_pos_bounds(st, k);
    if rules.len() > 0 {
        let d = rules.drop_last();
        let id = rules.last().id.0@;
        let prev = ensure_all(st, d);
        lemma_ensure_all_key(st, d, k);
        lemma_key_pos_bounds(prev, k);
        lemma_key_pos_bounds(prev, id);
        assert(ensure_all(st, rules) == ensure_state(prev, id));
        assert(rules[rules.len() - 1] == rules.last());
        if id == k {
            assert(rule_listed(rules, k));
        }
        if rule_listed(rules, k) && !rule_listed(d, k) {
            let i = choose|i: int| 0 <= i < rules.len() && #[trigger] rules[i].id.0@ == k;
            if i < d.len() {
                assert(d[i] == rules[i]);
            }
            assert(id == k);
        }
        if rule_listed(d, k) {
            let i = choose|i: int| 0 <= i < d.len() && #[trigger] d[i].id.0@ == k;
            assert(rules[i] == d[i]);
            assert(rules[i].id.0@ == k);
            assert(rule_listed(rules, k));
        }
        if key_pos(st, k) < 0 && !rule_listed(rules, k) {
            assert(!rule_listed(d, k));
            assert(key_pos(prev, k) == -1);
            assert(id != k);
            if key_pos(prev, id) < 0 {
                let r = prev.push((id, fresh_rule_state(id)));
                assert(r.drop_last() == prev);
                assert(key_pos(r, k) == key_pos(prev, k));
                assert(ensure_all(st, rules) == r);
            } else {
                assert(ensure_all(st, rules) == prev);
            }
        }
        if key_pos(prev, id) < 0 {
            let r = prev.push((id, fresh_rule_state(id)));
            assert(r.drop_last() == prev);
            if id != k {
                assert(key_pos(r, k) == key_pos(prev, k));
                if key_pos(prev, k) >= 0 {
                    assert(r[key_pos(prev, k)] == prev[key_pos(prev, k)]);
                }
            }
        }
    }
}

/// A rule reload keeps the state (condition timers and in-flight actions)
/// of every rule still listed, gives a rule new to the set a fresh state,
/// and drops the state of every rule no longer listed.
pub proof fn law_reload_keeps_listed_rule_state(
    before: Seq<(Seq<char>, RuleStateView)>,
    rules: Seq<Rule>,
    k: Seq<char>,
)
    ensures
        ({
            let after = ensure_all(retained(before, rules), rules);
            &&& rule_listed(rules, k) && key_pos(before, k) >= 0 ==> key_pos(after, k) >= 0
                && after[key_pos(after, k)].1 == before[key_pos(before, k)].1
            &&& rule_listed(rules, k) && key_pos(before, k) < 0 ==> key_pos(after, k) >= 0
                && after[key_pos(after, k)].1 == fresh_rule_state(k)
            &&& !rule_listed(rules, k) ==> key_pos(after, k) == -1
        }),
{
    lemma_retained_key(before, rules, k);
    lemma_ensure_all_key(retained(before, rules), rules, k);
}


// ── Timeout law ──────────────────────────────────────────────

/// How many of the entries are timeouts.
pub open spec fn timeout_count(s: Seq<InFlightView>) -> nat
    decreases s.len(),
{
    if s.len() == 0 {
        0
    } else {
        timeout_count(s.drop_last()) + if s.last().kind == InFlightKind::Timeout {
            1nat
        } else {
            0nat
        }
    }
}

proof fn lemma_timeout_count_concat(a: Seq<InFlightView>, b: Seq<InFlightView>)
    ensures
        timeout_count(a + b) == timeout_count(a) + timeout_count(b),
    decreases b.len(),
{
    if b.len() > 0 {
        lemma_timeout_count_concat(a, b.drop_last());
        assert((a + b).drop_last() =~= a + b.drop_last());
    } else {
        assert(a + b =~= a);
    }
}

proof fn lemma_no_timeouts_left(s: Seq<InFlightView>)
    ensures
        timeout_count(without_timeout_views(s)) == 0,
    decreases s.len(),
{
    if s.len() > 0 {
        lemma_no_timeouts_left(s.drop_last());
        let w = without_timeout_views(s.drop_last());
        if s.last().kind != InFlightKind::Timeout {
            assert(w.push(s.last()).drop_last() =~= w);
        }
    }
}

proof fn lemma_delayed_not_timeouts(acts: Seq<Action>, now: u64)
    ensures
        timeout_count(delayed_entries(acts, now)) == 0,
    decreases acts.len(),
{
    if acts.len() > 0 {
        lemma_delayed_not_timeouts(acts.drop_last(), now);
        let prev = delayed_entries(acts.drop_last(), now);
        if acts.last().delay_seconds is Some {
            assert(delayed_entries(acts, now).drop_last() =~= prev);
        }
    }
}

/// A rule never has more than one timeout pending: when a stateful rule
/// fires, the running timeout is replaced, so it then has exactly one.
pub proof fn law_one_pending_timeout(
    rule: Rule,
    devices: OrderedMap<DeviceId, DeviceState>,
    s: RuleStateView,
    now: u64,
)
    requires
        timeout_count(s.in_flight) <= 1,
    ensures
        timeout_count(step_state(rule, devices, s, now).in_flight) <= 1,
        fires(rule, devices, s, now) && rule.stateful is Some ==> timeout_count(
            step_state(rule, devices, s, now).in_flight,
        ) == 1,
{
    lemma_blocking_range(rule, devices, s.met, now, 0);
    if fires(rule, devices, s, now) {
        let base = if rule.stateful is Some {
            without_timeout_views(s.in_flight)
        } else {
            s.in_flight
        };
        let d = delayed_entries(rule.actions@, now);
        lemma_timeout_count_concat(base, d);
        lemma_delayed_not_timeouts(rule.actions@, now);
        lemma_no_timeouts_left(s.in_flight);
        match rule.stateful {
            Some(st) => {
                let w = (base + d).push(timeout_entry(st, now));
                assert(w.drop_last() =~= base + d);
            },
            None => {},
        }
    }
}

} // verus!
