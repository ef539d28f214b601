use std::sync::Arc;

use smarthome::dispatcher::CommandDispatcher;
use smarthome::ingestor::EventIngestor;
use smarthome::ordered_map::OrderedMap;
use smarthome::pipeline::{adapter_command_for, conflict_event, confirmed_event, dispatch_resolved, failed_event, wal_config_for};
use smarthome::reconciler::{boot_reconcile_at, continuous_reconcile};
use smarthome::registry::{device_from_entry, parse_device_kind, CapabilityEntry, DeviceEntry, DeviceRegistry};
use smarthome::resolver::{ConflictReason, ConflictResolver};
use smarthome::rule_loader::{load_rules_from_entries, parse_operator, parse_rule};
use smarthome::rule_types::{ActionEntry, ConditionEntry, InFlightKind, RuleEntry, RuleError, StatefulEntry, TriggerEntry};
use smarthome::rules::RuleEngine;
use smarthome::state_engine::StateEngine;
use smarthome::types::{
    AttributeKey, Capability, Command, CommandStatus, DeviceId, DeviceKind, EventKind, EventSource,
    RawDeviceEvent, RuleId, StateUpdate, Value,
};

const DEGRADED: f32 = 0.5;
const UNKNOWN: f32 = 0.2;

fn entry(id: &str, external: &str, kind: &str, writable: bool) -> DeviceEntry {
    DeviceEntry {
        id: id.to_string(),
        external_id: external.to_string(),
        name: id.to_uppercase(),
        kind: kind.to_string(),
        capabilities: vec![if writable {
            CapabilityEntry { writable: Some("state".to_string()), readable: None }
        } else {
            CapabilityEntry { writable: None, readable: Some("state".to_string()) }
        }],
        confidence_decay_seconds: 30,
        safe_default: vec![("state".to_string(), Value::Text("closed".to_string()))],
    }
}

fn registry() -> DeviceRegistry {
    DeviceRegistry::from_entries(vec![
        entry("main_gate", "switch.main_gate", "Gate", true),
        entry("mains", "binary_sensor.mains_power", "PowerMonitor", false),
        entry("porch", "light.porch", "SecurityLight", true),
    ])
}

fn raw(external: &str, value: &str, ts: u64) -> RawDeviceEvent {
    RawDeviceEvent {
        external_id: external.to_string(),
        attribute: "state".to_string(),
        value: Value::Text(value.to_string()),
        timestamp: ts,
        source: EventSource::Adapter,
        raw: String::new(),
    }
}

fn cmd(id: &str, device: &str, priority: u8, rule: Option<&str>) -> Command {
    Command {
        id: id.to_string(),
        rule_id: rule.map(|r| RuleId(r.to_string())),
        device_id: DeviceId(device.to_string()),
        attribute: AttributeKey("state".to_string()),
        value: Value::Text("open".to_string()),
        issued_at: 0,
        status: CommandStatus::Pending,
        retry_count: 0,
        priority,
    }
}

fn text(v: Option<&Value>) -> Option<String> {
    match v {
        Some(Value::Text(t)) => Some(t.clone()),
        _ => None,
    }
}

#[test]
fn device_entries_become_devices() {
    let d = device_from_entry(DeviceEntry {
        id: "pump".to_string(),
        external_id: "switch.pump".to_string(),
        name: "Pump".to_string(),
        kind: "BoreholePump".to_string(),
        capabilities: vec![
            CapabilityEntry { writable: Some("state".to_string()), readable: Some("x".to_string()) },
            CapabilityEntry { writable: None, readable: Some("flow".to_string()) },
            CapabilityEntry { writable: None, readable: None },
        ],
        confidence_decay_seconds: 60,
        safe_default: vec![
            ("state".to_string(), Value::Text("on".to_string())),
            ("state".to_string(), Value::Text("off".to_string())),
        ],
    });
    assert_eq!(d.kind, DeviceKind::BoreholePump);
    assert!(matches!(&d.capabilities[0], Capability::Writable(a) if a.0 == "state"));
    assert!(matches!(&d.capabilities[1], Capability::Readable(a) if a.0 == "flow"));
    assert!(matches!(&d.capabilities[2], Capability::Readable(a) if a.0 == "unknown"));
    assert_eq!(d.safe_default.entries.len(), 1);
    assert_eq!(text(d.safe_default.get(&AttributeKey("state".to_string()))), Some("off".to_string()));
    assert_eq!(parse_device_kind("Teapot"), DeviceKind::Unknown);
}

#[test]
fn later_device_entries_replace_earlier_ones() {
    let r = DeviceRegistry::from_entries(vec![
        entry("gate", "switch.a", "Gate", true),
        entry("gate", "switch.b", "Camera", false),
    ]);
    assert_eq!(r.len(), 1);
    assert_eq!(r.get(&DeviceId("gate".to_string())).unwrap().kind, DeviceKind::Camera);
    assert_eq!(r.resolve_external("switch.a").unwrap().0, "gate");
    assert_eq!(r.resolve_external("switch.b").unwrap().0, "gate");
    assert!(r.resolve_external("switch.c").is_none());
}

#[test]
fn repeat_within_window_is_dropped() {
    let mut ing = EventIngestor::new(Arc::new(registry()), 500);
    let first = ing.ingest(raw("switch.main_gate", "open", 1000)).unwrap();
    assert_eq!(first.sequence, 1);
    assert_eq!(first.kind, EventKind::DeviceStateChanged);
    assert!(matches!(&first.source, EventSource::Device(d) if d.0 == "main_gate"));
    assert_eq!(text(first.payload.get(&"attribute".to_string())), Some("state".to_string()));
    assert_eq!(text(first.payload.get(&"device_id".to_string())), Some("main_gate".to_string()));
    assert!(ing.ingest(raw("switch.main_gate", "open", 1499)).is_none());
    // A new value, or the same one after the window, is accepted.
    assert_eq!(ing.ingest(raw("switch.main_gate", "open", 1500)).unwrap().sequence, 2);
    assert_eq!(ing.ingest(raw("switch.main_gate", "closed", 1501)).unwrap().sequence, 3);
    // Unknown devices are dropped.
    assert!(ing.ingest(raw("switch.unknown", "open", 0)).is_none());
}

#[test]
fn ingested_report_is_read_back() {
    let reg = registry();
    let mut engine = StateEngine::new(&reg, DEGRADED.to_bits(), UNKNOWN.to_bits());
    let mut ing = EventIngestor::new(Arc::new(registry()), 0);
    let event = ing.ingest(raw("switch.main_gate", "open", 10)).unwrap();
    let update = engine.apply_event_at(&event, 10);
    assert_eq!(update.changed_devices.len(), 1);
    let st = engine.get(&DeviceId("main_gate".to_string())).unwrap();
    assert_eq!(st.confidence.value, 1.0f32.to_bits());
    assert_eq!(st.last_seen, 10);
    assert_eq!(text(st.get_effective(&AttributeKey("state".to_string()), UNKNOWN.to_bits())), Some("open".to_string()));
}

#[test]
fn zero_confidence_reads_safe_default() {
    let reg = registry();
    let mut engine = StateEngine::new(&reg, DEGRADED.to_bits(), UNKNOWN.to_bits());
    let mut ing = EventIngestor::new(Arc::new(registry()), 0);
    let event = ing.ingest(raw("switch.main_gate", "open", 10)).unwrap();
    engine.apply_event_at(&event, 10);
    engine.zero_confidence(&DeviceId("main_gate".to_string()));
    let st = engine.get(&DeviceId("main_gate".to_string())).unwrap();
    assert_eq!(text(st.get_effective(&AttributeKey("state".to_string()), UNKNOWN.to_bits())), Some("closed".to_string()));
    assert_eq!(text(st.actual.get(&AttributeKey("state".to_string()))), Some("open".to_string()));
}

#[test]
fn higher_priority_wins_and_loser_is_recorded() {
    let r = ConflictResolver::new().resolve_at(
        vec![
            cmd("01B", "main_gate", 10, Some("night")),
            cmd("01A", "main_gate", 50, Some("arrival")),
            cmd("01C", "porch", 1, None),
        ],
        77,
    );
    assert_eq!(r.winners.len(), 2);
    assert_eq!(r.winners[0].id, "01A");
    assert_eq!(r.winners[1].id, "01C");
    assert_eq!(r.conflicts.len(), 1);
    let c = &r.conflicts[0];
    assert_eq!(c.winning_command_id, "01A");
    assert_eq!(c.losing_command_id, "01B");
    assert_eq!(c.reason, ConflictReason::LowerPriority);
    assert_eq!(c.winning_priority, 50);
    assert_eq!(c.losing_priority, 10);
    assert_eq!(c.timestamp, 77);
    // Every candidate is a winner or a loser.
    assert_eq!(r.winners.len() + r.conflicts.len(), 3);
}

#[test]
fn priority_tie_goes_to_smaller_id() {
    let r = ConflictResolver::new().resolve_at(
        vec![cmd("01Z", "porch", 5, Some("a")), cmd("01M", "porch", 5, Some("b")), cmd("01N", "porch", 5, None)],
        0,
    );
    assert_eq!(r.winners.len(), 1);
    assert_eq!(r.winners[0].id, "01M");
    assert_eq!(r.conflicts.len(), 2);
    assert_eq!(r.conflicts[0].losing_command_id, "01N");
    assert_eq!(r.conflicts[1].losing_command_id, "01Z");
    assert!(r.conflicts.iter().all(|c| c.reason == ConflictReason::PriorityTie));
}

#[test]
fn dispatch_queues_winners_and_logs_conflicts() {
    let mut d = CommandDispatcher::new(3, 5000);
    let out = dispatch_resolved(
        vec![cmd("01B", "main_gate", 10, Some("night")), cmd("01A", "main_gate", 50, None)],
        &ConflictResolver::new(),
        &mut d,
    );
    assert_eq!(d.pending_count(), 1);
    assert_eq!(d.all_commands()[0].id, "01A");
    assert_eq!(out.conflicts.len(), 1);
    assert_eq!(out.events.len(), 1);
    let e = &out.events[0];
    assert_eq!(e.kind, EventKind::RuleConflict);
    assert_eq!(text(e.payload.get(&"winning_rule".to_string())), Some(String::new()));
    assert_eq!(text(e.payload.get(&"losing_rule".to_string())), Some("night".to_string()));
    assert_eq!(text(e.payload.get(&"device_id".to_string())), Some("main_gate".to_string()));
    assert_eq!(text(e.payload.get(&"attribute".to_string())), Some("state".to_string()));
    let sent = d.drain_pending();
    assert_eq!(sent.len(), 1);
    let a = adapter_command_for(&sent[0]);
    assert_eq!(a.external_id, "main_gate");
    assert_eq!(a.command_id, "01A");
    // No candidates, no change.
    let out = dispatch_resolved(vec![], &ConflictResolver::new(), &mut d);
    assert!(out.events.is_empty());
    assert_eq!(d.pending_count(), 1);
}

#[test]
fn lifecycle_events_carry_their_command() {
    let e = confirmed_event(&"01A".to_string());
    assert_eq!(e.kind, EventKind::CommandConfirmed);
    assert!(matches!(e.source, EventSource::System));
    assert_eq!(text(e.payload.get(&"command_id".to_string())), Some("01A".to_string()));
    let f = failed_event(&cmd("01Q", "porch", 1, None));
    assert_eq!(f.kind, EventKind::CommandFailed);
    assert_eq!(text(f.payload.get(&"device_id".to_string())), Some("porch".to_string()));
    assert_eq!(e.id.len(), 26);
    let c = ConflictResolver::new().resolve_at(vec![cmd("1", "porch", 2, Some("x")), cmd("2", "porch", 1, None)], 0);
    let ce = conflict_event(&c.conflicts[0]);
    assert_eq!(text(ce.payload.get(&"losing_rule".to_string())), Some(String::new()));
    assert_eq!(text(ce.payload.get(&"winning_rule".to_string())), Some("x".to_string()));
}

#[test]
fn platform_picks_wal_settings() {
    assert_eq!(wal_config_for("openwrt", "/w", "/s").buffer_max_age_secs, 30);
    assert_eq!(wal_config_for("linux", "/w", "/s").buffer_max_age_secs, 5);
    assert_eq!(wal_config_for("other", "/w", "/s").db_path, "/w/wal.db");
}

#[test]
fn confirmed_command_is_no_longer_tracked() {
    let mut d = CommandDispatcher::new(2, 1000);
    d.enqueue(cmd("01A", "porch", 1, None));
    d.mark_sent("01A");
    let c = d.confirm("01A").unwrap();
    assert!(matches!(c.status, CommandStatus::Confirmed));
    assert_eq!(d.pending_count(), 0);
    assert!(d.confirm("01A").is_none());
}

#[test]
fn unconfirmed_command_is_retried_then_fails() {
    let mut d = CommandDispatcher::new(1, 1000);
    let mut c = cmd("01A", "porch", 1, None);
    c.issued_at = 0;
    d.enqueue(c);
    d.drain_pending();
    d.mark_sent("01A");
    d.tick(500);
    assert!(d.drain_pending().is_empty());
    d.tick(1500);
    let retried = d.drain_pending();
    assert_eq!(retried.len(), 1);
    assert_eq!(retried[0].retry_count, 1);
    d.mark_sent("01A");
    d.tick(3000);
    let failed = d.drain_failed();
    assert_eq!(failed.len(), 1);
    assert!(matches!(failed[0].status, CommandStatus::Failed(_)));
    assert_eq!(d.pending_count(), 0);
}

#[test]
fn boot_reconcile_corrects_known_mismatches() {
    let reg = registry();
    let mut engine = StateEngine::new(&reg, DEGRADED.to_bits(), UNKNOWN.to_bits());
    let mut ing = EventIngestor::new(Arc::new(registry()), 0);
    let e = ing.ingest(raw("switch.main_gate", "closed", 5)).unwrap();
    engine.apply_event_at(&e, 5);
    engine.set_desired_at(&DeviceId("main_gate".to_string()), AttributeKey("state".to_string()), Value::Text("open".to_string()), EventSource::User, 6);
    engine.set_desired_at(&DeviceId("porch".to_string()), AttributeKey("state".to_string()), Value::Text("on".to_string()), EventSource::User, 6);
    let (commands, report) = boot_reconcile_at(&engine, DEGRADED.to_bits(), 100);
    assert_eq!(commands.len(), 1);
    assert_eq!(commands[0].device_id.0, "main_gate");
    assert_eq!(commands[0].priority, 255);
    assert!(commands[0].rule_id.is_none());
    assert_eq!(report.mismatches_found, 2);
    assert_eq!(report.commands_issued, 1);
    assert_eq!(report.skipped_no_actual, 1);
    assert_eq!(report.unreachable_devices.len(), 1);
    assert_eq!(report.completed_at, 100);
}

fn rule_entry(id: &str, op: &str) -> RuleEntry {
    RuleEntry {
        id: id.to_string(),
        name: "gate opens porch".to_string(),
        enabled: true,
        priority: 20,
        conflict_group: "lights".to_string(),
        trigger: TriggerEntry {
            kind: "DeviceStateChanged".to_string(),
            device_id: Some("main_gate".to_string()),
            attribute: Some("state".to_string()),
        },
        conditions: vec![ConditionEntry {
            subject_device_id: "main_gate".to_string(),
            subject_attribute: "state".to_string(),
            operator: op.to_string(),
            value_text: Some("open".to_string()),
            value_float: None,
            value_int: None,
            value_bool: None,
            value_range_min: None,
            value_range_max: None,
            duration_seconds: None,
        }],
        actions: vec![ActionEntry {
            device_id: "porch".to_string(),
            attribute: "state".to_string(),
            value_text: Some("on".to_string()),
            value_float: None,
            value_int: None,
            value_bool: None,
            delay_seconds: None,
            params: OrderedMap::new(),
        }],
        stateful: None,
    }
}

#[test]
fn rule_loading_reports_unknown_operator() {
    let reg = registry();
    match parse_rule(rule_entry("r1", "Roughly"), &reg) {
        Err(RuleError::UnknownOperator(rule, op)) => {
            assert_eq!(op, "Roughly");
            assert_eq!(rule, "r1");
        }
        other => panic!("unexpected {:?}", other.is_ok()),
    }
    assert!(parse_operator("Between", "r").is_ok());
    let mut bad = rule_entry("r2", "Equals");
    bad.trigger.device_id = Some("garage".to_string());
    assert!(matches!(parse_rule(bad, &reg), Err(RuleError::UnknownDevice(_, d)) if d == "garage"));
    let rules = load_rules_from_entries(vec![rule_entry("ok", "Equals"), rule_entry("bad", "Nope")], &reg);
    assert_eq!(rules.len(), 1);
    assert_eq!(rules[0].id.0, "ok");
}

#[test]
fn rule_fires_when_its_condition_holds() {
    let reg = registry();
    let mut engine = StateEngine::new(&reg, DEGRADED.to_bits(), UNKNOWN.to_bits());
    let mut ing = EventIngestor::new(Arc::new(registry()), 0);
    let mut rules = RuleEngine::new();
    rules.load_rules(load_rules_from_entries(vec![rule_entry("gate-porch", "Equals")], &reg));
    let e = ing.ingest(raw("switch.main_gate", "open", 1000)).unwrap();
    let update = engine.apply_event_at(&e, 1000);
    let commands = rules.evaluate(&update, engine.get_all(), 1000);
    assert_eq!(commands.len(), 1);
    assert_eq!(commands[0].device_id.0, "porch");
    assert_eq!(commands[0].priority, 20);
    assert_eq!(commands[0].rule_id.as_ref().unwrap().0, "gate-porch");
    // An update of another device does not trigger it.
    let none = rules.evaluate(&StateUpdate { changed_devices: vec![DeviceId("porch".to_string())] }, engine.get_all(), 1001);
    assert!(none.is_empty());
    let report = rules.hot_reload(vec![]);
    assert_eq!(report.rules_removed, 1);
    assert_eq!(report.rules_loaded, 0);
}

#[test]
fn reload_keeps_in_flight_of_listed_rules() {
    let reg = registry();
    let mut engine = StateEngine::new(&reg, DEGRADED.to_bits(), UNKNOWN.to_bits());
    let mut ing = EventIngestor::new(Arc::new(registry()), 0);
    let mut delayed = rule_entry("delayed", "Equals");
    delayed.actions[0].delay_seconds = Some(60);
    let mut rules = RuleEngine::new();
    rules.load_rules(load_rules_from_entries(vec![delayed.clone(), rule_entry("other", "Equals")], &reg));
    let e = ing.ingest(raw("switch.main_gate", "open", 1000)).unwrap();
    let update = engine.apply_event_at(&e, 1000);
    let now_cmds = rules.evaluate(&update, engine.get_all(), 1000);
    assert_eq!(now_cmds.len(), 1);
    let waiting = rules.in_flight_summaries();
    assert_eq!(waiting.len(), 1);
    assert_eq!(waiting[0].rule_id, "delayed");
    assert_eq!(waiting[0].fires_at_ms, 61_000);
    // Reloading with the delayed rule still listed keeps its pending action.
    let report = rules.hot_reload(load_rules_from_entries(vec![delayed.clone()], &reg));
    assert_eq!(report.rules_removed, 1);
    assert_eq!(report.in_flight_cancelled, 0);
    assert_eq!(rules.in_flight_summaries().len(), 1);
    // The action fires when due.
    assert!(rules.tick(60_999, engine.get_all()).is_empty());
    let fired = rules.tick(61_000, engine.get_all());
    assert_eq!(fired.len(), 1);
    assert_eq!(fired[0].device_id.0, "porch");
    // Dropping the rule cancels what it had pending.
    let e = ing.ingest(raw("switch.main_gate", "closed", 62_000)).unwrap();
    engine.apply_event_at(&e, 62_000);
    let e = ing.ingest(raw("switch.main_gate", "open", 63_000)).unwrap();
    let update = engine.apply_event_at(&e, 63_000);
    rules.evaluate(&update, engine.get_all(), 63_000);
    assert_eq!(rules.in_flight_summaries().len(), 1);
    assert_eq!(rules.cancellations_for(&load_rules_from_entries(vec![delayed.clone()], &reg)), Some(0));
    assert_eq!(rules.cancellations_for(&vec![]), Some(1));
    let report = rules.hot_reload(vec![]);
    assert_eq!(report.in_flight_cancelled, 1);
    assert!(rules.in_flight_summaries().is_empty());
}

#[test]
fn firing_again_replaces_the_pending_timeout() {
    let reg = registry();
    let mut engine = StateEngine::new(&reg, DEGRADED.to_bits(), UNKNOWN.to_bits());
    let mut ing = EventIngestor::new(Arc::new(registry()), 0);
    let mut stateful = rule_entry("auto-close", "Equals");
    let mut close = stateful.actions[0].clone();
    close.value_text = Some("off".to_string());
    stateful.stateful = Some(StatefulEntry { timeout_seconds: 30, on_timeout_actions: vec![close] });
    let mut rules = RuleEngine::new();
    rules.load_rules(load_rules_from_entries(vec![stateful], &reg));
    for t in [1000u64, 5000].iter() {
        let e = ing.ingest(raw("switch.main_gate", "open", *t)).unwrap();
        let update = engine.apply_event_at(&e, *t);
        rules.evaluate(&update, engine.get_all(), *t);
        let pending = rules.in_flight_summaries();
        assert_eq!(pending.iter().filter(|s| matches!(s.kind, InFlightKind::Timeout)).count(), 1);
        assert_eq!(pending[0].fires_at_ms, *t + 30_000);
    }
    let fired = rules.tick(35_000, engine.get_all());
    assert_eq!(fired.len(), 1);
    assert!(matches!(fired[0].value, Value::Text(ref v) if v == "off"));
    assert!(rules.in_flight_summaries().is_empty());
}

#[test]
fn default_engine_has_no_rules() {
    let e = RuleEngine::default();
    assert!(e.rule_summaries().is_empty());
    assert!(e.in_flight_summaries().is_empty());
    assert!(e.rules.is_empty());
}

#[test]
fn replay_rebuilds_the_same_actual_state_at_any_time() {
    let reg = registry();
    let mut ing = EventIngestor::new(Arc::new(registry()), 0);
    let first = ing.ingest(raw("switch.main_gate", "open", 10)).unwrap();
    let second = ing.ingest(raw("switch.main_gate", "closed", 20)).unwrap();
    let mut early = StateEngine::new(&reg, DEGRADED.to_bits(), UNKNOWN.to_bits());
    let mut late = StateEngine::new(&reg, DEGRADED.to_bits(), UNKNOWN.to_bits());
    for e in [&first, &second] {
        early.apply_event_at(e, 100);
        late.apply_event_at(e, 9_000_000);
    }
    let key = AttributeKey("state".to_string());
    let a = early.get(&DeviceId("main_gate".to_string())).unwrap();
    let b = late.get(&DeviceId("main_gate".to_string())).unwrap();
    assert_eq!(text(a.actual.get(&key)), Some("closed".to_string()));
    assert_eq!(text(b.actual.get(&key)), Some("closed".to_string()));
    assert_eq!(text(a.previous.get(&key)), Some("open".to_string()));
    assert_eq!(text(b.previous.get(&key)), Some("open".to_string()));
    assert_eq!(a.last_seen, 100);
    assert_eq!(b.last_seen, 9_000_000);
}

#[test]
fn unknown_operator_names_rule_then_operator() {
    match parse_operator("Foo", "r1") {
        Err(RuleError::UnknownOperator(rule, op)) => {
            assert_eq!(rule, "r1");
            assert_eq!(op, "Foo");
        }
        _ => panic!("expected UnknownOperator"),
    }
    for name in ["Equals", "NotEquals", "GreaterThan", "LessThan", "Between", "Changed", "WasPreviously", "IsUnknown"] {
        assert!(parse_operator(name, "r1").is_ok());
    }
}

#[test]
fn unknown_trigger_names_rule_then_kind() {
    let reg = registry();
    let mut e = rule_entry("r7", "Equals");
    e.trigger.kind = "Sunset".to_string();
    match parse_rule(e, &reg) {
        Err(RuleError::UnknownTrigger(rule, kind)) => {
            assert_eq!(rule, "r7");
            assert_eq!(kind, "Sunset");
        }
        _ => panic!("expected UnknownTrigger"),
    }
    let mut e = rule_entry("r8", "Equals");
    e.trigger.device_id = None;
    match parse_rule(e, &reg) {
        Err(RuleError::UnknownTrigger(rule, why)) => {
            assert_eq!(rule, "r8");
            assert_eq!(why, "DeviceStateChanged requires device_id");
        }
        _ => panic!("expected UnknownTrigger"),
    }
}

#[test]
fn changed_takes_a_single_value() {
    let reg = registry();
    let mut e = rule_entry("r9", "Changed");
    e.conditions[0].value_text = None;
    match parse_rule(e, &reg) {
        Err(RuleError::MissingValue(rule, op)) => {
            assert_eq!(rule, "r9");
            assert_eq!(op, "Changed");
        }
        _ => panic!("expected MissingValue"),
    }
    assert!(parse_rule(rule_entry("r10", "Changed"), &reg).is_ok());
    let mut e = rule_entry("r11", "IsUnknown");
    e.conditions[0].value_text = None;
    assert!(parse_rule(e, &reg).is_ok());
}

#[test]
fn resolution_does_not_depend_on_candidate_order() {
    let a = vec![
        cmd("01B", "main_gate", 10, Some("night")),
        cmd("01A", "main_gate", 50, Some("arrival")),
        cmd("01C", "porch", 1, None),
        cmd("01D", "porch", 1, Some("x")),
    ];
    let mut b = a.clone();
    b.reverse();
    let ra = ConflictResolver::new().resolve_at(a, 3);
    let rb = ConflictResolver::new().resolve_at(b, 3);
    let mut wa: Vec<String> = ra.winners.iter().map(|c| c.id.clone()).collect();
    let mut wb: Vec<String> = rb.winners.iter().map(|c| c.id.clone()).collect();
    wa.sort();
    wb.sort();
    assert_eq!(wa, vec!["01A".to_string(), "01C".to_string()]);
    assert_eq!(wa, wb);
    let key = |c: &smarthome::resolver::ConflictRecord| (c.winning_command_id.clone(), c.losing_command_id.clone(), c.reason == ConflictReason::PriorityTie);
    let mut ca: Vec<_> = ra.conflicts.iter().map(key).collect();
    let mut cb: Vec<_> = rb.conflicts.iter().map(key).collect();
    ca.sort();
    cb.sort();
    assert_eq!(ca, vec![("01A".to_string(), "01B".to_string(), false), ("01C".to_string(), "01D".to_string(), true)]);
    assert_eq!(ca, cb);
}

#[test]
fn duration_condition_fires_once_its_time_has_passed() {
    let reg = registry();
    let mut engine = StateEngine::new(&reg, DEGRADED.to_bits(), UNKNOWN.to_bits());
    let mut ing = EventIngestor::new(Arc::new(registry()), 0);
    let mut held = rule_entry("held-open", "Equals");
    held.conditions[0].duration_seconds = Some(10);
    let mut rules = RuleEngine::new();
    rules.load_rules(load_rules_from_entries(vec![held], &reg));
    let e = ing.ingest(raw("switch.main_gate", "open", 1000)).unwrap();
    let update = engine.apply_event_at(&e, 1000);
    assert!(rules.evaluate(&update, engine.get_all(), 1000).is_empty());
    assert!(rules.evaluate(&update, engine.get_all(), 10_999).is_empty());
    let fired = rules.evaluate(&update, engine.get_all(), 11_000);
    assert_eq!(fired.len(), 1);
    assert_eq!(fired[0].device_id.0, "porch");
    // The timer was cleared: the next evaluation starts it again.
    assert!(rules.evaluate(&update, engine.get_all(), 11_001).is_empty());
}

#[test]
fn boot_and_continuous_reconciliation_issue_the_same_corrections() {
    let reg = registry();
    let mut engine = StateEngine::new(&reg, DEGRADED.to_bits(), UNKNOWN.to_bits());
    let mut ing = EventIngestor::new(Arc::new(registry()), 0);
    let e = ing.ingest(raw("switch.main_gate", "closed", 5)).unwrap();
    engine.apply_event_at(&e, 5);
    let e = ing.ingest(raw("light.porch", "off", 6)).unwrap();
    engine.apply_event_at(&e, 6);
    engine.set_desired_at(&DeviceId("main_gate".to_string()), AttributeKey("state".to_string()), Value::Text("open".to_string()), EventSource::User, 7);
    engine.set_desired_at(&DeviceId("porch".to_string()), AttributeKey("state".to_string()), Value::Text("on".to_string()), EventSource::User, 7);
    let (boot, _) = boot_reconcile_at(&engine, DEGRADED.to_bits(), 100);
    let cont = continuous_reconcile(&engine, DEGRADED.to_bits());
    let key = |c: &Command| (c.device_id.0.clone(), c.attribute.0.clone(), c.priority, c.rule_id.is_none());
    assert_eq!(boot.len(), 2);
    assert_eq!(boot.iter().map(key).collect::<Vec<_>>(), cont.iter().map(key).collect::<Vec<_>>());
}
