use smarthome::config::{HaConfig, HaDeviceConfig};
use smarthome::ha::{
    auth_result, expect_msg_type, map_raw_value, next_backoff, parse_time_fired, state_time_at, states_url_of,
    subscribe_result, time_fired_at, time_from_parsed, value_text, AdapterError, HaAttributeValue, HaLink, HaState, ValueText,
};
use smarthome::mock::MockFeed;
use smarthome::ordered_map::OrderedMap;
use smarthome::types::{AdapterCommand, EventSource, Value};

fn map(pairs: &[(&str, &str)]) -> OrderedMap<String, String> {
    let mut m = OrderedMap::new();
    for (k, v) in pairs {
        m.insert(k.to_string(), v.to_string());
    }
    m
}

fn gate_cfg() -> HaDeviceConfig {
    HaDeviceConfig {
        ha_entity_id: "switch.main_gate".to_string(),
        device_id: "main_gate".to_string(),
        attribute: "state".to_string(),
        ha_attribute_key: None,
        state_map: map(&[("on", "open"), ("off", "closed")]),
        service_map: map(&[("open", "switch/turn_on"), ("closed", "switch/turn_off")]),
    }
}

fn tank_cfg() -> HaDeviceConfig {
    HaDeviceConfig {
        ha_entity_id: "sensor.tank".to_string(),
        device_id: "tank".to_string(),
        attribute: "level".to_string(),
        ha_attribute_key: Some("percent".to_string()),
        state_map: OrderedMap::new(),
        service_map: OrderedMap::new(),
    }
}

fn link() -> HaLink {
    HaLink::new(HaConfig {
        url: "http://ha.local:8123/".to_string(),
        token: "SECRET-REDACTED".to_string(),
        devices: vec![gate_cfg(), tank_cfg()],
    })
}

fn state(s: &str) -> HaState {
    HaState { state: s.to_string(), attributes: None, last_changed: None }
}

fn with_attr(key: &str, v: HaAttributeValue) -> HaState {
    let mut attrs = OrderedMap::new();
    attrs.insert(key.to_string(), v);
    HaState { state: "ignored".to_string(), attributes: Some(attrs), last_changed: None }
}

fn command(id: &str, value: Value) -> AdapterCommand {
    AdapterCommand {
        external_id: "main_gate".to_string(),
        attribute: "state".to_string(),
        value,
        command_id: id.to_string(),
    }
}

fn text_of(v: &Value) -> Option<String> {
    match value_text(v) {
        ValueText::Text(t) => Some(t),
        ValueText::FloatBits(b) => Some(f64::from_bits(b).to_string()),
        ValueText::NoValue => None,
    }
}

#[test]
fn state_is_renamed_through_the_state_map() {
    assert_eq!(map_raw_value(&state("on"), &gate_cfg()), Some("open".to_string()));
    assert_eq!(map_raw_value(&state("off"), &gate_cfg()), Some("closed".to_string()));
    assert_eq!(map_raw_value(&state("unavailable"), &gate_cfg()), None);
}

#[test]
fn attribute_values_are_read_as_text() {
    let cfg = tank_cfg();
    assert_eq!(map_raw_value(&with_attr("percent", HaAttributeValue::Number("42.5".to_string())), &cfg), Some("42.5".to_string()));
    assert_eq!(map_raw_value(&with_attr("percent", HaAttributeValue::Flag(true)), &cfg), Some("true".to_string()));
    assert_eq!(map_raw_value(&with_attr("percent", HaAttributeValue::Text("full".to_string())), &cfg), Some("full".to_string()));
    assert_eq!(map_raw_value(&with_attr("percent", HaAttributeValue::Other), &cfg), None);
    assert_eq!(map_raw_value(&with_attr("other", HaAttributeValue::Flag(true)), &cfg), None);
    assert_eq!(map_raw_value(&state("12"), &cfg), None);
}

#[test]
fn endpoints_follow_the_base_url() {
    let l = link();
    assert_eq!(l.websocket_url(), "ws://ha.local:8123/api/websocket");
    assert_eq!(l.states_url(), "http://ha.local:8123/api/states");
    assert_eq!(l.auth_header(), "Bearer SECRET-REDACTED");
    assert_eq!(states_url_of("https://x.example//"), "https://x.example/api/states");
    let secure = HaLink::new(HaConfig { url: "https://ha.example".to_string(), token: String::new(), devices: vec![] });
    assert_eq!(secure.websocket_url(), "wss://ha.example/api/websocket");
}

#[test]
fn sent_value_confirms_the_command() {
    let mut l = link();
    let cmd = command("cmd-1", Value::Text("open".to_string()));
    let call = l.plan_command(&cmd, text_of(&cmd.value)).unwrap().unwrap();
    assert_eq!(call.url, "http://ha.local:8123/api/services/switch/turn_on");
    assert_eq!(call.entity_id, "switch.main_gate");
    assert_eq!(call.service, "switch/turn_on");
    // A state that maps to another value does not confirm.
    let o = l.on_state_changed(&"switch.main_gate".to_string(), Some(state("off")), 5, "raw".to_string());
    assert!(o.confirmed.is_none());
    let e = o.event.unwrap();
    assert_eq!(e.external_id, "main_gate");
    assert!(matches!(e.value, Value::Text(ref t) if t == "closed"));
    // The state that maps to the sent value does, once.
    let o = l.on_state_changed(&"switch.main_gate".to_string(), Some(state("on")), 6, "raw".to_string());
    assert_eq!(o.confirmed, Some("cmd-1".to_string()));
    assert_eq!(o.event.unwrap().timestamp, 6);
    let o = l.on_state_changed(&"switch.main_gate".to_string(), Some(state("on")), 7, "raw".to_string());
    assert!(o.confirmed.is_none());
}

#[test]
fn unmapped_entities_and_removed_states_report_nothing() {
    let mut l = link();
    let o = l.on_state_changed(&"light.porch".to_string(), Some(state("on")), 1, String::new());
    assert!(o.event.is_none() && o.confirmed.is_none());
    let o = l.on_state_changed(&"switch.main_gate".to_string(), None, 1, String::new());
    assert!(o.event.is_none());
}

#[test]
fn unknown_device_is_refused() {
    let mut l = link();
    let mut cmd = command("cmd-2", Value::Bool(true));
    cmd.external_id = "garage".to_string();
    match l.plan_command(&cmd, text_of(&cmd.value)) {
        Err(AdapterError::DeviceNotFound(d)) => assert_eq!(d, "garage"),
        other => panic!("unexpected {:?}", other),
    }
}

#[test]
fn no_service_means_no_call() {
    let mut l = link();
    let cmd = command("cmd-3", Value::Null);
    assert!(matches!(l.plan_command(&cmd, text_of(&cmd.value)), Ok(None)));
    let cmd = command("cmd-4", Value::Text("ajar".to_string()));
    assert!(matches!(l.plan_command(&cmd, text_of(&cmd.value)), Ok(None)));
    let mut ro = command("cmd-5", Value::Text("50".to_string()));
    ro.external_id = "tank".to_string();
    assert!(matches!(l.plan_command(&ro, text_of(&ro.value)), Ok(None)));
    assert!(l.pending_confirmations.entries.is_empty());
}

#[test]
fn rejected_call_stops_waiting() {
    let mut l = link();
    let cmd = command("cmd-6", Value::Text("closed".to_string()));
    l.plan_command(&cmd, text_of(&cmd.value)).unwrap();
    assert_eq!(l.pending_confirmations.entries.len(), 1);
    l.command_rejected(&"switch.main_gate".to_string());
    assert!(l.pending_confirmations.entries.is_empty());
    assert!(l.pending_expected.entries.is_empty());
}

#[test]
fn values_are_sent_as_rust_renders_them() {
    assert_eq!(text_of(&Value::Bool(false)), Some("false".to_string()));
    assert_eq!(text_of(&Value::Int(-3)), Some("-3".to_string()));
    assert_eq!(text_of(&Value::Text("x".to_string())), Some("x".to_string()));
    assert!(matches!(value_text(&Value::Float(1.5f64.to_bits())), ValueText::FloatBits(b) if b == 1.5f64.to_bits()));
    assert_eq!(text_of(&Value::Null), None);
}

#[test]
fn initial_states_use_last_changed() {
    let l = link();
    let mut s = state("on");
    s.last_changed = Some("2024-01-15T10:30:00.123+00:00".to_string());
    let states = vec![
        ("switch.main_gate".to_string(), s, "{\"state\":\"on\"}".to_string()),
        ("light.porch".to_string(), state("on"), String::new()),
        ("switch.main_gate".to_string(), state("weird"), String::new()),
        ("switch.main_gate".to_string(), state("off"), String::new()),
    ];
    let events = l.initial_events_at(&states, 99);
    assert_eq!(events.len(), 2);
    assert_eq!(events[0].timestamp, 1705314600123);
    assert_eq!(events[0].raw, "{\"state\":\"on\"}");
    assert_eq!(events[1].timestamp, 99);
    assert!(matches!(events[1].value, Value::Text(ref t) if t == "closed"));
}

#[test]
fn unparsable_time_falls_back_to_now() {
    assert_eq!(state_time_at(&Some("yesterday".to_string()), 5), 5);
    assert_eq!(state_time_at(&None, 6), 6);
    assert_eq!(state_time_at(&Some("1970-01-01T00:00:01Z".to_string()), 6), 1000);
}

#[test]
fn initial_events_are_handed_out_from_the_back() {
    let mut l = link();
    assert!(l.take_initial_event().is_none());
    let states = vec![
        ("switch.main_gate".to_string(), state("on"), String::new()),
        ("switch.main_gate".to_string(), state("off"), String::new()),
    ];
    let events = l.initial_events_at(&states, 1);
    l.set_initial_events(events);
    assert!(matches!(l.take_initial_event().unwrap().value, Value::Text(ref t) if t == "closed"));
    assert!(matches!(l.take_initial_event().unwrap().value, Value::Text(ref t) if t == "open"));
    assert!(l.take_initial_event().is_none());
}

#[test]
fn message_ids_count_up() {
    let mut l = link();
    assert_eq!(l.alloc_id(), 1);
    assert_eq!(l.alloc_id(), 2);
}

#[test]
fn reconnect_backoff_doubles_up_to_thirty() {
    assert_eq!(next_backoff(1), 2);
    assert_eq!(next_backoff(8), 16);
    assert_eq!(next_backoff(16), 30);
    assert_eq!(next_backoff(30), 30);
}

#[test]
fn handshake_checks() {
    assert!(expect_msg_type("auth_ok", "auth_ok").is_ok());
    match expect_msg_type("auth_invalid", "auth_ok") {
        Err(AdapterError::Transport(m)) => assert_eq!(m, "expected auth_ok, got 'auth_invalid'"),
        other => panic!("unexpected {:?}", other),
    }
    assert!(matches!(auth_result(Err(AdapterError::Timeout)), Err(AdapterError::Auth(_))));
    assert!(auth_result(Ok(())).is_ok());
    assert!(subscribe_result(Some(true)).is_ok());
    assert!(matches!(subscribe_result(Some(false)), Err(AdapterError::Transport(_))));
    assert!(matches!(subscribe_result(None), Err(AdapterError::Transport(_))));
}

#[test]
fn mock_feed_follows_the_outage_story() {
    let mut feed = MockFeed::new();
    assert!(!feed.is_connected());
    feed.connect();
    assert!(feed.is_connected());
    let mut seen = Vec::new();
    for _ in 0..14 {
        let wait = feed.sleep_secs();
        let e = feed.next_event_at(1000);
        assert!(matches!(e.source, EventSource::Adapter));
        let v = match e.value {
            Value::Text(t) => t,
            _ => panic!("text expected"),
        };
        seen.push((wait, e.external_id, v));
    }
    assert_eq!(seen[0], (5, "switch.main_gate".to_string(), "closed".to_string()));
    assert_eq!(seen[1], (5, "switch.main_gate".to_string(), "open".to_string()));
    assert_eq!(seen[4], (5, "binary_sensor.mains_power".to_string(), "outage".to_string()));
    assert_eq!(seen[5].0, 10);
    assert_eq!(seen[10], (10, "binary_sensor.mains_power".to_string(), "outage".to_string()));
    assert_eq!(seen[11], (5, "binary_sensor.mains_power".to_string(), "kplc".to_string()));
    assert_eq!(seen[12], (5, "switch.main_gate".to_string(), "closed".to_string()));
    assert_eq!(seen[13].2, "open");
    feed.disconnect();
    assert!(!feed.is_connected());
}

#[test]
fn parsed_times_are_stored_as_unsigned_millis() {
    assert_eq!(time_from_parsed(Some(1705314600123), 7), 1705314600123);
    assert_eq!(time_from_parsed(Some(-1), 7), u64::MAX);
    assert_eq!(time_from_parsed(None, 7), 7);
}

#[test]
fn time_fired_is_read_from_the_message() {
    assert_eq!(time_fired_at("2024-01-15T10:30:00.123+00:00", 7), 1705314600123);
    assert_eq!(time_fired_at("2024-01-15T10:30:00.123456+00:00", 7), 1705314600123);
    assert_eq!(time_fired_at("not a time", 7), 7);
    assert_eq!(parse_time_fired("2024-01-15T10:30:00.123+00:00"), 1705314600123);
    assert!(parse_time_fired("garbage") > 1705314600123);
}

#[test]
fn failed_auth_names_the_token() {
    match auth_result(Err(AdapterError::Timeout)) {
        Err(AdapterError::Auth(m)) => assert_eq!(m, "HA authentication failed — check long-lived token"),
        _ => panic!("expected an auth error"),
    }
}
