use smarthome::desired_state_store::DesiredStateStore;
use smarthome::ordered_map::OrderedMap;
use smarthome::rule_types::{RuleEntry, RuleFile, TriggerEntry};
use smarthome::types::{AttributeKey, Capability, Device, DeviceId, DeviceKind, Value};
use smarthome::ui::{
    add_rule, device_info, device_infos, device_toml, entity_info, find_rule, ha_device_toml,
    has_device, map_to_inline_toml, replace_rule, set_rule_enabled, ui_command, NewDeviceRequest,
    RuleEditError,
};

fn pairs(p: &[(&str, &str)]) -> Vec<(String, String)> {
    p.iter().map(|(k, v)| (k.to_string(), v.to_string())).collect()
}

fn request() -> NewDeviceRequest {
    NewDeviceRequest {
        ha_entity_id: "switch.geyser".to_string(),
        device_id: "geyser".to_string(),
        name: "Geyser".to_string(),
        kind: "SmartPlug".to_string(),
        attribute: "state".to_string(),
        confidence_decay_seconds: 120,
        writable: true,
        safe_default: pairs(&[("state", "off")]),
        state_map: pairs(&[("on", "on"), ("off", "off")]),
        service_map: pairs(&[("on", "switch/turn_on"), ("off", "switch/turn_off")]),
    }
}

fn device(id: &str, external: &str, kind: DeviceKind, caps: Vec<Capability>) -> Device {
    Device {
        id: DeviceId(id.to_string()),
        external_id: external.to_string(),
        name: id.to_string(),
        kind,
        capabilities: caps,
        confidence_decay_seconds: 30,
        safe_default: OrderedMap::new(),
    }
}

fn registry() -> Vec<Device> {
    vec![
        device("main_gate", "switch.main_gate", DeviceKind::Gate, vec![Capability::Writable(AttributeKey("state".to_string()))]),
        device("mains", "binary_sensor.mains_power", DeviceKind::PowerMonitor, vec![Capability::Readable(AttributeKey("source".to_string()))]),
    ]
}

fn rule(id: &str) -> RuleEntry {
    RuleEntry {
        id: id.to_string(),
        name: id.to_string(),
        enabled: true,
        priority: 1,
        conflict_group: String::new(),
        trigger: TriggerEntry { kind: "DeviceStateChanged".to_string(), device_id: None, attribute: None },
        conditions: vec![],
        actions: vec![],
        stateful: None,
    }
}

#[test]
fn inline_tables() {
    assert_eq!(map_to_inline_toml(&vec![]), "{}");
    assert_eq!(map_to_inline_toml(&pairs(&[("on", "open")])), "{ \"on\" = \"open\" }");
    assert_eq!(
        map_to_inline_toml(&pairs(&[("on", "open"), ("off", "closed")])),
        "{ \"on\" = \"open\", \"off\" = \"closed\" }"
    );
}

#[test]
fn new_device_entry_text() {
    assert_eq!(
        device_toml(&request()),
        "\n[[devices]]\nid = \"geyser\"\nexternal_id = \"geyser\"\nname = \"Geyser\"\nkind = \"SmartPlug\"\nconfidence_decay_seconds = 120\n[[devices.capabilities]]\nWritable = \"state\"\n\n[devices.safe_default]\nstate = \"off\"\n"
    );
    let mut ro = request();
    ro.writable = false;
    ro.safe_default = pairs(&[("a", "1"), ("b", "2")]);
    assert!(device_toml(&ro).ends_with("Readable = \"state\"\n\n[devices.safe_default]\na = \"1\"\nb = \"2\"\n"));
}

#[test]
fn new_mapping_entry_text() {
    assert_eq!(
        ha_device_toml(&request()),
        "\n[[home_assistant.devices]]\nha_entity_id = \"switch.geyser\"\ndevice_id    = \"geyser\"\nattribute    = \"state\"\nstate_map    = { \"on\" = \"on\", \"off\" = \"off\" }\nservice_map  = { \"on\" = \"switch/turn_on\", \"off\" = \"switch/turn_off\" }\n"
    );
}

#[test]
fn device_list_entries() {
    let reg = registry();
    let infos = device_infos(&reg);
    assert_eq!(infos.len(), 2);
    assert_eq!(infos[0].kind, "Gate");
    assert_eq!(infos[0].id, "main_gate");
    assert_eq!(infos[0].name, "main_gate");
    assert_eq!(infos[1].name, "mains");
    assert!(infos[0].writable);
    assert_eq!(infos[1].kind, "PowerMonitor");
    assert!(!infos[1].writable);
    assert_eq!(device_info(&device("x", "y", DeviceKind::Unknown, vec![])).kind, "Unknown");
    assert!(has_device(&reg, &"mains".to_string()));
    assert!(!has_device(&reg, &"binary_sensor.mains_power".to_string()));
}

#[test]
fn discovered_entities() {
    let reg = registry();
    let e = entity_info("switch.main_gate".to_string(), None, &reg);
    assert_eq!(e.domain, "switch");
    assert_eq!(e.friendly_name, "switch.main_gate");
    assert!(e.already_configured);
    let e = entity_info("sensor.tank".to_string(), Some("Water tank".to_string()), &reg);
    assert_eq!(e.friendly_name, "Water tank");
    assert!(!e.already_configured);
    assert_eq!(entity_info(String::new(), None, &reg).domain, "");
}

#[test]
fn ui_commands_need_a_known_device() {
    let reg = registry();
    let c = ui_command(&reg, "main_gate".to_string(), "state".to_string(), "locked".to_string()).unwrap();
    assert_eq!(c.device_id, "main_gate");
    assert_eq!(c.value, "locked");
    assert_eq!(c.command_id.len(), 26);
    assert!(ui_command(&reg, "garage".to_string(), "state".to_string(), "x".to_string()).is_none());
}

#[test]
fn rule_file_edits() {
    let mut file = RuleFile { rules: vec![rule("a"), rule("b")] };
    assert!(add_rule(&mut file, rule("c")).is_ok());
    assert_eq!(find_rule(&file, &"c".to_string()), Some(2));
    assert!(matches!(add_rule(&mut file, rule("a")), Err(RuleEditError::DuplicateId(ref id)) if id == "a"));
    assert_eq!(file.rules.len(), 3);
    let mut renamed = rule("b");
    renamed.name = "renamed".to_string();
    assert!(replace_rule(&mut file, &"b".to_string(), renamed).is_ok());
    assert_eq!(file.rules[1].name, "renamed");
    assert!(matches!(replace_rule(&mut file, &"z".to_string(), rule("z")), Err(RuleEditError::NotFound(_))));
    assert!(set_rule_enabled(&mut file, &"a".to_string(), false).is_ok());
    assert!(!file.rules[0].enabled);
    assert!(file.rules[1].enabled);
    assert!(matches!(set_rule_enabled(&mut file, &"q".to_string(), true), Err(RuleEditError::NotFound(ref id)) if id == "q"));
    assert_eq!(find_rule(&file, &"q".to_string()), None);
}

fn text(v: Option<&Value>) -> Option<String> {
    match v {
        Some(Value::Text(t)) => Some(t.clone()),
        _ => None,
    }
}

#[test]
fn desired_state_is_read_back_and_flushed_when_due() {
    let mut store = DesiredStateStore::empty("desired.json".to_string(), 1000);
    assert!(store.flush().is_none());
    assert!(!store.flush_if_needed(1_000_000));
    store.set(&DeviceId("gate".to_string()), AttributeKey("state".to_string()), Value::Text("open".to_string()));
    store.set(&DeviceId("gate".to_string()), AttributeKey("state".to_string()), Value::Text("closed".to_string()));
    store.set(&DeviceId("gate".to_string()), AttributeKey("lock".to_string()), Value::Bool(true));
    let attrs = store.get_all().get(&DeviceId("gate".to_string())).unwrap();
    assert_eq!(text(attrs.get(&AttributeKey("state".to_string()))), Some("closed".to_string()));
    assert!(store.dirty);
    assert!(!store.flush_if_needed(30_999));
    assert!(store.flush_if_needed(31_000));
    assert!(!store.flush_if_needed(500));
    let contents = store.flush().unwrap();
    assert_eq!(contents.len(), 1);
    assert_eq!(contents[0].0, "gate");
    assert_eq!(contents[0].1.len(), 2);
    store.mark_flushed(31_000);
    assert!(!store.dirty);
    assert!(store.flush().is_none());
}

#[test]
fn snapshot_loading() {
    let devices = vec![
        ("gate".to_string(), vec![("state".to_string(), Value::Text("open".to_string()))]),
        ("pump".to_string(), vec![]),
    ];
    let store = DesiredStateStore::from_snapshot("d.json".to_string(), Some((1, devices.clone())), 5);
    assert_eq!(store.get_all().entries.len(), 2);
    assert!(store.get_all().get(&DeviceId("pump".to_string())).unwrap().entries.is_empty());
    assert!(!store.dirty);
    assert_eq!(store.last_flush, 5);
    let other = DesiredStateStore::from_snapshot("d.json".to_string(), Some((2, devices)), 5);
    assert!(other.get_all().entries.is_empty());
    let none = DesiredStateStore::from_snapshot("d.json".to_string(), None, 5);
    assert!(none.get_all().entries.is_empty());
}

#[test]
fn flushed_snapshot_loads_back_the_same_state() {
    let mut store = DesiredStateStore::empty("desired.json".to_string(), 0);
    store.set(&DeviceId("gate".to_string()), AttributeKey("state".to_string()), Value::Text("open".to_string()));
    store.set(&DeviceId("pump".to_string()), AttributeKey("speed".to_string()), Value::Int(3));
    store.set(&DeviceId("gate".to_string()), AttributeKey("lock".to_string()), Value::Bool(true));
    let contents = store.flush().unwrap();
    let back = DesiredStateStore::from_snapshot("desired.json".to_string(), Some((1, contents)), 9);
    let gate = back.get_all().get(&DeviceId("gate".to_string())).unwrap();
    assert_eq!(text(gate.get(&AttributeKey("state".to_string()))), Some("open".to_string()));
    assert!(matches!(gate.get(&AttributeKey("lock".to_string())), Some(Value::Bool(true))));
    let pump = back.get_all().get(&DeviceId("pump".to_string())).unwrap();
    assert!(matches!(pump.get(&AttributeKey("speed".to_string())), Some(Value::Int(3))));
    assert_eq!(back.get_all().entries.len(), 2);
}
