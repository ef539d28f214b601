use smarthome::config::{
    AdapterConfig, Config, ConfigError, DaemonConfig, DispatcherConfig, PlatformConfig,
    ReconcilerConfig, StorageConfig, UiConfig,
};
use smarthome::ordered_map::OrderedMap;
use smarthome::text::{i64_text, replace_text, text_before, trim_trailing_slashes, u64_text, zero_padded_u64};
use smarthome::types::{Event, EventKind, EventSource, Value};
use smarthome::wal::{EventPriority, WalConfig, WalLog};

fn config() -> Config {
    Config {
        daemon: DaemonConfig {
            name: "home".to_string(),
            log_level: "info".to_string(),
            log_output: "stdout".to_string(),
        },
        storage: StorageConfig {
            wal_path: "/var/lib/smarthome/wal".to_string(),
            snapshot_path: "/var/lib/smarthome/snapshots".to_string(),
            rules_path: "rules.toml".to_string(),
            devices_path: "devices.toml".to_string(),
            desired_state_path: "desired.json".to_string(),
            max_wal_size_mb: 64,
            snapshot_interval_events: 1000,
        },
        adapter: AdapterConfig {
            kind: "mock".to_string(),
            url: String::new(),
            reconnect_interval_seconds: 5,
            event_dedup_window_ms: 500,
        },
        reconciler: ReconcilerConfig {
            boot_window_secs: 10,
            continuous_poll_interval_seconds: 30,
            confidence_degraded_threshold: 0.5f32.to_bits(),
            confidence_unknown_threshold: 0.2f32.to_bits(),
        },
        dispatcher: DispatcherConfig { timeout_ms: 5000, max_retries: 3, retry_delay_ms: 1000 },
        ui: UiConfig { enabled: true, port: 7000, bind: "0.0.0.0".to_string() },
        platform: PlatformConfig {
            kind: "linux".to_string(),
            watchdog_enabled: false,
            watchdog_interval_seconds: 30,
            max_memory_mb: 64,
        },
        home_assistant: None,
    }
}

fn invalid(c: &Config) -> (String, String) {
    match c.validate() {
        Err(ConfigError::InvalidValue(f, v)) => (f, v),
        other => panic!("expected an invalid value, got {:?}", other),
    }
}

#[test]
fn decimal_text_matches_to_string() {
    assert_eq!(u64_text(0), "0");
    assert_eq!(u64_text(7), "7");
    assert_eq!(u64_text(1024), "1024");
    assert_eq!(u64_text(u64::MAX), u64::MAX.to_string());
    assert_eq!(i64_text(-45), "-45");
    assert_eq!(i64_text(i64::MIN), i64::MIN.to_string());
    assert_eq!(i64_text(12), "12");
}

#[test]
fn zero_padding_matches_format() {
    assert_eq!(zero_padded_u64(42, 10), format!("{:010}", 42u64));
    assert_eq!(zero_padded_u64(12345678901, 10), "12345678901");
    assert_eq!(zero_padded_u64(0, 3), "000");
}

#[test]
fn trimming_and_replacing_match_std() {
    assert_eq!(trim_trailing_slashes("http://ha.local:8123///"), "http://ha.local:8123");
    assert_eq!(trim_trailing_slashes("///"), "");
    assert_eq!(replace_text("https://x/https://", "https://", "wss://"), "wss://x/wss://");
    assert_eq!(replace_text("aaa", "aa", "b"), "aaa".replace("aa", "b"));
    assert_eq!(text_before("switch.main_gate", '.'), "switch");
    assert_eq!(text_before("nodot", '.'), "nodot");
}

#[test]
fn valid_config_passes() {
    assert!(config().validate().is_ok());
}

#[test]
fn bad_log_level_is_named() {
    let mut c = config();
    c.daemon.log_level = "verbose".to_string();
    assert_eq!(invalid(&c), ("daemon.log_level".to_string(), "verbose".to_string()));
}

#[test]
fn bad_adapter_kind_is_named() {
    let mut c = config();
    c.adapter.kind = "zwave".to_string();
    assert_eq!(invalid(&c), ("adapter.kind".to_string(), "zwave".to_string()));
}

#[test]
fn bad_platform_is_named() {
    let mut c = config();
    c.platform.kind = "windows".to_string();
    assert_eq!(invalid(&c), ("platform.kind".to_string(), "windows".to_string()));
}

#[test]
fn privileged_port_is_refused() {
    let mut c = config();
    c.ui.port = 80;
    assert_eq!(invalid(&c), ("ui.port".to_string(), "80".to_string()));
    c.ui.port = 1024;
    assert!(c.validate().is_ok());
}

#[test]
fn first_problem_wins() {
    let mut c = config();
    c.platform.kind = "bsd".to_string();
    c.daemon.log_level = "trace".to_string();
    assert_eq!(invalid(&c).0, "daemon.log_level");
}

#[test]
fn wal_configs_per_platform() {
    let l = WalConfig::for_linux("/var/wal", "/var/snap");
    assert_eq!(l.db_path, "/var/wal/wal.db");
    assert_eq!(l.snapshot_path, "/var/snap");
    assert_eq!(l.snapshot_interval_events, 1000);
    assert_eq!(l.buffer_max_bytes, 4096);
    assert_eq!(l.buffer_max_age_secs, 5);
    let o = WalConfig::for_openwrt("/data", "/snaps");
    assert_eq!(o.db_path, "/data/wal.db");
    assert_eq!(o.buffer_max_age_secs, 30);
}

#[test]
fn command_lifecycle_and_system_events_are_critical() {
    assert_eq!(EventPriority::for_kind(&EventKind::CommandSent), EventPriority::Critical);
    assert_eq!(EventPriority::for_kind(&EventKind::CommandConfirmed), EventPriority::Critical);
    assert_eq!(EventPriority::for_kind(&EventKind::CommandFailed), EventPriority::Critical);
    assert_eq!(EventPriority::for_kind(&EventKind::SystemBoot), EventPriority::Critical);
    assert_eq!(EventPriority::for_kind(&EventKind::SystemShutdown), EventPriority::Critical);
    assert_eq!(EventPriority::for_kind(&EventKind::DeviceStateChanged), EventPriority::Normal);
    assert_eq!(EventPriority::for_kind(&EventKind::RuleConflict), EventPriority::Normal);
}

fn event(kind: EventKind) -> Event {
    let mut payload = OrderedMap::new();
    payload.insert("value".to_string(), Value::Int(1));
    Event::new(EventSource::System, kind, payload)
}

fn small_config(interval: u64) -> WalConfig {
    WalConfig {
        db_path: "wal.db".to_string(),
        snapshot_path: "/snap".to_string(),
        snapshot_interval_events: interval,
        buffer_max_bytes: 4096,
        buffer_max_age_secs: 5,
    }
}

#[test]
fn normal_events_are_buffered_until_a_limit() {
    let mut wal = WalLog::new(small_config(1000), 1, 0);
    let a = wal.append(event(EventKind::DeviceStateChanged), EventPriority::Normal, 1000);
    assert_eq!(a.sequence, 1);
    assert!(a.batch.is_empty());
    assert!(a.immediate.is_none());
    assert_eq!(wal.buffer.len(), 1);
    assert_eq!(wal.buffer[0].sequence, 1);
    // 26-byte ULID, one payload entry, 64 fixed.
    assert_eq!(wal.buffer_bytes, 26 + 20 + 64);
    // Five seconds after the buffer started, the age limit flushes it.
    let b = wal.append(event(EventKind::DeviceStateChanged), EventPriority::Normal, 5000);
    assert_eq!(b.sequence, 2);
    assert_eq!(b.batch.len(), 2);
    assert_eq!(b.batch[1].sequence, 2);
    assert!(wal.buffer.is_empty());
    assert_eq!(wal.buffer_bytes, 0);
    assert_eq!(wal.buffer_since, 5000);
    assert_eq!(wal.latest_sequence(), 2);
    assert_eq!(wal.len(), 2);
}

#[test]
fn size_limit_flushes_the_buffer() {
    let mut cfg = small_config(1000);
    cfg.buffer_max_bytes = 200;
    let mut wal = WalLog::new(cfg, 10, 0);
    let a = wal.append(event(EventKind::RuleConflict), EventPriority::Normal, 0);
    assert!(a.batch.is_empty());
    let b = wal.append(event(EventKind::RuleConflict), EventPriority::Normal, 0);
    assert_eq!(b.batch.len(), 2);
    assert_eq!(b.sequence, 11);
}

#[test]
fn critical_event_flushes_then_writes_at_once() {
    let mut wal = WalLog::new(small_config(1000), 1, 0);
    wal.append(event(EventKind::DeviceStateChanged), EventPriority::Normal, 10);
    let c = wal.append(event(EventKind::CommandSent), EventPriority::Critical, 20);
    assert_eq!(c.sequence, 2);
    assert_eq!(c.batch.len(), 1);
    assert_eq!(c.batch[0].sequence, 1);
    assert_eq!(c.immediate.as_ref().map(|e| e.sequence), Some(2));
    assert!(wal.buffer.is_empty());
}

#[test]
fn snapshot_every_interval() {
    let mut wal = WalLog::new(small_config(2), 41, 0);
    let a = wal.append(event(EventKind::CommandSent), EventPriority::Critical, 0);
    assert!(a.snapshot.is_none());
    let b = wal.append(event(EventKind::CommandSent), EventPriority::Critical, 0);
    assert_eq!(b.snapshot, Some((42, "/snap/snap_0000000042.json".to_string())));
    assert_eq!(wal.events_since_snapshot, 0);
}

#[test]
fn flush_of_empty_buffer_changes_nothing() {
    let mut wal = WalLog::new(small_config(1000), 1, 7);
    assert!(wal.flush(100).is_empty());
    assert_eq!(wal.buffer_since, 7);
    wal.append(event(EventKind::RuleTriggered), EventPriority::Normal, 8);
    assert_eq!(wal.flush(100).len(), 1);
    assert!(wal.buffer.is_empty());
    assert_eq!(wal.buffer_since, 100);
}

#[test]
fn room_for_reports_overflow() {
    let mut wal = WalLog::new(small_config(1000), 1, 0);
    assert!(wal.room_for(&event(EventKind::RuleTriggered)));
    wal.buffer_bytes = usize::MAX - 10;
    assert!(!wal.room_for(&event(EventKind::RuleTriggered)));
}

#[test]
fn append_and_flush_hands_out_every_event() {
    let mut wal = WalLog::new(small_config(1000), 1, 0);
    let a = wal.append_and_flush(event(EventKind::DeviceStateChanged), EventPriority::Normal, 10);
    assert_eq!(a.sequence, 1);
    assert_eq!(a.batch.len(), 1);
    assert_eq!(a.batch[0].sequence, 1);
    assert!(a.immediate.is_none());
    assert!(wal.buffer.is_empty());
    wal.append(event(EventKind::RuleTriggered), EventPriority::Normal, 11);
    let b = wal.append_and_flush(event(EventKind::RuleTriggered), EventPriority::Normal, 12);
    assert_eq!(b.batch.iter().map(|e| e.sequence).collect::<Vec<_>>(), vec![2, 3]);
    wal.append(event(EventKind::RuleTriggered), EventPriority::Normal, 13);
    let c = wal.append_and_flush(event(EventKind::CommandSent), EventPriority::Critical, 14);
    assert_eq!(c.batch.iter().map(|e| e.sequence).collect::<Vec<_>>(), vec![4]);
    assert_eq!(c.immediate.as_ref().map(|e| e.sequence), Some(5));
    assert!(wal.buffer.is_empty());
    assert_eq!(wal.latest_sequence(), 5);
}

#[test]
fn stored_events_come_in_append_order_with_consecutive_sequences() {
    let mut wal = WalLog::new(small_config(1000), 7, 0);
    let kinds = [EventKind::DeviceStateChanged, EventKind::CommandSent, EventKind::RuleTriggered];
    let mut stored = Vec::new();
    for (i, k) in kinds.iter().enumerate() {
        let ev = event(*k);
        let id = ev.id.clone();
        let r = wal.append_and_flush(ev, EventPriority::for_kind(k), i as u64);
        for e in r.batch.iter().chain(r.immediate.iter()) {
            stored.push((e.sequence, e.id.clone()));
        }
        assert_eq!(stored.last().unwrap().1, id);
    }
    assert_eq!(stored.iter().map(|p| p.0).collect::<Vec<_>>(), vec![7, 8, 9]);
}
