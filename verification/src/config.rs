//! The daemon's configuration and the checks it must pass before use.
//!
//! Thresholds that the file gives as `f32` are held here as their IEEE-754
//! bit patterns.
use vstd::prelude::*;
use vstd::string::StringExecFns;
use crate::ordered_map::OrderedMap;
use crate::strings::str_eq;
use crate::text::{decimal, u64_text};

verus! {

#[derive(Debug, Clone)]
pub struct Config {
    pub daemon: DaemonConfig,
    pub storage: StorageConfig,
    pub adapter: AdapterConfig,
    pub reconciler: ReconcilerConfig,
    pub dispatcher: DispatcherConfig,
    pub ui: UiConfig,
    pub platform: PlatformConfig,
    pub home_assistant: Option<HaConfig>,
}

#[derive(Debug, Clone)]
pub struct DaemonConfig {
    pub name: String,
    pub log_level: String,
    pub log_output: String,
}

#[derive(Debug, Clone)]
pub struct StorageConfig {
    pub wal_path: String,
    pub snapshot_path: String,
    pub rules_path: String,
    pub devices_path: String,
    pub desired_state_path: String,
    pub max_wal_size_mb: u64,
    pub snapshot_interval_events: u64,
}

#[derive(Debug, Clone)]
pub struct AdapterConfig {
    pub kind: String,
    pub url: String,
    pub reconnect_interval_seconds: u64,
    pub event_dedup_window_ms: u64,
}

/// Reconciliation settings; the two thresholds are `f32` bit patterns.
#[derive(Debug, Clone)]
pub struct ReconcilerConfig {
    /// Seconds to wait after WAL replay for devices to report before
    /// boot reconciliation diffs desired vs actual.
    pub boot_window_secs: u64,
    pub continuous_poll_interval_seconds: u64,
    pub confidence_degraded_threshold: u32,
    pub confidence_unknown_threshold: u32,
}

#[derive(Debug, Clone)]
pub struct DispatcherConfig {
    /// Milliseconds to wait for command confirmation before retry.
    pub timeout_ms: u64,
    pub max_retries: u8,
    pub retry_delay_ms: u64,
}

#[derive(Debug, Clone)]
pub struct UiConfig {
    pub enabled: bool,
    pub port: u16,
    pub bind: String,
}

#[derive(Debug, Clone)]
pub struct PlatformConfig {
    pub kind: String,
    pub watchdog_enabled: bool,
    pub watchdog_interval_seconds: u64,
    pub max_memory_mb: u64,
}

/// The Home Assistant connection and the entities it maps to devices.
#[derive(Debug, Clone)]
pub struct HaConfig {
    pub url: String,
    pub token: String,
    pub devices: Vec<HaDeviceConfig>,
}

/// How one Home Assistant entity maps to an attribute of a device: which
/// state (or state attribute) to read, how to rename its values, and which
/// service to call for each value a command can set.
#[derive(Debug, Clone)]
pub struct HaDeviceConfig {
    pub ha_entity_id: String,
    pub device_id: String,
    pub attribute: String,
    pub ha_attribute_key: Option<String>,
    pub state_map: OrderedMap<String, String>,
    pub service_map: OrderedMap<String, String>,
}

#[derive(Debug, Clone)]
pub enum ConfigError {
    ReadFailed(String, String),
    ParseFailed(String),
    InvalidValue(String, String),
}

pub open spec fn log_level_known(s: Seq<char>) -> bool {
    s == "debug"@ || s == "info"@ || s == "warn"@ || s == "error"@
}

pub open spec fn adapter_kind_known(s: Seq<char>) -> bool {
    s == "homeassistant"@ || s == "zigbee2mqtt"@ || s == "mock"@
}

pub open spec fn platform_kind_known(s: Seq<char>) -> bool {
    s == "linux"@ || s == "openwrt"@
}

/// The first setting that fails its check, as its dotted name and the text
/// of its value; `None` when every check passes.
pub open spec fn config_problem(c: Config) -> Option<(Seq<char>, Seq<char>)> {
    if !log_level_known(c.daemon.log_level@) {
        Some(("daemon.log_level"@, c.daemon.log_level@))
    } else if !adapter_kind_known(c.adapter.kind@) {
        Some(("adapter.kind"@, c.adapter.kind@))
    } else if !platform_kind_known(c.platform.kind@) {
        Some(("platform.kind"@, c.platform.kind@))
    } else if c.ui.port < 1024 {
        Some(("ui.port"@, decimal(c.ui.port as nat)))
    } else {
        None
    }
}

fn invalid(field: &str, value: String) -> (e: ConfigError)
    ensures
        e matches ConfigError::InvalidValue(f, v) && f@ == field@ && v@ == value@,
{
    ConfigError::InvalidValue(String::from_str(field), value)
}

impl Config {
    /// Checks the log level, adapter kind, platform kind and UI port, in that
    /// order, and names the first that is not acceptable.
    pub fn validate(&self) -> (r: Result<(), ConfigError>)
        ensures
            r is Ok <==> config_problem(*self) is None,
            r matches Err(e) ==> e matches ConfigError::InvalidValue(f, v) && config_problem(*self)
                == Some((f@, v@)),
    {
        let level = self.daemon.log_level.as_str();
        if !(str_eq(level, "debug") || str_eq(level, "info") || str_eq(level, "warn") || str_eq(
            level,
            "error",
        )) {
            proof {
                reveal_strlit("daemon.log_level");
            }
            return Err(invalid("daemon.log_level", self.daemon.log_level.clone()));
        }
        let kind = self.adapter.kind.as_str();
        if !(str_eq(kind, "homeassistant") || str_eq(kind, "zigbee2mqtt") || str_eq(kind, "mock")) {
            proof {
                reveal_strlit("adapter.kind");
            }
            return Err(invalid("adapter.kind", self.adapter.kind.clone()));
        }
        let platform = self.platform.kind.as_str();
        if !(str_eq(platform, "linux") || str_eq(platform, "openwrt")) {
            proof {
                reveal_strlit("platform.kind");
            }
            return Err(invalid("platform.kind", self.platform.kind.clone()));
        }
        if self.ui.port < 1024 {
            proof {
                reveal_strlit("ui.port");
            }
            return Err(invalid("ui.port", u64_text(self.ui.port as u64)));
        }
        Ok(())
    }
}

} // verus!
