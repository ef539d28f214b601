//! What the HTTP API decides and writes: the messages shared with the UI,
//! the device and mapping entries appended to the config files, the device
//! list, discovered entities, and edits to the rule file.
use vstd::prelude::*;
use vstd::string::StringExecFns;
use crate::outside::new_ulid;
use crate::rule_types::{RuleEntry, RuleFile};
use crate::text::{before_first, decimal, u64_text, text_before};
use crate::types::{Capability, Device, DeviceKind};

verus! {

// ── Shared with the UI ───────────────────────────────────────

/// A command a user asked for from the dashboard or app.
#[derive(Debug, Clone)]
pub struct UiCommand {
    pub device_id: String,
    pub attribute: String,
    pub value: String,
    pub command_id: String,
}

/// One line of the event history the UI shows.
#[derive(Debug, Clone)]
pub struct EventSummary {
    pub timestamp: u64,
    pub kind: String,
    pub device_id: Option<String>,
    pub attribute: Option<String>,
    pub value: Option<String>,
    pub source: String,
    pub command_id: Option<String>,
}

/// A server-sent event: its name and data.
#[derive(Debug, Clone)]
pub struct SseMessage {
    pub event: String,
    pub data: String,
}

// ── Text helpers ─────────────────────────────────────────────

/// `parts` joined with `sep` between neighbours.
pub open spec fn joined(parts: Seq<Seq<char>>, sep: Seq<char>) -> Seq<char>
    decreases parts.len(),
{
    if parts.len() == 0 {
        Seq::empty()
    } else if parts.len() == 1 {
        parts[0]
    } else {
        joined(parts.drop_last(), sep) + sep + parts.last()
    }
}

/// `"key" = "value"`, as an inline TOML table lists a pair.
pub open spec fn quoted_pair(p: (String, String)) -> Seq<char> {
    "\""@ + p.0@ + "\" = \""@ + p.1@ + "\""@
}

/// `key = "value"`, a line of a TOML table.
pub open spec fn table_line(p: (String, String)) -> Seq<char> {
    p.0@ + " = \""@ + p.1@ + "\""@
}

/// An inline TOML table of the pairs, `{}` when there are none.
pub open spec fn inline_table(pairs: Seq<(String, String)>) -> Seq<char> {
    if pairs.len() == 0 {
        "{}"@
    } else {
        "{ "@ + joined(pairs.map_values(|p: (String, String)| quoted_pair(p)), ", "@) + " }"@
    }
}

/// One pair, rendered as `quoted_pair` or as `table_line`.
fn render_pair(p: &(String, String), quoted: bool) -> (s: String)
    ensures
        s@ == if quoted {
            quoted_pair(*p)
        } else {
            table_line(*p)
        },
{
    if quoted {
        let mut s = String::from_str("\"");
        s.append(p.0.as_str());
        s.append("\" = \"");
        s.append(p.1.as_str());
        s.append("\"");
        s
    } else {
        let mut s = p.0.clone();
        s.append(" = \"");
        s.append(p.1.as_str());
        s.append("\"");
        s
    }
}

/// The rendered pairs joined with `sep`.
fn join_pairs(pairs: &Vec<(String, String)>, quoted: bool, sep: &str) -> (s: String)
    ensures
        quoted ==> s@ == joined(pairs@.map_values(|p: (String, String)| quoted_pair(p)), sep@),
        !quoted ==> s@ == joined(pairs@.map_values(|p: (String, String)| table_line(p)), sep@),
{
    let mut s = String::new();
    let mut i: usize = 0;
    while i < pairs.len()
        invariant
            i <= pairs@.len(),
            quoted ==> s@ == joined(pairs@.take(i as int).map_values(|p: (String, String)| quoted_pair(p)), sep@),
            !quoted ==> s@ == joined(pairs@.take(i as int).map_values(|p: (String, String)| table_line(p)), sep@),
        decreases pairs@.len() - i,
    {
        let ghost prev_q = pairs@.take(i as int).map_values(|p: (String, String)| quoted_pair(p));
        let ghost prev_t = pairs@.take(i as int).map_values(|p: (String, String)| table_line(p));
        let piece = render_pair(&pairs[i], quoted);
        if i > 0 {
            s.append(sep);
        }
        s.append(piece.as_str());
        proof {
            let next_q = pairs@.take(i + 1).map_values(|p: (String, String)| quoted_pair(p));
            let next_t = pairs@.take(i + 1).map_values(|p: (String, String)| table_line(p));
            assert(next_q.drop_last() =~= prev_q);
            assert(next_t.drop_last() =~= prev_t);
            assert(next_q.last() == quoted_pair(pairs@[i as int]));
            assert(next_t.last() == table_line(pairs@[i as int]));
            if i == 0 {
                assert(prev_q =~= Seq::<Seq<char>>::empty());
                assert(prev_t =~= Seq::<Seq<char>>::empty());
                assert(s@ =~= piece@);
                assert(joined(next_q, sep@) == next_q[0]);
                assert(joined(next_t, sep@) == next_t[0]);
            } else {
                assert(joined(next_q, sep@) == joined(prev_q, sep@) + sep@ + next_q.last());
                assert(joined(next_t, sep@) == joined(prev_t, sep@) + sep@ + next_t.last());
            }
            if quoted {
                assert(piece@ == next_q.last());
                assert(s@ == joined(next_q, sep@));
            }
        }
        i = i + 1;
    }
    proof {
        assert(pairs@.take(pairs@.len() as int) =~= pairs@);
    }
    s
}

/// The pairs as an inline TOML table: `{}` when empty, else
/// `{ "k" = "v", ... }`.
pub fn map_to_inline_toml(map: &Vec<(String, String)>) -> (s: String)
    ensures
        s@ == inline_table(map@),
{
    if map.len() == 0 {
        return String::from_str("{}");
    }
    let mut s = String::from_str("{ ");
    let inner = join_pairs(map, true, ", ");
    s.append(inner.as_str());
    s.append(" }");
    s
}

// ── Adding a device ──────────────────────────────────────────

/// A request to add a device and map it to a Home Assistant entity.
#[derive(Debug, Clone)]
pub struct NewDeviceRequest {
    pub ha_entity_id: String,
    pub device_id: String,
    pub name: String,
    pub kind: String,
    pub attribute: String,
    pub confidence_decay_seconds: u64,
    pub writable: bool,
    pub safe_default: Vec<(String, String)>,
    pub state_map: Vec<(String, String)>,
    pub service_map: Vec<(String, String)>,
}

/// The entry appended to the device file for a new device.
pub open spec fn device_entry_text(req: NewDeviceRequest) -> Seq<char> {
    "\n[[devices]]\nid = \""@ + req.device_id@ + "\"\nexternal_id = \""@ + req.device_id@
        + "\"\nname = \""@ + req.name@ + "\"\nkind = \""@ + req.kind@
        + "\"\nconfidence_decay_seconds = "@ + decimal(req.confidence_decay_seconds as nat) + (
    if req.writable {
        "\n[[devices.capabilities]]\nWritable = \""@
    } else {
        "\n[[devices.capabilities]]\nReadable = \""@
    }) + req.attribute@ + "\""@ + "\n\n[devices.safe_default]\n"@ + joined(
        req.safe_default@.map_values(|p: (String, String)| table_line(p)),
        "\n"@,
    ) + "\n"@
}

/// The entry appended to the config file mapping the new device.
pub open spec fn mapping_entry_text(req: NewDeviceRequest) -> Seq<char> {
    "\n[[home_assistant.devices]]\nha_entity_id = \""@ + req.ha_entity_id@ + "\"\ndevice_id    = \""@
        + req.device_id@ + "\"\nattribute    = \""@ + req.attribute@ + "\"\nstate_map    = "@
        + inline_table(req.state_map@) + "\nservice_map  = "@ + inline_table(req.service_map@)
        + "\n"@
}

/// The text to append to the device file for `req`.
pub fn device_toml(req: &NewDeviceRequest) -> (s: String)
    ensures
        s@ == device_entry_text(*req),
{
    let mut s = String::from_str("\n[[devices]]\nid = \"");
    s.append(req.device_id.as_str());
    s.append("\"\nexternal_id = \"");
    s.append(req.device_id.as_str());
    s.append("\"\nname = \"");
    s.append(req.name.as_str());
    s.append("\"\nkind = \"");
    s.append(req.kind.as_str());
    s.append("\"\nconfidence_decay_seconds = ");
    let n = u64_text(req.confidence_decay_seconds);
    s.append(n.as_str());
    if req.writable {
        s.append("\n[[devices.capabilities]]\nWritable = \"");
    } else {
        s.append("\n[[devices.capabilities]]\nReadable = \"");
    }
    s.append(req.attribute.as_str());
    s.append("\"");
    s.append("\n\n[devices.safe_default]\n");
    let lines = join_pairs(&req.safe_default, false, "\n");
    s.append(lines.as_str());
    s.append("\n");
    s
}

/// The text to append to the config file mapping `req`'s entity.
pub fn ha_device_toml(req: &NewDeviceRequest) -> (s: String)
    ensures
        s@ == mapping_entry_text(*req),
{
    let mut s = String::from_str("\n[[home_assistant.devices]]\nha_entity_id = \"");
    s.append(req.ha_entity_id.as_str());
    s.append("\"\ndevice_id    = \"");
    s.append(req.device_id.as_str());
    s.append("\"\nattribute    = \"");
    s.append(req.attribute.as_str());
    s.append("\"\nstate_map    = ");
    let sm = map_to_inline_toml(&req.state_map);
    s.append(sm.as_str());
    s.append("\nservice_map  = ");
    let svc = map_to_inline_toml(&req.service_map);
    s.append(svc.as_str());
    s.append("\n");
    s
}

// ── Devices ──────────────────────────────────────────────────

/// Whether some device in `registry` has internal id `id`.
pub fn has_device(registry: &Vec<Device>, id: &String) -> (r: bool)
    ensures
        r == exists|i: int| 0 <= i < registry@.len() && registry@[i].id.0@ == id@,
{
    let mut i: usize = 0;
    while i < registry.len()
        invariant
            i <= registry@.len(),
            forall|j: int| 0 <= j < i ==> registry@[j].id.0@ != id@,
        decreases registry@.len() - i,
    {
        if registry[i].id.0 == *id {
            return true;
        }
        i = i + 1;
    }
    false
}

/// Whether some device in `registry` has external id `id`.
pub fn has_external(registry: &Vec<Device>, id: &String) -> (r: bool)
    ensures
        r == exists|i: int| 0 <= i < registry@.len() && registry@[i].external_id@ == id@,
{
    let mut i: usize = 0;
    while i < registry.len()
        invariant
            i <= registry@.len(),
            forall|j: int| 0 <= j < i ==> registry@[j].external_id@ != id@,
        decreases registry@.len() - i,
    {
        if registry[i].external_id == *id {
            return true;
        }
        i = i + 1;
    }
    false
}

/// The name of a device kind, as `{:?}` prints it.
pub open spec fn kind_name(k: DeviceKind) -> Seq<char> {
    match k {
        DeviceKind::Gate => "Gate"@,
        DeviceKind::SecurityLight => "SecurityLight"@,
        DeviceKind::BoreholePump => "BoreholePump"@,
        DeviceKind::WaterTank => "WaterTank"@,
        DeviceKind::AlarmPanel => "AlarmPanel"@,
        DeviceKind::Camera => "Camera"@,
        DeviceKind::SmartPlug => "SmartPlug"@,
        DeviceKind::Inverter => "Inverter"@,
        DeviceKind::Generator => "Generator"@,
        DeviceKind::PowerMonitor => "PowerMonitor"@,
        DeviceKind::Sensor => "Sensor"@,
        DeviceKind::Unknown => "Unknown"@,
    }
}

pub fn device_kind_name(k: DeviceKind) -> (s: String)
    ensures
        s@ == kind_name(k),
{
    match k {
        DeviceKind::Gate => String::from_str("Gate"),
        DeviceKind::SecurityLight => String::from_str("SecurityLight"),
        DeviceKind::BoreholePump => String::from_str("BoreholePump"),
        DeviceKind::WaterTank => String::from_str("WaterTank"),
        DeviceKind::AlarmPanel => String::from_str("AlarmPanel"),
        DeviceKind::Camera => String::from_str("Camera"),
        DeviceKind::SmartPlug => String::from_str("SmartPlug"),
        DeviceKind::Inverter => String::from_str("Inverter"),
        DeviceKind::Generator => String::from_str("Generator"),
        DeviceKind::PowerMonitor => String::from_str("PowerMonitor"),
        DeviceKind::Sensor => String::from_str("Sensor"),
        DeviceKind::Unknown => String::from_str("Unknown"),
    }
}

/// A device as the device list shows it.
#[derive(Debug, Clone)]
pub struct DeviceInfo {
    pub id: String,
    pub name: String,
    pub kind: String,
    pub writable: bool,
}

/// `info` is the device list entry of `d`: its id, name and kind name, and
/// writable when any capability is.
pub open spec fn describes(info: DeviceInfo, d: Device) -> bool {
    &&& info.id@ == d.id.0@
    &&& info.name@ == d.name@
    &&& info.kind@ == kind_name(d.kind)
    &&& info.writable == exists|i: int| 0 <= i < d.capabilities@.len() && d.capabilities@[i] is Writable
}

/// The device list entry of `d`: writable when any capability is.
pub fn device_info(d: &Device) -> (info: DeviceInfo)
    ensures
        describes(info, *d),
{
    let mut writable = false;
    let mut i: usize = 0;
    while i < d.capabilities.len()
        invariant
            i <= d.capabilities@.len(),
            writable == exists|j: int| 0 <= j < i && d.capabilities@[j] is Writable,
        decreases d.capabilities@.len() - i,
    {
        if let Capability::Writable(_) = &d.capabilities[i] {
            writable = true;
        }
        i = i + 1;
    }
    DeviceInfo {
        id: d.id.0.clone(),
        name: d.name.clone(),
        kind: device_kind_name(d.kind),
        writable,
    }
}

/// The device list, in registry order.
pub fn device_infos(registry: &Vec<Device>) -> (r: Vec<DeviceInfo>)
    ensures
        r@.len() == registry@.len(),
        forall|i: int| #![trigger r@[i]] 0 <= i < r@.len() ==> describes(r@[i], registry@[i]),
{
    let mut r: Vec<DeviceInfo> = Vec::new();
    let mut i: usize = 0;
    while i < registry.len()
        invariant
            i <= registry@.len(),
            r@.len() == i,
            forall|j: int| #![trigger r@[j]] 0 <= j < i ==> describes(r@[j], registry@[j]),
        decreases registry@.len() - i,
    {
        r.push(device_info(&registry[i]));
        i = i + 1;
    }
    r
}

// ── Discovered entities ──────────────────────────────────────

/// An entity Home Assistant reports, as device discovery lists it.
#[derive(Debug, Clone)]
pub struct EntityInfo {
    pub entity_id: String,
    pub friendly_name: String,
    pub domain: String,
    pub already_configured: bool,
}

/// The discovery entry of an entity: its domain is the part of its id
/// before the first `.`, its name the friendly name or else its id, and it
/// is configured when a device has it as external id.
pub fn entity_info(entity_id: String, friendly_name: Option<String>, registry: &Vec<Device>) -> (info:
    EntityInfo)
    ensures
        info.entity_id@ == entity_id@,
        info.domain@ == before_first(entity_id@, '.'),
        info.friendly_name@ == match friendly_name {
            Some(f) => f@,
            None => entity_id@,
        },
        info.already_configured == exists|i: int|
            0 <= i < registry@.len() && registry@[i].external_id@ == entity_id@,
{
    let domain = text_before(entity_id.as_str(), '.');
    let friendly = match friendly_name {
        Some(f) => f,
        None => entity_id.clone(),
    };
    let already = has_external(registry, &entity_id);
    EntityInfo { entity_id, friendly_name: friendly, domain, already_configured: already }
}

// ── Commands from the UI ─────────────────────────────────────

/// The command for a known device, with a fresh ULID; `None` when no
/// device has that id.
pub fn ui_command(registry: &Vec<Device>, device_id: String, attribute: String, value: String) -> (r:
    Option<UiCommand>)
    ensures
        r is None <==> !exists|i: int| 0 <= i < registry@.len() && registry@[i].id.0@ == device_id@,
        r matches Some(c) ==> c.device_id == device_id && c.attribute == attribute && c.value
            == value && c.command_id@.len() == 26,
{
    if !has_device(registry, &device_id) {
        return None;
    }
    Some(UiCommand { device_id, attribute, value, command_id: new_ulid() })
}

// ── Rule file edits ──────────────────────────────────────────

#[derive(Debug, Clone)]
pub enum RuleEditError {
    DuplicateId(String),
    NotFound(String),
}

/// Position of the first rule with id `id`, or -1.
pub open spec fn rule_position(rules: Seq<RuleEntry>, id: Seq<char>) -> int
    decreases rules.len(),
{
    if rules.len() == 0 {
        -1
    } else if rules[0].id@ == id {
        0
    } else {
        let r = rule_position(rules.skip(1), id);
        if r < 0 {
            -1
        } else {
            r + 1
        }
    }
}

proof fn lemma_rule_position(rules: Seq<RuleEntry>, id: Seq<char>, i: int)
    requires
        0 <= i <= rules.len(),
        forall|j: int| 0 <= j < i ==> rules[j].id@ != id,
    ensures
        i < rules.len() && rules[i].id@ == id ==> rule_position(rules, id) == i,
        i == rules.len() ==> rule_position(rules, id) == -1,
    decreases i,
{
    if i > 0 {
        lemma_rule_position(rules.skip(1), id, i - 1);
    }
}

/// Where the rule with id `id` stands in the file.
pub fn find_rule(file: &RuleFile, id: &String) -> (r: Option<usize>)
    ensures
        match r {
            Some(i) => i == rule_position(file.rules@, id@) && i < file.rules@.len(),
            None => rule_position(file.rules@, id@) == -1,
        },
{
    let mut i: usize = 0;
    while i < file.rules.len()
        invariant
            i <= file.rules@.len(),
            forall|j: int| 0 <= j < i ==> file.rules@[j].id@ != id@,
        decreases file.rules@.len() - i,
    {
        if file.rules[i].id == *id {
            proof {
                lemma_rule_position(file.rules@, id@, i as int);
            }
            return Some(i);
        }
        i = i + 1;
    }
    proof {
        lemma_rule_position(file.rules@, id@, i as int);
    }
    None
}

/// Appends a new rule; a rule with the same id already there refuses it.
pub fn add_rule(file: &mut RuleFile, entry: RuleEntry) -> (r: Result<(), RuleEditError>)
    ensures
        rule_position(old(file).rules@, entry.id@) >= 0 ==> (r matches Err(
            RuleEditError::DuplicateId(x),
        ) && x@ == entry.id@ && final(file).rules@ == old(file).rules@),
        rule_position(old(file).rules@, entry.id@) < 0 ==> r is Ok && final(file).rules@ == old(
            file,
        ).rules@.push(entry),
{
    match find_rule(file, &entry.id) {
        Some(_) => Err(RuleEditError::DuplicateId(entry.id.clone())),
        None => {
            file.rules.push(entry);
            Ok(())
        },
    }
}

/// Replaces the rule with id `id` by `entry`, where it stands.
pub fn replace_rule(file: &mut RuleFile, id: &String, entry: RuleEntry) -> (r: Result<(), RuleEditError>)
    ensures
        rule_position(old(file).rules@, id@) < 0 ==> (r matches Err(RuleEditError::NotFound(x))
            && x@ == id@ && final(file).rules@ == old(file).rules@),
        rule_position(old(file).rules@, id@) >= 0 ==> r is Ok && final(file).rules@ == old(
            file,
        ).rules@.update(rule_position(old(file).rules@, id@), entry),
{
    match find_rule(file, id) {
        Some(i) => {
            file.rules.set(i, entry);
            Ok(())
        },
        None => Err(RuleEditError::NotFound(id.clone())),
    }
}

/// Enables or disables the rule with id `id`.
pub fn set_rule_enabled(file: &mut RuleFile, id: &String, enabled: bool) -> (r: Result<(), RuleEditError>)
    ensures
        rule_position(old(file).rules@, id@) < 0 ==> (r matches Err(RuleEditError::NotFound(x))
            && x@ == id@ && final(file).rules@ == old(file).rules@),
        rule_position(old(file).rules@, id@) >= 0 ==> {
            let p = rule_position(old(file).rules@, id@);
            &&& r is Ok
            &&& final(file).rules@ == old(file).rules@.update(
                p,
                RuleEntry { enabled, ..old(file).rules@[p] },
            )
        },
{
    match find_rule(file, id) {
        Some(i) => {
            let mut e = file.rules.remove(i);
            e.enabled = enabled;
            file.rules.insert(i, e);
            Ok(())
        },
        None => Err(RuleEditError::NotFound(id.clone())),
    }
}

} // verus!
