//! The steps of the daemon's main loop that decide rather than wait: which
//! commands go to the dispatcher after conflict resolution, which events
//! record it, what the adapter is sent, and the WAL settings per platform.
use vstd::prelude::*;
use vstd::string::StringExecFns;
use crate::dispatcher::CommandDispatcher;
use crate::ordered_map::{Duplicate, OrderedMap};
use crate::resolver::{grouping, losers_of, records_match, winners_of, ConflictRecord, ConflictResolver};
use crate::strings::str_eq;
use crate::types::{AdapterCommand, AttributeKey, Command, CommandStatus, DeviceId, Event, EventKind, EventSource, RuleId, Value};
use crate::ui::UiCommand;
use crate::wal::{wal_config_with_age, WalConfig};

verus! {

/// The text a conflict records for a rule: its id, empty when a command
/// came from no rule.
pub open spec fn rule_text(r: Option<RuleId>) -> Seq<char> {
    match r {
        Some(id) => id.0@,
        None => Seq::empty(),
    }
}

/// Whether `m` holds `key` with the text value `text`.
pub open spec fn has_text(m: OrderedMap<String, Value>, key: Seq<char>, text: Seq<char>) -> bool {
    &&& m.contains(key)
    &&& m.lookup(key) matches Value::Text(t) && t@ == text
}

/// The event that logs a conflict: a system `RuleConflict` naming both
/// rules, the device and the attribute.
pub open spec fn logs_conflict(c: ConflictRecord, e: Event) -> bool {
    &&& e.source == EventSource::System
    &&& e.kind == EventKind::RuleConflict
    &&& e.payload.wf()
    &&& e.payload.entries@.len() == 4
    &&& has_text(e.payload, "winning_rule"@, rule_text(c.winning_rule))
    &&& has_text(e.payload, "losing_rule"@, rule_text(c.losing_rule))
    &&& has_text(e.payload, "device_id"@, c.device_id.0@)
    &&& has_text(e.payload, "attribute"@, c.attribute.0@)
}

/// Commands stored by id one after another, later ones replacing earlier.
pub open spec fn stored(m: Map<Seq<char>, Command>, cmds: Seq<Command>) -> Map<Seq<char>, Command>
    decreases cmds.len(),
{
    if cmds.len() == 0 {
        m
    } else {
        stored(m, cmds.drop_last()).insert(cmds.last().id@, cmds.last())
    }
}

fn rule_text_of(r: &Option<RuleId>) -> (s: String)
    ensures
        s@ == rule_text(*r),
{
    match r {
        Some(id) => id.0.clone(),
        None => String::new(),
    }
}

fn text_payload(pairs: Vec<(String, String)>) -> (m: OrderedMap<String, Value>)
    requires
        forall|i: int, j: int| 0 <= i < j < pairs@.len() ==> pairs@[i].0@ != pairs@[j].0@,
    ensures
        m.wf(),
        m.entries@.len() == pairs@.len(),
        forall|i: int| 0 <= i < pairs@.len() ==> #[trigger] has_text(m, pairs@[i].0@, pairs@[i].1@),
{
    let mut m: OrderedMap<String, Value> = OrderedMap::new();
    let mut pairs = pairs;
    let ghost all = pairs@;
    let n = pairs.len();
    let mut i: usize = 0;
    while i < n
        invariant
            n == all.len(),
            i <= n,
            pairs@ == all.subrange(i as int, n as int),
            forall|a: int, b: int| 0 <= a < b < all.len() ==> all[a].0@ != all[b].0@,
            m.wf(),
            m.entries@.len() == i,
            forall|k: Seq<char>| #[trigger] m.contains(k) ==> exists|q: int| 0 <= q < i && all[q].0@ == k,
            forall|q: int| 0 <= q < i ==> #[trigger] has_text(m, all[q].0@, all[q].1@),
        decreases n - i,
    {
        let (k, v) = pairs.remove(0);
        assert((k, v) == all[i as int]);
        let ghost before = m;
        proof {
            if before.contains(k@) {
                let q = choose|q: int| 0 <= q < i && all[q].0@ == k@;
                assert(all[q].0@ != all[i as int].0@);
            }
        }
        m.insert(k, Value::Text(v));
        proof {
            assert forall|q: int| 0 <= q < i + 1 implies #[trigger] has_text(m, all[q].0@, all[q].1@) by {
                if q < i {
                    assert(all[q].0@ != all[i as int].0@);
                    assert(has_text(before, all[q].0@, all[q].1@));
                    assert(m.contains(all[q].0@));
                }
            }
            assert forall|key: Seq<char>| #[trigger] m.contains(key) implies exists|q: int|
                0 <= q < i + 1 && all[q].0@ == key by {
                if key != all[i as int].0@ {
                    assert(before.contains(key));
                }
            }
        }
        i = i + 1;
    }
    m
}

/// The event logging conflict `c`.
pub fn conflict_event(c: &ConflictRecord) -> (e: Event)
    ensures
        logs_conflict(*c, e),
{
    proof {
        reveal_strlit("winning_rule");
        reveal_strlit("losing_rule");
        reveal_strlit("device_id");
        reveal_strlit("attribute");
    }
    let mut pairs: Vec<(String, String)> = Vec::new();
    pairs.push((String::from_str("winning_rule"), rule_text_of(&c.winning_rule)));
    pairs.push((String::from_str("losing_rule"), rule_text_of(&c.losing_rule)));
    pairs.push((String::from_str("device_id"), c.device_id.0.clone()));
    pairs.push((String::from_str("attribute"), c.attribute.0.clone()));
    let ghost ps = pairs@;
    proof {
        assert("winning_rule"@.len() != "losing_rule"@.len());
        assert("device_id"@[0] != "attribute"@[0]);
        assert(ps[2].0@ != ps[3].0@);
    }
    let payload = text_payload(pairs);
    proof {
        assert(has_text(payload, ps[0].0@, ps[0].1@));
        assert(has_text(payload, ps[1].0@, ps[1].1@));
        assert(has_text(payload, ps[2].0@, ps[2].1@));
        assert(has_text(payload, ps[3].0@, ps[3].1@));
    }
    Event::new(EventSource::System, EventKind::RuleConflict, payload)
}

/// The event recording that a command was confirmed.
pub fn confirmed_event(command_id: &String) -> (e: Event)
    ensures
        e.source == EventSource::System,
        e.kind == EventKind::CommandConfirmed,
        e.payload.wf(),
        e.payload.entries@.len() == 1,
        has_text(e.payload, "command_id"@, command_id@),
{
    proof {
        reveal_strlit("command_id");
    }
    let mut pairs: Vec<(String, String)> = Vec::new();
    pairs.push((String::from_str("command_id"), command_id.clone()));
    let ghost ps = pairs@;
    let payload = text_payload(pairs);
    proof {
        assert(has_text(payload, ps[0].0@, ps[0].1@));
    }
    Event::new(EventSource::System, EventKind::CommandConfirmed, payload)
}

/// The event recording that a command failed for good.
pub fn failed_event(command: &Command) -> (e: Event)
    ensures
        e.source == EventSource::System,
        e.kind == EventKind::CommandFailed,
        e.payload.wf(),
        e.payload.entries@.len() == 2,
        has_text(e.payload, "command_id"@, command.id@),
        has_text(e.payload, "device_id"@, command.device_id.0@),
{
    proof {
        reveal_strlit("command_id");
        reveal_strlit("device_id");
    }
    let mut pairs: Vec<(String, String)> = Vec::new();
    pairs.push((String::from_str("command_id"), command.id.clone()));
    pairs.push((String::from_str("device_id"), command.device_id.0.clone()));
    let ghost ps = pairs@;
    assert(ps[0].0@.len() != ps[1].0@.len());
    let payload = text_payload(pairs);
    proof {
        assert(has_text(payload, ps[0].0@, ps[0].1@));
        assert(has_text(payload, ps[1].0@, ps[1].1@));
    }
    Event::new(EventSource::System, EventKind::CommandFailed, payload)
}

/// What the adapter is sent for a command.
pub fn adapter_command_for(command: &Command) -> (a: AdapterCommand)
    ensures
        a.external_id@ == command.device_id.0@,
        a.attribute@ == command.attribute.0@,
        a.value == command.value,
        a.command_id@ == command.id@,
{
    AdapterCommand {
        external_id: command.device_id.0.clone(),
        attribute: command.attribute.0.clone(),
        value: command.value.duplicate(),
        command_id: command.id.clone(),
    }
}

/// The command a user asked for from the UI: its id is the one the UI
/// handed back, it comes from no rule, it sets the value as text, and it
/// ranks above every rule (as reconciler corrections do).
pub fn command_from_ui(ui: UiCommand, now: u64) -> (c: Command)
    ensures
        c.id == ui.command_id,
        c.rule_id is None,
        c.device_id.0 == ui.device_id,
        c.attribute.0 == ui.attribute,
        c.value == Value::Text(ui.value),
        c.issued_at == now,
        c.status == CommandStatus::Pending,
        c.retry_count == 0,
        c.priority == 255,
{
    Command {
        id: ui.command_id,
        rule_id: None,
        device_id: DeviceId(ui.device_id),
        attribute: AttributeKey(ui.attribute),
        value: Value::Text(ui.value),
        issued_at: now,
        status: CommandStatus::Pending,
        retry_count: 0,
        priority: 255,
    }
}

/// The WAL settings for a platform: router settings for `openwrt`, and
/// those for capable hardware otherwise.
pub fn wal_config_for(platform: &str, wal_path: &str, snapshot_path: &str) -> (c: WalConfig)
    ensures
        wal_config_with_age(
            c,
            wal_path@,
            snapshot_path@,
            if platform@ == "openwrt"@ {
                30
            } else {
                5
            },
        ),
{
    if str_eq(platform, "openwrt") {
        WalConfig::for_openwrt(wal_path, snapshot_path)
    } else {
        WalConfig::for_linux(wal_path, snapshot_path)
    }
}

/// What resolving a batch of candidate commands gives: the conflicts, and
/// the events that log them, one per conflict.
pub struct DispatchOutcome {
    pub conflicts: Vec<ConflictRecord>,
    pub events: Vec<Event>,
}

/// Resolves the candidates, queues the winners with the dispatcher, and
/// answers the conflicts with the events that log them. No candidates, no
/// change.
pub fn dispatch_resolved(
    candidates: Vec<Command>,
    resolver: &ConflictResolver,
    dispatcher: &mut CommandDispatcher,
) -> (r: DispatchOutcome)
    requires
        old(dispatcher).wf(),
    ensures
        final(dispatcher).wf(),
        final(dispatcher).pending_send@ == old(dispatcher).pending_send@ + winners_of(
            grouping(candidates@),
        ),
        final(dispatcher).failed_commands@ == old(dispatcher).failed_commands@,
        final(dispatcher).store.commands.view_map() == stored(
            old(dispatcher).store.commands.view_map(),
            winners_of(grouping(candidates@)),
        ),
        final(dispatcher).store.max_retries == old(dispatcher).store.max_retries,
        final(dispatcher).store.timeout_ms == old(dispatcher).store.timeout_ms,
        exists|now: u64| records_match(r.conflicts@, losers_of(grouping(candidates@)), now),
        r.events@.len() == r.conflicts@.len(),
        forall|i: int| 0 <= i < r.events@.len() ==> #[trigger] logs_conflict(r.conflicts@[i], r.events@[i]),
{
    let ghost cands = candidates@;
    let resolved = resolver.resolve(candidates);
    let ghost now = choose|now: u64| records_match(resolved.conflicts@, losers_of(grouping(cands)), now);
    let mut events: Vec<Event> = Vec::new();
    let mut i: usize = 0;
    while i < resolved.conflicts.len()
        invariant
            i <= resolved.conflicts@.len(),
            events@.len() == i,
            forall|j: int| 0 <= j < i ==> #[trigger] logs_conflict(resolved.conflicts@[j], events@[j]),
        decreases resolved.conflicts@.len() - i,
    {
        events.push(conflict_event(&resolved.conflicts[i]));
        i = i + 1;
    }
    let ghost ws = resolved.winners@;
    let ghost start = *dispatcher;
    let winners = resolved.winners;
    let mut k: usize = 0;
    assert(ws.take(0) =~= Seq::<Command>::empty());
    assert(start.pending_send@ + ws.take(0) =~= start.pending_send@);
    while k < winners.len()
        invariant
            winners@ == ws,
            k <= ws.len(),
            dispatcher.wf(),
            dispatcher.pending_send@ == start.pending_send@ + ws.take(k as int),
            dispatcher.failed_commands@ == start.failed_commands@,
            dispatcher.store.commands.view_map() == stored(start.store.commands.view_map(), ws.take(k as int)),
            dispatcher.store.max_retries == start.store.max_retries,
            dispatcher.store.timeout_ms == start.store.timeout_ms,
        decreases ws.len() - k,
    {
        let ghost before = dispatcher.store.commands;
        let c = winners[k].duplicate();
        let ghost cg = c;
        dispatcher.enqueue(c);
        proof {
            let t = ws.take(k + 1);
            assert(t.drop_last() =~= ws.take(k as int));
            assert(t.last() == ws[k as int]);
            assert(dispatcher.pending_send@ =~= start.pending_send@ + t);
            crate::ordered_map::lemma_view_after_store(before, dispatcher.store.commands, cg.id, cg);
            assert(dispatcher.store.commands.view_map() =~= before.view_map().insert(cg.id@, cg));
        }
        k = k + 1;
    }
    proof {
        assert(ws.take(ws.len() as int) =~= ws);
        assert(records_match(resolved.conflicts@, losers_of(grouping(cands)), now));
    }
    let r = DispatchOutcome { conflicts: resolved.conflicts, events };
    assert(records_match(r.conflicts@, losers_of(grouping(cands)), now));
    r
}

} // verus!
