//! The write-ahead log's bookkeeping: sequence numbers, the group-commit
//! buffer, when it is flushed, and when a snapshot is due.
//!
//! Storage itself (SQLite) is driven by the caller: each append answers with
//! the writes to perform, in order.
use vstd::prelude::*;
use vstd::string::StringExecFns;
use crate::text::{decimal, zero_padded, zero_padded_u64};
use crate::types::{Event, EventKind};

verus! {

// ── Priority ─────────────────────────────────────────────────

#[derive(Debug, Clone, Copy, PartialEq, Eq, Structural)]
pub enum EventPriority {
    /// Command lifecycle and system start/stop: bypass the buffer and write
    /// immediately.
    Critical,
    /// Everything else: buffered, group commit.
    Normal,
}

pub open spec fn priority_for(kind: EventKind) -> EventPriority {
    match kind {
        EventKind::CommandSent | EventKind::CommandConfirmed | EventKind::CommandFailed
        | EventKind::SystemBoot | EventKind::SystemShutdown => EventPriority::Critical,
        _ => EventPriority::Normal,
    }
}

impl EventPriority {
    pub fn for_kind(kind: &EventKind) -> (p: Self)
        ensures
            p == priority_for(*kind),
    {
        match kind {
            EventKind::CommandSent
            | EventKind::CommandConfirmed
            | EventKind::CommandFailed
            | EventKind::SystemBoot
            | EventKind::SystemShutdown => EventPriority::Critical,
            _ => EventPriority::Normal,
        }
    }
}

// ── Config ───────────────────────────────────────────────────

#[derive(Debug, Clone)]
pub struct WalConfig {
    pub db_path: String,
    pub snapshot_path: String,
    pub snapshot_interval_events: u64,
    /// Flush when the buffer's estimated size reaches this.
    pub buffer_max_bytes: usize,
    /// Flush when the buffer is this old.
    pub buffer_max_age_secs: u64,
}

/// The platform settings shared by every target, with the given flush age.
pub open spec fn wal_config_with_age(
    c: WalConfig,
    wal_path: Seq<char>,
    snapshot_path: Seq<char>,
    age: u64,
) -> bool {
    &&& c.db_path@ == wal_path + "/wal.db"@
    &&& c.snapshot_path@ == snapshot_path
    &&& c.snapshot_interval_events == 1000
    &&& c.buffer_max_bytes == 4096
    &&& c.buffer_max_age_secs == age
}

fn wal_config(wal_path: &str, snapshot_path: &str, age: u64) -> (c: WalConfig)
    ensures
        wal_config_with_age(c, wal_path@, snapshot_path@, age),
{
    let mut db_path = String::from_str(wal_path);
    db_path.append("/wal.db");
    WalConfig {
        db_path,
        snapshot_path: String::from_str(snapshot_path),
        snapshot_interval_events: 1000,
        buffer_max_bytes: 4096,
        buffer_max_age_secs: age,
    }
}

impl WalConfig {
    /// Settings for capable hardware: flush every 5 s.
    pub fn for_linux(wal_path: &str, snapshot_path: &str) -> (c: Self)
        ensures
            wal_config_with_age(c, wal_path@, snapshot_path@, 5),
    {
        wal_config(wal_path, snapshot_path, 5)
    }

    /// Settings for router hardware: flush every 30 s.
    pub fn for_openwrt(wal_path: &str, snapshot_path: &str) -> (c: Self)
        ensures
            wal_config_with_age(c, wal_path@, snapshot_path@, 30),
    {
        wal_config(wal_path, snapshot_path, 30)
    }
}

#[derive(Debug, Clone)]
pub enum WalError {
    DbError(String),
    IoError(String),
    SerializeError(String),
}

// ── Log state ────────────────────────────────────────────────

/// The length in bytes of a text, as `str::len` reports it.
pub open spec fn byte_len(s: Seq<char>) -> int {
    (vstd::utf8::encode_utf8(s).len() as usize) as int
}

/// The estimate of an event's stored size that the buffer accounts: the
/// byte length of its id, 20 per payload entry, and 64.
pub open spec fn approx_size(e: Event) -> int {
    byte_len(e.id@) + e.payload.entries@.len() * 20 + 64
}

/// Whether a buffer of `bytes` that started at `since` must be written out at
/// `now`: it reached the size limit, or the age limit (when the clock has not
/// gone back).
pub open spec fn flush_due(c: WalConfig, bytes: int, since: u64, now: u64) -> bool {
    bytes >= c.buffer_max_bytes || (now >= since && now - since >= c.buffer_max_age_secs * 1000)
}

/// `e` as stored at sequence `s`.
pub open spec fn stamped(e: Event, s: u64) -> Event {
    Event { sequence: s, ..e }
}

/// The event an append writes at once, if any.
pub open spec fn written_now(r: WalAppend) -> Seq<Event> {
    match r.immediate {
        Some(e) => seq![e],
        None => Seq::empty(),
    }
}

/// Everything an append asks storage to write, in order.
pub open spec fn handed(r: WalAppend) -> Seq<Event> {
    r.batch@ + written_now(r)
}

/// `after` is `before` with `event` appended at once: it gets the next
/// sequence and everything buffered, then the event, is handed to storage.
pub open spec fn flushed_append(before: WalLog, after: WalLog, event: Event, r: WalAppend) -> bool {
    &&& after.wf()
    &&& r.sequence == before.next_sequence
    &&& after.next_sequence == before.next_sequence + 1
    &&& after.config == before.config
    &&& handed(r) == before.buffer@.push(stamped(event, r.sequence))
    &&& after.buffer@.len() == 0
}

/// `logs` is the run of a log through `events`, each appended with
/// `append_and_flush` and answered by `outs`.
pub open spec fn flushed_run(logs: Seq<WalLog>, events: Seq<Event>, outs: Seq<WalAppend>) -> bool {
    &&& logs.len() == events.len() + 1
    &&& outs.len() == events.len()
    &&& forall|i: int| 0 <= i < events.len() ==> #[trigger] flushed_append(logs[i], logs[i + 1], events[i], outs[i])
}

/// What a run of appends hands to storage, append after append.
pub open spec fn handed_all(outs: Seq<WalAppend>) -> Seq<Event>
    decreases outs.len(),
{
    if outs.len() == 0 {
        Seq::empty()
    } else {
        handed_all(outs.drop_last()) + handed(outs.last())
    }
}

proof fn lemma_flushed_prefix(logs: Seq<WalLog>, events: Seq<Event>, outs: Seq<WalAppend>, n: int)
    requires
        flushed_run(logs, events, outs),
        logs[0].buffer@.len() == 0,
        0 <= n <= events.len(),
    ensures
        logs[n].next_sequence == logs[0].next_sequence + n,
        logs[n].buffer@.len() == 0,
        handed_all(outs.subrange(0, n)) == Seq::new(
            n as nat,
            |i: int| stamped(events[i], (logs[0].next_sequence + i) as u64),
        ),
    decreases n,
{
    if n > 0 {
        let k = n - 1;
        lemma_flushed_prefix(logs, events, outs, k);
        assert(flushed_append(logs[k], logs[k + 1], events[k], outs[k]));
        let sub = outs.subrange(0, n);
        assert(sub.drop_last() =~= outs.subrange(0, k));
        assert(sub.last() == outs[k]);
        assert(logs[k].buffer@.push(stamped(events[k], outs[k].sequence)) =~= seq![
            stamped(events[k], outs[k].sequence),
        ]);
        assert(handed_all(sub) =~= Seq::new(
            n as nat,
            |i: int| stamped(events[i], (logs[0].next_sequence + i) as u64),
        ));
    } else {
        assert(outs.subrange(0, 0) =~= Seq::<WalAppend>::empty());
        assert(handed_all(outs.subrange(0, 0)) =~= Seq::new(
            0,
            |i: int| stamped(events[i], (logs[0].next_sequence + i) as u64),
        ));
    }
}

/// Appending each event with `append_and_flush`, starting from an empty
/// buffer, hands storage exactly the appended events, in the order they were
/// appended, each stamped with the next sequence: consecutive from the log's
/// first, so strictly ascending. Reading the stored events back from
/// sequence `k` in ascending order therefore gives the appended events whose
/// sequence is at least `k`, in append order.
pub proof fn law_stored_events_follow_appends(logs: Seq<WalLog>, events: Seq<Event>, outs: Seq<WalAppend>)
    requires
        flushed_run(logs, events, outs),
        logs[0].buffer@.len() == 0,
    ensures
        handed_all(outs) == Seq::new(
            events.len(),
            |i: int| stamped(events[i], (logs[0].next_sequence + i) as u64),
        ),
        forall|i: int, j: int|
            0 <= i < j < events.len() ==> (#[trigger] handed_all(outs)[i]).sequence
                < (#[trigger] handed_all(outs)[j]).sequence,
        logs.last().next_sequence == logs[0].next_sequence + events.len(),
{
    lemma_flushed_prefix(logs, events, outs, events.len() as int);
    assert(outs.subrange(0, events.len() as int) =~= outs);
    assert(logs.last() == logs[events.len() as int]);
    assert forall|i: int, j: int| 0 <= i < j < events.len() implies (#[trigger] handed_all(outs)[i]).sequence
        < (#[trigger] handed_all(outs)[j]).sequence by {
        assert(logs[0].next_sequence + j <= u64::MAX);
    }
}

/// The file a snapshot at `sequence` is recorded under.
pub open spec fn snapshot_file(c: WalConfig, sequence: u64) -> Seq<char> {
    c.snapshot_path@ + "/snap_"@ + zero_padded(decimal(sequence as nat), 10) + ".json"@
}

/// The writes an append asks of storage, to be done in this order: the
/// batch in one transaction, then the immediate event with a checkpoint,
/// then the snapshot record.
#[derive(Debug)]
pub struct WalAppend {
    pub sequence: u64,
    pub batch: Vec<Event>,
    pub immediate: Option<Event>,
    pub snapshot: Option<(u64, String)>,
}

pub struct WalLog {
    pub config: WalConfig,
    pub buffer: Vec<Event>,
    pub buffer_bytes: usize,
    /// When the buffer was last emptied, in Unix millis.
    pub buffer_since: u64,
    pub next_sequence: u64,
    pub events_since_snapshot: u64,
}

impl WalLog {
    /// Sequences start at 1, and the snapshot counter stays below its
    /// interval.
    pub open spec fn wf(&self) -> bool {
        &&& self.next_sequence >= 1
        &&& self.events_since_snapshot == 0 || self.events_since_snapshot
            < self.config.snapshot_interval_events
    }

    /// A log whose next event gets `next_sequence` (one past the last stored
    /// sequence, so at least 1), with an empty buffer.
    pub fn new(config: WalConfig, next_sequence: u64, now: u64) -> (w: Self)
        requires
            next_sequence >= 1,
        ensures
            w.wf(),
            w.config == config,
            w.buffer@.len() == 0,
            w.buffer_bytes == 0,
            w.buffer_since == now,
            w.next_sequence == next_sequence,
            w.events_since_snapshot == 0,
    {
        WalLog {
            config,
            buffer: Vec::new(),
            buffer_bytes: 0,
            buffer_since: now,
            next_sequence,
            events_since_snapshot: 0,
        }
    }

    /// The sequence of the last event appended (0 before any).
    pub fn latest_sequence(&self) -> (s: u64)
        ensures
            s == if self.next_sequence == 0 { 0 } else { (self.next_sequence - 1) as u64 },
    {
        self.next_sequence.saturating_sub(1)
    }

    /// The number of events the log holds: the last sequence handed out.
    pub fn len(&self) -> (s: u64)
        ensures
            s == if self.next_sequence == 0 { 0 } else { (self.next_sequence - 1) as u64 },
    {
        self.next_sequence.saturating_sub(1)
    }

    fn event_size(event: &Event) -> (n: usize)
        requires
            approx_size(*event) <= usize::MAX,
        ensures
            n == approx_size(*event),
    {
        event.id.as_str().len() + event.payload.entries.len() * 20 + 64
    }

    /// Whether buffering `event` keeps the size estimate within `usize`.
    pub fn room_for(&self, event: &Event) -> (r: bool)
        ensures
            r == (self.buffer_bytes + approx_size(*event) <= usize::MAX),
    {
        let id_len = event.id.as_str().len();
        let entries = event.payload.entries.len();
        if entries > (usize::MAX - 64) / 20 {
            return false;
        }
        let fixed = entries * 20 + 64;
        if id_len > usize::MAX - fixed {
            return false;
        }
        let size = id_len + fixed;
        size <= usize::MAX - self.buffer_bytes
    }

    fn should_flush(&self, now: u64) -> (r: bool)
        ensures
            r == flush_due(self.config, self.buffer_bytes as int, self.buffer_since, now),
    {
        if self.buffer_bytes >= self.config.buffer_max_bytes {
            return true;
        }
        now >= self.buffer_since && ((now - self.buffer_since) as u128)
            >= (self.config.buffer_max_age_secs as u128) * 1000
    }

    /// Empties the buffer, handing its events out for one transaction.
    fn take_buffer(&mut self, now: u64) -> (batch: Vec<Event>)
        ensures
            batch@ == old(self).buffer@,
            final(self).buffer@.len() == 0,
            final(self).buffer_bytes == 0,
            final(self).buffer_since == now,
            final(self).config == old(self).config,
            final(self).next_sequence == old(self).next_sequence,
            final(self).events_since_snapshot == old(self).events_since_snapshot,
    {
        let mut batch: Vec<Event> = Vec::new();
        std::mem::swap(&mut batch, &mut self.buffer);
        self.buffer_bytes = 0;
        self.buffer_since = now;
        batch
    }

    /// Writes out whatever is buffered: the events to commit, none when the
    /// buffer is empty (and then nothing changes).
    pub fn flush(&mut self, now: u64) -> (batch: Vec<Event>)
        ensures
            batch@ == old(self).buffer@,
            old(self).buffer@.len() == 0 ==> *final(self) == *old(self),
            old(self).buffer@.len() > 0 ==> {
                &&& final(self).buffer@.len() == 0
                &&& final(self).buffer_bytes == 0
                &&& final(self).buffer_since == now
            },
            final(self).config == old(self).config,
            final(self).next_sequence == old(self).next_sequence,
            final(self).events_since_snapshot == old(self).events_since_snapshot,
    {
        if self.buffer.len() == 0 {
            Vec::new()
        } else {
            self.take_buffer(now)
        }
    }

    /// Assigns the next sequence to `event` and says what storage must do.
    ///
    /// A critical event first flushes what is buffered and is then written
    /// at once. A normal event joins the buffer, which is flushed when it
    /// reaches its size or age limit. Every `snapshot_interval_events`
    /// appends a snapshot is recorded at the event's sequence. An event
    /// that must be stored before it is acted on is appended with
    /// `append_and_flush`.
    pub fn append(&mut self, event: Event, priority: EventPriority, now: u64) -> (r: WalAppend)
        requires
            old(self).wf(),
            old(self).next_sequence < u64::MAX,
            priority == EventPriority::Normal ==> old(self).buffer_bytes + approx_size(event)
                <= usize::MAX,
        ensures
            final(self).wf(),
            r.sequence == old(self).next_sequence,
            final(self).next_sequence == old(self).next_sequence + 1,
            final(self).config == old(self).config,
            priority == EventPriority::Critical ==> {
                &&& r.immediate == Some(stamped(event, r.sequence))
                &&& r.batch@ == old(self).buffer@
                &&& final(self).buffer@.len() == 0
                &&& old(self).buffer@.len() > 0 ==> final(self).buffer_bytes == 0
                    && final(self).buffer_since == now
                &&& old(self).buffer@.len() == 0 ==> final(self).buffer_bytes
                    == old(self).buffer_bytes && final(self).buffer_since
                    == old(self).buffer_since
            },
            priority == EventPriority::Normal ==> {
                let pushed = old(self).buffer@.push(stamped(event, r.sequence));
                let bytes = old(self).buffer_bytes + approx_size(event);
                &&& r.immediate is None
                &&& flush_due(old(self).config, bytes, old(self).buffer_since, now) ==> {
                    &&& r.batch@ == pushed
                    &&& final(self).buffer@.len() == 0
                    &&& final(self).buffer_bytes == 0
                    &&& final(self).buffer_since == now
                }
                &&& !flush_due(old(self).config, bytes, old(self).buffer_since, now) ==> {
                    &&& r.batch@.len() == 0
                    &&& final(self).buffer@ == pushed
                    &&& final(self).buffer_bytes == bytes
                    &&& final(self).buffer_since == old(self).buffer_since
                }
            },
            r.batch@ + written_now(r) + final(self).buffer@ == old(self).buffer@.push(
                stamped(event, r.sequence),
            ),
            old(self).events_since_snapshot + 1 >= old(self).config.snapshot_interval_events ==> {
                &&& r.snapshot matches Some((s, path)) && s == r.sequence && path@
                    == snapshot_file(old(self).config, r.sequence)
                &&& final(self).events_since_snapshot == 0
            },
            old(self).events_since_snapshot + 1 < old(self).config.snapshot_interval_events ==> {
                &&& r.snapshot is None
                &&& final(self).events_since_snapshot == old(self).events_since_snapshot + 1
            },
    {
        let sequence = self.next_sequence;
        let mut event = event;
        event.sequence = sequence;
        self.next_sequence = sequence + 1;
        let mut batch: Vec<Event> = Vec::new();
        let mut immediate: Option<Event> = None;
        match priority {
            EventPriority::Critical => {
                if self.buffer.len() > 0 {
                    batch = self.take_buffer(now);
                }
                immediate = Some(event);
            },
            EventPriority::Normal => {
                let size = Self::event_size(&event);
                self.buffer.push(event);
                self.buffer_bytes = self.buffer_bytes + size;
                if self.should_flush(now) {
                    batch = self.take_buffer(now);
                }
            },
        }
        self.events_since_snapshot = self.events_since_snapshot + 1;
        let mut snapshot: Option<(u64, String)> = None;
        if self.events_since_snapshot >= self.config.snapshot_interval_events {
            let at = self.latest_sequence();
            snapshot = Some((at, self.snapshot_path(at)));
            self.events_since_snapshot = 0;
        }
        WalAppend { sequence, batch, immediate, snapshot }
    }

    /// Appends `event` and writes out whatever is then buffered, so that
    /// every event appended so far, this one last, is handed to storage
    /// before the call returns: the batch in one transaction, then the
    /// critical event at once. Nothing stays buffered.
    pub fn append_and_flush(&mut self, event: Event, priority: EventPriority, now: u64) -> (r:
        WalAppend)
        requires
            old(self).wf(),
            old(self).next_sequence < u64::MAX,
            priority == EventPriority::Normal ==> old(self).buffer_bytes + approx_size(event)
                <= usize::MAX,
        ensures
            flushed_append(*old(self), *final(self), event, r),
            priority == EventPriority::Critical ==> r.immediate == Some(
                stamped(event, r.sequence),
            ),
            priority == EventPriority::Normal ==> r.immediate is None,
            old(self).events_since_snapshot + 1 >= old(self).config.snapshot_interval_events ==> {
                &&& r.snapshot matches Some((s, path)) && s == r.sequence && path@
                    == snapshot_file(old(self).config, r.sequence)
                &&& final(self).events_since_snapshot == 0
            },
            old(self).events_since_snapshot + 1 < old(self).config.snapshot_interval_events ==> {
                &&& r.snapshot is None
                &&& final(self).events_since_snapshot == old(self).events_since_snapshot + 1
            },
    {
        let step = self.append(event, priority, now);
        let rest = self.flush(now);
        let WalAppend { sequence, batch, immediate, snapshot } = step;
        let mut all = batch;
        let mut rest = rest;
        all.append(&mut rest);
        WalAppend { sequence, batch: all, immediate, snapshot }
    }

    /// The file name a snapshot at `sequence` is recorded under:
    /// `{snapshot_path}/snap_{sequence:010}.json`.
    pub fn snapshot_path(&self, sequence: u64) -> (p: String)
        ensures
            p@ == snapshot_file(self.config, sequence),
    {
        let mut p = self.config.snapshot_path.clone();
        p.append("/snap_");
        let digits = zero_padded_u64(sequence, 10);
        p.append(digits.as_str());
        p.append(".json");
        p
    }
}

} // verus!
