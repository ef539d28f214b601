//! The command store: every tracked command by id, with timeout, retry and
//! failure handling.
use vstd::prelude::*;
use crate::ordered_map::{find_index, lemma_find_index, lemma_update_value, Duplicate, MapKey, OrderedMap};
use crate::types::{Command, CommandStatus};

verus! {

/// Confirmed and failed commands are pruned this long after they were issued.
pub const RETENTION_MS: u64 = 300_000;

pub struct CommandStore {
    pub commands: OrderedMap<String, Command>,
    pub max_retries: u8,
    pub timeout_ms: u64,
}

#[derive(Debug)]
pub struct TimedOutCommand {
    pub command: Command,
    pub action: TimeoutAction,
}

#[derive(Debug, Clone, Copy, PartialEq, Eq, Structural)]
pub enum TimeoutAction {
    Retry,
    Fail,
}

pub open spec fn sat_sub(a: u64, b: u64) -> int {
    if a >= b {
        a - b
    } else {
        0
    }
}

/// A sent command whose confirmation is overdue at `now`.
pub open spec fn timed_out(c: Command, now: u64, timeout_ms: u64) -> bool {
    c.status is Sent && sat_sub(now, c.issued_at) > timeout_ms
}

/// `c` re-armed for another attempt from `now`.
pub open spec fn retried(c: Command, now: u64) -> Command {
    Command {
        retry_count: (c.retry_count + 1) as u8,
        status: CommandStatus::Pending,
        issued_at: now,
        ..c
    }
}

/// `f` is `c` marked as failed after its retries ran out.
pub open spec fn failed_version(c: Command, f: Command) -> bool {
    &&& f.id == c.id
    &&& f.rule_id == c.rule_id
    &&& f.device_id == c.device_id
    &&& f.attribute == c.attribute
    &&& f.value == c.value
    &&& f.issued_at == c.issued_at
    &&& f.retry_count == c.retry_count
    &&& f.priority == c.priority
    &&& f.status matches CommandStatus::Failed(reason) && reason@ == "max retries exceeded"@
}

/// The store's entries after a tick: overdue commands with retries left are
/// re-armed, overdue commands without are dropped, the rest stay as they are.
pub open spec fn after_tick(s: Seq<(String, Command)>, now: u64, timeout_ms: u64, max_retries: u8) -> Seq<
    (String, Command),
>
    decreases s.len(),
{
    if s.len() == 0 {
        s
    } else {
        let prev = after_tick(s.drop_last(), now, timeout_ms, max_retries);
        let e = s.last();
        if timed_out(e.1, now, timeout_ms) {
            if e.1.retry_count < max_retries {
                prev.push((e.0, retried(e.1, now)))
            } else {
                prev
            }
        } else {
            prev.push(e)
        }
    }
}

/// The re-armed commands of a tick, in store order.
pub open spec fn retries_of(s: Seq<(String, Command)>, now: u64, timeout_ms: u64, max_retries: u8) -> Seq<
    Command,
>
    decreases s.len(),
{
    if s.len() == 0 {
        Seq::empty()
    } else {
        let prev = retries_of(s.drop_last(), now, timeout_ms, max_retries);
        let c = s.last().1;
        if timed_out(c, now, timeout_ms) && c.retry_count < max_retries {
            prev.push(retried(c, now))
        } else {
            prev
        }
    }
}

/// The commands a tick gives up on, in store order.
pub open spec fn failures_of(s: Seq<(String, Command)>, now: u64, timeout_ms: u64, max_retries: u8) -> Seq<
    Command,
>
    decreases s.len(),
{
    if s.len() == 0 {
        Seq::empty()
    } else {
        let prev = failures_of(s.drop_last(), now, timeout_ms, max_retries);
        let c = s.last().1;
        if timed_out(c, now, timeout_ms) && c.retry_count >= max_retries {
            prev.push(c)
        } else {
            prev
        }
    }
}

/// Whether cleanup at `now` keeps a command: confirmed and failed commands
/// only while issued after the retention cutoff.
pub open spec fn kept_by_cleanup(c: Command, now: u64) -> bool {
    match c.status {
        CommandStatus::Confirmed | CommandStatus::Failed(_) => c.issued_at > sat_sub(now, RETENTION_MS),
        _ => true,
    }
}

pub open spec fn after_cleanup(s: Seq<(String, Command)>, now: u64) -> Seq<(String, Command)>
    decreases s.len(),
{
    if s.len() == 0 {
        s
    } else if kept_by_cleanup(s.last().1, now) {
        after_cleanup(s.drop_last(), now).push(s.last())
    } else {
        after_cleanup(s.drop_last(), now)
    }
}

/// Each entry is keyed by its command's id, and ids are unique.
pub open spec fn entries_keyed(s: Seq<(String, Command)>) -> bool {
    &&& crate::ordered_map::keys_unique(s)
    &&& forall|i: int| 0 <= i < s.len() ==> (#[trigger] s[i]).0 == s[i].1.id
}

/// A subsequence of keyed entries is keyed.
proof fn lemma_keyed_sub(s: Seq<(String, Command)>, t: Seq<(String, Command)>, idx: Seq<int>)
    requires
        entries_keyed(s),
        t.len() == idx.len(),
        forall|a: int| 0 <= a < idx.len() ==> 0 <= #[trigger] idx[a] < s.len(),
        forall|a: int, b: int| 0 <= a < b < idx.len() ==> #[trigger] idx[a] < #[trigger] idx[b],
        forall|a: int| 0 <= a < idx.len() ==> (#[trigger] t[a]).0 == s[idx[a]].0 && t[a].1.id == s[idx[a]].1.id,
    ensures
        entries_keyed(t),
{
    assert forall|a: int, b: int| 0 <= a < t.len() && 0 <= b < t.len() && a != b implies #[trigger] t[a].0.model()
        != #[trigger] t[b].0.model() by {
        assert(idx[a] != idx[b]) by {
            if a < b {
                assert(idx[a] < idx[b]);
            } else {
                assert(idx[b] < idx[a]);
            }
        }
        assert(s[idx[a]].0.model() != s[idx[b]].0.model());
    }
}

impl CommandStore {
    pub open spec fn wf(&self) -> bool {
        &&& self.commands.wf()
        &&& entries_keyed(self.commands.entries@)
    }

    pub fn new(max_retries: u8, timeout_ms: u64) -> (s: Self)
        ensures
            s.wf(),
            s.commands.entries@.len() == 0,
            s.max_retries == max_retries,
            s.timeout_ms == timeout_ms,
    {
        CommandStore { commands: OrderedMap::new(), max_retries, timeout_ms }
    }

    /// Tracks a command under its id (replacing one with the same id).
    pub fn insert(&mut self, command: Command)
        requires
            old(self).wf(),
        ensures
            final(self).wf(),
            final(self).max_retries == old(self).max_retries,
            final(self).timeout_ms == old(self).timeout_ms,
            old(self).commands.contains(command.id@) ==> final(self).commands.entries@ == old(
                self,
            ).commands.entries@.update(old(self).commands.index_of(command.id@), (command.id, command)),
            !old(self).commands.contains(command.id@) ==> final(self).commands.entries@ == old(
                self,
            ).commands.entries@.push((command.id, command)),
    {
        let ghost pre = self.commands.entries@;
        let key = command.id.clone();
        proof {
            lemma_find_index(pre, command.id@);
        }
        self.commands.insert(key, command);
        proof {
            assert forall|i: int| 0 <= i < self.commands.entries@.len() implies (#[trigger] self.commands.entries@[i]).0
                == self.commands.entries@[i].1.id by {
                if i < pre.len() && (!(find_index(pre, command.id@) >= 0) || i != find_index(pre, command.id@)) {
                    assert(self.commands.entries@[i] == pre[i]);
                }
            }
        }
    }

    /// Marks a tracked command as sent.
    pub fn mark_sent(&mut self, command_id: &str)
        requires
            old(self).wf(),
        ensures
            final(self).wf(),
            final(self).max_retries == old(self).max_retries,
            final(self).timeout_ms == old(self).timeout_ms,
            !old(self).commands.contains(command_id@) ==> final(self).commands == old(self).commands,
            old(self).commands.contains(command_id@) ==> {
                let i = old(self).commands.index_of(command_id@);
                let c = old(self).commands.entries@[i].1;
                final(self).commands.entries@ == old(self).commands.entries@.update(
                    i,
                    (old(self).commands.entries@[i].0, Command { status: CommandStatus::Sent, ..c }),
                )
            },
    {
        let key = command_id.to_owned();
        let ghost pre = self.commands.entries@;
        proof {
            lemma_find_index(pre, command_id@);
        }
        match self.commands.find(&key) {
            Some(i) => {
                let (k, mut c) = self.commands.remove_at(i);
                c.status = CommandStatus::Sent;
                self.commands.insert_at(i, (k, c));
                proof {
                    assert(self.commands.entries@ =~= pre.update(i as int, (k, c)));
                    lemma_update_value(pre, i as int, (k, c));
                    assert forall|j: int| 0 <= j < self.commands.entries@.len() implies (#[trigger] self.commands.entries@[j]).0
                        == self.commands.entries@[j].1.id by {
                        if j != i {
                            assert(self.commands.entries@[j] == pre[j]);
                        }
                    }
                }
            },
            None => {},
        }
    }

    /// Stops tracking a command and hands it back marked confirmed.
    pub fn confirm(&mut self, command_id: &str) -> (r: Option<Command>)
        requires
            old(self).wf(),
        ensures
            final(self).wf(),
            final(self).max_retries == old(self).max_retries,
            final(self).timeout_ms == old(self).timeout_ms,
            r is None <==> !old(self).commands.contains(command_id@),
            r is None ==> final(self).commands.entries@ == old(self).commands.entries@,
            r matches Some(c) ==> {
                let i = old(self).commands.index_of(command_id@);
                &&& c == Command { status: CommandStatus::Confirmed, ..old(self).commands.entries@[i].1 }
                &&& final(self).commands.entries@ == old(self).commands.entries@.remove(i)
            },
    {
        let key = command_id.to_owned();
        let ghost pre = self.commands.entries@;
        proof {
            lemma_find_index(pre, command_id@);
        }
        match self.commands.remove(&key) {
            Some(mut c) => {
                proof {
                    let i = find_index(pre, command_id@);
                    assert forall|j: int| 0 <= j < self.commands.entries@.len() implies (#[trigger] self.commands.entries@[j]).0
                        == self.commands.entries@[j].1.id by {
                        if j < i {
                            assert(self.commands.entries@[j] == pre[j]);
                        } else {
                            assert(self.commands.entries@[j] == pre[j + 1]);
                        }
                    }
                }
                c.status = CommandStatus::Confirmed;
                Some(c)
            },
            None => None,
        }
    }

    /// Handles timeouts at `now`. An overdue sent command with retries left
    /// is re-armed (retry count up by one, pending again, its timeout window
    /// restarted at `now`) and returned for resending; one without retries
    /// left is removed and returned marked failed. Retries come first, then
    /// failures, each in store order.
    pub fn tick(&mut self, now: u64) -> (outcomes: Vec<TimedOutCommand>)
        requires
            old(self).wf(),
        ensures
            final(self).wf(),
            final(self).max_retries == old(self).max_retries,
            final(self).timeout_ms == old(self).timeout_ms,
            final(self).commands.entries@ == after_tick(
                old(self).commands.entries@,
                now,
                old(self).timeout_ms,
                old(self).max_retries,
            ),
            ({
                let rs = retries_of(old(self).commands.entries@, now, old(self).timeout_ms, old(self).max_retries);
                let fs = failures_of(old(self).commands.entries@, now, old(self).timeout_ms, old(self).max_retries);
                &&& outcomes@.len() == rs.len() + fs.len()
                &&& forall|i: int| 0 <= i < rs.len() ==> (#[trigger] outcomes@[i]).command == rs[i]
                    && outcomes@[i].action == TimeoutAction::Retry
                &&& forall|i: int|
                    rs.len() <= i < outcomes@.len() ==> failed_version(
                        fs[i - rs.len()],
                        (#[trigger] outcomes@[i]).command,
                    ) && outcomes@[i].action == TimeoutAction::Fail
            }),
    {
        let ghost orig = self.commands.entries@;
        let timeout_ms = self.timeout_ms;
        let max_retries = self.max_retries;
        let mut rest: Vec<(String, Command)> = Vec::new();
        std::mem::swap(&mut rest, &mut self.commands.entries);
        let mut kept: Vec<(String, Command)> = Vec::new();
        let ghost mut idx: Seq<int> = Seq::empty();
        let mut retries: Vec<TimedOutCommand> = Vec::new();
        let mut failures: Vec<TimedOutCommand> = Vec::new();
        let n = rest.len();
        let mut i: usize = 0;
        while i < n
            invariant
                n == orig.len(),
                i <= n,
                entries_keyed(orig),
                timeout_ms == old(self).timeout_ms,
                max_retries == old(self).max_retries,
                orig == old(self).commands.entries@,
                rest@ == orig.subrange(i as int, n as int),
                kept@ == after_tick(orig.subrange(0, i as int), now, timeout_ms, max_retries),
                kept@.len() == idx.len(),
                forall|a: int| 0 <= a < idx.len() ==> 0 <= #[trigger] idx[a] < i,
                forall|a: int, b: int| 0 <= a < b < idx.len() ==> #[trigger] idx[a] < #[trigger] idx[b],
                forall|a: int|
                    0 <= a < idx.len() ==> (#[trigger] kept@[a]).0 == orig[idx[a]].0 && kept@[a].1.id
                        == orig[idx[a]].1.id,
                retries@.len() == retries_of(orig.subrange(0, i as int), now, timeout_ms, max_retries).len(),
                forall|a: int|
                    0 <= a < retries@.len() ==> (#[trigger] retries@[a]).command == retries_of(
                        orig.subrange(0, i as int),
                        now,
                        timeout_ms,
                        max_retries,
                    )[a] && retries@[a].action == TimeoutAction::Retry,
                failures@.len() == failures_of(orig.subrange(0, i as int), now, timeout_ms, max_retries).len(),
                forall|a: int|
                    0 <= a < failures@.len() ==> failed_version(
                        failures_of(orig.subrange(0, i as int), now, timeout_ms, max_retries)[a],
                        (#[trigger] failures@[a]).command,
                    ) && failures@[a].action == TimeoutAction::Fail,
            decreases n - i,
        {
            let (k, mut c) = rest.remove(0);
            let ghost t = orig.subrange(0, i + 1);
            proof {
                assert(t.drop_last() =~= orig.subrange(0, i as int));
                assert(t.last() == (k, c));
                assert((k, c) == orig[i as int]);
            }
            let age: u64 = if now >= c.issued_at { now - c.issued_at } else { 0 };
            let is_sent = match c.status {
                CommandStatus::Sent => true,
                _ => false,
            };
            if is_sent && age > timeout_ms {
                if c.retry_count < max_retries {
                    c.retry_count = c.retry_count + 1;
                    c.status = CommandStatus::Pending;
                    c.issued_at = now;
                    let copy = c.duplicate();
                    retries.push(TimedOutCommand { command: copy, action: TimeoutAction::Retry });
                    kept.push((k, c));
                    proof {
                        idx = idx.push(i as int);
                    }
                } else {
                    let ghost orig_c = c;
                    c.status = CommandStatus::Failed("max retries exceeded".to_owned());
                    proof {
                        assert(failed_version(orig_c, c));
                    }
                    failures.push(TimedOutCommand { command: c, action: TimeoutAction::Fail });
                }
            } else {
                kept.push((k, c));
                proof {
                    idx = idx.push(i as int);
                }
            }
            i = i + 1;
        }
        assert(orig.subrange(0, n as int) =~= orig);
        proof {
            lemma_keyed_sub(orig, kept@, idx);
        }
        self.commands.entries = kept;
        let ghost rv = retries@;
        let ghost fv = failures@;
        let mut outcomes = retries;
        outcomes.append(&mut failures);
        proof {
            assert forall|a: int| 0 <= a < outcomes@.len() && a >= rv.len() implies #[trigger] outcomes@[a]
                == fv[a - rv.len()] by {}
        }
        outcomes
    }

    /// The commands waiting to be sent, in store order.
    pub fn pending(&self) -> (r: Vec<&Command>)
        ensures
            r@.map_values(|c: &Command| *c) == pending_of(self.commands.entries@),
    {
        let mut r: Vec<&Command> = Vec::new();
        let n = self.commands.entries.len();
        let mut i: usize = 0;
        while i < n
            invariant
                n == self.commands.entries@.len(),
                i <= n,
                r@.map_values(|c: &Command| *c) == pending_of(self.commands.entries@.subrange(0, i as int)),
            decreases n - i,
        {
            let c = &self.commands.entries[i].1;
            let ghost t = self.commands.entries@.subrange(0, i + 1);
            proof {
                assert(t.drop_last() =~= self.commands.entries@.subrange(0, i as int));
            }
            let is_pending = match c.status {
                CommandStatus::Pending => true,
                _ => false,
            };
            if is_pending {
                let ghost rb = r@;
                r.push(c);
                proof {
                    assert(r@.map_values(|c: &Command| *c) =~= rb.map_values(|c: &Command| *c).push(*c));
                }
            }
            i = i + 1;
        }
        assert(self.commands.entries@.subrange(0, n as int) =~= self.commands.entries@);
        r
    }

    /// Every tracked command, in store order.
    pub fn all(&self) -> (r: Vec<&Command>)
        ensures
            r@.len() == self.commands.entries@.len(),
            forall|i: int| 0 <= i < r@.len() ==> *(#[trigger] r@[i]) == self.commands.entries@[i].1,
    {
        let mut r: Vec<&Command> = Vec::new();
        let n = self.commands.entries.len();
        let mut i: usize = 0;
        while i < n
            invariant
                n == self.commands.entries@.len(),
                i <= n,
                r@.len() == i,
                forall|j: int| 0 <= j < i ==> *(#[trigger] r@[j]) == self.commands.entries@[j].1,
            decreases n - i,
        {
            r.push(&self.commands.entries[i].1);
            i = i + 1;
        }
        r
    }

    pub fn get(&self, id: &str) -> (r: Option<&Command>)
        ensures
            r is None <==> !self.commands.contains(id@),
            r matches Some(c) ==> *c == self.commands.lookup(id@),
    {
        let key = id.to_owned();
        self.commands.get(&key)
    }

    /// Prunes confirmed and failed commands issued at or before five
    /// minutes before `now`.
    pub fn cleanup(&mut self, now: u64)
        requires
            old(self).wf(),
        ensures
            final(self).wf(),
            final(self).max_retries == old(self).max_retries,
            final(self).timeout_ms == old(self).timeout_ms,
            final(self).commands.entries@ == after_cleanup(old(self).commands.entries@, now),
    {
        let ghost orig = self.commands.entries@;
        let cutoff: u64 = if now >= RETENTION_MS { now - RETENTION_MS } else { 0 };
        let mut rest: Vec<(String, Command)> = Vec::new();
        std::mem::swap(&mut rest, &mut self.commands.entries);
        let mut kept: Vec<(String, Command)> = Vec::new();
        let ghost mut idx: Seq<int> = Seq::empty();
        let n = rest.len();
        let mut i: usize = 0;
        while i < n
            invariant
                n == orig.len(),
                i <= n,
                entries_keyed(orig),
                cutoff == sat_sub(now, RETENTION_MS),
                rest@ == orig.subrange(i as int, n as int),
                kept@ == after_cleanup(orig.subrange(0, i as int), now),
                kept@.len() == idx.len(),
                forall|a: int| 0 <= a < idx.len() ==> 0 <= #[trigger] idx[a] < i,
                forall|a: int, b: int| 0 <= a < b < idx.len() ==> #[trigger] idx[a] < #[trigger] idx[b],
                forall|a: int| 0 <= a < idx.len() ==> (#[trigger] kept@[a]) == orig[idx[a]],
            decreases n - i,
        {
            let e = rest.remove(0);
            proof {
                let t = orig.subrange(0, i + 1);
                assert(t.drop_last() =~= orig.subrange(0, i as int));
                assert(t.last() == e);
            }
            let keep = match &e.1.status {
                CommandStatus::Confirmed | CommandStatus::Failed(_) => e.1.issued_at > cutoff,
                _ => true,
            };
            if keep {
                kept.push(e);
                proof {
                    idx = idx.push(i as int);
                }
            }
            i = i + 1;
        }
        assert(orig.subrange(0, n as int) =~= orig);
        proof {
            lemma_keyed_sub(orig, kept@, idx);
        }
        self.commands.entries = kept;
    }
}

/// The pending commands of `s`, in order.
pub open spec fn pending_of(s: Seq<(String, Command)>) -> Seq<Command>
    decreases s.len(),
{
    if s.len() == 0 {
        Seq::empty()
    } else if s.last().1.status is Pending {
        pending_of(s.drop_last()).push(s.last().1)
    } else {
        pending_of(s.drop_last())
    }
}


// ── Laws ─────────────────────────────────────────────────────

/// A tick loses no command: each one the store held is still held (as it
/// was, or re-armed) or is handed out as failed.
pub proof fn law_tick_loses_no_command(s: Seq<(String, Command)>, now: u64, timeout_ms: u64, max_retries: u8)
    ensures
        forall|i: int|
            #![trigger s[i]]
            0 <= i < s.len() ==> (exists|j: int|
                0 <= j < after_tick(s, now, timeout_ms, max_retries).len() && after_tick(
                    s,
                    now,
                    timeout_ms,
                    max_retries,
                )[j].0 == s[i].0) || (exists|j: int|
                0 <= j < failures_of(s, now, timeout_ms, max_retries).len() && failures_of(
                    s,
                    now,
                    timeout_ms,
                    max_retries,
                )[j] == s[i].1),
    decreases s.len(),
{
    if s.len() > 0 {
        let t = s.drop_last();
        law_tick_loses_no_command(t, now, timeout_ms, max_retries);
        let a0 = after_tick(t, now, timeout_ms, max_retries);
        let f0 = failures_of(t, now, timeout_ms, max_retries);
        let a = after_tick(s, now, timeout_ms, max_retries);
        let f = failures_of(s, now, timeout_ms, max_retries);
        let e = s.last();
        let kept = !timed_out(e.1, now, timeout_ms) || e.1.retry_count < max_retries;
        if kept {
            assert(a.len() == a0.len() + 1);
            assert(f == f0);
            assert(forall|j: int| 0 <= j < a0.len() ==> a[j] == a0[j]);
            assert(a[a0.len() as int].0 == e.0);
        } else {
            assert(a == a0);
            assert(f.len() == f0.len() + 1);
            assert(forall|j: int| 0 <= j < f0.len() ==> f[j] == f0[j]);
            assert(f[f0.len() as int] == e.1);
        }
        assert forall|i: int| #![trigger s[i]] 0 <= i < s.len() implies (exists|j: int|
            0 <= j < a.len() && a[j].0 == s[i].0) || (exists|j: int| 0 <= j < f.len() && f[j] == s[i].1) by {
            if i < t.len() {
                assert(s[i] == t[i]);
                if exists|j: int| 0 <= j < a0.len() && a0[j].0 == t[i].0 {
                    let j = choose|j: int| 0 <= j < a0.len() && a0[j].0 == t[i].0;
                    assert(a[j] == a0[j]);
                } else {
                    let j = choose|j: int| 0 <= j < f0.len() && f0[j] == t[i].1;
                    assert(f[j] == f0[j]);
                }
            } else {
                assert(s[i] == e);
                if kept {
                    assert(a[a0.len() as int].0 == s[i].0);
                } else {
                    assert(f[f0.len() as int] == s[i].1);
                }
            }
        }
    }
}

/// `r` is `c` re-armed at `now`: the same command, pending again, one more
/// retry counted, and issued anew at `now`.
pub open spec fn rearmed_at(r: Command, c: Command, now: u64) -> bool {
    &&& r.id == c.id
    &&& r.rule_id == c.rule_id
    &&& r.device_id == c.device_id
    &&& r.attribute == c.attribute
    &&& r.value == c.value
    &&& r.priority == c.priority
    &&& r.status is Pending
    &&& r.retry_count == c.retry_count + 1
    &&& r.issued_at == now
}

/// What a tick at `now` leaves of `c`: unchanged when it was not overdue,
/// re-armed from `now` when it was overdue with retries left.
pub open spec fn tick_keeps(r: Command, c: Command, now: u64, timeout_ms: u64, max_retries: u8) -> bool {
    ||| !timed_out(c, now, timeout_ms) && r == c
    ||| timed_out(c, now, timeout_ms) && c.retry_count < max_retries && rearmed_at(r, c, now)
}

/// After a tick at `now` every command the store holds is one it held
/// before, under the same key: untouched if it was not overdue, or re-armed
/// with its timeout window restarted at `now`. So a re-armed command, once
/// sent again, is not overdue at any time up to `timeout_ms` after `now`.
pub proof fn law_tick_restarts_the_window(s: Seq<(String, Command)>, now: u64, timeout_ms: u64, max_retries: u8)
    ensures
        forall|j: int| #![trigger after_tick(s, now, timeout_ms, max_retries)[j]]
            0 <= j < after_tick(s, now, timeout_ms, max_retries).len() ==> exists|i: int| #![trigger s[i]]
                0 <= i < s.len() && s[i].0 == after_tick(s, now, timeout_ms, max_retries)[j].0 && tick_keeps(
                    after_tick(s, now, timeout_ms, max_retries)[j].1,
                    s[i].1,
                    now,
                    timeout_ms,
                    max_retries,
                ),
    decreases s.len(),
{
    if s.len() > 0 {
        let d = s.drop_last();
        law_tick_restarts_the_window(d, now, timeout_ms, max_retries);
        let a = after_tick(s, now, timeout_ms, max_retries);
        let ad = after_tick(d, now, timeout_ms, max_retries);
        let n = s.len() - 1;
        assert(s.last() == s[n]);
        assert forall|j: int| #![trigger a[j]] 0 <= j < a.len() implies exists|i: int| #![trigger s[i]]
            0 <= i < s.len() && s[i].0 == a[j].0 && tick_keeps(a[j].1, s[i].1, now, timeout_ms, max_retries) by {
            if j < ad.len() {
                assert(a[j] == ad[j]);
                let i = choose|i: int| 0 <= i < d.len() && d[i].0 == ad[j].0 && tick_keeps(
                    ad[j].1,
                    d[i].1,
                    now,
                    timeout_ms,
                    max_retries,
                );
                assert(d[i] == s[i]);
            } else {
                assert(tick_keeps(a[j].1, s[n].1, now, timeout_ms, max_retries));
            }
        }
    }
}

/// A command re-armed at `now` and sent again is not overdue at any time
/// up to `timeout_ms` after `now`: its window starts at the re-arming.
pub proof fn law_rearmed_command_waits_its_window(r: Command, c: Command, now: u64, timeout_ms: u64, t: u64)
    requires
        rearmed_at(r, c, now),
        t <= now + timeout_ms,
    ensures
        !timed_out(Command { status: CommandStatus::Sent, ..r }, t, timeout_ms),
{
}

/// Re-arming never takes a command past the retry limit.
pub proof fn law_retries_stay_within_limit(s: Seq<(String, Command)>, now: u64, timeout_ms: u64, max_retries: u8)
    requires
        forall|i: int| 0 <= i < s.len() ==> (#[trigger] s[i]).1.retry_count <= max_retries,
    ensures
        forall|j: int|
            0 <= j < after_tick(s, now, timeout_ms, max_retries).len() ==> (#[trigger] after_tick(
                s,
                now,
                timeout_ms,
                max_retries,
            )[j]).1.retry_count <= max_retries,
    decreases s.len(),
{
    if s.len() > 0 {
        let t = s.drop_last();
        assert forall|i: int| 0 <= i < t.len() implies (#[trigger] t[i]).1.retry_count <= max_retries by {
            assert(t[i] == s[i]);
        }
        law_retries_stay_within_limit(t, now, timeout_ms, max_retries);
        let a0 = after_tick(t, now, timeout_ms, max_retries);
        let a = after_tick(s, now, timeout_ms, max_retries);
        let e = s.last();
        assert(e == s[s.len() - 1]);
        assert forall|j: int| 0 <= j < a.len() implies (#[trigger] a[j]).1.retry_count <= max_retries by {
            if j < a0.len() {
                assert(a[j] == a0[j]);
            }
        }
    }
}

} // verus!
