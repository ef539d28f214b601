//! The command dispatcher: queues commands for the adapter and tracks
//! retries, confirmations and permanent failures.
use vstd::prelude::*;
use crate::command_store::{
    after_cleanup, after_tick, failed_version, failures_of, pending_of, retries_of, CommandStore,
    TimeoutAction,
};
use crate::ordered_map::Duplicate;
use crate::types::Command;

verus! {

pub struct CommandDispatcher {
    pub store: CommandStore,
    /// Commands ready to send to the adapter: filled by enqueue and tick,
    /// drained by the caller.
    pub pending_send: Vec<Command>,
    /// Commands that permanently failed: filled by tick, drained by the caller.
    pub failed_commands: Vec<Command>,
}

/// The commands of `s` whose id is not `id`, in order.
pub open spec fn without_id(s: Seq<Command>, id: Seq<char>) -> Seq<Command>
    decreases s.len(),
{
    if s.len() == 0 {
        s
    } else if s.last().id@ == id {
        without_id(s.drop_last(), id)
    } else {
        without_id(s.drop_last(), id).push(s.last())
    }
}

impl CommandDispatcher {
    pub open spec fn wf(&self) -> bool {
        self.store.wf()
    }

    pub fn new(max_retries: u8, timeout_ms: u64) -> (d: Self)
        ensures
            d.wf(),
            d.store.commands.entries@.len() == 0,
            d.store.max_retries == max_retries,
            d.store.timeout_ms == timeout_ms,
            d.pending_send@.len() == 0,
            d.failed_commands@.len() == 0,
    {
        CommandDispatcher {
            store: CommandStore::new(max_retries, timeout_ms),
            pending_send: Vec::new(),
            failed_commands: Vec::new(),
        }
    }

    /// Tracks a command and queues it for sending.
    pub fn enqueue(&mut self, command: Command)
        requires
            old(self).wf(),
        ensures
            final(self).wf(),
            final(self).pending_send@ == old(self).pending_send@.push(command),
            final(self).failed_commands@ == old(self).failed_commands@,
            final(self).store.max_retries == old(self).store.max_retries,
            final(self).store.timeout_ms == old(self).store.timeout_ms,
            old(self).store.commands.contains(command.id@) ==> final(self).store.commands.entries@ == old(
                self,
            ).store.commands.entries@.update(
                old(self).store.commands.index_of(command.id@),
                (command.id, command),
            ),
            !old(self).store.commands.contains(command.id@) ==> final(self).store.commands.entries@
                == old(self).store.commands.entries@.push((command.id, command)),
    {
        self.store.insert(command.duplicate());
        self.pending_send.push(command);
    }

    /// Marks a command as handed to the adapter.
    pub fn mark_sent(&mut self, command_id: &str)
        requires
            old(self).wf(),
        ensures
            final(self).wf(),
            final(self).pending_send == old(self).pending_send,
            final(self).failed_commands == old(self).failed_commands,
            final(self).store.max_retries == old(self).store.max_retries,
            final(self).store.timeout_ms == old(self).store.timeout_ms,
            !old(self).store.commands.contains(command_id@) ==> final(self).store.commands == old(
                self,
            ).store.commands,
            old(self).store.commands.contains(command_id@) ==> {
                let i = old(self).store.commands.index_of(command_id@);
                let c = old(self).store.commands.entries@[i].1;
                final(self).store.commands.entries@ == old(self).store.commands.entries@.update(
                    i,
                    (
                        old(self).store.commands.entries@[i].0,
                        Command { status: crate::types::CommandStatus::Sent, ..c },
                    ),
                )
            },
    {
        self.store.mark_sent(command_id);
    }

    /// A confirmation: the command leaves the send queue (in case it raced
    /// the tick) and the store, and is handed back marked confirmed.
    pub fn confirm(&mut self, command_id: &str) -> (r: Option<Command>)
        requires
            old(self).wf(),
        ensures
            final(self).wf(),
            final(self).pending_send@ == without_id(old(self).pending_send@, command_id@),
            final(self).failed_commands == old(self).failed_commands,
            final(self).store.max_retries == old(self).store.max_retries,
            final(self).store.timeout_ms == old(self).store.timeout_ms,
            r is None <==> !old(self).store.commands.contains(command_id@),
            r is None ==> final(self).store.commands.entries@ == old(self).store.commands.entries@,
            r matches Some(c) ==> {
                let i = old(self).store.commands.index_of(command_id@);
                &&& c == Command {
                    status: crate::types::CommandStatus::Confirmed,
                    ..old(self).store.commands.entries@[i].1
                }
                &&& final(self).store.commands.entries@ == old(self).store.commands.entries@.remove(i)
            },
    {
        let ghost orig = self.pending_send@;
        let mut rest: Vec<Command> = Vec::new();
        std::mem::swap(&mut rest, &mut self.pending_send);
        let mut kept: Vec<Command> = Vec::new();
        let n = rest.len();
        let mut i: usize = 0;
        while i < n
            invariant
                n == orig.len(),
                i <= n,
                rest@ == orig.subrange(i as int, n as int),
                kept@ == without_id(orig.subrange(0, i as int), command_id@),
            decreases n - i,
        {
            let c = rest.remove(0);
            proof {
                let t = orig.subrange(0, i + 1);
                assert(t.drop_last() =~= orig.subrange(0, i as int));
                assert(t.last() == c);
            }
            if !crate::strings::str_eq(c.id.as_str(), command_id) {
                kept.push(c);
            }
            i = i + 1;
        }
        assert(orig.subrange(0, n as int) =~= orig);
        self.pending_send = kept;
        self.store.confirm(command_id)
    }

    /// Hands over and empties the send queue.
    pub fn drain_pending(&mut self) -> (r: Vec<Command>)
        ensures
            r@ == old(self).pending_send@,
            final(self).pending_send@.len() == 0,
            final(self).store == old(self).store,
            final(self).failed_commands == old(self).failed_commands,
    {
        let mut r: Vec<Command> = Vec::new();
        std::mem::swap(&mut r, &mut self.pending_send);
        r
    }

    /// Hands over and empties the failure list.
    pub fn drain_failed(&mut self) -> (r: Vec<Command>)
        ensures
            r@ == old(self).failed_commands@,
            final(self).failed_commands@.len() == 0,
            final(self).store == old(self).store,
            final(self).pending_send == old(self).pending_send,
    {
        let mut r: Vec<Command> = Vec::new();
        std::mem::swap(&mut r, &mut self.failed_commands);
        r
    }

    /// Handles timeouts at `now`: re-armed commands join the send queue,
    /// commands out of retries join the failure list, then the store is
    /// pruned of old confirmed and failed commands.
    pub fn tick(&mut self, now: u64)
        requires
            old(self).wf(),
        ensures
            final(self).wf(),
            final(self).store.max_retries == old(self).store.max_retries,
            final(self).store.timeout_ms == old(self).store.timeout_ms,
            final(self).store.commands.entries@ == after_cleanup(
                after_tick(
                    old(self).store.commands.entries@,
                    now,
                    old(self).store.timeout_ms,
                    old(self).store.max_retries,
                ),
                now,
            ),
            final(self).pending_send@ == old(self).pending_send@ + retries_of(
                old(self).store.commands.entries@,
                now,
                old(self).store.timeout_ms,
                old(self).store.max_retries,
            ),
            ({
                let fs = failures_of(
                    old(self).store.commands.entries@,
                    now,
                    old(self).store.timeout_ms,
                    old(self).store.max_retries,
                );
                let base = old(self).failed_commands@;
                &&& final(self).failed_commands@.len() == base.len() + fs.len()
                &&& forall|i: int| 0 <= i < base.len() ==> final(self).failed_commands@[i] == base[i]
                &&& forall|i: int|
                    0 <= i < fs.len() ==> failed_version(
                        fs[i],
                        #[trigger] final(self).failed_commands@[base.len() + i],
                    )
            }),
    {
        let ghost rs = retries_of(self.store.commands.entries@, now, self.store.timeout_ms, self.store.max_retries);
        let ghost fs = failures_of(self.store.commands.entries@, now, self.store.timeout_ms, self.store.max_retries);
        let ghost p0 = self.pending_send@;
        let ghost f0 = self.failed_commands@;
        let mut timed_out = self.store.tick(now);
        let ghost st1 = self.store;
        let n = timed_out.len();
        let mut i: usize = 0;
        let ghost all = timed_out@;
        while i < n
            invariant
                n == all.len(),
                n == rs.len() + fs.len(),
                i <= n,
                timed_out@ == all.subrange(i as int, n as int),
                forall|k: int| 0 <= k < rs.len() ==> (#[trigger] all[k]).command == rs[k] && all[k].action
                    == TimeoutAction::Retry,
                forall|k: int|
                    rs.len() <= k < n ==> failed_version(fs[k - rs.len()], (#[trigger] all[k]).command)
                        && all[k].action == TimeoutAction::Fail,
                i <= rs.len() ==> self.pending_send@ == p0 + rs.subrange(0, i as int),
                i <= rs.len() ==> self.failed_commands@ == f0,
                i > rs.len() ==> self.pending_send@ == p0 + rs,
                i > rs.len() ==> self.failed_commands@.len() == f0.len() + (i - rs.len()),
                forall|k: int| 0 <= k < f0.len() ==> self.failed_commands@[k] == f0[k],
                forall|k: int|
                    0 <= k < self.failed_commands@.len() - f0.len() ==> failed_version(
                        fs[k],
                        #[trigger] self.failed_commands@[f0.len() + k],
                    ),
                self.store.wf(),
                self.store == st1,
            decreases n - i,
        {
            let item = timed_out.remove(0);
            proof {
                assert(item == all[i as int]);
            }
            match item.action {
                TimeoutAction::Retry => {
                    proof {
                        if i >= rs.len() {
                            assert(all[i as int].action == TimeoutAction::Fail);
                        }
                    }
                    self.pending_send.push(item.command);
                    proof {
                        assert(rs.subrange(0, i + 1) =~= rs.subrange(0, i as int).push(rs[i as int]));
                        if i + 1 == rs.len() {
                            assert(rs.subrange(0, rs.len() as int) =~= rs);
                        }
                    }
                },
                TimeoutAction::Fail => {
                    proof {
                        if i < rs.len() {
                            assert(all[i as int].action == TimeoutAction::Retry);
                        }
                        if i == rs.len() {
                            assert(rs.subrange(0, rs.len() as int) =~= rs);
                        }
                    }
                    let ghost fb = self.failed_commands@;
                    self.failed_commands.push(item.command);
                    proof {
                        assert forall|k: int|
                            0 <= k < self.failed_commands@.len() - f0.len() implies failed_version(
                            fs[k],
                            #[trigger] self.failed_commands@[f0.len() + k],
                        ) by {
                            if k < fb.len() - f0.len() {
                                assert(self.failed_commands@[f0.len() + k] == fb[f0.len() + k]);
                            }
                        }
                    }
                },
            }
            i = i + 1;
        }
        proof {
            if rs.len() == n {
                assert(rs.subrange(0, n as int) =~= rs);
            }
        }
        self.store.cleanup(now);
    }

    /// How many tracked commands are waiting to be sent.
    pub fn pending_count(&self) -> (n: usize)
        ensures
            n == pending_of(self.store.commands.entries@).len(),
    {
        let p = self.store.pending();
        proof {
            assert(p@.map_values(|c: &Command| *c).len() == p@.len());
        }
        p.len()
    }

    /// Every tracked command, in store order.
    pub fn all_commands(&self) -> (r: Vec<&Command>)
        ensures
            r@.len() == self.store.commands.entries@.len(),
            forall|i: int| 0 <= i < r@.len() ==> *(#[trigger] r@[i]) == self.store.commands.entries@[i].1,
    {
        self.store.all()
    }
}

} // verus!
