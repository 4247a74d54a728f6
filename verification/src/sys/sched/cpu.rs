//! Scheduler state of one CPU.

use vstd::prelude::*;
use crate::num::{cap_u64, max_int, max_u64, min_int, min_u64, minus_or_zero, mul_capped};
use crate::sys::sched::policy::{
    history_scaled, interact_update, nice_in_range, pctcpu_update, preempts, priority_update,
    reprioritized, should_preempt, slice_for, usage_updated, SchedulerConfig, MAX_BATCH,
    MAX_IDLE, MAX_INTERACT, MAX_ITHD, MIN_BATCH, MIN_IDLE, PRI_BATCH_RANGE,
    SCHED_SLICE_DEFAULT_NS, SCHED_STAT_INTERVAL_NS,
};
use crate::sys::sched::runq::{
    first_accepted, first_occupied, first_queued, lemma_first_accepted, lemma_first_occupied, lemma_total_positive,
    queued_total, stealable, with_queued, without_queued, Buckets, RunQueue, BUCKETS,
};
use crate::sys::thread::{Thread, ThreadClass, ThreadFlags, ThreadState};

verus! {

/// How a thread enters a run queue.
#[derive(Copy, Clone, Debug, PartialEq, Eq, Structural)]
pub enum EnqueueKind {
    /// At the back of the bucket of its priority.
    Normal,
    /// At the front of the bucket that is served next.
    Preempted,
}

/// Load and reachability of a CPU as other CPUs see them.
#[derive(Copy, Clone, Debug, PartialEq, Eq, Structural)]
pub struct CpuSummary {
    /// Number of threads that count towards the CPU's load.
    pub load: usize,
    /// Whether the CPU takes part in scheduling.
    pub online: bool,
}

impl CpuSummary {
    /// Creates an offline summary with no load.
    pub fn new() -> (summary: Self)
        ensures
            summary == (CpuSummary { load: 0, online: false }),
    {
        CpuSummary { load: 0, online: false }
    }
}

/// Scheduler state of one CPU as a mathematical value.
#[verifier::ext_equal]
pub struct CpuModel {
    /// Queued threads per bucket.
    pub buckets: Buckets,
    /// Thread that executes on the CPU.
    pub current: Option<usize>,
    /// Idle thread of the CPU.
    pub idle: Option<usize>,
    /// Exited threads that wait for the reaper, oldest first.
    pub exited: Seq<usize>,
    /// Exited thread whose stack may still be in use.
    pub deferred_exit: Option<usize>,
    /// Whether the CPU takes part in scheduling.
    pub online: bool,
    /// Number of threads that count towards load.
    pub load: usize,
    /// Number of threads that count towards load, for slice scaling.
    pub sysload: usize,
    /// Rotation at which batch threads are inserted.
    pub insert: u8,
    /// Rotation at which batch threads are picked.
    pub pick: u8,
    /// Statistics ticks carried over to the next rotation.
    pub ticks: u64,
    /// Next statistics tick, or zero while the CPU idles.
    pub next_statclock_ns: u64,
    /// Thread whose stack the CPU has not left yet.
    pub unwinding: Option<usize>,
    /// Whether the CPU has been asked to pick a thread again.
    pub need_resched: bool,
}

/// Rotation at or after `pick`, before `insert`, whose bucket is occupied;
/// `insert` where there is none.
pub open spec fn next_pick(buckets: Buckets, pick: int, insert: int) -> int
    decreases
            if pick <= insert {
                insert - pick
            } else {
                insert + PRI_BATCH_RANGE - pick
            },
    when 0 <= pick < PRI_BATCH_RANGE && 0 <= insert < PRI_BATCH_RANGE
{
    if pick == insert || buckets[MIN_BATCH + pick].len() > 0 {
        pick
    } else {
        next_pick(buckets, (pick + 1) % (PRI_BATCH_RANGE as int), insert)
    }
}

/// `buckets` of a CPU, the pick rotation moved on past empty buckets; a bucket
/// that was just emptied is passed without looking.
pub open spec fn pick_after(buckets: Buckets, pick: int, insert: int, emptied: bool) -> int {
    if pick != insert && emptied {
        next_pick(buckets, (pick + 1) % (PRI_BATCH_RANGE as int), insert)
    } else {
        next_pick(buckets, pick, insert)
    }
}

impl CpuModel {
    /// Bucket that a thread of `priority` enters.
    pub open spec fn bucket_for(self, priority: u8, kind: EnqueueKind) -> u8 {
        if !(MIN_BATCH <= priority <= MAX_BATCH) {
            priority
        } else {
            let wanted = if kind == EnqueueKind::Preempted {
                self.pick as int
            } else {
                (priority - MIN_BATCH + self.insert) % (PRI_BATCH_RANGE as int)
            };
            let index = if self.pick != self.insert && wanted == self.pick {
                (wanted + PRI_BATCH_RANGE - 1) % (PRI_BATCH_RANGE as int)
            } else {
                wanted
            };
            (MIN_BATCH + index) as u8
        }
    }

    /// The CPU with `thread`, whose record is `record`, put in its queue.
    pub open spec fn queued(self, thread: usize, record: Thread, kind: EnqueueKind) -> CpuModel {
        CpuModel {
            buckets: with_queued(
                self.buckets,
                self.bucket_for(record.priority, kind) as int,
                thread,
                kind == EnqueueKind::Preempted,
            ),
            ..self
        }
    }

    /// The CPU with `thread`, whose record is `record`, taken out of its queue.
    pub open spec fn dequeued(self, thread: usize, record: Thread) -> CpuModel {
        let buckets = without_queued(self.buckets, record.rqindex as int, thread);
        let emptied = buckets[record.rqindex as int].len() == 0;
        CpuModel {
            buckets,
            pick: if MIN_BATCH <= record.priority <= MAX_BATCH && emptied && self.pick + MIN_BATCH
                == record.rqindex {
                pick_after(buckets, self.pick as int, self.insert as int, true) as u8
            } else {
                self.pick
            },
            ..self
        }
    }

    /// The CPU with its load raised by a thread.
    pub open spec fn charged(self, record: Thread) -> CpuModel {
        if record.spec_counts() {
            CpuModel {
                load: (self.load + 1) as usize,
                sysload: (self.sysload + 1) as usize,
                ..self
            }
        } else {
            self
        }
    }

    /// The CPU with its load lowered by a thread.
    pub open spec fn released(self, record: Thread) -> CpuModel {
        if record.spec_counts() {
            CpuModel {
                load: minus_or_zero(self.load as int, 1) as usize,
                sysload: minus_or_zero(self.sysload as int, 1) as usize,
                ..self
            }
        } else {
            self
        }
    }

    /// The CPU with a thread queued and counted.
    pub open spec fn adopted(self, thread: usize, record: Thread, kind: EnqueueKind) -> CpuModel {
        self.queued(thread, record, kind).charged(record)
    }

    /// Thread the CPU runs next, if any is queued.
    pub open spec fn best(self) -> Option<usize> {
        let urgent = first_queued(self.buckets, 0, MAX_INTERACT as int);
        let start = MIN_BATCH + self.pick;
        let batch = first_queued(self.buckets, start, MAX_BATCH as int);
        let wrapped = first_queued(self.buckets, MIN_BATCH as int, start - 1);
        if urgent.is_some() {
            urgent
        } else if batch.is_some() {
            batch
        } else if wrapped.is_some() {
            wrapped
        } else {
            first_queued(self.buckets, MIN_IDLE as int, MAX_IDLE as int)
        }
    }

    /// Thread that another CPU may take from this one.
    pub open spec fn steal(self, threads: Seq<Thread>) -> Option<usize> {
        let accept = stealable(threads, self.current, self.unwinding);
        let urgent = first_accepted(self.buckets, 0, MAX_INTERACT as int, accept);
        let start = MIN_BATCH + self.pick;
        let batch = first_accepted(self.buckets, start, MAX_BATCH as int, accept);
        if urgent.is_some() {
            urgent
        } else if batch.is_some() {
            batch
        } else {
            first_accepted(self.buckets, MIN_BATCH as int, start - 1, accept)
        }
    }

    /// The CPU after a thread of `priority` became runnable, and whether the
    /// CPU should be kicked for it.
    pub open spec fn preempted_by(
        self,
        threads: Seq<Thread>,
        priority: u8,
        remote: bool,
    ) -> (CpuModel, bool) {
        match self.current {
            None => (self, false),
            Some(current) => if priority >= threads[current as int].priority {
                (self, false)
            } else {
                (
                    CpuModel { need_resched: true, ..self },
                    preempts(priority, threads[current as int].priority, remote),
                )
            },
        }
    }

    /// The CPU after `record` woke up, and whether the CPU should be kicked.
    ///
    /// A latency-sensitive thread also displaces an interactive thread of its
    /// own priority.
    pub open spec fn preempted_by_wakeup(
        self,
        threads: Seq<Thread>,
        record: Thread,
        latency_sensitive: bool,
        remote: bool,
    ) -> (CpuModel, bool) {
        let (cpu, kick) = self.preempted_by(threads, record.priority, remote);
        match self.current {
            Some(current) if !kick && latency_sensitive && record.priority
                == threads[current as int].priority && record.priority <= MAX_INTERACT
                && record.class == ThreadClass::Timeshare && threads[current as int].class
                == ThreadClass::Timeshare && threads[current as int].state
                == ThreadState::Running => (CpuModel { need_resched: true, ..cpu }, true),
            _ => (cpu, kick),
        }
    }

    /// Whether a running thread needs its timer re-armed because a first
    /// competitor arrived.
    pub open spec fn wants_deadline(self, threads: Seq<Thread>, had_runnable: bool) -> bool {
        !had_runnable && !self.need_resched && match self.current {
            Some(current) => threads[current as int].state == ThreadState::Running
                && !threads[current as int].spec_is_idle(),
            None => false,
        }
    }

    /// Whether the CPU idles with nothing queued.
    pub open spec fn available(self, threads: Seq<Thread>) -> bool {
        queued_total(self.buckets) == 0 && match self.current {
            Some(current) => threads[current as int].spec_is_idle(),
            None => true,
        }
    }

    /// Statistics ticks due at `now_ns`.
    pub open spec fn ticks_due(self, now_ns: u64) -> u64 {
        if self.next_statclock_ns == 0 || now_ns < self.next_statclock_ns {
            0
        } else {
            ((now_ns - self.next_statclock_ns) / (SCHED_STAT_INTERVAL_NS as int) + 1) as u64
        }
    }

    /// The CPU with its statistics clock moved past `now_ns`.
    pub open spec fn statclock_moved(self, now_ns: u64) -> CpuModel {
        CpuModel {
            next_statclock_ns: if self.ticks_due(now_ns) == 0 {
                self.next_statclock_ns
            } else {
                cap_u64(
                    self.next_statclock_ns + cap_u64(
                        self.ticks_due(now_ns) * SCHED_STAT_INTERVAL_NS,
                    ),
                )
            },
            ..self
        }
    }

    /// The CPU with its batch rotation moved on by `ticks`.
    pub open spec fn rotated(self, ticks: u64) -> CpuModel {
        if ticks == 0 || self.insert != self.pick {
            self
        } else {
            let total = cap_u64(self.ticks + ticks);
            let advance = minus_or_zero(cap_u64(ticks * 2) as int, total as int / 4);
            let insert = (self.insert + advance % (PRI_BATCH_RANGE as int)) % (
            PRI_BATCH_RANGE as int);
            CpuModel {
                insert: insert as u8,
                ticks: total % 4,
                pick: pick_after(self.buckets, self.pick as int, insert, false) as u8,
                ..self
            }
        }
    }

    /// Slice of a thread on this CPU.
    pub open spec fn quantum(self, record: Thread) -> u64 {
        if record.class != ThreadClass::Timeshare {
            SCHED_SLICE_DEFAULT_NS
        } else {
            slice_for(minus_or_zero(self.sysload as int, 1))
        }
    }

    /// The CPU and the thread table after the running thread was charged for
    /// its time up to `now_ns`.
    pub open spec fn accounted(self, threads: Seq<Thread>, now_ns: u64) -> (
        CpuModel,
        Seq<Thread>,
    ) {
        match self.current {
            None => (self, threads),
            Some(current) => {
                let ticks = self.ticks_due(now_ns);
                let cpu = self.statclock_moved(now_ns).rotated(ticks);
                let record = charged_for_run(threads[current as int], now_ns, ticks);
                if record.state != ThreadState::Running {
                    (cpu, threads.update(current as int, record))
                } else if record.spec_is_idle() {
                    (
                        CpuModel {
                            need_resched: cpu.need_resched || queued_total(cpu.buckets) > 0,
                            ..cpu
                        },
                        threads.update(current as int, record),
                    )
                } else if record.slice_ns >= cpu.quantum(record) {
                    let more = queued_total(cpu.buckets) > 0;
                    (
                        CpuModel { need_resched: cpu.need_resched || more, ..cpu },
                        threads.update(current as int, slice_ended(record, more)),
                    )
                } else {
                    let after = threads.update(current as int, record);
                    (
                        CpuModel {
                            need_resched: cpu.need_resched || match cpu.best() {
                                Some(best) => preempts(
                                    after[best as int].priority,
                                    record.priority,
                                    false,
                                ),
                                None => false,
                            },
                            ..cpu
                        },
                        after,
                    )
                }
            },
        }
    }

    /// Next local timer deadline, or zero for none.
    pub open spec fn deadline(self, threads: Seq<Thread>, now_ns: u64) -> u64 {
        match self.current {
            None => 0,
            Some(current) => {
                let record = threads[current as int];
                if self.need_resched || record.state != ThreadState::Running
                    || record.spec_is_idle() {
                    0
                } else {
                    let left = max_int(
                        minus_or_zero(self.quantum(record) as int, record.slice_ns as int),
                        1,
                    );
                    let slice_deadline = cap_u64(now_ns + left);
                    let stat_deadline = if self.next_statclock_ns == 0 {
                        cap_u64(now_ns + SCHED_STAT_INTERVAL_NS)
                    } else {
                        self.next_statclock_ns
                    };
                    min_int(stat_deadline as int, slice_deadline as int) as u64
                }
            },
        }
    }

    /// Thread the CPU switches to.
    pub open spec fn next_thread(self) -> usize {
        match self.best() {
            Some(best) => best,
            None => self.idle->0,
        }
    }

    /// The CPU and the thread table after CPU `cpu_id` switched to its next
    /// thread.
    pub open spec fn switched(self, threads: Seq<Thread>, cpu_id: usize, now_ns: u64) -> (
        CpuModel,
        Seq<Thread>,
    ) {
        let next = self.next_thread();
        let record = threads[next as int];
        let cpu = if record.spec_is_idle() {
            self
        } else {
            self.dequeued(next, record)
        };
        let previous_idle = match self.current {
            Some(previous) => threads[previous as int].spec_is_idle(),
            None => true,
        };
        let ran = if record.spec_is_idle() {
            record.running_on(cpu_id, now_ns)
        } else {
            record.unlinked().running_on(cpu_id, now_ns)
        };
        (
            CpuModel {
                next_statclock_ns: if record.spec_is_idle() {
                    0
                } else if previous_idle || self.next_statclock_ns == 0 {
                    cap_u64(now_ns + SCHED_STAT_INTERVAL_NS)
                } else {
                    self.next_statclock_ns
                },
                current: Some(next),
                unwinding: if self.current == Some(next) {
                    None
                } else {
                    self.current
                },
                ..cpu
            },
            threads.update(next as int, ran),
        )
    }

    /// The CPU with a finished exit handed to the reaper.
    pub open spec fn exit_published(self) -> CpuModel {
        match self.deferred_exit {
            Some(thread) => CpuModel {
                deferred_exit: None,
                exited: self.exited.push(thread),
                ..self
            },
            None => self,
        }
    }

    /// Every thread the CPU names is below `n`.
    pub open spec fn names_below(self, n: nat) -> bool {
        &&& self.buckets.len() == BUCKETS
        &&& self.insert < PRI_BATCH_RANGE
        &&& self.pick < PRI_BATCH_RANGE
        &&& self.current matches Some(t) ==> t < n
        &&& self.idle matches Some(t) ==> t < n
        &&& forall|b: int, i: int|
            #![trigger self.buckets[b][i]]
            0 <= b < BUCKETS && 0 <= i < self.buckets[b].len() ==> self.buckets[b][i] < n
    }
}

/// A thread charged for its run time up to `now_ns`.
pub open spec fn charged_for_run(record: Thread, now_ns: u64, ticks: u64) -> Thread {
    if record.spec_is_idle() || record.state == ThreadState::Exited {
        record
    } else {
        let elapsed = minus_or_zero(now_ns as int, record.last_run_ns as int);
        let ran = Thread {
            last_run_ns: now_ns,
            slice_ns: cap_u64(record.slice_ns + elapsed),
            ..record
        };
        if record.class != ThreadClass::Timeshare {
            ran
        } else {
            let used = usage_updated(ran, now_ns, true);
            if ticks == 0 {
                used
            } else {
                let ticked = Thread {
                    runtime_ns: cap_u64(
                        used.runtime_ns + cap_u64(ticks * SCHED_STAT_INTERVAL_NS),
                    ),
                    ..used
                };
                if record.state == ThreadState::Running {
                    reprioritized(history_scaled(ticked))
                } else {
                    ticked
                }
            }
        }
    }
}

/// A thread that used up its slice; `more` tells whether others wait.
///
/// An interrupt thread loses priority for it, down to a bound.
pub open spec fn slice_ended(record: Thread, more: bool) -> Thread {
    let fresh = Thread {
        slice_ns: 0,
        flags: ThreadFlags { sliceend: more, ..record.flags },
        ..record
    };
    if more && record.class == ThreadClass::Ithread && record.base_priority + 1 < MAX_ITHD {
        Thread { base_priority: (record.base_priority + 1) as u8, ..fresh }.refreshed()
    } else {
        fresh
    }
}

/// Charges a thread for its run time up to `now_ns`.
fn charge_for_run(current: &mut Thread, now_ns: u64, stat_ticks: u64)
    requires
        nice_in_range(old(current).nice),
    ensures
        *final(current) == charged_for_run(*old(current), now_ns, stat_ticks),
{
    if current.is_idle() || current.state == ThreadState::Exited {
        return;
    }
    let elapsed_ns: u64 = now_ns.saturating_sub(current.last_run_ns);
    current.last_run_ns = now_ns;
    current.slice_ns = current.slice_ns.saturating_add(elapsed_ns);
    if current.class != ThreadClass::Timeshare {
        return;
    }
    pctcpu_update(current, now_ns, true);
    if stat_ticks != 0 {
        current.runtime_ns =
        current.runtime_ns.saturating_add(mul_capped(stat_ticks, SCHED_STAT_INTERVAL_NS));
        if current.state == ThreadState::Running {
            interact_update(current);
            priority_update(current);
        }
    }
}

/// Starts a new slice for a thread that used up its last one.
fn end_slice(current: &mut Thread, more: bool)
    ensures
        *final(current) == slice_ended(*old(current), more),
{
    current.slice_ns = 0;
    current.flags.sliceend = more;
    if more && current.class == ThreadClass::Ithread {
        let demoted: u8 = current.base_priority.saturating_add(1);
        if demoted < MAX_ITHD {
            current.base_priority = demoted;
            current.refresh_priority();
        }
    }
}

/// Every thread has a nice value in range.
pub open spec fn nices_in_range(threads: Seq<Thread>) -> bool {
    forall|t: int| 0 <= t < threads.len() ==> nice_in_range((#[trigger] threads[t]).nice)
}

/// The next thread is the idle thread or one that is queued.
pub proof fn lemma_best_is_queued(cpu: CpuModel)
    requires
        cpu.buckets.len() == BUCKETS,
        cpu.pick < PRI_BATCH_RANGE,
    ensures
        cpu.best() matches Some(t) ==> exists|b: int|
            0 <= b < BUCKETS && cpu.buckets[b].len() > 0 && #[trigger] cpu.buckets[b][0] == t,
        cpu.best().is_some() <==> queued_total(cpu.buckets) > 0,
{
    let start = MIN_BATCH + cpu.pick;
    lemma_first_occupied(cpu.buckets, 0, MAX_INTERACT as int);
    lemma_first_occupied(cpu.buckets, start, MAX_BATCH as int);
    lemma_first_occupied(cpu.buckets, MIN_BATCH as int, start - 1);
    lemma_first_occupied(cpu.buckets, MIN_IDLE as int, MAX_IDLE as int);
    lemma_total_positive(cpu.buckets);
    if queued_total(cpu.buckets) > 0 {
        let b = choose|b: int| 0 <= b < cpu.buckets.len() && (#[trigger] cpu.buckets[b]).len() > 0;
        assert(cpu.buckets[b].len() > 0);
    }
}

/// The next pick rotation is in range.
pub proof fn lemma_next_pick(buckets: Buckets, pick: int, insert: int)
    requires
        0 <= pick < PRI_BATCH_RANGE,
        0 <= insert < PRI_BATCH_RANGE,
    ensures
        0 <= next_pick(buckets, pick, insert) < PRI_BATCH_RANGE,
    decreases
            if pick <= insert {
                insert - pick
            } else {
                insert + PRI_BATCH_RANGE - pick
            },
{
    if pick != insert && buckets[MIN_BATCH + pick].len() == 0 {
        lemma_next_pick(buckets, (pick + 1) % (PRI_BATCH_RANGE as int), insert);
    }
}

/// Scheduler state of one CPU.
pub struct CpuState {
    runq: RunQueue,
    current: Option<usize>,
    idle: Option<usize>,
    exited: Vec<usize>,
    deferred_exit: Option<usize>,
    online: bool,
    load: usize,
    sysload: usize,
    ts_insert_cursor: u8,
    ts_pick_cursor: u8,
    ts_ticks: u64,
    next_statclock_ns: u64,
    unwinding: Option<usize>,
    need_resched: bool,
    summary: CpuSummary,
}

impl View for CpuState {
    type V = CpuModel;

    closed spec fn view(&self) -> CpuModel {
        CpuModel {
            buckets: self.runq@,
            current: self.current,
            idle: self.idle,
            exited: self.exited@,
            deferred_exit: self.deferred_exit,
            online: self.online,
            load: self.load,
            sysload: self.sysload,
            insert: self.ts_insert_cursor,
            pick: self.ts_pick_cursor,
            ticks: self.ts_ticks,
            next_statclock_ns: self.next_statclock_ns,
            unwinding: self.unwinding,
            need_resched: self.need_resched,
        }
    }
}

impl CpuState {
    /// The run queue is consistent, the rotations are in range, and the
    /// published summary is up to date.
    pub closed spec fn wf(self) -> bool {
        &&& self.runq.wf()
        &&& self.ts_insert_cursor < PRI_BATCH_RANGE
        &&& self.ts_pick_cursor < PRI_BATCH_RANGE
        &&& self.summary == (CpuSummary { load: self.load, online: self.online })
    }

    /// A consistent state has one queue per bucket and rotations in range.
    pub proof fn lemma_wf(&self)
        requires
            self.wf(),
        ensures
            self@.buckets.len() == BUCKETS,
            self@.insert < PRI_BATCH_RANGE,
            self@.pick < PRI_BATCH_RANGE,
    {
        self.runq.lemma_wf();
    }

    /// Creates the state of CPU `cpu_id`; only CPU 0 starts online.
    pub fn new(cpu_id: usize) -> (cpu: Self)
        ensures
            cpu.wf(),
            cpu@ == (CpuModel {
                buckets: Seq::new(BUCKETS as nat, |i: int| Seq::<usize>::empty()),
                current: None,
                idle: None,
                exited: Seq::empty(),
                deferred_exit: None,
                online: cpu_id == 0,
                load: 0,
                sysload: 0,
                insert: 0,
                pick: 0,
                ticks: 0,
                next_statclock_ns: 0,
                unwinding: None,
                need_resched: false,
            }),
    {
        let online = cpu_id == 0;
        CpuState {
            runq: RunQueue::new(),
            current: None,
            idle: None,
            exited: Vec::new(),
            deferred_exit: None,
            online,
            load: 0,
            sysload: 0,
            ts_insert_cursor: 0,
            ts_pick_cursor: 0,
            ts_ticks: 0,
            next_statclock_ns: 0,
            unwinding: None,
            need_resched: false,
            summary: CpuSummary { load: 0, online },
        }
    }

    /// Returns what other CPUs see of this one: its true load and whether it
    /// is online.
    pub fn summary(&self) -> (summary: CpuSummary)
        requires
            self.wf(),
        ensures
            summary == (CpuSummary { load: self@.load, online: self@.online }),
    {
        self.summary
    }

    /// Puts the CPU online or takes it offline.
    pub fn set_online(&mut self, online: bool)
        requires
            old(self).wf(),
        ensures
            final(self).wf(),
            final(self)@ == (CpuModel { online, ..old(self)@ }),
    {
        self.online = online;
        self.summary = CpuSummary { load: self.summary.load, online };
    }

    fn publish_load(&mut self)
        ensures
            final(self)@ == old(self)@,
            final(self).summary == (CpuSummary { load: old(self).load, ..old(self).summary }),
            *final(self) == (CpuState { summary: final(self).summary, ..*old(self) }),
    {
        self.summary = CpuSummary { load: self.load, online: self.summary.online };
    }

    /// Names the idle thread of the CPU.
    pub fn set_idle(&mut self, idle: usize)
        requires
            old(self).wf(),
        ensures
            final(self).wf(),
            final(self)@ == (CpuModel { idle: Some(idle), ..old(self)@ }),
    {
        self.idle = Some(idle);
    }

    /// Returns the thread that executes on the CPU.
    pub fn current_thread(&self) -> (current: Option<usize>)
        ensures
            current == self@.current,
    {
        self.current
    }

    /// Returns whether the CPU takes part in scheduling.
    pub fn is_online(&self) -> (online: bool)
        ensures
            online == self@.online,
    {
        self.online
    }

    /// Returns the number of threads that count towards load.
    pub fn load(&self) -> (load: usize)
        ensures
            load == self@.load,
    {
        self.load
    }

    /// Returns whether any thread is queued.
    pub fn has_runnable(&self) -> (some: bool)
        requires
            self.wf(),
        ensures
            some == (queued_total(self@.buckets) > 0),
    {
        self.runq.has_runnable()
    }

    /// Returns whether the CPU has been asked to pick a thread again.
    pub fn needs_resched(&self) -> (need: bool)
        ensures
            need == self@.need_resched,
    {
        self.need_resched
    }

    /// Asks the CPU to pick a thread again, or withdraws that.
    pub fn set_need_resched(&mut self, need: bool)
        requires
            old(self).wf(),
        ensures
            final(self).wf(),
            final(self)@ == (CpuModel { need_resched: need, ..old(self)@ }),
    {
        self.need_resched = need;
    }

    /// Returns the thread whose stack the CPU has not left yet.
    pub fn unwinding(&self) -> (thread: Option<usize>)
        ensures
            thread == self@.unwinding,
    {
        self.unwinding
    }

    /// Records the thread whose stack the CPU has not left yet.
    pub fn set_unwinding(&mut self, thread: Option<usize>)
        requires
            old(self).wf(),
        ensures
            final(self).wf(),
            final(self)@ == (CpuModel { unwinding: thread, ..old(self)@ }),
    {
        self.unwinding = thread;
    }

    /// Leaves the CPU without a current thread; the one that ran becomes the
    /// deferred exit.
    pub fn retire_current(&mut self, thread: usize)
        requires
            old(self).wf(),
        ensures
            final(self).wf(),
            final(self)@ == (CpuModel {
                deferred_exit: Some(thread),
                current: None,
                need_resched: false,
                ..old(self)@
            }),
    {
        self.deferred_exit = Some(thread);
        self.current = None;
        self.need_resched = false;
    }

    /// Hands a finished exit to the reaper.
    pub fn publish_deferred_exit(&mut self)
        requires
            old(self).wf(),
        ensures
            final(self).wf(),
            final(self)@ == old(self)@.exit_published(),
    {
        if let Some(thread) = self.deferred_exit {
            self.deferred_exit = None;
            self.exited.push(thread);
        }
    }

    /// Takes the oldest exited thread.
    pub fn pop_exited(&mut self) -> (thread: Option<usize>)
        requires
            old(self).wf(),
        ensures
            final(self).wf(),
            old(self)@.exited.len() == 0 ==> thread.is_none() && final(self)@ == old(self)@,
            old(self)@.exited.len() > 0 ==> thread == Some(old(self)@.exited[0]) && final(self)@
                == (CpuModel { exited: old(self)@.exited.remove(0), ..old(self)@ }),
    {
        if self.exited.len() == 0 {
            None
        } else {
            Some(self.exited.remove(0))
        }
    }

    /// Returns whether a running thread needs its timer re-armed because a
    /// first competitor arrived.
    pub fn needs_deadline_refresh(&self, threads: &Vec<Thread>, had_runnable: bool) -> (refresh:
        bool)
        requires
            self@.names_below(threads@.len()),
        ensures
            refresh == self@.wants_deadline(threads@, had_runnable),
    {
        if had_runnable || self.need_resched {
            return false;
        }
        match self.current {
            Some(current) => {
                let record = threads[current];
                record.state == ThreadState::Running && !record.is_idle()
            },
            None => false,
        }
    }

    /// Returns whether the CPU idles with nothing queued.
    pub fn is_immediately_available(&self, threads: &Vec<Thread>) -> (available: bool)
        requires
            self.wf(),
            self@.names_below(threads@.len()),
        ensures
            available == self@.available(threads@),
    {
        if self.runq.has_runnable() {
            return false;
        }
        match self.current {
            Some(current) => threads[current].is_idle(),
            None => true,
        }
    }

    fn first_timeshare(&self) -> (thread: Option<usize>)
        requires
            self.wf(),
        ensures
            thread == ({
                let start = MIN_BATCH + self@.pick;
                let batch = first_queued(self@.buckets, start, MAX_BATCH as int);
                if batch.is_some() {
                    batch
                } else {
                    first_queued(self@.buckets, MIN_BATCH as int, start - 1)
                }
            }),
    {
        let start: u8 = MIN_BATCH + self.ts_pick_cursor;
        match self.runq.first_in_range(start, MAX_BATCH) {
            Some(thread) => Some(thread),
            None => {
                if self.ts_pick_cursor != 0 {
                    self.runq.first_in_range(MIN_BATCH, start - 1)
                } else {
                    None
                }
            },
        }
    }

    /// Returns the thread the CPU would run next, if any is queued.
    pub fn best_runnable(&self) -> (best: Option<usize>)
        requires
            self.wf(),
        ensures
            best == self@.best(),
    {
        match self.runq.first_in_range(0, MAX_INTERACT) {
            Some(thread) => Some(thread),
            None => match self.first_timeshare() {
                Some(thread) => Some(thread),
                None => self.runq.first_in_range(MIN_IDLE, MAX_IDLE),
            },
        }
    }

    /// Returns a queued thread that another CPU may take.
    ///
    /// A thread whose stack is still in use here never moves.
    pub fn steal_candidate(&self, threads: &Vec<Thread>) -> (thread: Option<usize>)
        requires
            self.wf(),
            self@.names_below(threads@.len()),
        ensures
            thread == self@.steal(threads@),
    {
        match self.runq.first_in_range_if(0, MAX_INTERACT, threads, self.current, self.unwinding) {
            Some(thread) => Some(thread),
            None => {
                let start: u8 = MIN_BATCH + self.ts_pick_cursor;
                match self.runq.first_in_range_if(
                    start,
                    MAX_BATCH,
                    threads,
                    self.current,
                    self.unwinding,
                ) {
                    Some(thread) => Some(thread),
                    None => {
                        if self.ts_pick_cursor != 0 {
                            self.runq.first_in_range_if(
                                MIN_BATCH,
                                start - 1,
                                threads,
                                self.current,
                                self.unwinding,
                            )
                        } else {
                            None
                        }
                    },
                }
            },
        }
    }

    /// Returns the bucket that a thread of `priority` enters.
    pub fn queue_bucket(&self, priority: u8, kind: EnqueueKind) -> (bucket: u8)
        requires
            self.wf(),
        ensures
            bucket == self@.bucket_for(priority, kind),
    {
        if priority < MIN_BATCH || priority > MAX_BATCH {
            return priority;
        }
        let mut index: usize = match kind {
            EnqueueKind::Preempted => self.ts_pick_cursor as usize,
            EnqueueKind::Normal => ((priority - MIN_BATCH) as usize
                + self.ts_insert_cursor as usize) % PRI_BATCH_RANGE,
        };
        if self.ts_pick_cursor != self.ts_insert_cursor && index == self.ts_pick_cursor as usize {
            index = (index + PRI_BATCH_RANGE - 1) % PRI_BATCH_RANGE;
        }
        MIN_BATCH + index as u8
    }

    fn advance_pick_cursor(&mut self, emptied_current: bool)
        requires
            old(self).wf(),
        ensures
            final(self).wf(),
            final(self)@ == (CpuModel {
                pick: pick_after(
                    old(self)@.buckets,
                    old(self)@.pick as int,
                    old(self)@.insert as int,
                    emptied_current,
                ) as u8,
                ..old(self)@
            }),
    {
        let mut emptied = emptied_current;
        proof {
            self.lemma_wf();
            lemma_next_pick(self@.buckets, self@.pick as int, self@.insert as int);
            lemma_next_pick(
                self@.buckets,
                (self@.pick + 1) % (PRI_BATCH_RANGE as int),
                self@.insert as int,
            );
        }
        let ghost goal = pick_after(
            self@.buckets,
            self@.pick as int,
            self@.insert as int,
            emptied_current,
        );
        while self.ts_pick_cursor != self.ts_insert_cursor
            invariant
                self.wf(),
                self@ == (CpuModel { pick: self@.pick, ..old(self)@ }),
                *self == (CpuState { ts_pick_cursor: self.ts_pick_cursor, ..*old(self) }),
                0 <= goal < PRI_BATCH_RANGE,
                goal == pick_after(
                    self@.buckets,
                    self@.pick as int,
                    self@.insert as int,
                    emptied,
                ),
            ensures
                self.ts_pick_cursor == goal,
            decreases
                if self.ts_pick_cursor <= self.ts_insert_cursor {
                    self.ts_insert_cursor - self.ts_pick_cursor
                } else {
                    self.ts_insert_cursor + PRI_BATCH_RANGE - self.ts_pick_cursor
                },
        {
            if emptied {
                emptied = false;
            } else {
                let bucket: u8 = MIN_BATCH + self.ts_pick_cursor;
                let occupied = self.runq.first_in_range(bucket, bucket).is_some();
                assert(occupied == (self@.buckets[bucket as int].len() > 0)) by {
                    reveal_with_fuel(first_occupied, 2);
                }
                if occupied {
                    break;
                }
            }
            self.ts_pick_cursor = ((self.ts_pick_cursor as usize + 1) % PRI_BATCH_RANGE) as u8;
        }
    }

    /// Takes a thread out of its run queue.
    pub fn dequeue_thread(&mut self, thread: usize, threads: &mut Vec<Thread>)
        requires
            old(self).wf(),
            thread < old(threads)@.len(),
            old(self)@.buckets[old(threads)@[thread as int].rqindex as int].contains(thread),
        ensures
            final(self).wf(),
            final(self)@ == old(self)@.dequeued(thread, old(threads)@[thread as int]),
            final(threads)@ == old(threads)@.update(
                thread as int,
                old(threads)@[thread as int].unlinked(),
            ),
    {
        let record = threads[thread];
        let emptied = self.runq.remove(record.rqindex, thread);
        threads[thread].linked = false;
        if record.priority >= MIN_BATCH && record.priority <= MAX_BATCH && emptied
            && self.ts_pick_cursor + MIN_BATCH == record.rqindex {
            self.advance_pick_cursor(true);
        }
    }

    /// Queues a thread that is not queued.
    pub fn enqueue_existing(&mut self, thread: usize, threads: &mut Vec<Thread>, kind: EnqueueKind)
        requires
            old(self).wf(),
            thread < old(threads)@.len(),
            !old(threads)@[thread as int].linked,
            queued_total(old(self)@.buckets) < usize::MAX,
        ensures
            final(self).wf(),
            final(self)@ == old(self)@.queued(thread, old(threads)@[thread as int], kind),
            final(threads)@ == old(threads)@.update(
                thread as int,
                old(threads)@[thread as int].ready_in(
                    old(self)@.bucket_for(old(threads)@[thread as int].priority, kind),
                ),
            ),
    {
        let mut record = threads[thread];
        let bucket: u8 = self.queue_bucket(record.priority, kind);
        record.mark_ready(bucket);
        record.linked = true;
        threads[thread] = record;
        let front = match kind {
            EnqueueKind::Preempted => true,
            EnqueueKind::Normal => false,
        };
        self.runq.push(bucket, thread, front);
    }

    /// Queues a thread that is new to this CPU and counts it towards load.
    pub fn adopt_thread(&mut self, thread: usize, threads: &mut Vec<Thread>, kind: EnqueueKind)
        requires
            old(self).wf(),
            thread < old(threads)@.len(),
            !old(threads)@[thread as int].linked,
            queued_total(old(self)@.buckets) < usize::MAX,
            old(threads)@[thread as int].spec_counts() ==> old(self)@.load < usize::MAX && old(
                self,
            )@.sysload < usize::MAX,
        ensures
            final(self).wf(),
            final(self)@ == old(self)@.adopted(thread, old(threads)@[thread as int], kind),
            final(threads)@ == old(threads)@.update(
                thread as int,
                old(threads)@[thread as int].ready_in(
                    old(self)@.bucket_for(old(threads)@[thread as int].priority, kind),
                ),
            ),
    {
        self.enqueue_existing(thread, threads, kind);
        if threads[thread].counts_towards_load() {
            self.load = self.load + 1;
            self.sysload = self.sysload + 1;
            self.publish_load();
        }
    }

    /// Stops counting a thread towards load.
    pub fn release_thread(&mut self, record: &Thread)
        requires
            old(self).wf(),
        ensures
            final(self).wf(),
            final(self)@ == old(self)@.released(*record),
    {
        if record.counts_towards_load() {
            self.load = self.load.saturating_sub(1);
            self.sysload = self.sysload.saturating_sub(1);
            self.publish_load();
        }
    }

    /// Notes that a thread of `priority` became runnable and returns whether
    /// the CPU should be kicked for it.
    pub fn consider_preemption(&mut self, threads: &Vec<Thread>, priority: u8, remote: bool) -> (
    kick: bool)
        requires
            old(self).wf(),
            old(self)@.names_below(threads@.len()),
        ensures
            final(self).wf(),
            (final(self)@, kick) == old(self)@.preempted_by(threads@, priority, remote),
    {
        match self.current {
            None => false,
            Some(current) => {
                let current_priority: u8 = threads[current].priority;
                if priority >= current_priority {
                    return false;
                }
                self.need_resched = true;
                should_preempt(priority, current_priority, remote)
            },
        }
    }

    /// Notes that a thread woke up and returns whether the CPU should be
    /// kicked for it.
    pub fn consider_wakeup_preemption(
        &mut self,
        threads: &Vec<Thread>,
        record: &Thread,
        latency_sensitive: bool,
        remote: bool,
    ) -> (kick: bool)
        requires
            old(self).wf(),
            old(self)@.names_below(threads@.len()),
        ensures
            final(self).wf(),
            (final(self)@, kick) == old(self)@.preempted_by_wakeup(
                threads@,
                *record,
                latency_sensitive,
                remote,
            ),
    {
        if self.consider_preemption(threads, record.priority, remote) {
            return true;
        }
        if !latency_sensitive {
            return false;
        }
        match self.current {
            None => false,
            Some(index) => {
                let current = threads[index];
                if record.priority != current.priority || record.priority > MAX_INTERACT
                    || record.class != ThreadClass::Timeshare || current.class
                    != ThreadClass::Timeshare || current.state != ThreadState::Running {
                    return false;
                }
                self.need_resched = true;
                true
            },
        }
    }

    fn advance_timeshare_epoch(&mut self, ticks: u64)
        requires
            old(self).wf(),
        ensures
            final(self).wf(),
            final(self)@ == old(self)@.rotated(ticks),
    {
        if ticks == 0 || self.ts_insert_cursor != self.ts_pick_cursor {
            return;
        }
        let total_ticks: u64 = self.ts_ticks.saturating_add(ticks);
        let advance: u64 = mul_capped(ticks, 2).saturating_sub(total_ticks / 4);
        self.ts_insert_cursor = ((self.ts_insert_cursor as u64 + advance % 109) % 109) as u8;
        self.ts_ticks = total_ticks % 4;
        self.advance_pick_cursor(false);
    }

    fn advance_statclock(&mut self, now_ns: u64) -> (ticks: u64)
        requires
            old(self).wf(),
        ensures
            final(self).wf(),
            ticks == old(self)@.ticks_due(now_ns),
            final(self)@ == old(self)@.statclock_moved(now_ns),
    {
        if self.next_statclock_ns == 0 || now_ns < self.next_statclock_ns {
            return 0;
        }
        let ticks: u64 = (now_ns - self.next_statclock_ns) / SCHED_STAT_INTERVAL_NS + 1;
        self.next_statclock_ns =
        self.next_statclock_ns.saturating_add(mul_capped(ticks, SCHED_STAT_INTERVAL_NS));
        ticks
    }

    /// Returns the slice of a thread on this CPU.
    pub fn quantum_for(&self, record: &Thread, config: &SchedulerConfig) -> (quantum: u64)
        requires
            config.wf(),
        ensures
            quantum == self@.quantum(*record),
    {
        match record.class {
            ThreadClass::Timeshare => {
                let runnable_load: usize = self.sysload.saturating_sub(1);
                config.slice_for_load(runnable_load)
            },
            _ => config.sched_slice_ns,
        }
    }

    /// Charges the running thread for its time up to `now_ns` and decides
    /// whether the CPU has to pick again.
    pub fn account_current(
        &mut self,
        threads: &mut Vec<Thread>,
        config: &SchedulerConfig,
        now_ns: u64,
    )
        requires
            old(self).wf(),
            config.wf(),
            old(self)@.names_below(old(threads)@.len()),
            nices_in_range(old(threads)@),
        ensures
            final(self).wf(),
            (final(self)@, final(threads)@) == old(self)@.accounted(old(threads)@, now_ns),
    {
        let index: usize = match self.current {
            None => {
                return;
            },
            Some(current) => current,
        };
        let stat_ticks: u64 = self.advance_statclock(now_ns);
        self.advance_timeshare_epoch(stat_ticks);
        let mut current = threads[index];
        charge_for_run(&mut current, now_ns, stat_ticks);
        threads[index] = current;
        if current.state != ThreadState::Running {
            return;
        }
        if current.is_idle() {
            if self.runq.has_runnable() {
                self.need_resched = true;
            }
            return;
        }
        if current.slice_ns >= self.quantum_for(&current, config) {
            let more = self.runq.has_runnable();
            end_slice(&mut current, more);
            threads[index] = current;
            assert(threads@ =~= old(threads)@.update(index as int, current));
            if more {
                self.need_resched = true;
            }
            return;
        }
        if let Some(best) = self.best_runnable() {
            proof {
                self.lemma_wf();
                lemma_best_is_queued(self@);
            }
            if should_preempt(threads[best].priority, current.priority, false) {
                self.need_resched = true;
            }
        }
    }

    /// Returns the next local timer deadline, or zero for none.
    pub fn deadline_for(&self, threads: &Vec<Thread>, config: &SchedulerConfig, now_ns: u64) -> (
    deadline: u64)
        requires
            config.wf(),
            self@.names_below(threads@.len()),
        ensures
            deadline == self@.deadline(threads@, now_ns),
    {
        match self.current {
            None => 0,
            Some(index) => {
                let current = threads[index];
                if self.need_resched || current.state != ThreadState::Running
                    || current.is_idle() {
                    return 0;
                }
                let quantum_ns: u64 = self.quantum_for(&current, config);
                let slice_deadline: u64 = now_ns.saturating_add(
                    max_u64(quantum_ns.saturating_sub(current.slice_ns), 1),
                );
                let statclock_deadline: u64 = if self.next_statclock_ns == 0 {
                    now_ns.saturating_add(SCHED_STAT_INTERVAL_NS)
                } else {
                    self.next_statclock_ns
                };
                min_u64(statclock_deadline, slice_deadline)
            },
        }
    }

    /// Makes the best queued thread, or else the idle thread, the current one.
    pub fn take_next_thread(&mut self, threads: &mut Vec<Thread>, cpu_id: usize, now_ns: u64) -> (
    next: usize)
        requires
            old(self).wf(),
            old(self)@.names_below(old(threads)@.len()),
            old(self)@.idle.is_some(),
            !old(threads)@[old(self)@.next_thread() as int].spec_is_idle() ==> old(
                self,
            )@.best().is_some() && old(self)@.buckets[old(threads)@[old(
                self,
            )@.next_thread() as int].rqindex as int].contains(old(self)@.next_thread()),
        ensures
            final(self).wf(),
            next == old(self)@.next_thread(),
            next < old(threads)@.len(),
            (final(self)@, final(threads)@) == old(self)@.switched(old(threads)@, cpu_id, now_ns),
    {
        proof {
            self.lemma_wf();
            lemma_best_is_queued(self@);
        }
        let previous = self.current;
        let next: usize = match self.best_runnable() {
            Some(best) => best,
            None => self.idle.unwrap(),
        };
        let previous_was_idle = match previous {
            Some(thread) => threads[thread].is_idle(),
            None => true,
        };
        let next_is_idle = threads[next].is_idle();
        if !next_is_idle {
            self.dequeue_thread(next, threads);
        }
        let mut record = threads[next];
        record.mark_running(cpu_id, now_ns);
        threads[next] = record;
        if next_is_idle {
            self.next_statclock_ns = 0;
        } else if previous_was_idle || self.next_statclock_ns == 0 {
            self.next_statclock_ns = now_ns.saturating_add(SCHED_STAT_INTERVAL_NS);
        }
        self.current = Some(next);
        self.unwinding =
        match previous {
            Some(thread) => if thread == next {
                None
            } else {
                Some(thread)
            },
            None => None,
        };
        proof {
            let (cpu, table) = old(self)@.switched(old(threads)@, cpu_id, now_ns);
            assert(threads@ =~= table);
            assert(self@ =~= cpu);
        }
        next
    }
}

/// The next thread of a CPU heads the queue that is to be served: any queue
/// better than the batch ones comes first, the better the earlier; then the
/// batch queues in their rotation; idle ones only when all others are empty.
/// There is no next thread only if nothing is queued.
pub proof fn law_urgent_queue_is_served_first(m: CpuModel)
    requires
        m.buckets.len() == 256,
        m.pick < 109,
    ensures
        match m.best() {
            None => forall|b: int| 0 <= b < 256 ==> (#[trigger] m.buckets[b]).len() == 0,
            Some(t) => exists|b: int|
                0 <= b < 256 && (#[trigger] m.buckets[b]).len() > 0 && m.buckets[b][0] == t
                    && is_served_first(m, b),
        },
{
    let start = 115 + m.pick;
    lemma_first_occupied(m.buckets, 0, 114);
    lemma_first_occupied(m.buckets, start, 223);
    lemma_first_occupied(m.buckets, 115, start - 1);
    lemma_first_occupied(m.buckets, 224, 255);
    if let Some(t) = m.best() {
        let urgent = first_occupied(m.buckets, 0, 114);
        let batch = first_occupied(m.buckets, start, 223);
        let wrapped = first_occupied(m.buckets, 115, start - 1);
        let idle = first_occupied(m.buckets, 224, 255);
        let b = match urgent {
            Some(b) => b,
            None => match batch {
                Some(b) => b,
                None => match wrapped {
                    Some(b) => b,
                    None => idle->0,
                },
            },
        };
        assert(m.buckets[b].len() > 0 && m.buckets[b][0] == t);
        assert(is_served_first(m, b));
    }
}

/// Whether a queue is served before all others that hold threads.
pub open spec fn is_served_first(m: CpuModel, b: int) -> bool {
    let start = 115 + m.pick;
    &&& b <= 114 ==> forall|i: int| 0 <= i < b ==> (#[trigger] m.buckets[i]).len() == 0
    &&& b > 114 ==> forall|i: int| 0 <= i <= 114 ==> (#[trigger] m.buckets[i]).len() == 0
    &&& start <= b <= 223 ==> forall|i: int|
        start <= i < b ==> (#[trigger] m.buckets[i]).len() == 0
    &&& 115 <= b < start ==> forall|i: int|
        start <= i <= 223 || 115 <= i < b ==> (#[trigger] m.buckets[i]).len() == 0
    &&& b >= 224 ==> forall|i: int|
        115 <= i <= 223 || 224 <= i < b ==> (#[trigger] m.buckets[i]).len() == 0
}

/// A thread that is queued goes behind those of its queue, unless it was
/// preempted: then it goes in front of them. Other queues stay.
pub proof fn law_queue_is_first_come_first_served(
    m: CpuModel,
    thread: usize,
    record: Thread,
    kind: EnqueueKind,
    other: int,
)
    requires
        m.buckets.len() == 256,
        m.pick < 109,
        m.insert < 109,
        0 <= other < 256,
    ensures
        ({
            let place = m.bucket_for(record.priority, kind) as int;
            let after = m.queued(thread, record, kind).buckets;
            &&& 0 <= place < 256
            &&& kind == EnqueueKind::Normal ==> after[place] == m.buckets[place].push(thread)
            &&& kind == EnqueueKind::Preempted ==> after[place] == seq![thread] + m.buckets[place]
            &&& other != place ==> after[other] == m.buckets[other]
            &&& m.queued(thread, record, kind).current == m.current
            &&& m.queued(thread, record, kind).load == m.load
        }),
{
}

/// Threads outside the batch band are queued by their priority. A batch thread
/// is queued as far behind the place of insertion as its priority is behind the
/// best one, so that it is passed over no longer than its priority says; while
/// a queue is being served nothing is added to it. A preempted batch thread is
/// next in turn.
pub proof fn law_batch_queue_rotates(m: CpuModel, priority: u8)
    requires
        m.pick < 109,
        m.insert < 109,
    ensures
        ({
            let normal = m.bucket_for(priority, EnqueueKind::Normal);
            let preempted = m.bucket_for(priority, EnqueueKind::Preempted);
            &&& priority < 115 || priority > 223 ==> normal == priority && preempted == priority
            &&& 115 <= priority <= 223 ==> {
                &&& 115 <= normal <= 223
                &&& 115 <= preempted <= 223
                &&& m.pick == m.insert ==> preempted == 115 + m.pick && (normal - 115 + 109
                    - m.insert) % 109 == priority - 115
                &&& m.pick != m.insert ==> normal != 115 + m.pick && preempted != 115 + m.pick && (
                preempted - 115 + 1) % 109 == m.pick as int
                &&& m.pick != m.insert ==> (normal - 115 + 109 - m.insert) % 109 == priority - 115
                    || ((priority - 115 + m.insert) % 109 == m.pick as int && (normal - 115 + 1)
                    % 109 == m.pick as int)
            }
        }),
{
}

/// A thread that counts as load counts once, and taking it away takes back what
/// adding it added; a thread that does not count changes nothing.
pub proof fn law_load_is_taken_back(m: CpuModel, record: Thread)
    requires
        m.load < usize::MAX,
        m.sysload < usize::MAX,
    ensures
        !record.flags.noload ==> m.charged(record).load == m.load + 1 && m.charged(record).sysload
            == m.sysload + 1,
        record.flags.noload ==> m.charged(record) == m && m.released(record) == m,
        m.charged(record).released(record) == m,
        !record.flags.noload && m.load > 0 ==> m.released(record).load == m.load - 1,
{
}

/// A thread is taken from another CPU only if it does not run there, its stack
/// is no longer in use there and it may move.
pub proof fn law_stolen_thread_may_move(m: CpuModel, threads: Seq<Thread>)
    ensures
        m.steal(threads) matches Some(t) ==> m.current != Some(t) && m.unwinding != Some(t)
            && !threads[t as int].flags.no_migrate && threads[t as int].migration_pins == 0,
{
    let accept = stealable(threads, m.current, m.unwinding);
    let start = 115 + m.pick;
    lemma_first_accepted(m.buckets, 0, 114, accept);
    lemma_first_accepted(m.buckets, start, 223, accept);
    lemma_first_accepted(m.buckets, 115, start - 1, accept);
}

/// A CPU is asked to choose anew exactly if the new thread is better than the
/// running one, or as good and woken for something urgent.
pub proof fn law_better_thread_asks_for_cpu(
    m: CpuModel,
    threads: Seq<Thread>,
    record: Thread,
    latency_sensitive: bool,
    remote: bool,
    current: usize,
)
    requires
        m.current == Some(current),
    ensures
        ({
            let running = threads[current as int];
            let (plain, kick) = m.preempted_by(threads, record.priority, remote);
            let (woken, wakeup_kick) = m.preempted_by_wakeup(
                threads,
                record,
                latency_sensitive,
                remote,
            );
            &&& plain.need_resched <==> m.need_resched || record.priority < running.priority
            &&& kick <==> preempts(record.priority, running.priority, remote)
            &&& plain == (CpuModel { need_resched: plain.need_resched, ..m })
            &&& record.priority < running.priority ==> woken.need_resched && wakeup_kick == kick
            &&& record.priority > running.priority ==> woken == m && !wakeup_kick
            &&& record.priority == running.priority ==> (wakeup_kick <==> latency_sensitive
                && record.priority <= 114 && record.class == ThreadClass::Timeshare
                && running.class == ThreadClass::Timeshare && running.state
                == ThreadState::Running)
            &&& record.priority == running.priority ==> (woken.need_resched <==> m.need_resched
                || wakeup_kick)
        }),
{
}

/// The statistics clock ticks 127 times a second: every whole period since the
/// tick that was due counts, and the next tick is in the future, at most one
/// period away.
pub proof fn law_statistics_clock_keeps_pace(m: CpuModel, now_ns: u64)
    requires
        0 < m.next_statclock_ns,
        now_ns + 7_874_015 <= u64::MAX,
    ensures
        ({
            let ticks = m.ticks_due(now_ns) as int;
            let next = m.statclock_moved(now_ns).next_statclock_ns;
            &&& ticks == 0 <==> now_ns < m.next_statclock_ns
            &&& next == m.next_statclock_ns + 7_874_015 * ticks
            &&& now_ns < next
            &&& ticks > 0 ==> next <= now_ns + 7_874_015
            &&& m.statclock_moved(now_ns) == (CpuModel { next_statclock_ns: next, ..m })
        }),
{
}

/// A thread's turn lasts the whole slice if it is not timeshared or runs alone,
/// and shrinks with the number of other threads that share the CPU.
pub proof fn law_turn_shrinks_with_load(m: CpuModel, record: Thread)
    ensures
        record.class != ThreadClass::Timeshare ==> m.quantum(record) == 7_874_015,
        record.class == ThreadClass::Timeshare && m.sysload <= 2 ==> m.quantum(record) == 7_874_015,
        record.class == ThreadClass::Timeshare && m.sysload == 3 ==> 2 * m.quantum(record)
            <= 7_874_015 < 2 * m.quantum(record) + 2,
        record.class == ThreadClass::Timeshare && m.sysload == 4 ==> 3 * m.quantum(record)
            <= 7_874_015 < 3 * m.quantum(record) + 3,
        record.class == ThreadClass::Timeshare && m.sysload == 5 ==> 4 * m.quantum(record)
            <= 7_874_015 < 4 * m.quantum(record) + 4,
        record.class == ThreadClass::Timeshare && m.sysload == 6 ==> 5 * m.quantum(record)
            <= 7_874_015 < 5 * m.quantum(record) + 5,
        record.class == ThreadClass::Timeshare && m.sysload > 6 ==> m.quantum(record) == 1_312_335,
{
    assert(7_874_015int / 2 == 3_937_007);
    assert(7_874_015int / 3 == 2_624_671);
    assert(7_874_015int / 4 == 1_968_503);
    assert(7_874_015int / 5 == 1_574_803);
}

/// A running thread is charged the time since it was last charged; a timeshare
/// thread also has its running time grow by every tick of the statistics clock.
/// Idle and exited threads are charged nothing.
pub proof fn law_running_thread_is_charged(record: Thread, now_ns: u64, ticks: u64)
    requires
        record.last_run_ns <= now_ns,
        record.slice_ns + (now_ns - record.last_run_ns) <= u64::MAX,
        record.runtime_ns + ticks * 7_874_015 <= u64::MAX,
    ensures
        ({
            let after = charged_for_run(record, now_ns, ticks);
            let idle = record.flags.idle || record.state == ThreadState::Exited;
            &&& idle ==> after == record
            &&& !idle ==> {
                &&& after.slice_ns - record.slice_ns == now_ns - record.last_run_ns
                &&& after.last_run_ns == now_ns
            }
            &&& !idle && record.class != ThreadClass::Timeshare ==> after.priority
                == record.priority && after.runtime_ns == record.runtime_ns
            &&& !idle && record.class == ThreadClass::Timeshare && ticks == 0 ==> after.runtime_ns
                == record.runtime_ns && after.priority == record.priority
            &&& !idle && record.class == ThreadClass::Timeshare && record.state
                != ThreadState::Running ==> after.runtime_ns == record.runtime_ns + ticks
                * 7_874_015
            &&& !idle && record.class == ThreadClass::Timeshare ==> after.cpu_last_update_ns
                == now_ns
            &&& after.id == record.id && after.nice == record.nice && after.class == record.class
        }),
{
    assert(ticks * 7_874_015 >= 0);
}

/// A turn that is over starts anew; the thread is marked to go behind others
/// only if there are others, and an interrupt thread that used its whole turn
/// then falls one priority behind, but never out of its band.
pub proof fn law_used_turn_starts_anew(record: Thread, more: bool)
    ensures
        ({
            let after = slice_ended(record, more);
            &&& after.slice_ns == 0
            &&& after.flags.sliceend == more
            &&& more && record.class == ThreadClass::Ithread && record.base_priority < 6
                ==> after.base_priority == record.base_priority + 1
            &&& !(more && record.class == ThreadClass::Ithread && record.base_priority < 6)
                ==> after.base_priority == record.base_priority && after.priority
                == record.priority
            &&& after.runtime_ns == record.runtime_ns && after.state == record.state
        }),
{
}

/// A CPU switches to the next thread, or to its idle thread when nothing is
/// queued: that thread runs, is queued no longer and is the current one, and
/// the stack of the one before is in use until the switch is done.
pub proof fn law_switch_runs_next_thread(
    m: CpuModel,
    threads: Seq<Thread>,
    cpu_id: usize,
    now_ns: u64,
)
    requires
        m.next_thread() < threads.len(),
    ensures
        ({
            let next = m.next_thread();
            let (after, ran) = m.switched(threads, cpu_id, now_ns);
            &&& m.best() matches Some(best) ==> next == best
            &&& m.best().is_none() ==> next == m.idle->0
            &&& after.current == Some(next)
            &&& after.unwinding == if m.current == Some(next) {
                None
            } else {
                m.current
            }
            &&& ran[next as int].state == ThreadState::Running
            &&& ran[next as int].cpu == cpu_id
            &&& ran[next as int].last_run_ns == now_ns
            &&& !threads[next as int].flags.idle ==> !ran[next as int].linked
            &&& forall|t: int|
                0 <= t < threads.len() && t != next ==> #[trigger] ran[t] == threads[t]
            &&& threads[next as int].flags.idle ==> after.next_statclock_ns == 0
            &&& after.load == m.load && after.online == m.online
        }),
{
}

/// The timer of a CPU rings when the turn of the running thread ends or the
/// statistics clock ticks, whichever is earlier; it need not ring for an idle
/// CPU or one that is to choose anew.
pub proof fn law_timer_rings_in_time(m: CpuModel, threads: Seq<Thread>, now_ns: u64, current: usize)
    requires
        m.current == Some(current),
        now_ns + 10_000_000 <= u64::MAX,
    ensures
        ({
            let record = threads[current as int];
            let at = m.deadline(threads, now_ns);
            let runs = !m.need_resched && record.state == ThreadState::Running
                && !record.flags.idle;
            &&& !runs ==> at == 0
            &&& runs && m.quantum(record) > record.slice_ns ==> at <= now_ns + (m.quantum(record)
                - record.slice_ns)
            &&& runs ==> at <= now_ns + 7_874_015
            &&& runs && m.next_statclock_ns > 0 ==> at <= m.next_statclock_ns
            &&& runs && at < m.next_statclock_ns && m.quantum(record) > record.slice_ns ==> at
                == now_ns + (m.quantum(record) - record.slice_ns)
        }),
{
    assert(7_874_015int / 2 == 3_937_007);
    assert(7_874_015int / 3 == 2_624_671);
    assert(7_874_015int / 4 == 1_968_503);
    assert(7_874_015int / 5 == 1_574_803);
}

/// An idle CPU is one that has nothing queued and runs nothing but its idle
/// thread.
pub proof fn law_idle_cpu_is_available(m: CpuModel, threads: Seq<Thread>)
    ensures
        m.available(threads) <==> queued_total(m.buckets) == 0 && (m.current matches Some(t)
            ==> threads[t as int].flags.idle),
{
}

} // verus!
