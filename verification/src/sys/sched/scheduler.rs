//! Scheduler of all CPUs.

use vstd::prelude::*;
use crate::num::{count_where, max_int, minus_or_zero};
use crate::sys::sched::cpu::{
    charged_for_run, lemma_best_is_queued, lemma_next_pick, nices_in_range, CpuModel, CpuState,
    EnqueueKind,
};
use crate::sys::sched::model::{
    busiest, first_unloaded, idlest, kick_for, least_loaded, lemma_extremes, lemma_least_loaded,
    lemma_steal, lemma_steal_source, steal_source, still_active, surveyed_load, CpuKick, Kick,
    SchedModel, TrapOutcome,
};
use crate::sys::sched::policy::{
    finish_wakeup, nice_in_range, priority_update, wakeup_finished, SchedulerConfig, MAX_IDLE,
    MIN_INTERACT, SCHED_STEAL_THRESHOLD,
};
use crate::sys::sched::runq::{queued_total, BUCKETS};
use crate::sys::smp::{is_online, CoreLocal, SmpState};
use crate::sys::thread::{
    allocate_thread_record, new_thread, ParkState, Thread, ThreadClass, ThreadFlags, ThreadState,
    WakeResult, KSTACK_SIZE, NICE_MAX, NICE_MIN,
};

verus! {

/// CPUs that completed bring-up.
pub open spec fn online_of(smp: SmpState) -> spec_fn(int) -> bool {
    |c: int| smp.spec_is_online(c)
}

/// Scheduler of all CPUs.
pub struct Scheduler {
    config: SchedulerConfig,
    cpus: Vec<CpuState>,
    threads: Vec<Thread>,
    registry: Vec<usize>,
    retired: Vec<u64>,
}

impl View for Scheduler {
    type V = SchedModel;

    closed spec fn view(&self) -> SchedModel {
        SchedModel {
            cpus: Seq::new(self.cpus@.len(), |c: int| self.cpus@[c]@),
            threads: self.threads@,
            registry: self.registry@,
            retired: self.retired@,
        }
    }
}

/// Returns whether `cpu` is not the CPU that acts.
fn is_remote(this_cpu: Option<usize>, cpu: usize) -> (remote: bool)
    ensures
        remote == (this_cpu != Some(cpu)),
{
    match this_cpu {
        Some(id) => id != cpu,
        None => true,
    }
}

fn make_kick(cpu: usize, resched: bool, deadline: bool) -> (kick: Option<Kick>)
    ensures
        kick == kick_for(cpu, resched, deadline),
{
    if resched {
        Some(Kick { cpu, kind: CpuKick::Resched })
    } else if deadline {
        Some(Kick { cpu, kind: CpuKick::Deadline })
    } else {
        None
    }
}

/// Waking changes neither placement nor flags that placement depends on.
proof fn lemma_wakeup_frame(record: Thread, now_ns: u64)
    ensures
        ({
            let woken = wakeup_finished(record, now_ns).0;
            &&& woken.linked == record.linked
            &&& woken.rqindex == record.rqindex
            &&& woken.cpu == record.cpu
            &&& woken.state == record.state
            &&& woken.nice == record.nice
            &&& woken.park_state == record.park_state
            &&& woken.flags == (ThreadFlags { sliceend: false, ..record.flags })
        }),
{
}

/// Charging a thread for its run changes neither placement nor state.
proof fn lemma_charged_frame(record: Thread, now_ns: u64, ticks: u64)
    ensures
        ({
            let ran = charged_for_run(record, now_ns, ticks);
            &&& ran.linked == record.linked
            &&& ran.rqindex == record.rqindex
            &&& ran.cpu == record.cpu
            &&& ran.state == record.state
            &&& ran.nice == record.nice
            &&& ran.park_state == record.park_state
            &&& ran.flags == record.flags
        }),
{
}

/// Accounting changes nothing that consistency depends on.
proof fn lemma_accounted_frame(m: SchedModel, c: int, now_ns: u64)
    requires
        m.inv(),
        0 <= c < m.cpus.len(),
    ensures
        ({
            let (cpu, threads) = m.cpus[c].accounted(m.threads, now_ns);
            let after = m.with_cpu(c, cpu).with_threads(threads);
            &&& after.inv()
            &&& cpu == (CpuModel {
                insert: cpu.insert,
                pick: cpu.pick,
                ticks: cpu.ticks,
                next_statclock_ns: cpu.next_statclock_ns,
                need_resched: cpu.need_resched,
                ..m.cpus[c]
            })
            &&& threads.len() == m.threads.len()
            &&& forall|t: int|
                0 <= t < m.threads.len() ==> (#[trigger] threads[t]).flags.idle
                    == m.threads[t].flags.idle && threads[t].state == m.threads[t].state
        }),
{
    assert(m.cpu_ok(c));
    m.lemma_names(c);
    let was = m.cpus[c];
    let (cpu, threads) = was.accounted(m.threads, now_ns);
    let after = m.with_cpu(c, cpu).with_threads(threads);
    let ticks = was.ticks_due(now_ns);
    let moved = was.statclock_moved(now_ns).rotated(ticks);
    lemma_next_pick(was.buckets, was.pick as int, was.insert as int);
    lemma_next_pick(was.buckets, was.pick as int, moved.insert as int);
    if let Some(t) = was.current {
        lemma_charged_frame(m.threads[t as int], now_ns, ticks);
        assert(m.thread_ok(t as int));
    }
    if let Some(t) = was.current {
        let framed = m.with_thread(t as int, threads[t as int]);
        m.lemma_benign_thread(t as int, threads[t as int]);
        assert(framed.threads =~= threads);
        framed.lemma_benign_cpu(c, cpu);
        assert(after =~= framed.with_cpu(c, cpu));
    } else {
        m.lemma_benign_cpu(c, cpu);
    }
}

impl Scheduler {
    /// Every CPU is consistent by itself and with the thread table.
    pub closed spec fn wf(self) -> bool {
        &&& self.config.wf()
        &&& self.cpus@.len() == self@.cpus.len()
        &&& forall|c: int| 0 <= c < self.cpus@.len() ==> (#[trigger] self.cpus@[c]).wf()
        &&& self@.inv()
        &&& self@.ids_ok()
    }

    /// A consistent scheduler satisfies the invariant.
    pub proof fn lemma_wf(&self)
        requires
            self.wf(),
        ensures
            self@.inv(),
    {
    }

    /// Returns the number of CPUs.
    pub fn cpu_count(&self) -> (count: usize)
        ensures
            count == self@.cpus.len(),
    {
        self.cpus.len()
    }

    /// Returns the record of a thread.
    pub fn thread(&self, thread: usize) -> (record: Thread)
        requires
            thread < self@.threads.len(),
        ensures
            record == self@.threads[thread as int],
    {
        self.threads[thread]
    }

    /// Lets a thread that fell asleep but never left its CPU go on running.
    fn resume_current(
        &mut self,
        thread: usize,
        now_ns: u64,
        wake_cpu: Option<usize>,
        target: usize,
    ) -> (kick: Option<Kick>)
        requires
            old(self).wf(),
            thread < old(self)@.threads.len(),
            old(self)@.threads[thread as int].park_state == ParkState::Idle,
            old(self)@.is_current(thread),
        ensures
            final(self).wf(),
            (final(self)@, kick) == old(self)@.resumed(thread, now_ns, wake_cpu, target),
            old(self)@.settled() ==> final(self)@.settled(),
    {
        let ghost m = self@;
        let t: usize = thread;
        proof {
            assert(m.thread_ok(t as int));
            assert(m.cpu_ok(m.threads[t as int].cpu as int));
            lemma_wakeup_frame(m.threads[t as int], now_ns);
        }
        let mut record = self.threads[t];
        let owner: usize = record.cpu;
        let had_runnable = owner == target && self.cpus[owner].has_runnable();
        let _ = finish_wakeup(&mut record, now_ns);
        record.mark_running(owner, now_ns);
        self.threads[t] = record;
        self.cpus[owner].set_need_resched(false);
        let ghost calm = CpuModel { need_resched: false, ..m.cpus[owner as int] };
        let ghost mid = m.with_thread(t as int, record).with_cpu(owner as int, calm);
        proof {
            assert(self@ =~= mid);
            m.lemma_benign_thread(t as int, record);
            m.with_thread(t as int, record).lemma_benign_cpu(owner as int, calm);
            assert(mid.cpu_ok(owner as int));
            mid.lemma_names(owner as int);
            lemma_best_is_queued(mid.cpus[owner as int]);
        }
        let should_kick = match self.cpus[owner].best_runnable() {
            Some(best) => {
                let priority: u8 = self.threads[best].priority;
                self.cpus[owner].consider_preemption(
                    &self.threads,
                    priority,
                    is_remote(wake_cpu, owner),
                )
            },
            None => false,
        };
        proof {
            let cpu = self.cpus@[owner as int]@;
            assert(self@ =~= mid.with_cpu(owner as int, cpu));
            mid.lemma_benign_cpu(owner as int, cpu);
            assert(self@.cpu_ok(owner as int));
            self@.lemma_names(owner as int);
            assert(mid.with_cpu(owner as int, cpu) =~= m.with_threads(mid.threads).with_cpu(
                owner as int,
                cpu,
            ));
        }
        let refresh = self.cpus[owner].needs_deadline_refresh(&self.threads, had_runnable);
        make_kick(owner, should_kick || is_remote(wake_cpu, owner), refresh)
    }

    /// Makes a sleeping thread runnable on `target` and returns the kick that
    /// asks for.
    fn resume_thread(
        &mut self,
        thread: usize,
        now_ns: u64,
        wake_cpu: Option<usize>,
        target: usize,
    ) -> (kick: Option<Kick>)
        requires
            old(self).wf(),
            thread < old(self)@.threads.len(),
            target < old(self)@.cpus.len(),
            old(self)@.threads[thread as int].state == ThreadState::Blocked,
            old(self)@.threads[thread as int].park_state == ParkState::Idle,
            !old(self)@.threads[thread as int].spec_is_idle(),
        ensures
            final(self).wf(),
            (final(self)@, kick) == old(self)@.resumed(thread, now_ns, wake_cpu, target),
            old(self)@.settled() ==> final(self)@.settled(),
    {
        let ghost m = self@;
        let t: usize = thread;
        proof {
            assert(m.thread_ok(t as int));
            assert(m.cpu_ok(m.threads[t as int].cpu as int));
            lemma_wakeup_frame(m.threads[t as int], now_ns);
        }
        let mut record = self.threads[t];
        let owner: usize = record.cpu;
        if let Some(current) = self.cpus[owner].current_thread() {
            if current == t {
                return self.resume_current(thread, now_ns, wake_cpu, target);
            }
        }
        let latency_sensitive = finish_wakeup(&mut record, now_ns);
        let leaving = match self.cpus[owner].unwinding() {
            Some(current) => current == t,
            None => false,
        };
        let stays = owner != target && leaving;
        let c: usize = if stays {
            owner
        } else {
            target
        };
        let had_runnable = self.cpus[c].has_runnable();
        record.cpu = c;
        proof {
            m.lemma_capacity(t as int, c as int);
            m.lemma_placed(t as int, record, EnqueueKind::Normal);
        }
        self.threads[t] = record;
        self.cpus[c].adopt_thread(t, &mut self.threads, EnqueueKind::Normal);
        let ghost placed = m.placed(t as int, record, EnqueueKind::Normal);
        proof {
            assert(self@ =~= placed);
            assert(placed.cpu_ok(c as int));
            placed.lemma_names(c as int);
        }
        let now_ready = self.threads[t];
        let should_kick = self.cpus[c].consider_wakeup_preemption(
            &self.threads,
            &now_ready,
            latency_sensitive,
            is_remote(wake_cpu, c),
        );
        proof {
            let cpu = self.cpus@[c as int]@;
            assert(self@ =~= placed.with_cpu(c as int, cpu));
            placed.lemma_benign_cpu(c as int, cpu);
            assert(self@.cpu_ok(c as int));
            self@.lemma_names(c as int);
        }
        let refresh = self.cpus[c].needs_deadline_refresh(&self.threads, had_runnable);
        make_kick(c, should_kick || (stays && is_remote(wake_cpu, c)), refresh)
    }
}

/// Returns the sum with one, or the value itself at the top of its range.
fn plus_one(value: usize) -> (sum: usize)
    ensures
        sum == if value == usize::MAX {
            usize::MAX as int
        } else {
            value + 1
        },
{
    value.saturating_add(1)
}

impl Scheduler {
    /// Surveys the loads of the online CPUs.
    ///
    /// Returns the least loaded one, its load, and the load of `probe`.
    fn survey(&self, start: usize, probe: Option<usize>) -> (found: (usize, usize, usize))
        requires
            self.wf(),
        ensures
            (found.0, found.1) == least_loaded(self@.cpus, self@.cpus.len(), start),
            found.2 == match probe {
                Some(cpu) => surveyed_load(self@.cpus, cpu),
                None => usize::MAX,
            },
    {
        let mut best_id: usize = start;
        let mut best_load: usize = usize::MAX;
        let mut probe_load: usize = usize::MAX;
        let mut cpu_id: usize = 0;
        while cpu_id < self.cpus.len()
            invariant
                self.wf(),
                cpu_id <= self.cpus@.len(),
                (best_id, best_load) == least_loaded(self@.cpus, cpu_id as nat, start),
                probe_load == match probe {
                    Some(cpu) => if cpu < cpu_id {
                        surveyed_load(self@.cpus, cpu)
                    } else {
                        usize::MAX
                    },
                    None => usize::MAX,
                },
            decreases self.cpus@.len() - cpu_id,
        {
            let summary = self.cpus[cpu_id].summary();
            assert(self@.cpus[cpu_id as int] == self.cpus@[cpu_id as int]@);
            if summary.online {
                if let Some(cpu) = probe {
                    if cpu == cpu_id {
                        probe_load = summary.load;
                    }
                }
                if summary.load < best_load {
                    best_load = summary.load;
                    best_id = cpu_id;
                }
            }
            cpu_id = cpu_id + 1;
        }
        (best_id, best_load, probe_load)
    }

    /// Picks the CPU on which a new thread starts: the one that creates it,
    /// unless another is less loaded by more than one thread.
    pub fn pick_spawn_cpu(&self, this_cpu: Option<usize>) -> (cpu: usize)
        requires
            self.wf(),
            this_cpu matches Some(c) ==> c < self@.cpus.len(),
        ensures
            cpu == self@.spawn_cpu(this_cpu),
            cpu < self@.cpus.len(),
    {
        proof {
            lemma_least_loaded(self@.cpus, self@.cpus.len(), 0);
        }
        if self.cpus.len() == 1 {
            return 0;
        }
        let preferred: usize = match this_cpu {
            Some(cpu) => cpu,
            None => 0,
        };
        let (best_id, best_load, preferred_load) = self.survey(0, Some(preferred));
        if preferred_load <= plus_one(best_load) {
            preferred
        } else {
            best_id
        }
    }

    /// Picks the CPU on which a woken thread runs.
    fn wake_target_cpu(
        &self,
        thread: usize,
        wake_cpu: Option<usize>,
        now_ns: u64,
        smp: &SmpState,
    ) -> (cpu: usize)
        requires
            self.wf(),
            thread < self@.threads.len(),
            wake_cpu matches Some(c) ==> c < self@.cpus.len(),
        ensures
            cpu == self@.wake_cpu_for(
                self@.threads[thread as int],
                wake_cpu,
                now_ns,
                online_of(*smp),
            ),
            cpu < self@.cpus.len(),
    {
        let record = self.threads[thread];
        let owner: usize = record.cpu;
        proof {
            assert(self@.thread_ok(thread as int));
            assert(self@.cpu_ok(owner as int));
            self@.lemma_names(owner as int);
            lemma_least_loaded(self@.cpus, self@.cpus.len(), owner);
            assert(self@.cpus[owner as int] == self.cpus@[owner as int]@);
        }
        if self.cpus.len() == 1 {
            return owner;
        }
        if !record.can_migrate() && is_online(smp, owner) {
            return owner;
        }
        if record.class == ThreadClass::Ithread {
            if let Some(cpu_id) = wake_cpu {
                if is_online(smp, cpu_id) {
                    return cpu_id;
                }
            }
        }
        let affine = now_ns.saturating_sub(record.last_run_ns) <= self.config.wake_affinity_ns;
        if affine && self.cpus[owner].is_online() && self.cpus[owner].is_immediately_available(
            &self.threads,
        ) {
            return owner;
        }
        let (best_id, best_load, wake_load) = self.survey(owner, wake_cpu);
        if let Some(cpu_id) = wake_cpu {
            if is_online(smp, cpu_id) && wake_load != usize::MAX && wake_load <= plus_one(
                best_load,
            ) {
                return cpu_id;
            }
        }
        best_id
    }

    /// Wakes a sleeping thread and queues it on a suitable CPU.
    ///
    /// Returns whether the wake belonged to the thread's current sleep, and
    /// the kick that goes with it.
    pub fn wake_thread(
        &mut self,
        thread: usize,
        seq: u64,
        now_ns: u64,
        wake_cpu: Option<usize>,
        smp: &SmpState,
    ) -> (woke: (bool, Option<Kick>))
        requires
            old(self).wf(),
            thread < old(self)@.threads.len(),
            wake_cpu matches Some(c) ==> c < old(self)@.cpus.len(),
        ensures
            final(self).wf(),
            (final(self)@, woke.0, woke.1) == old(self)@.woken(
                thread,
                seq,
                now_ns,
                wake_cpu,
                online_of(*smp),
            ),
            old(self)@.settled() ==> final(self)@.settled(),
    {
        let ghost m = self@;
        let mut record = self.threads[thread];
        let found = record.wake(seq);
        match found {
            WakeResult::Stale => {
                return (false, None);
            },
            _ => {},
        }
        self.threads[thread] = record;
        proof {
            assert(m.thread_ok(thread as int));
            assert(self@ =~= m.with_thread(thread as int, record));
            m.lemma_benign_thread(thread as int, record);
        }
        match found {
            WakeResult::Parked => {},
            _ => {
                return (true, None);
            },
        }
        let target_cpu: usize = self.wake_target_cpu(thread, wake_cpu, now_ns, smp);
        let kick = self.resume_thread(thread, now_ns, wake_cpu, target_cpu);
        (true, kick)
    }

    /// Moves a thread from `src` to `dst` if that evens out their loads.
    ///
    /// Returns whether one moved and the kick that goes with it.
    fn transfer_candidate(
        &mut self,
        src: usize,
        dst: usize,
        require_idle_dst: bool,
        this_cpu: Option<usize>,
    ) -> (moved: (bool, Option<Kick>))
        requires
            old(self).wf(),
            src < old(self)@.cpus.len(),
            dst < old(self)@.cpus.len(),
            src != dst,
        ensures
            final(self).wf(),
            (final(self)@, moved.0, moved.1) == old(self)@.transferred(
                src,
                dst,
                require_idle_dst,
                this_cpu,
            ),
            final(self)@.cpus.len() == old(self)@.cpus.len(),
            final(self)@.threads.len() == old(self)@.threads.len(),
            forall|c: int|
                0 <= c < old(self)@.cpus.len() ==> (#[trigger] final(self)@.cpus[c]).current == old(
                    self,
                )@.cpus[c].current && final(self)@.cpus[c].unwinding == old(
                    self,
                )@.cpus[c].unwinding && final(self)@.cpus[c].idle == old(self)@.cpus[c].idle,
            moved.0 ==> queued_total(final(self)@.cpus[dst as int].buckets) > 0,
    {
        let ghost m = self@;
        proof {
            assert(m.cpu_ok(src as int));
            assert(m.cpu_ok(dst as int));
            m.lemma_names(src as int);
            m.lemma_names(dst as int);
            lemma_steal(m, src as int);
            assert(m.cpus[src as int] == self.cpus@[src as int]@);
            assert(m.cpus[dst as int] == self.cpus@[dst as int]@);
            crate::num::lemma_count_bound(
                m.threads.len(),
                crate::sys::sched::model::loaded_on(m.threads, m.cpus[dst as int], dst as int),
            );
        }
        let had_runnable = self.cpus[dst].has_runnable();
        if !self.cpus[src].is_online() || !self.cpus[dst].is_online() || self.cpus[src].load()
            <= self.cpus[dst].load() + 1 {
            return (false, None);
        }
        if require_idle_dst && !self.cpus[dst].is_immediately_available(&self.threads) {
            return (false, None);
        }
        let t: usize = match self.cpus[src].steal_candidate(&self.threads) {
            None => {
                return (false, None);
            },
            Some(candidate) => candidate,
        };
        proof {
            m.lemma_unplaced(t as int);
        }
        self.cpus[src].dequeue_thread(t, &mut self.threads);
        let mut record = self.threads[t];
        self.cpus[src].release_thread(&record);
        let ghost without = m.unplaced(t as int);
        assert(self@ =~= without);
        record.cpu = dst;
        proof {
            assert(m.thread_ok(t as int));
            without.lemma_capacity(t as int, dst as int);
            without.lemma_placed(t as int, record, EnqueueKind::Normal);
        }
        self.threads[t] = record;
        self.cpus[dst].adopt_thread(t, &mut self.threads, EnqueueKind::Normal);
        let ghost placed = without.placed(t as int, record, EnqueueKind::Normal);
        proof {
            assert(self@ =~= placed);
            assert(placed.cpu_ok(dst as int));
            placed.lemma_names(dst as int);
            crate::sys::sched::model::lemma_with_queued(
                without.cpus[dst as int].buckets,
                without.cpus[dst as int].bucket_for(record.priority, EnqueueKind::Normal) as int,
                t,
                false,
            );
        }
        let should_kick = self.cpus[dst].consider_preemption(
            &self.threads,
            record.priority,
            is_remote(this_cpu, dst),
        );
        proof {
            let (cpu, k) = placed.cpus[dst as int].preempted_by(
                placed.threads,
                record.priority,
                this_cpu != Some(dst),
            );
            assert(self@ =~= placed.with_cpu(dst as int, cpu));
            placed.lemma_benign_cpu(dst as int, cpu);
            assert(self@.cpu_ok(dst as int));
            self@.lemma_names(dst as int);
        }
        let refresh = self.cpus[dst].needs_deadline_refresh(&self.threads, had_runnable);
        (true, make_kick(dst, should_kick, refresh))
    }

    /// Finds the busiest online CPU that threads can be taken from.
    fn pick_steal_source(&self, dst: usize, min_load: usize) -> (source: Option<usize>)
        requires
            self.wf(),
        ensures
            source == steal_source(self@.cpus, dst, min_load, self@.cpus.len()),
    {
        let mut source: Option<usize> = None;
        let mut source_load: usize = min_load.saturating_sub(1);
        let mut cpu_id: usize = 0;
        while cpu_id < self.cpus.len()
            invariant
                self.wf(),
                cpu_id <= self.cpus@.len(),
                source == steal_source(self@.cpus, dst, min_load, cpu_id as nat),
                source_load == match source {
                    Some(id) => self@.cpus[id as int].load as int,
                    None => minus_or_zero(min_load as int, 1),
                },
            decreases self.cpus@.len() - cpu_id,
        {
            let summary = self.cpus[cpu_id].summary();
            assert(self@.cpus[cpu_id as int] == self.cpus@[cpu_id as int]@);
            if cpu_id != dst && summary.online && summary.load >= min_load && summary.load
                > source_load {
                source = Some(cpu_id);
                source_load = summary.load;
            }
            cpu_id = cpu_id + 1;
        }
        source
    }

    fn try_steal(&mut self, dst: usize, require_idle_dst: bool, this_cpu: Option<usize>) -> (moved:
        (bool, Option<Kick>))
        requires
            old(self).wf(),
            dst < old(self)@.cpus.len(),
        ensures
            final(self).wf(),
            (final(self)@, moved.0, moved.1) == old(self)@.stolen(dst, require_idle_dst, this_cpu),
            final(self)@.cpus.len() == old(self)@.cpus.len(),
            final(self)@.threads.len() == old(self)@.threads.len(),
            forall|c: int|
                0 <= c < old(self)@.cpus.len() ==> (#[trigger] final(self)@.cpus[c]).current == old(
                    self,
                )@.cpus[c].current && final(self)@.cpus[c].unwinding == old(
                    self,
                )@.cpus[c].unwinding && final(self)@.cpus[c].idle == old(self)@.cpus[c].idle,
            moved.0 ==> queued_total(final(self)@.cpus[dst as int].buckets) > 0,
    {
        proof {
            assert(self@.cpu_ok(dst as int));
            self@.lemma_names(dst as int);
            assert(self@.cpus[dst as int] == self.cpus@[dst as int]@);
        }
        if self.cpus.len() == 1 {
            return (false, None);
        }
        if !self.cpus[dst].is_online() {
            return (false, None);
        }
        let busy = if require_idle_dst {
            !self.cpus[dst].is_immediately_available(&self.threads)
        } else {
            self.cpus[dst].has_runnable()
        };
        if busy {
            return (false, None);
        }
        let load: usize = self.cpus[dst].load();
        let least: usize = if load >= SCHED_STEAL_THRESHOLD {
            load
        } else {
            SCHED_STEAL_THRESHOLD
        };
        proof {
            lemma_steal_source(self@.cpus, dst, least, self@.cpus.len());
        }
        match self.pick_steal_source(dst, least) {
            None => (false, None),
            Some(src) => self.transfer_candidate(src, dst, require_idle_dst, this_cpu),
        }
    }

    /// Takes a thread over from a busier CPU if `dst` idles.
    pub fn try_idle_pull(&mut self, dst: usize, this_cpu: Option<usize>) -> (moved: (
        bool,
        Option<Kick>,
    ))
        requires
            old(self).wf(),
            dst < old(self)@.cpus.len(),
        ensures
            final(self).wf(),
            (final(self)@, moved.0, moved.1) == old(self)@.stolen(dst, true, this_cpu),
            final(self)@.cpus.len() == old(self)@.cpus.len(),
            final(self)@.threads.len() == old(self)@.threads.len(),
            forall|c: int|
                0 <= c < old(self)@.cpus.len() ==> (#[trigger] final(self)@.cpus[c]).current == old(
                    self,
                )@.cpus[c].current && final(self)@.cpus[c].unwinding == old(
                    self,
                )@.cpus[c].unwinding && final(self)@.cpus[c].idle == old(self)@.cpus[c].idle,
            moved.0 ==> queued_total(final(self)@.cpus[dst as int].buckets) > 0,
    {
        self.try_steal(dst, true, this_cpu)
    }

    /// Takes a thread over from a busier CPU if `dst` has none queued.
    pub fn try_switch_steal(&mut self, dst: usize, this_cpu: Option<usize>) -> (moved: (
        bool,
        Option<Kick>,
    ))
        requires
            old(self).wf(),
            dst < old(self)@.cpus.len(),
        ensures
            final(self).wf(),
            (final(self)@, moved.0, moved.1) == old(self)@.stolen(dst, false, this_cpu),
            final(self)@.cpus.len() == old(self)@.cpus.len(),
            final(self)@.threads.len() == old(self)@.threads.len(),
            forall|c: int|
                0 <= c < old(self)@.cpus.len() ==> (#[trigger] final(self)@.cpus[c]).current == old(
                    self,
                )@.cpus[c].current && final(self)@.cpus[c].unwinding == old(
                    self,
                )@.cpus[c].unwinding && final(self)@.cpus[c].idle == old(self)@.cpus[c].idle,
    {
        self.try_steal(dst, false, this_cpu)
    }

    /// Moves one thread from the busiest to the idlest CPU if their loads
    /// differ by more than one.
    pub fn rebalance_once(&mut self, this_cpu: Option<usize>) -> (moved: (bool, Option<Kick>))
        requires
            old(self).wf(),
        ensures
            final(self).wf(),
            (final(self)@, moved.0, moved.1) == old(self)@.rebalanced(this_cpu),
            old(self)@.settled() ==> final(self)@.settled(),
    {
        if self.cpus.len() == 1 {
            return (false, None);
        }
        let mut busiest_cpu: Option<usize> = None;
        let mut busiest_load: usize = 0;
        let mut idlest_cpu: Option<usize> = None;
        let mut idlest_load: usize = usize::MAX;
        let mut cpu_id: usize = 0;
        while cpu_id < self.cpus.len()
            invariant
                self.wf(),
                *self == *old(self),
                cpu_id <= self.cpus@.len(),
                busiest_cpu == busiest(self@.cpus, cpu_id as nat),
                idlest_cpu == idlest(self@.cpus, cpu_id as nat),
                busiest_load == match busiest_cpu {
                    Some(id) => self@.cpus[id as int].load,
                    None => 0,
                },
                idlest_load == match idlest_cpu {
                    Some(id) => self@.cpus[id as int].load,
                    None => usize::MAX,
                },
            decreases self.cpus@.len() - cpu_id,
        {
            let summary = self.cpus[cpu_id].summary();
            assert(self@.cpus[cpu_id as int] == self.cpus@[cpu_id as int]@);
            if summary.online {
                if summary.load > busiest_load {
                    busiest_load = summary.load;
                    busiest_cpu = Some(cpu_id);
                }
                if summary.load < idlest_load {
                    idlest_load = summary.load;
                    idlest_cpu = Some(cpu_id);
                }
            }
            cpu_id = cpu_id + 1;
        }
        proof {
            lemma_extremes(self@.cpus, self@.cpus.len());
        }
        match (busiest_cpu, idlest_cpu) {
            (Some(src), Some(dst)) => {
                if src == dst || busiest_load <= plus_one(idlest_load) {
                    return (false, None);
                }
                self.transfer_candidate(src, dst, false, this_cpu)
            },
            _ => (false, None),
        }
    }

    /// Finds an idle CPU to nudge when CPU `from` has surplus work.
    fn idle_cpu_to_kick(&self, from: usize) -> (cpu: Option<usize>)
        requires
            self.wf(),
            from < self@.cpus.len(),
        ensures
            cpu == self@.idle_to_nudge(from),
    {
        assert(self@.cpus[from as int] == self.cpus@[from as int]@);
        if self.cpus.len() == 1 || self.cpus[from].summary().load < SCHED_STEAL_THRESHOLD {
            return None;
        }
        let mut cpu_id: usize = 0;
        while cpu_id < self.cpus.len()
            invariant
                self.wf(),
                cpu_id <= self.cpus@.len(),
                self@.cpus.len() != 1,
                self@.cpus[from as int].load >= SCHED_STEAL_THRESHOLD,
                first_unloaded(self@.cpus, from, 0) == first_unloaded(
                    self@.cpus,
                    from,
                    cpu_id as int,
                ),
            decreases self.cpus@.len() - cpu_id,
        {
            let summary = self.cpus[cpu_id].summary();
            assert(self@.cpus[cpu_id as int] == self.cpus@[cpu_id as int]@);
            if cpu_id != from && summary.online && summary.load == 0 {
                return Some(cpu_id);
            }
            cpu_id = cpu_id + 1;
        }
        None
    }
}

impl Scheduler {
    /// Consistent but for CPU `c`, whose current thread no longer counts.
    pub closed spec fn wf_vacant(self, c: int) -> bool {
        &&& self.config.wf()
        &&& self.cpus@.len() == self@.cpus.len()
        &&& forall|k: int| 0 <= k < self.cpus@.len() ==> (#[trigger] self.cpus@[k]).wf()
        &&& self@.vacated(c).inv()
        &&& self@.ids_ok()
    }

    /// Switches CPU `cpu_id` to its next thread and computes the deadline that
    /// goes with it.
    fn pick_next_locked(&mut self, cpu_id: usize, now_ns: u64) -> (picked: (usize, u64))
        requires
            old(self).wf_vacant(cpu_id as int),
            cpu_id < old(self)@.cpus.len(),
            old(self)@.cpus[cpu_id as int].idle.is_some(),
            old(self)@.cpus[cpu_id as int].current matches Some(t) ==> t < old(
                self,
            )@.threads.len(),
        ensures
            final(self).wf(),
            final(self)@ == old(self)@.switched_on(cpu_id as int, now_ns),
            final(self)@.cpus[cpu_id as int].current == Some(picked.0),
            picked.0 < final(self)@.threads.len(),
            picked.1 == final(self)@.cpus[cpu_id as int].deadline(final(self)@.threads, now_ns),
            final(self)@.cpus[cpu_id as int].unwinding != Some(picked.0),
    {
        let ghost m = self@;
        let ghost k = cpu_id as int;
        proof {
            m.lemma_switched(k, now_ns);
            assert(m.vacated(k).cpu_ok(k));
            m.vacated(k).lemma_names(k);
            let cpu = m.cpus[k];
            let vacant = m.vacated(k).cpus[k];
            assert(cpu == self.cpus@[k]@);
            assert forall|b: int, i: int|
                #![trigger cpu.buckets[b][i]]
                0 <= b < BUCKETS && 0 <= i < cpu.buckets[b].len() implies cpu.buckets[b][i]
                < m.threads.len() by {
                assert(vacant.buckets[b][i] < m.threads.len());
            }
        }
        let next: usize = self.cpus[cpu_id].take_next_thread(&mut self.threads, cpu_id, now_ns);
        proof {
            assert(self@ =~= m.switched_on(k, now_ns));
            assert(self@.cpu_ok(k));
            self@.lemma_names(k);
        }
        let deadline_ns: u64 = self.cpus[cpu_id].deadline_for(&self.threads, &self.config, now_ns);
        (next, deadline_ns)
    }

    /// Deals with the current thread of a CPU before a switch.
    fn step_aside(&mut self, cpu_id: usize)
        requires
            old(self).wf(),
            cpu_id < old(self)@.cpus.len(),
            old(self)@.cpus[cpu_id as int].current.is_some(),
            old(self)@.cpus[cpu_id as int].unwinding != old(self)@.cpus[cpu_id as int].current,
        ensures
            final(self).wf_vacant(cpu_id as int),
            final(self)@ == old(self)@.stepped_aside(cpu_id as int),
            final(self)@.cpus.len() == old(self)@.cpus.len(),
            final(self)@.threads.len() == old(self)@.threads.len(),
            forall|c: int|
                0 <= c < old(self)@.cpus.len() ==> (#[trigger] final(self)@.cpus[c]).current == old(
                    self,
                )@.cpus[c].current && final(self)@.cpus[c].unwinding == old(
                    self,
                )@.cpus[c].unwinding && final(self)@.cpus[c].idle == old(self)@.cpus[c].idle,
            queued_total(final(self)@.cpus[cpu_id as int].buckets) == 0 ==> ({
                let t = old(self)@.cpus[cpu_id as int].current->0 as int;
                &&& t < final(self)@.threads.len()
                &&& final(self)@.threads[t] == old(self)@.threads[t]
            }),
    {
        let ghost m = self@;
        let ghost k = cpu_id as int;
        let t: usize = self.cpus[cpu_id].current_thread().unwrap();
        proof {
            assert(m.cpu_ok(k));
            assert(m.thread_ok(t as int));
            assert(m.cpus[k] == self.cpus@[k]@);
        }
        let mut record = self.threads[t];
        if record.state == ThreadState::Running && !record.is_idle() {
            let kind = if record.take_slice_end() {
                EnqueueKind::Normal
            } else {
                EnqueueKind::Preempted
            };
            proof {
                m.lemma_requeued(k, record, kind);
            }
            self.threads[t] = record;
            self.cpus[cpu_id].enqueue_existing(t, &mut self.threads, kind);
            assert(self@ =~= m.stepped_aside(k));
        } else if record.state == ThreadState::Blocked {
            self.cpus[cpu_id].release_thread(&record);
            proof {
                m.lemma_departed(k, record);
                assert(m.threads.update(t as int, record) =~= m.threads);
                assert(self@ =~= m.stepped_aside(k));
            }
        } else {
            proof {
                m.lemma_vacate(k);
                assert(self@ =~= m.stepped_aside(k));
            }
        }
    }

    /// Handles scheduling on CPU `cpu_id` before it returns from a trap that
    /// interrupted `frame`: publishes a finished exit, charges the current
    /// thread, and switches to another one where that is due.
    pub fn trap_return(&mut self, cpu_id: usize, frame: u64, now_ns: u64) -> (outcome: TrapOutcome)
        requires
            old(self).wf(),
            old(self)@.settled(),
            cpu_id < old(self)@.cpus.len(),
            old(self)@.cpus[cpu_id as int].idle.is_some(),
        ensures
            final(self).wf(),
            final(self)@.settled(),
            (final(self)@, outcome) == old(self)@.trapped(cpu_id, frame, now_ns),
    {
        let ghost m = self@;
        let ghost k = cpu_id as int;
        proof {
            assert(m.cpus[k] == self.cpus@[k]@);
            m.lemma_benign_cpu(k, m.cpus[k].exit_published());
        }
        self.cpus[cpu_id].publish_deferred_exit();
        let ghost begun = m.with_cpu(k, m.cpus[k].exit_published());
        assert(self@ =~= begun);
        let current: usize = match self.cpus[cpu_id].current_thread() {
            None => {
                self.cpus[cpu_id].set_unwinding(None);
                proof {
                    let cpu = CpuModel { unwinding: None, ..begun.cpus[k] };
                    begun.lemma_benign_cpu(k, cpu);
                    assert(self@ =~= begun.with_cpu(k, cpu));
                }
                return TrapOutcome { thread: None, deadline_ns: None, kick: None, nudge: None };
            },
            Some(current) => current,
        };
        self.charge_interrupted(cpu_id, frame, now_ns);
        let ghost charged = begun.interrupted(k, frame, now_ns);
        let record = self.threads[current];
        let runnable = self.cpus[cpu_id].has_runnable();
        let should_switch = record.state != ThreadState::Running || self.cpus[cpu_id].needs_resched()
            || (record.is_idle() && runnable);
        assert(charged.cpus[k] == self.cpus@[k]@);
        if !should_switch {
            self.keep_current(cpu_id, now_ns)
        } else {
            self.leave_current(cpu_id, now_ns)
        }
    }

    /// Charges the current thread of a CPU that was interrupted at `frame`.
    fn charge_interrupted(&mut self, cpu_id: usize, frame: u64, now_ns: u64)
        requires
            old(self).wf(),
            cpu_id < old(self)@.cpus.len(),
            old(self)@.cpus[cpu_id as int].current.is_some(),
        ensures
            final(self).wf(),
            final(self)@ == old(self)@.interrupted(cpu_id as int, frame, now_ns),
            old(self)@.settled() ==> final(self)@.settled(),
            final(self)@.cpus.len() == old(self)@.cpus.len(),
            final(self)@.threads.len() == old(self)@.threads.len(),
            final(self)@.cpus[cpu_id as int].current == old(self)@.cpus[cpu_id as int].current,
            final(self)@.cpus[cpu_id as int].idle == old(self)@.cpus[cpu_id as int].idle,
            old(self)@.cpus[cpu_id as int].current->0 < final(self)@.threads.len(),
    {
        let ghost m = self@;
        let ghost k = cpu_id as int;
        let current: usize = self.cpus[cpu_id].current_thread().unwrap();
        proof {
            assert(m.cpu_ok(k));
            assert(m.thread_ok(current as int));
        }
        self.threads[current].frame = frame;
        let ghost framed = m.with_thread(
            current as int,
            Thread { frame, ..m.threads[current as int] },
        );
        proof {
            assert(self@ =~= framed);
            m.lemma_benign_thread(current as int, framed.threads[current as int]);
            assert(framed.cpu_ok(k));
            framed.lemma_names(k);
            assert(framed.cpus[k] == self.cpus@[k]@);
            assert(nices_in_range(framed.threads)) by {
                assert forall|t: int| 0 <= t < framed.threads.len() implies nice_in_range(
                    (#[trigger] framed.threads[t]).nice,
                ) by {
                    assert(framed.thread_ok(t));
                }
            }
            lemma_accounted_frame(framed, k, now_ns);
        }
        self.cpus[cpu_id].account_current(&mut self.threads, &self.config, now_ns);
        proof {
            assert(self@ =~= m.interrupted(k, frame, now_ns));
        }
    }

    /// Goes on with the current thread, unless an idle CPU can take a thread
    /// over from a busier one.
    fn keep_current(&mut self, cpu_id: usize, now_ns: u64) -> (outcome: TrapOutcome)
        requires
            old(self).wf(),
            old(self)@.settled(),
            cpu_id < old(self)@.cpus.len(),
            old(self)@.cpus[cpu_id as int].current.is_some(),
            old(self)@.cpus[cpu_id as int].idle.is_some(),
            !old(self)@.must_switch(cpu_id as int),
        ensures
            final(self).wf(),
            final(self)@.settled(),
            ({
                let k = cpu_id as int;
                let current = old(self)@.cpus[k].current->0;
                let kept = old(self)@.with_cpu(
                    k,
                    CpuModel { unwinding: None, ..old(self)@.cpus[k] },
                );
                let (pulled, moved, kick) = kept.stolen(cpu_id, true, Some(cpu_id));
                if kept.threads[current as int].spec_is_idle() && moved {
                    let after = pulled.switched_on(k, now_ns);
                    &&& final(self)@ == after
                    &&& outcome == (TrapOutcome {
                        thread: after.cpus[k].current,
                        deadline_ns: Some(after.cpus[k].deadline(after.threads, now_ns)),
                        kick,
                        nudge: None,
                    })
                } else {
                    &&& final(self)@ == kept
                    &&& outcome == (TrapOutcome {
                        thread: Some(current),
                        deadline_ns: Some(kept.cpus[k].deadline(kept.threads, now_ns)),
                        kick: None,
                        nudge: None,
                    })
                }
            }),
    {
        let ghost m = self@;
        let ghost k = cpu_id as int;
        let current: usize = self.cpus[cpu_id].current_thread().unwrap();
        proof {
            assert(m.cpu_ok(k));
            assert(m.thread_ok(current as int));
            assert(m.cpus[k] == self.cpus@[k]@);
        }
        self.cpus[cpu_id].set_unwinding(None);
        let ghost kept = m.with_cpu(k, CpuModel { unwinding: None, ..m.cpus[k] });
        proof {
            m.lemma_benign_cpu(k, kept.cpus[k]);
            assert(self@ =~= kept);
            assert(kept.cpu_ok(k));
            kept.lemma_names(k);
        }
        let deadline_ns: u64 = self.cpus[cpu_id].deadline_for(&self.threads, &self.config, now_ns);
        let idle = self.threads[current].is_idle();
        if idle && !self.cpus[cpu_id].has_runnable() {
            let (moved, kick) = self.try_idle_pull(cpu_id, Some(cpu_id));
            if moved {
                let ghost pulled = self@;
                proof {
                    assert(pulled.cpus[k].current == Some(current));
                    assert(pulled.cpu_ok(k));
                    assert(kept.cpu_ok(k));
                    self.lemma_idle_current(cpu_id, current, kept);
                    pulled.lemma_vacate(k);
                }
                let (next, deadline_ns) = self.pick_next_locked(cpu_id, now_ns);
                return TrapOutcome {
                    thread: Some(next),
                    deadline_ns: Some(deadline_ns),
                    kick,
                    nudge: None,
                };
            }
        }
        TrapOutcome {
            thread: Some(current),
            deadline_ns: Some(deadline_ns),
            kick: None,
            nudge: None,
        }
    }

    /// Moving a thread never makes a CPU's idle thread count.
    proof fn lemma_idle_current(&self, cpu_id: usize, current: usize, before: SchedModel)
        requires
            self@.inv(),
            before.inv(),
            current < before.threads.len(),
            cpu_id < before.cpus.len(),
            before.threads[current as int].spec_is_idle(),
            before.stolen(cpu_id, true, Some(cpu_id)).0 == self@,
        ensures
            current < self@.threads.len(),
            self@.threads[current as int].spec_is_idle(),
            !self@.threads[current as int].spec_counts(),
    {
        let to = before.cpus[cpu_id as int];
        let least = max_int(to.load as int, SCHED_STEAL_THRESHOLD as int) as usize;
        lemma_steal_source(before.cpus, cpu_id, least, before.cpus.len());
        if let Some(src) = steal_source(before.cpus, cpu_id, least, before.cpus.len()) {
            lemma_steal(before, src as int);
        }
        assert(before.thread_ok(current as int));
        assert(self@.threads[current as int].spec_is_idle());
        assert(self@.thread_ok(current as int));
    }

    /// Leaves the current thread for another one.
    fn leave_current(&mut self, cpu_id: usize, now_ns: u64) -> (outcome: TrapOutcome)
        requires
            old(self).wf(),
            old(self)@.settled(),
            cpu_id < old(self)@.cpus.len(),
            old(self)@.cpus[cpu_id as int].current.is_some(),
            old(self)@.cpus[cpu_id as int].idle.is_some(),
        ensures
            final(self).wf(),
            final(self)@.settled(),
            ({
                let k = cpu_id as int;
                let current = old(self)@.cpus[k].current->0;
                let asked = old(self)@.with_cpu(
                    k,
                    CpuModel { need_resched: false, ..old(self)@.cpus[k] },
                );
                let aside = asked.stepped_aside(k);
                if queued_total(aside.cpus[k].buckets) > 0 {
                    let after = aside.switched_on(k, now_ns);
                    &&& final(self)@ == after
                    &&& outcome == (TrapOutcome {
                        thread: after.cpus[k].current,
                        deadline_ns: Some(after.cpus[k].deadline(after.threads, now_ns)),
                        kick: None,
                        nudge: after.idle_to_nudge(cpu_id),
                    })
                } else {
                    let leaving = aside.with_cpu(
                        k,
                        CpuModel { unwinding: Some(current), ..aside.cpus[k] },
                    );
                    let (supplied, moved, kick) = leaving.stolen(cpu_id, false, Some(cpu_id));
                    let after = supplied.switched_on(k, now_ns);
                    &&& final(self)@ == after
                    &&& outcome == (TrapOutcome {
                        thread: after.cpus[k].current,
                        deadline_ns: Some(after.cpus[k].deadline(after.threads, now_ns)),
                        kick,
                        nudge: None,
                    })
                }
            }),
    {
        let ghost m = self@;
        let ghost k = cpu_id as int;
        let current: usize = self.cpus[cpu_id].current_thread().unwrap();
        proof {
            assert(m.cpu_ok(k));
            assert(m.thread_ok(current as int));
            assert(m.cpus[k] == self.cpus@[k]@);
        }
        self.cpus[cpu_id].set_need_resched(false);
        let ghost asked = m.with_cpu(k, CpuModel { need_resched: false, ..m.cpus[k] });
        proof {
            m.lemma_benign_cpu(k, asked.cpus[k]);
            assert(self@ =~= asked);
        }
        self.step_aside(cpu_id);
        let ghost aside = self@;
        assert(aside.cpus[k] == self.cpus@[k]@);
        if self.cpus[cpu_id].has_runnable() {
            let (next, deadline_ns) = self.pick_next_locked(cpu_id, now_ns);
            let nudge = self.idle_cpu_to_kick(cpu_id);
            return TrapOutcome {
                thread: Some(next),
                deadline_ns: Some(deadline_ns),
                kick: None,
                nudge,
            };
        }
        self.cpus[cpu_id].set_unwinding(Some(current));
        let ghost leaving = aside.with_cpu(
            k,
            CpuModel { unwinding: Some(current), ..aside.cpus[k] },
        );
        proof {
            assert(self@ =~= leaving);
            let vacant = aside.vacated(k);
            vacant.lemma_benign_cpu(
                k,
                CpuModel { unwinding: Some(current), ..vacant.cpus[k] },
            );
            assert(leaving.vacated(k) =~= vacant.with_cpu(
                k,
                CpuModel { unwinding: Some(current), ..vacant.cpus[k] },
            ));
            leaving.lemma_leaving(k);
        }
        let (_, kick) = self.try_switch_steal(cpu_id, Some(cpu_id));
        let ghost supplied = self@;
        proof {
            assert(supplied.cpus[k].current == Some(current));
            assert(supplied.cpus[k].unwinding == Some(current));
            supplied.lemma_vacate(k);
            assert(supplied.cpu_ok(k));
        }
        let (next, deadline_ns) = self.pick_next_locked(cpu_id, now_ns);
        TrapOutcome { thread: Some(next), deadline_ns: Some(deadline_ns), kick, nudge: None }
    }
}

/// Where the kernel stack of a new thread lies.
#[derive(Copy, Clone, Debug, PartialEq, Eq, Structural)]
pub struct StackSlot {
    /// Lowest address of the stack.
    pub base: u64,
    /// Size of the trap frame at its top.
    pub frame_size: u64,
}

impl StackSlot {
    /// The stack lies in the address space and holds its frame.
    pub open spec fn fits(self) -> bool {
        self.base + KSTACK_SIZE <= u64::MAX && self.frame_size <= self.base + KSTACK_SIZE
    }
}

/// What distinguishes a new thread.
#[derive(Copy, Clone, Debug, PartialEq, Eq, Structural)]
pub struct ThreadSpec {
    /// Scheduler class.
    pub class: ThreadClass,
    /// Initial priority.
    pub priority: u8,
    /// Scheduler flags.
    pub flags: ThreadFlags,
    /// Nice value.
    pub nice: i8,
    /// Process the thread belongs to.
    pub process: Option<usize>,
    /// Page-table root of its address space.
    pub address_space: Option<u64>,
    /// User thread pointer.
    pub thread_pointer: u64,
}

/// Flags of the idle threads.
pub open spec fn idle_flags() -> ThreadFlags {
    ThreadFlags { idle: true, noload: true, sliceend: false, no_migrate: true }
}

/// Flags of the first two kernel threads.
pub open spec fn boot_flags() -> ThreadFlags {
    ThreadFlags { idle: false, noload: true, sliceend: false, no_migrate: true }
}

/// Record of the thread that `spec` describes, as the `n`-th of the table.
pub open spec fn thread_of(
    spec: ThreadSpec,
    n: nat,
    cpu: usize,
    now_ns: u64,
    stack: StackSlot,
) -> Thread {
    Thread {
        nice: spec.nice,
        thread_pointer: spec.thread_pointer,
        ..new_thread(
            (n + 1) as usize,
            cpu,
            now_ns,
            spec.class,
            spec.priority,
            spec.flags,
            spec.process,
            spec.address_space,
            stack.base,
            stack.frame_size,
        )
    }
}

/// How a CPU is kicked.
#[derive(Copy, Clone, Debug, PartialEq, Eq, Structural)]
pub enum KickAction {
    /// Not at all: the trap that is being handled will see to it.
    Nothing,
    /// By entering the scheduler here.
    Reschedule,
    /// By programming the local timer.
    SetDeadline(u64),
    /// By an inter-processor interrupt.
    SendIpi(Kick),
}

/// What parking the current thread ended in.
#[derive(Copy, Clone, Debug, PartialEq, Eq, Structural)]
pub struct ParkOutcome {
    /// Whether the thread sleeps now and the CPU has to reschedule.
    pub parked: bool,
    /// Whether interrupts have to be enabled.
    pub enable_irqs: bool,
}

/// What the hardware needs to run a thread.
#[derive(Copy, Clone, Debug, PartialEq, Eq, Structural)]
pub struct Activation {
    /// Top of the kernel stack.
    pub kernel_stack: u64,
    /// Page-table root to activate, for a user thread.
    pub address_space: Option<u64>,
    /// Address of the frame to restore.
    pub frame: u64,
    /// User thread pointer to restore.
    pub thread_pointer: u64,
}

impl Scheduler {
    /// Creates a scheduler for `cpu_count` CPUs, of which only the first is
    /// online.
    pub fn new(cpu_count: usize) -> (scheduler: Self)
        requires
            cpu_count >= 1,
        ensures
            scheduler.wf(),
            scheduler@.settled(),
            scheduler@.cpus.len() == cpu_count,
            scheduler@.threads.len() == 0,
            scheduler@.registry.len() == 0,
            scheduler@.retired.len() == 0,
            forall|c: int|
                0 <= c < cpu_count ==> (#[trigger] scheduler@.cpus[c]) == fresh_cpu(c),
    {
        let mut cpus: Vec<CpuState> = Vec::new();
        let mut cpu_id: usize = 0;
        while cpu_id < cpu_count
            invariant
                cpu_id <= cpu_count,
                cpus@.len() == cpu_id,
                forall|c: int|
                    0 <= c < cpu_id ==> (#[trigger] cpus@[c]).wf() && cpus@[c]@ == fresh_cpu(c),
            decreases cpu_count - cpu_id,
        {
            cpus.push(CpuState::new(cpu_id));
            cpu_id = cpu_id + 1;
        }
        let scheduler = Scheduler {
            config: SchedulerConfig::new(),
            cpus,
            threads: Vec::new(),
            registry: Vec::new(),
            retired: Vec::new(),
        };
        proof {
            assert forall|c: int| 0 <= c < cpu_count implies (#[trigger] scheduler@.cpus[c])
                == fresh_cpu(c) by {
                assert(scheduler.cpus@[c]@ == fresh_cpu(c));
            }
            scheduler@.lemma_fresh();
        }
        scheduler
    }

    /// Adds a thread record to the table and returns its index.
    fn alloc_thread(&mut self, cpu_id: usize, spec: &ThreadSpec, now_ns: u64, stack: &StackSlot) -> (
    thread: usize)
        requires
            old(self).wf(),
            cpu_id < old(self)@.cpus.len(),
            old(self)@.threads.len() + 1 < usize::MAX,
            stack.fits(),
            nice_in_range(spec.nice),
            spec.flags.idle ==> spec.flags.noload && spec.flags.no_migrate,
        ensures
            final(self).wf(),
            thread == old(self)@.threads.len(),
            final(self)@ == old(self)@.with_new_thread(
                thread_of(*spec, old(self)@.threads.len(), cpu_id, now_ns, *stack),
            ),
            !final(self)@.is_current(thread),
    {
        let ghost m = self@;
        let thread: usize = self.threads.len();
        let mut record = allocate_thread_record(
            thread + 1,
            cpu_id,
            now_ns,
            spec.class,
            spec.priority,
            spec.flags,
            spec.process,
            spec.address_space,
            stack.base,
            stack.frame_size,
        );
        record.nice = spec.nice;
        record.set_thread_pointer(spec.thread_pointer);
        proof {
            m.lemma_new_thread(record);
        }
        self.threads.push(record);
        assert(self@ =~= m.with_new_thread(record));
        thread
    }

    /// Queues a new thread on its CPU, registers it, and returns the kick that
    /// goes with it.
    fn enqueue_new_thread(&mut self, thread: usize, this_cpu: Option<usize>) -> (kick: Option<Kick>)
        requires
            old(self).wf(),
            thread < old(self)@.threads.len(),
            !old(self)@.threads[thread as int].linked,
            !old(self)@.threads[thread as int].spec_is_idle(),
            old(self)@.threads[thread as int].park_state == ParkState::Idle,
            !old(self)@.is_current(thread),
        ensures
            final(self).wf(),
            (final(self)@, kick) == old(self)@.started(thread, this_cpu),
            old(self)@.settled() ==> final(self)@.settled(),
    {
        let ghost m = self@;
        self.registry.push(thread);
        let record = self.threads[thread];
        let c: usize = record.cpu;
        proof {
            assert(m.thread_ok(thread as int));
            assert(m.cpu_ok(c as int));
            m.lemma_capacity(thread as int, c as int);
            m.lemma_placed(thread as int, record, EnqueueKind::Normal);
        }
        let had_runnable = self.cpus[c].has_runnable();
        self.cpus[c].adopt_thread(thread, &mut self.threads, EnqueueKind::Normal);
        let ghost placed = m.placed(thread as int, record, EnqueueKind::Normal);
        proof {
            assert(self@ =~= (SchedModel { registry: m.registry.push(thread), ..placed }));
            assert(placed.cpu_ok(c as int));
            placed.lemma_names(c as int);
        }
        let should_kick = self.cpus[c].consider_preemption(
            &self.threads,
            record.priority,
            is_remote(this_cpu, c),
        );
        proof {
            let cpu = self.cpus@[c as int]@;
            assert(self@ =~= (SchedModel {
                registry: m.registry.push(thread),
                ..placed.with_cpu(c as int, cpu)
            }));
            placed.lemma_benign_cpu(c as int, cpu);
            placed.with_cpu(c as int, cpu).lemma_same(self@);
            assert(self@.cpu_ok(c as int));
            self@.lemma_names(c as int);
        }
        if !self.cpus[c].is_online() {
            return None;
        }
        let refresh = self.cpus[c].needs_deadline_refresh(&self.threads, had_runnable);
        make_kick(c, should_kick, refresh)
    }

    /// Creates a thread on CPU `cpu_id` and queues it.
    ///
    /// Returns its identifier and the kick that goes with it.
    fn spawn_on(
        &mut self,
        cpu_id: usize,
        spec: &ThreadSpec,
        now_ns: u64,
        stack: &StackSlot,
        this_cpu: Option<usize>,
    ) -> (spawned: (usize, Option<Kick>))
        requires
            old(self).wf(),
            cpu_id < old(self)@.cpus.len(),
            old(self)@.threads.len() + 1 < usize::MAX,
            stack.fits(),
            nice_in_range(spec.nice),
            !spec.flags.idle,
        ensures
            final(self).wf(),
            old(self)@.settled() ==> final(self)@.settled(),
            spawned.0 == old(self)@.threads.len() + 1,
            ({
                let record = thread_of(*spec, old(self)@.threads.len(), cpu_id, now_ns, *stack);
                (final(self)@, spawned.1) == old(self)@.with_new_thread(record).started(
                    old(self)@.threads.len() as usize,
                    this_cpu,
                )
            }),
    {
        let thread: usize = self.alloc_thread(cpu_id, spec, now_ns, stack);
        let tid: usize = self.threads[thread].id;
        let kick = self.enqueue_new_thread(thread, this_cpu);
        (tid, kick)
    }

    /// Creates a thread that is not tied to a CPU and queues it on a suitable
    /// one.
    pub fn spawn(
        &mut self,
        spec: &ThreadSpec,
        now_ns: u64,
        stack: &StackSlot,
        this_cpu: Option<usize>,
    ) -> (spawned: (usize, Option<Kick>))
        requires
            old(self).wf(),
            old(self)@.threads.len() + 1 < usize::MAX,
            stack.fits(),
            nice_in_range(spec.nice),
            !spec.flags.idle,
            this_cpu matches Some(c) ==> c < old(self)@.cpus.len(),
        ensures
            final(self).wf(),
            old(self)@.settled() ==> final(self)@.settled(),
            spawned.0 == old(self)@.threads.len() + 1,
            ({
                let record = thread_of(
                    *spec,
                    old(self)@.threads.len(),
                    old(self)@.spawn_cpu(this_cpu),
                    now_ns,
                    *stack,
                );
                (final(self)@, spawned.1) == old(self)@.with_new_thread(record).started(
                    old(self)@.threads.len() as usize,
                    this_cpu,
                )
            }),
    {
        let cpu_id: usize = self.pick_spawn_cpu(this_cpu);
        self.spawn_on(cpu_id, spec, now_ns, stack, this_cpu)
    }

    /// Brings CPU `cpu_id` online and picks its first thread.
    ///
    /// Returns that thread and the deadline to program.
    pub fn start_current_cpu(&mut self, cpu_id: usize, now_ns: u64) -> (picked: (usize, u64))
        requires
            old(self).wf(),
            old(self)@.settled(),
            cpu_id < old(self)@.cpus.len(),
            old(self)@.cpus[cpu_id as int].idle.is_some(),
            old(self)@.cpus[cpu_id as int].current.is_none(),
        ensures
            final(self).wf(),
            final(self)@.settled(),
            final(self)@ == old(self)@.cpu_started(cpu_id, now_ns),
            final(self)@.cpus[cpu_id as int].current == Some(picked.0),
            picked.1 == final(self)@.cpus[cpu_id as int].deadline(final(self)@.threads, now_ns),
    {
        let ghost m = self@;
        let ghost k = cpu_id as int;
        proof {
            assert(m.cpus[k] == self.cpus@[k]@);
        }
        self.cpus[cpu_id].set_online(true);
        proof {
            let cpu = CpuModel { online: true, ..m.cpus[k] };
            m.lemma_benign_cpu(k, cpu);
            assert(self@ =~= m.with_cpu(k, cpu));
        }
        let _ = self.try_idle_pull(cpu_id, Some(cpu_id));
        proof {
            let pulled = self@;
            assert(pulled.cpus[k].current.is_none());
            assert(pulled.vacated(k) =~= pulled);
        }
        self.pick_next_locked(cpu_id, now_ns)
    }

    /// Ends the current thread of CPU `cpu_id` and picks another one.
    ///
    /// Returns that thread and the deadline to program.
    pub fn exit_current(&mut self, cpu_id: usize, now_ns: u64) -> (picked: (usize, u64))
        requires
            old(self).wf(),
            old(self)@.settled(),
            cpu_id < old(self)@.cpus.len(),
            old(self)@.cpus[cpu_id as int].idle.is_some(),
            old(self)@.cpus[cpu_id as int].current matches Some(t) && !old(
                self,
            )@.threads[t as int].spec_is_idle() && old(self)@.threads[t as int].state
                == ThreadState::Running,
        ensures
            final(self).wf(),
            final(self)@.settled(),
            final(self)@ == old(self)@.current_exited(cpu_id, now_ns),
            final(self)@.cpus[cpu_id as int].current == Some(picked.0),
            picked.1 == final(self)@.cpus[cpu_id as int].deadline(final(self)@.threads, now_ns),
    {
        let ghost m = self@;
        let ghost k = cpu_id as int;
        proof {
            assert(m.cpu_ok(k));
            assert(m.cpus[k] == self.cpus@[k]@);
            m.lemma_benign_cpu(k, m.cpus[k].exit_published());
        }
        self.cpus[cpu_id].publish_deferred_exit();
        let ghost published = m.with_cpu(k, m.cpus[k].exit_published());
        assert(self@ =~= published);
        let t: usize = self.cpus[cpu_id].current_thread().unwrap();
        let mut record = self.threads[t];
        record.mark_exited();
        proof {
            assert(published.thread_ok(t as int));
            assert(published.cpu_ok(k));
            published.lemma_departed(k, record);
        }
        self.threads[t] = record;
        self.cpus[cpu_id].release_thread(&record);
        self.cpus[cpu_id].retire_current(t);
        proof {
            let gone = published.with_cpu(k, published.cpus[k].released(record)).with_thread(
                t as int,
                record,
            ).vacated(k);
            let cpu = self.cpus@[k]@;
            gone.lemma_benign_cpu(k, cpu);
            assert(self@ =~= gone.with_cpu(k, cpu));
            assert(self@ =~= m.current_retired(cpu_id));
        }
        let _ = self.try_idle_pull(cpu_id, Some(cpu_id));
        proof {
            let pulled = self@;
            assert(pulled.cpus[k].current.is_none());
            assert(pulled.vacated(k) =~= pulled);
        }
        self.pick_next_locked(cpu_id, now_ns)
    }

    /// Puts the current thread of CPU `cpu_id` to sleep unless a wake with
    /// `seq` came first.
    pub fn park_current(
        &mut self,
        cpu_id: usize,
        thread: usize,
        seq: u64,
        now_ns: u64,
        irqs_were_enabled: bool,
    ) -> (outcome: ParkOutcome)
        requires
            old(self).wf(),
            cpu_id < old(self)@.cpus.len(),
            old(self)@.cpus[cpu_id as int].current == Some(thread),
            thread < old(self)@.threads.len(),
            !old(self)@.threads[thread as int].spec_is_idle(),
        ensures
            final(self).wf(),
            old(self)@.settled() ==> final(self)@.settled(),
            outcome.enable_irqs == !irqs_were_enabled,
            outcome.parked == (old(self)@.threads[thread as int].park_seq == seq && old(
                self,
            )@.threads[thread as int].park_state == ParkState::Waiting),
            !outcome.parked ==> final(self)@ == old(self)@,
            outcome.parked ==> final(self)@ == old(self)@.with_thread(
                thread as int,
                old(self)@.threads[thread as int].with_park_state(ParkState::Parked).blocked_at(
                    now_ns,
                ),
            ).with_cpu(
                cpu_id as int,
                CpuModel { need_resched: true, ..old(self)@.cpus[cpu_id as int] },
            ),
    {
        let ghost m = self@;
        let mut record = self.threads[thread];
        if !record.mark_parked(seq) {
            return ParkOutcome { parked: false, enable_irqs: !irqs_were_enabled };
        }
        record.mark_blocked(now_ns);
        self.threads[thread] = record;
        self.cpus[cpu_id].set_need_resched(true);
        proof {
            let k = cpu_id as int;
            assert(m.cpu_ok(k));
            assert(m.thread_ok(thread as int));
            let cpu = CpuModel { need_resched: true, ..m.cpus[k] };
            m.lemma_benign_thread(thread as int, record);
            m.with_thread(thread as int, record).lemma_benign_cpu(k, cpu);
            assert(self@ =~= m.with_thread(thread as int, record).with_cpu(k, cpu));
        }
        ParkOutcome { parked: true, enable_irqs: !irqs_were_enabled }
    }

    /// Announces a sleep attempt of a thread and returns its number.
    pub fn prepare_park(&mut self, thread: usize) -> (seq: u64)
        requires
            old(self).wf(),
            thread < old(self)@.threads.len(),
        ensures
            final(self).wf(),
            old(self)@.settled() ==> final(self)@.settled(),
            seq == old(self)@.threads[thread as int].park_seq.wrapping_add(1),
            final(self)@ == old(self)@.with_thread(
                thread as int,
                Thread {
                    park_seq: seq,
                    park_state: ParkState::Waiting,
                    ..old(self)@.threads[thread as int]
                },
            ),
    {
        let ghost m = self@;
        let mut record = self.threads[thread];
        let seq: u64 = record.prepare_park();
        self.threads[thread] = record;
        proof {
            assert(m.thread_ok(thread as int));
            m.lemma_benign_thread(thread as int, record);
            assert(self@ =~= m.with_thread(thread as int, record));
        }
        seq
    }

    /// Hands a finished exit on CPU `cpu_id` to the reaper.
    pub fn publish_deferred_exit(&mut self, cpu_id: usize)
        requires
            old(self).wf(),
            cpu_id < old(self)@.cpus.len(),
        ensures
            final(self).wf(),
            old(self)@.settled() ==> final(self)@.settled(),
            final(self)@ == old(self)@.with_cpu(
                cpu_id as int,
                old(self)@.cpus[cpu_id as int].exit_published(),
            ),
    {
        let ghost m = self@;
        let ghost k = cpu_id as int;
        self.cpus[cpu_id].publish_deferred_exit();
        proof {
            m.lemma_benign_cpu(k, m.cpus[k].exit_published());
            assert(self@ =~= m.with_cpu(k, m.cpus[k].exit_published()));
        }
    }

    /// Asks CPU `cpu_id` to pick a thread again.
    pub fn request_reschedule(&mut self, cpu_id: usize)
        requires
            old(self).wf(),
            cpu_id < old(self)@.cpus.len(),
        ensures
            final(self).wf(),
            old(self)@.settled() ==> final(self)@.settled(),
            final(self)@ == old(self)@.with_cpu(
                cpu_id as int,
                CpuModel { need_resched: true, ..old(self)@.cpus[cpu_id as int] },
            ),
    {
        let ghost m = self@;
        let ghost k = cpu_id as int;
        self.cpus[cpu_id].set_need_resched(true);
        proof {
            let cpu = CpuModel { need_resched: true, ..m.cpus[k] };
            m.lemma_benign_cpu(k, cpu);
            assert(self@ =~= m.with_cpu(k, cpu));
        }
    }

    /// Returns the current timer deadline of CPU `cpu_id`.
    pub fn current_deadline(&self, cpu_id: usize, now_ns: u64) -> (deadline: u64)
        requires
            self.wf(),
            cpu_id < self@.cpus.len(),
        ensures
            deadline == self@.cpus[cpu_id as int].deadline(self@.threads, now_ns),
    {
        proof {
            assert(self@.cpu_ok(cpu_id as int));
            self@.lemma_names(cpu_id as int);
            assert(self@.cpus[cpu_id as int] == self.cpus@[cpu_id as int]@);
        }
        self.cpus[cpu_id].deadline_for(&self.threads, &self.config, now_ns)
    }

    /// Decides how to kick a CPU.
    ///
    /// A remote CPU that only needs its timer re-armed is not made to
    /// reschedule.
    pub fn kick_cpu(
        &self,
        kick: Kick,
        this_cpu: Option<usize>,
        in_interrupt: bool,
        irqs_enabled: bool,
        now_ns: u64,
    ) -> (action: KickAction)
        requires
            self.wf(),
            kick.cpu < self@.cpus.len(),
        ensures
            action == if this_cpu != Some(kick.cpu) {
                KickAction::SendIpi(kick)
            } else if in_interrupt {
                KickAction::Nothing
            } else if kick.kind == CpuKick::Deadline {
                KickAction::SetDeadline(
                    self@.cpus[kick.cpu as int].deadline(self@.threads, now_ns),
                )
            } else if irqs_enabled {
                KickAction::Reschedule
            } else {
                KickAction::SetDeadline(now_ns)
            },
    {
        if is_remote(this_cpu, kick.cpu) {
            return KickAction::SendIpi(kick);
        }
        if in_interrupt {
            return KickAction::Nothing;
        }
        match kick.kind {
            CpuKick::Deadline => KickAction::SetDeadline(self.current_deadline(kick.cpu, now_ns)),
            CpuKick::Resched => {
                if irqs_enabled {
                    KickAction::Reschedule
                } else {
                    KickAction::SetDeadline(now_ns)
                }
            },
        }
    }

    /// Returns the thread that executes on CPU `cpu_id`.
    pub fn current_thread_opt(&self, cpu_id: usize) -> (thread: Option<usize>)
        requires
            self.wf(),
            cpu_id < self@.cpus.len(),
        ensures
            thread == self@.cpus[cpu_id as int].current,
    {
        self.cpus[cpu_id].current_thread()
    }

    /// Makes a thread the one that a core runs and returns what the hardware
    /// needs for it.
    pub fn activate_current(&self, thread: usize, core: &mut CoreLocal) -> (activation: Activation)
        requires
            thread < self@.threads.len(),
        ensures
            activation == (Activation {
                kernel_stack: self@.threads[thread as int].stack_top,
                address_space: self@.threads[thread as int].address_space,
                frame: self@.threads[thread as int].frame,
                thread_pointer: self@.threads[thread as int].thread_pointer,
            }),
            *final(core) == (CoreLocal {
                kernel_stack: self@.threads[thread as int].stack_top,
                user_stack: 0,
                current_thread: self@.threads[thread as int].id,
                ..*old(core)
            }),
    {
        let record = self.threads[thread];
        core.kernel_stack = record.stack_top;
        core.user_stack = 0;
        core.current_thread = record.id;
        Activation {
            kernel_stack: record.stack_top,
            address_space: record.address_space,
            frame: record.frame,
            thread_pointer: record.thread_pointer,
        }
    }

    /// Gives a thread a new record that may change its priority.
    fn rerecord(&mut self, thread: usize, record: &Thread)
        requires
            old(self).wf(),
            thread < old(self)@.threads.len(),
            ({
                let was = old(self)@.threads[thread as int];
                &&& record.linked == was.linked
                &&& record.rqindex == was.rqindex
                &&& record.cpu == was.cpu
                &&& record.flags == was.flags
                &&& record.state == was.state
                &&& record.park_state == was.park_state
                &&& nice_in_range(record.nice)
            }),
        ensures
            final(self).wf(),
            final(self)@ == old(self)@.rerecorded(thread as int, *record),
            old(self)@.settled() ==> final(self)@.settled(),
    {
        let ghost m = self@;
        let ghost t = thread as int;
        let c: usize = record.cpu;
        proof {
            assert(m.thread_ok(t));
            assert(m.cpu_ok(c as int));
            assert(m.cpus[c as int] == self.cpus@[c as int]@);
        }
        if !record.linked {
            self.threads[thread] = *record;
            proof {
                m.lemma_benign_thread(t, *record);
                assert(self@ =~= m.with_thread(t, *record));
            }
            if let Some(current) = self.cpus[c].current_thread() {
                if current == thread {
                    self.cpus[c].set_need_resched(true);
                    proof {
                        let cpu = CpuModel { need_resched: true, ..m.cpus[c as int] };
                        m.with_thread(t, *record).lemma_benign_cpu(c as int, cpu);
                        assert(self@ =~= m.rerecorded(t, *record));
                    }
                }
            }
            return;
        }
        proof {
            m.lemma_unplaced(t);
            if m.threads[t].spec_counts() {
                m.lemma_linked_load(t);
            }
        }
        self.cpus[c].dequeue_thread(thread, &mut self.threads);
        let mut moved = *record;
        moved.linked = false;
        let ghost without = m.unplaced(t);
        proof {
            without.lemma_capacity(t, c as int);
            without.lemma_placed(t, moved, EnqueueKind::Normal);
        }
        self.threads[thread] = moved;
        self.cpus[c].enqueue_existing(thread, &mut self.threads, EnqueueKind::Normal);
        assert(self@ =~= without.placed(t, moved, EnqueueKind::Normal));
    }

    /// Gives a thread a new nice value and requeues it if its priority
    /// changes.
    pub fn apply_nice(&mut self, thread: usize, nice: i8)
        requires
            old(self).wf(),
            thread < old(self)@.threads.len(),
            nice_in_range(nice),
        ensures
            final(self).wf(),
            final(self)@ == old(self)@.niced(thread as int, nice),
            old(self)@.settled() ==> final(self)@.settled(),
    {
        let ghost m = self@;
        let mut record = self.threads[thread];
        record.nice = nice;
        if record.state == ThreadState::Exited {
            self.threads[thread] = record;
            proof {
                assert(m.thread_ok(thread as int));
                assert(m.cpu_ok(m.threads[thread as int].cpu as int));
                m.lemma_benign_thread(thread as int, record);
                assert(self@ =~= m.with_thread(thread as int, record));
            }
            return;
        }
        priority_update(&mut record);
        self.rerecord(thread, &record);
    }

    /// Lends `boost` to a thread, or takes one loan back.
    pub fn adjust_boost(&mut self, thread: usize, boost: Option<u8>)
        requires
            old(self).wf(),
            thread < old(self)@.threads.len(),
        ensures
            final(self).wf(),
            final(self)@ == old(self)@.boosted(thread as int, boost),
            old(self)@.settled() ==> final(self)@.settled(),
    {
        let mut record = self.threads[thread];
        if record.state == ThreadState::Exited {
            return;
        }
        match boost {
            Some(priority) => {
                record.boost_count = record.boost_count.saturating_add(1);
                if priority < record.lent_priority {
                    record.lent_priority = priority;
                }
            },
            None => {
                record.boost_count = record.boost_count.saturating_sub(1);
                if record.boost_count == 0 {
                    record.lent_priority = u8::MAX;
                }
            },
        }
        record.refresh_priority();
        proof {
            assert(self@.thread_ok(thread as int));
        }
        self.rerecord(thread, &record);
    }

    /// Returns the nice value of the oldest live thread of `pid`.
    pub fn process_nice(&self, pid: usize) -> (nice: Option<i8>)
        requires
            self.wf(),
        ensures
            nice == first_nice(self@, pid, 0),
    {
        let mut index: usize = 0;
        while index < self.registry.len()
            invariant
                self.wf(),
                index <= self.registry@.len(),
                first_nice(self@, pid, 0) == first_nice(self@, pid, index as int),
            decreases self.registry@.len() - index,
        {
            assert(self@.registry[index as int] < self@.threads.len());
            let record = self.threads[self.registry[index]];
            if record.belongs_to_process(pid) {
                return Some(record.nice);
            }
            index = index + 1;
        }
        None
    }

    /// Gives every live thread of `pid` a nice value and returns their number.
    pub fn set_process_nice(&mut self, pid: usize, nice: i8) -> (updated: usize)
        requires
            old(self).wf(),
        ensures
            final(self).wf(),
            old(self)@.settled() ==> final(self)@.settled(),
            final(self)@ == old(self)@.all_niced(old(self)@.registry, pid, clamped_nice(nice)),
            updated == count_where(
                old(self)@.registry.len(),
                |i: int| old(self)@.threads[old(self)@.registry[i] as int].process == Some(pid),
            ),
    {
        let nice: i8 = if nice < NICE_MIN {
            NICE_MIN
        } else if nice > NICE_MAX {
            NICE_MAX
        } else {
            nice
        };
        let ghost m = self@;
        let ghost owned = |i: int| m.threads[m.registry[i] as int].process == Some(pid);
        let mut updated: usize = 0;
        let mut index: usize = 0;
        assert(m.registry.take(0) =~= Seq::empty());
        while index < self.registry.len()
            invariant
                self.wf(),
                m == old(self)@,
                m.settled() ==> self@.settled(),
                nice_in_range(nice),
                owned == (|i: int| m.threads[m.registry[i] as int].process == Some(pid)),
                self@.registry == m.registry,
                self@.threads.len() == m.threads.len(),
                forall|t: int|
                    0 <= t < m.threads.len() ==> (#[trigger] self@.threads[t]).process
                        == m.threads[t].process,
                index <= m.registry.len(),
                updated <= index,
                updated == count_where(index as nat, owned),
                self@ == m.all_niced(m.registry.take(index as int), pid, nice),
            decreases m.registry.len() - index,
        {
            let thread: usize = self.registry[index];
            proof {
                let longer = m.registry.take(index + 1);
                assert(longer.drop_last() =~= m.registry.take(index as int));
                assert(longer.last() == thread);
                assert(self@.registry[index as int] < self@.threads.len());
                assert(self@.threads[thread as int].process == m.threads[thread as int].process);
                assert(owned(index as int) == (m.threads[thread as int].process == Some(pid)));
            }
            if self.threads[thread].belongs_to_process(pid) {
                let ghost before = self@;
                self.apply_nice(thread, nice);
                updated = updated + 1;
                assert forall|t: int| 0 <= t < m.threads.len() implies (
                #[trigger] self@.threads[t]).process == before.threads[t].process by {}
            }
            index = index + 1;
        }
        assert(m.registry.take(index as int) =~= m.registry);
        updated
    }

    /// Reclaims every exited thread of CPU `cpu_id`; `active` holds the
    /// page-table roots still in use.
    fn reap_exited(&mut self, cpu_id: usize, active: &Vec<u64>)
        requires
            old(self).wf(),
            cpu_id < old(self)@.cpus.len(),
        ensures
            final(self).wf(),
            old(self)@.settled() ==> final(self)@.settled(),
            final(self)@ == old(self)@.reaped(cpu_id as int, is_in(active@)),
            final(self)@.cpus.len() == old(self)@.cpus.len(),
    {
        let ghost k = cpu_id as int;
        let ghost use_of = is_in(active@);
        let ghost goal = self@.reaped(k, use_of);
        loop
            invariant
                self.wf(),
                old(self)@.settled() ==> self@.settled(),
                k == cpu_id,
                cpu_id < self@.cpus.len(),
                self@.cpus.len() == old(self)@.cpus.len(),
                use_of == is_in(active@),
                self@.reaped(k, use_of) == goal,
                goal == old(self)@.reaped(k, use_of),
            ensures
                self@ == goal,
            decreases self@.cpus[k].exited.len(),
        {
            let ghost m = self@;
            assert(m.cpus[k] == self.cpus@[k]@);
            let t: usize = match self.cpus[cpu_id].pop_exited() {
                None => {
                    assert(self@ =~= m);
                    break;
                },
                Some(thread) => thread,
            };
            let ghost popped = m.with_cpu(
                k,
                CpuModel { exited: m.cpus[k].exited.remove(0), ..m.cpus[k] },
            );
            proof {
                assert(self@ =~= popped);
                m.lemma_benign_cpu(k, popped.cpus[k]);
                assert(m.cpus[k].exited[0] == t);
                assert(t < m.threads.len());
                assert(popped.thread_ok(t as int));
            }
            if let Some(root) = self.threads[t].address_space_root() {
                if contains_root(active, root) {
                    let _ = self.threads[t].take_address_space();
                    self.retired.push(root);
                    proof {
                        popped.lemma_benign_thread(t as int, self.threads@[t as int]);
                    }
                }
            }
            unregister(&mut self.registry, t);
            proof {
                assert(self@ =~= popped.reclaimed(t, use_of));
                let threads = self@.threads;
                let shifted = popped.with_thread(t as int, threads[t as int]);
                assert(shifted.threads =~= threads);
                shifted.lemma_same(self@);
                assert(self@.ids_ok()) by {
                    assert forall|i: int| 0 <= i < self@.registry.len() implies (
                    #[trigger] self@.registry[i]) < self@.threads.len() by {
                        let all = m.registry;
                        all.index_of_first_ensures(t);
                        if all.contains(t) {
                            let first = all.index_of_first(t)->0;
                            let j = if i < first {
                                i
                            } else {
                                i + 1
                            };
                            assert(self@.registry[i] == all[j]);
                        }
                    }
                    assert forall|c: int, i: int|
                        #![trigger self@.cpus[c].exited[i]]
                        0 <= c < self@.cpus.len() && 0 <= i
                            < self@.cpus[c].exited.len() implies self@.cpus[c].exited[i]
                        < self@.threads.len() by {
                        if c == k {
                            assert(self@.cpus[c].exited[i] == m.cpus[c].exited[i + 1]);
                        } else {
                            assert(self@.cpus[c].exited[i] == m.cpus[c].exited[i]);
                        }
                    }
                }
            }
        }
    }

    /// Drops retired page-table roots that fell out of use and reclaims every
    /// exited thread.
    pub fn reap_all_exited(&mut self, active: &Vec<u64>)
        requires
            old(self).wf(),
        ensures
            final(self).wf(),
            old(self)@.settled() ==> final(self)@.settled(),
            final(self)@ == (SchedModel {
                retired: still_active(old(self)@.retired, 0, is_in(active@)),
                ..old(self)@
            }).reaped_below(old(self)@.cpus.len(), is_in(active@)),
    {
        let ghost m = self@;
        let ghost use_of = is_in(active@);
        let mut index: usize = 0;
        while index < self.retired.len()
            invariant
                self.wf(),
                use_of == is_in(active@),
                m == old(self)@,
                self@ == (SchedModel { retired: self@.retired, ..m }),
                index <= self@.retired.len(),
                still_active(self@.retired, index as int, use_of) == still_active(
                    m.retired,
                    0,
                    use_of,
                ),
            decreases self@.retired.len() - index,
        {
            let root: u64 = self.retired[index];
            if contains_root(active, root) {
                index = index + 1;
            } else {
                let ghost before = self@;
                let _ = self.retired.swap_remove(index);
                proof {
                    assert(self@.retired =~= before.retired.update(
                        index as int,
                        before.retired.last(),
                    ).drop_last());
                    before.lemma_same(self@);
                    assert(self@.cpus == before.cpus && self@.registry == before.registry);
                    assert(self@.ids_ok());
                }
            }
        }
        let ghost swept = self@;
        let mut cpu_id: usize = 0;
        while cpu_id < self.cpus.len()
            invariant
                self.wf(),
                use_of == is_in(active@),
                old(self)@.settled() ==> self@.settled(),
                cpu_id <= self.cpus@.len(),
                self@.cpus.len() == swept.cpus.len(),
                self@ == swept.reaped_below(cpu_id as nat, use_of),
            decreases self.cpus@.len() - cpu_id,
        {
            self.reap_exited(cpu_id, active);
            cpu_id = cpu_id + 1;
        }
    }
}

/// State of CPU `c` before anything ran on it.
pub open spec fn fresh_cpu(c: int) -> CpuModel {
    CpuModel {
        buckets: Seq::new(BUCKETS as nat, |i: int| Seq::<usize>::empty()),
        current: None,
        idle: None,
        exited: Seq::empty(),
        deferred_exit: None,
        online: c == 0,
        load: 0,
        sysload: 0,
        insert: 0,
        pick: 0,
        ticks: 0,
        next_statclock_ns: 0,
        unwinding: None,
        need_resched: false,
    }
}

/// The nice value nearest to `nice` that threads can have.
pub open spec fn clamped_nice(nice: i8) -> i8 {
    if nice < NICE_MIN {
        NICE_MIN
    } else if nice > NICE_MAX {
        NICE_MAX
    } else {
        nice
    }
}

/// Membership in a list of page-table roots.
pub open spec fn is_in(roots: Seq<u64>) -> spec_fn(u64) -> bool {
    |root: u64| roots.contains(root)
}

/// Nice value of the first registered thread of `pid` at or after `at`.
pub open spec fn first_nice(m: SchedModel, pid: usize, at: int) -> Option<i8>
    decreases m.registry.len() - at,
{
    if at >= m.registry.len() {
        None
    } else if m.threads[m.registry[at] as int].process == Some(pid) {
        Some(m.threads[m.registry[at] as int].nice)
    } else {
        first_nice(m, pid, at + 1)
    }
}

fn contains_root(roots: &Vec<u64>, root: u64) -> (found: bool)
    ensures
        found == roots@.contains(root),
{
    let mut index: usize = 0;
    while index < roots.len()
        invariant
            index <= roots@.len(),
            forall|i: int| 0 <= i < index ==> roots@[i] != root,
        decreases roots@.len() - index,
    {
        if roots[index] == root {
            assert(roots@[index as int] == root);
            return true;
        }
        index = index + 1;
    }
    false
}

/// Removes a thread from the list of live threads, if it is there.
fn unregister(registry: &mut Vec<usize>, thread: usize)
    ensures
        final(registry)@ == old(registry)@.remove_value(thread),
{
    proof {
        registry@.index_of_first_ensures(thread);
    }
    let mut index: usize = 0;
    while index < registry.len()
        invariant
            registry@ == old(registry)@,
            index <= registry@.len(),
            forall|i: int| 0 <= i < index ==> registry@[i] != thread,
        decreases registry@.len() - index,
    {
        if registry[index] == thread {
            let _ = registry.remove(index);
            proof {
                old(registry)@.index_of_first_ensures(thread);
                let first = old(registry)@.index_of_first(thread)->0;
                assert(old(registry)@[index as int] == thread);
                assert(first == index);
            }
            return;
        }
        index = index + 1;
    }
    proof {
        old(registry)@.index_of_first_ensures(thread);
    }
}

/// What an idle thread looks like.
pub open spec fn idle_task() -> ThreadSpec {
    ThreadSpec {
        class: ThreadClass::Idle,
        priority: MAX_IDLE,
        flags: idle_flags(),
        nice: 0,
        process: None,
        address_space: None,
        thread_pointer: 0,
    }
}

/// What the first two kernel threads look like.
pub open spec fn boot_task() -> ThreadSpec {
    ThreadSpec {
        class: ThreadClass::Timeshare,
        priority: MIN_INTERACT,
        flags: boot_flags(),
        ..idle_task()
    }
}

/// A scheduler that is ready to start: every CPU has its idle thread, and the
/// initial task and the maintenance thread are queued on CPU 0, in that order.
pub open spec fn bootstrapped(m: SchedModel, n: nat, now_ns: u64, stacks: Seq<StackSlot>) -> bool {
    &&& m.cpus.len() == n
    &&& m.threads.len() == n + 2
    &&& m.registry.len() == 0
    &&& m.retired.len() == 0
    &&& forall|c: int|
        0 <= c < n ==> (#[trigger] m.threads[c]) == thread_of(
            idle_task(),
            c as nat,
            c as usize,
            now_ns,
            stacks[c],
        )
    &&& m.threads[n as int] == thread_of(boot_task(), n, 0, now_ns, stacks[n as int]).ready_in(
        MIN_INTERACT,
    )
    &&& m.threads[n as int + 1] == thread_of(boot_task(), n + 1, 0, now_ns, stacks[n as int + 1]).ready_in(
        MIN_INTERACT,
    )
    &&& m.cpus[0] == (CpuModel {
        idle: Some(0),
        buckets: fresh_cpu(0).buckets.update(
            MIN_INTERACT as int,
            seq![n as usize, (n + 1) as usize],
        ),
        ..fresh_cpu(0)
    })
    &&& forall|c: int|
        1 <= c < n ==> (#[trigger] m.cpus[c]) == (CpuModel {
            idle: Some(c as usize),
            ..fresh_cpu(c)
        })
}

impl Scheduler {
    /// Creates and queues one of the first two kernel threads on CPU 0.
    fn add_boot_thread(&mut self, now_ns: u64, stack: &StackSlot)
        requires
            old(self).wf(),
            old(self)@.threads.len() + 1 < usize::MAX,
            stack.fits(),
        ensures
            final(self).wf(),
            ({
                let m = old(self)@;
                let n = m.threads.len();
                let record = thread_of(boot_task(), n, 0, now_ns, *stack);
                final(self)@ == m.with_new_thread(record).placed(
                    n as int,
                    record,
                    EnqueueKind::Normal,
                )
            }),
    {
        let spec = ThreadSpec {
            class: ThreadClass::Timeshare,
            priority: MIN_INTERACT,
            flags: ThreadFlags { idle: false, noload: true, sliceend: false, no_migrate: true },
            nice: 0,
            process: None,
            address_space: None,
            thread_pointer: 0,
        };
        let thread: usize = self.alloc_thread(0, &spec, now_ns, stack);
        let ghost m = self@;
        let record = self.threads[thread];
        proof {
            m.lemma_capacity(thread as int, 0);
            m.lemma_placed(thread as int, record, EnqueueKind::Normal);
        }
        self.cpus[0].adopt_thread(thread, &mut self.threads, EnqueueKind::Normal);
        assert(self@ =~= m.placed(thread as int, record, EnqueueKind::Normal));
    }

    /// Creates the idle threads and queues the first kernel threads.
    pub fn bootstrap(&mut self, now_ns: u64, stacks: &[StackSlot])
        requires
            old(self).wf(),
            old(self)@.threads.len() == 0,
            old(self)@.registry.len() == 0,
            old(self)@.retired.len() == 0,
            old(self)@.cpus.len() + 3 < usize::MAX,
            forall|c: int|
                0 <= c < old(self)@.cpus.len() ==> (#[trigger] old(self)@.cpus[c]) == fresh_cpu(c),
            stacks@.len() == old(self)@.cpus.len() + 2,
            forall|i: int| 0 <= i < stacks@.len() ==> (#[trigger] stacks@[i]).fits(),
        ensures
            final(self).wf(),
            final(self)@.settled(),
            bootstrapped(final(self)@, old(self)@.cpus.len(), now_ns, stacks@),
    {
        let ghost n = self@.cpus.len();
        let count: usize = self.cpus.len();
        let mut cpu_id: usize = 0;
        while cpu_id < count
            invariant
                self.wf(),
                n == count == self@.cpus.len(),
                n + 3 < usize::MAX,
                cpu_id <= count,
                stacks@.len() == n + 2,
                forall|i: int| 0 <= i < stacks@.len() ==> (#[trigger] stacks@[i]).fits(),
                self@.threads.len() == cpu_id,
                self@.registry.len() == 0,
                self@.retired.len() == 0,
                forall|c: int|
                    0 <= c < cpu_id ==> (#[trigger] self@.threads[c]) == thread_of(
                        idle_task(),
                        c as nat,
                        c as usize,
                        now_ns,
                        stacks@[c],
                    ),
                forall|c: int|
                    0 <= c < cpu_id ==> (#[trigger] self@.cpus[c]) == (CpuModel {
                        idle: Some(c as usize),
                        ..fresh_cpu(c)
                    }),
                forall|c: int| cpu_id <= c < n ==> (#[trigger] self@.cpus[c]) == fresh_cpu(c),
            decreases count - cpu_id,
        {
            let spec = ThreadSpec {
                class: ThreadClass::Idle,
                priority: MAX_IDLE,
                flags: ThreadFlags { idle: true, noload: true, sliceend: false, no_migrate: true },
                nice: 0,
                process: None,
                address_space: None,
                thread_pointer: 0,
            };
            let idle: usize = self.alloc_thread(cpu_id, &spec, now_ns, &stacks[cpu_id]);
            let ghost m = self@;
            self.cpus[cpu_id].set_idle(idle);
            proof {
                m.lemma_idle_named(cpu_id as int, idle);
                let cpu = CpuModel { idle: Some(idle), ..m.cpus[cpu_id as int] };
                assert(self@ =~= m.with_cpu(cpu_id as int, cpu));
            }
            cpu_id = cpu_id + 1;
        }
        let ghost idling = self@;
        self.add_boot_thread(now_ns, &stacks[count]);
        self.add_boot_thread(now_ns, &stacks[count + 1]);
        proof {
            let buckets = fresh_cpu(0).buckets;
            assert(self@.cpus[0].buckets =~= buckets.update(
                MIN_INTERACT as int,
                seq![n as usize, (n + 1) as usize],
            )) by {
                assert(self@.cpus[0].buckets[MIN_INTERACT as int] =~= seq![
                    n as usize,
                    (n + 1) as usize,
                ]);
            }
            assert(self@.cpus[0] =~= (CpuModel {
                idle: Some(0),
                buckets: buckets.update(MIN_INTERACT as int, seq![n as usize, (n + 1) as usize]),
                ..fresh_cpu(0)
            }));
            assert forall|c: int| 1 <= c < n implies (#[trigger] self@.cpus[c]) == (CpuModel {
                idle: Some(c as usize),
                ..fresh_cpu(c)
            }) by {
                assert(self@.cpus[c] == idling.cpus[c]);
            }
            assert forall|c: int| 0 <= c < n implies (#[trigger] self@.threads[c]) == thread_of(
                idle_task(),
                c as nat,
                c as usize,
                now_ns,
                stacks@[c],
            ) by {
                assert(self@.threads[c] == idling.threads[c]);
            }
        }
    }
}

/// A nice value out of range becomes the nearest one in range.
pub proof fn law_nice_is_clamped(nice: i8)
    ensures
        -20 <= clamped_nice(nice) <= 20,
        -20 <= nice <= 20 ==> clamped_nice(nice) == nice,
        nice < -20 ==> clamped_nice(nice) == -20,
        nice > 20 ==> clamped_nice(nice) == 20,
{
}

/// Idle threads have the worst priority, do not count as load and stay on their
/// CPU; threads of the boot run with the best timeshare priority, but do not
/// count or move either.
pub proof fn law_idle_thread_never_counts()
    ensures
        idle_task().class == ThreadClass::Idle,
        idle_task().priority == 255,
        idle_task().flags.idle && idle_task().flags.noload && idle_task().flags.no_migrate,
        boot_task().class == ThreadClass::Timeshare,
        boot_task().priority == 56,
        !boot_task().flags.idle && boot_task().flags.noload && boot_task().flags.no_migrate,
{
}

/// A CPU starts with nothing queued or running and no load, and only the first
/// one is online.
pub proof fn law_fresh_cpu_is_empty(c: int, b: int)
    requires
        0 <= b < 256,
    ensures
        fresh_cpu(c).buckets.len() == 256,
        fresh_cpu(c).buckets[b].len() == 0,
        fresh_cpu(c).current.is_none() && fresh_cpu(c).idle.is_none(),
        fresh_cpu(c).load == 0 && fresh_cpu(c).sysload == 0,
        fresh_cpu(c).online <==> c == 0,
        !fresh_cpu(c).need_resched,
{
}

/// A thread is made as it is described, under the next number.
pub proof fn law_thread_is_as_described(
    spec: ThreadSpec,
    n: nat,
    cpu: usize,
    now_ns: u64,
    stack: StackSlot,
)
    requires
        stack.fits(),
        n < usize::MAX,
    ensures
        ({
            let thread = thread_of(spec, n, cpu, now_ns, stack);
            &&& thread.id == n + 1
            &&& thread.cpu == cpu
            &&& thread.class == spec.class
            &&& thread.priority == spec.priority && thread.base_priority == spec.priority
            &&& thread.flags == spec.flags
            &&& thread.nice == spec.nice
            &&& thread.process == spec.process
            &&& thread.address_space == spec.address_space
            &&& thread.thread_pointer == spec.thread_pointer
            &&& thread.stack_top == stack.base + KSTACK_SIZE
            &&& thread.frame + stack.frame_size == thread.stack_top
        }),
{
}

/// The nice value of a process is that of the first of its threads.
pub proof fn law_process_nice_is_of_first_thread(m: SchedModel, pid: usize, at: int)
    requires
        0 <= at <= m.registry.len(),
    ensures
        match first_nice(m, pid, at) {
            Some(nice) => exists|i: int|
                at <= i < m.registry.len() && m.threads[(#[trigger] m.registry[i]) as int].process
                    == Some(pid) && m.threads[m.registry[i] as int].nice == nice,
            None => forall|i: int|
                at <= i < m.registry.len() ==> m.threads[(#[trigger] m.registry[i]) as int].process
                    != Some(pid),
        },
    decreases m.registry.len() - at,
{
    if at < m.registry.len() {
        law_process_nice_is_of_first_thread(m, pid, at + 1);
    }
}

} // verus!
