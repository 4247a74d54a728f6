//! Scheduler of all CPUs as a mathematical value, and what every operation
//! keeps true of it.

use vstd::prelude::*;
use crate::num::{
    count_where, lemma_count_bound, lemma_count_flip, lemma_count_positive, lemma_count_same, max_int, minus_or_zero,
};
use crate::sys::sched::cpu::{
    lemma_best_is_queued, lemma_next_pick, CpuModel, EnqueueKind,
};
use crate::sys::sched::policy::{
    nice_in_range, reprioritized, wakeup_finished, MAX_INTERACT, MIN_BATCH, PRI_BATCH_RANGE, SCHED_STEAL_THRESHOLD,
    SCHED_WAKE_AFFINITY_NS,
};
use crate::sys::sched::runq::{
    first_occupied, lemma_first_accepted, lemma_first_occupied, lemma_total_empty,
    lemma_total_positive, lemma_total_update, queued_total, stealable, with_queued,
    without_queued, Buckets, BUCKETS,
};
use crate::sys::thread::{
    ParkState, Thread, ThreadClass, ThreadFlags, ThreadState, WakeResult,
};

verus! {

/// Why a CPU is kicked.
#[derive(Copy, Clone, Debug, PartialEq, Eq, Structural)]
pub enum CpuKick {
    /// To pick a thread again.
    Resched,
    /// To re-arm its timer.
    Deadline,
}

/// A CPU to kick.
#[derive(Copy, Clone, Debug, PartialEq, Eq, Structural)]
pub struct Kick {
    /// CPU to kick.
    pub cpu: usize,
    /// Why.
    pub kind: CpuKick,
}

/// Kick for `cpu` where one is due.
pub open spec fn kick_for(cpu: usize, resched: bool, deadline: bool) -> Option<Kick> {
    if resched {
        Some(Kick { cpu, kind: CpuKick::Resched })
    } else if deadline {
        Some(Kick { cpu, kind: CpuKick::Deadline })
    } else {
        None
    }
}

/// All CPUs and threads.
#[verifier::ext_equal]
pub struct SchedModel {
    /// CPUs by number.
    pub cpus: Seq<CpuModel>,
    /// Threads by table index.
    pub threads: Seq<Thread>,
    /// Live threads in the order of their creation.
    pub registry: Seq<usize>,
    /// Page-table roots of exited threads that were still active.
    pub retired: Seq<u64>,
}

/// Threads queued on CPU `c`.
pub open spec fn linked_on(threads: Seq<Thread>, c: int) -> spec_fn(int) -> bool {
    |t: int| threads[t].linked && threads[t].cpu == c
}

/// Threads that count towards the load of CPU `c`: queued there, or current
/// and not about to leave.
pub open spec fn loaded_on(threads: Seq<Thread>, cpu: CpuModel, c: int) -> spec_fn(int) -> bool {
    |t: int|
        threads[t].cpu == c && threads[t].spec_counts() && (threads[t].linked || (cpu.current
            == Some(t as usize) && cpu.unwinding != Some(t as usize)))
}

impl SchedModel {
    /// The scheduler with CPU `c` replaced.
    pub open spec fn with_cpu(self, c: int, cpu: CpuModel) -> SchedModel {
        SchedModel { cpus: self.cpus.update(c, cpu), ..self }
    }

    /// The scheduler with its thread table replaced.
    pub open spec fn with_threads(self, threads: Seq<Thread>) -> SchedModel {
        SchedModel { threads, ..self }
    }

    /// The scheduler with one thread replaced.
    pub open spec fn with_thread(self, t: int, record: Thread) -> SchedModel {
        SchedModel { threads: self.threads.update(t, record), ..self }
    }

    /// CPU `c` is consistent with the thread table.
    pub open spec fn cpu_ok(self, c: int) -> bool {
        let cpu = self.cpus[c];
        &&& cpu.buckets.len() == BUCKETS
        &&& cpu.insert < PRI_BATCH_RANGE
        &&& cpu.pick < PRI_BATCH_RANGE
        &&& forall|b: int, x: usize|
            0 <= b < BUCKETS && #[trigger] cpu.buckets[b].contains(x) ==> x < self.threads.len()
                && self.threads[x as int].linked && self.threads[x as int].rqindex == b
                && self.threads[x as int].cpu == c
        &&& forall|b: int| 0 <= b < BUCKETS ==> (#[trigger] cpu.buckets[b]).no_duplicates()
        &&& cpu.current matches Some(t) ==> t < self.threads.len() && self.threads[t as int].cpu
            == c && !self.threads[t as int].linked && (self.threads[t as int].state
            == ThreadState::Running || self.threads[t as int].state == ThreadState::Blocked)
        &&& cpu.idle matches Some(t) ==> t < self.threads.len() && self.threads[t as int].cpu == c
            && self.threads[t as int].spec_is_idle()
        &&& cpu.load == cpu.sysload
        &&& cpu.load == count_where(self.threads.len(), loaded_on(self.threads, cpu, c))
        &&& queued_total(cpu.buckets) == count_where(
            self.threads.len(),
            linked_on(self.threads, c),
        )
    }

    /// Thread `t` is consistent with the CPUs.
    pub open spec fn thread_ok(self, t: int) -> bool {
        let record = self.threads[t];
        &&& nice_in_range(record.nice)
        &&& record.cpu < self.cpus.len()
        &&& record.spec_is_idle() ==> !record.spec_counts() && record.flags.no_migrate
            && !record.linked && record.park_state != ParkState::Parked
        &&& record.linked ==> record.state == ThreadState::Ready
            && self.cpus[record.cpu as int].buckets[record.rqindex as int].contains(t as usize)
        &&& record.park_state == ParkState::Parked ==> record.state == ThreadState::Blocked
    }

    /// What every operation keeps: queues and thread records agree, a queued
    /// thread is runnable, unique and on its own CPU, a running thread is not
    /// queued, and every CPU's load counts exactly its runnable threads.
    pub open spec fn inv(self) -> bool {
        &&& 1 <= self.cpus.len() <= usize::MAX
        &&& self.threads.len() < usize::MAX
        &&& forall|c: int| 0 <= c < self.cpus.len() ==> #[trigger] self.cpu_ok(c)
        &&& forall|t: int| 0 <= t < self.threads.len() ==> #[trigger] self.thread_ok(t)
    }

    /// Every registered thread and every exited thread that waits for the
    /// reaper is in the table.
    pub open spec fn ids_ok(self) -> bool {
        &&& forall|i: int|
            0 <= i < self.registry.len() ==> (#[trigger] self.registry[i]) < self.threads.len()
        &&& forall|c: int, i: int|
            #![trigger self.cpus[c].exited[i]]
            0 <= c < self.cpus.len() && 0 <= i < self.cpus[c].exited.len()
                ==> self.cpus[c].exited[i] < self.threads.len()
        &&& forall|c: int|
            0 <= c < self.cpus.len() ==> ((#[trigger] self.cpus[c]).deferred_exit matches Some(t)
                ==> t < self.threads.len())
    }

    /// No CPU is in the middle of a switch.
    pub open spec fn settled(self) -> bool {
        forall|c: int|
            0 <= c < self.cpus.len() ==> {
                let cpu = #[trigger] self.cpus[c];
                cpu.current.is_some() ==> cpu.unwinding != cpu.current
            }
    }

    /// The scheduler with nothing running on CPU `c`.
    pub open spec fn vacated(self, c: int) -> SchedModel {
        self.with_cpu(c, CpuModel { current: None, ..self.cpus[c] })
    }

    /// Whether thread `t` executes on its CPU.
    pub open spec fn is_current(self, t: usize) -> bool {
        self.cpus[self.threads[t as int].cpu as int].current == Some(t)
    }
}

/// What is in a bucket after a thread was added.
pub proof fn lemma_with_queued(buckets: Buckets, bucket: int, thread: usize, front: bool)
    requires
        0 <= bucket < buckets.len(),
    ensures
        with_queued(buckets, bucket, thread, front).len() == buckets.len(),
        queued_total(with_queued(buckets, bucket, thread, front)) == queued_total(buckets) + 1,
        forall|b: int, x: usize|
            0 <= b < buckets.len() ==> #[trigger] with_queued(
                buckets,
                bucket,
                thread,
                front,
            )[b].contains(x) == (buckets[b].contains(x) || (b == bucket && x == thread)),
        !buckets[bucket].contains(thread) && buckets[bucket].no_duplicates() ==> with_queued(
            buckets,
            bucket,
            thread,
            front,
        )[bucket].no_duplicates(),
{
    let queue = buckets[bucket];
    let after = with_queued(buckets, bucket, thread, front);
    lemma_total_update(buckets, bucket, after[bucket]);
    assert forall|b: int, x: usize| 0 <= b < buckets.len() implies #[trigger] after[b].contains(x)
        == (buckets[b].contains(x) || (b == bucket && x == thread)) by {
        if b == bucket {
            if front {
                assert(after[b] == seq![thread] + queue);
                if queue.contains(x) {
                    let i = choose|i: int| 0 <= i < queue.len() && queue[i] == x;
                    assert(after[b][i + 1] == x);
                }
                if after[b].contains(x) {
                    let i = choose|i: int| 0 <= i < after[b].len() && after[b][i] == x;
                    if i > 0 {
                        assert(queue[i - 1] == x);
                    }
                }
                assert(after[b][0] == thread);
            } else {
                assert(after[b] == queue.push(thread));
                if queue.contains(x) {
                    let i = choose|i: int| 0 <= i < queue.len() && queue[i] == x;
                    assert(after[b][i] == x);
                }
                assert(after[b][queue.len() as int] == thread);
            }
        }
    }
    if !queue.contains(thread) && queue.no_duplicates() {
        assert(after[bucket].no_duplicates()) by {
            if front {
                assert forall|i: int, j: int|
                    0 <= i < after[bucket].len() && 0 <= j < after[bucket].len() && i
                        != j implies after[bucket][i] != after[bucket][j] by {
                    if i > 0 && j > 0 {
                        assert(queue[i - 1] != queue[j - 1]);
                    } else if i > 0 {
                        assert(queue[i - 1] == after[bucket][i]);
                    } else if j > 0 {
                        assert(queue[j - 1] == after[bucket][j]);
                    }
                }
            }
        }
    }
}

/// What is in a bucket after a thread was taken out.
pub proof fn lemma_without_queued(buckets: Buckets, bucket: int, thread: usize)
    requires
        0 <= bucket < buckets.len(),
        buckets[bucket].contains(thread),
        buckets[bucket].no_duplicates(),
    ensures
        without_queued(buckets, bucket, thread).len() == buckets.len(),
        queued_total(without_queued(buckets, bucket, thread)) == queued_total(buckets) - 1,
        forall|b: int, x: usize|
            0 <= b < buckets.len() ==> #[trigger] without_queued(
                buckets,
                bucket,
                thread,
            )[b].contains(x) == (buckets[b].contains(x) && !(b == bucket && x == thread)),
        without_queued(buckets, bucket, thread)[bucket].no_duplicates(),
{
    let queue = buckets[bucket];
    queue.index_of_first_ensures(thread);
    let first = queue.index_of_first(thread)->0;
    let after = without_queued(buckets, bucket, thread);
    assert(after[bucket] == queue.remove(first));
    lemma_total_update(buckets, bucket, after[bucket]);
    assert forall|b: int, x: usize| 0 <= b < buckets.len() implies #[trigger] after[b].contains(x)
        == (buckets[b].contains(x) && !(b == bucket && x == thread)) by {
        if b == bucket {
            if after[b].contains(x) {
                let i = choose|i: int| 0 <= i < after[b].len() && after[b][i] == x;
                if i < first {
                    assert(queue[i] == x);
                } else {
                    assert(queue[i + 1] == x);
                }
            }
            if queue.contains(x) && x != thread {
                let i = choose|i: int| 0 <= i < queue.len() && queue[i] == x;
                if i < first {
                    assert(after[b][i] == x);
                } else {
                    assert(after[b][i - 1] == x);
                }
            }
        }
    }
    assert forall|i: int, j: int|
        0 <= i < after[bucket].len() && 0 <= j < after[bucket].len() && i
            != j implies after[bucket][i] != after[bucket][j] by {
        let k = if i < first {
            i
        } else {
            i + 1
        };
        let l = if j < first {
            j
        } else {
            j + 1
        };
        assert(queue[k] == after[bucket][i] && queue[l] == after[bucket][j]);
    }
}

impl SchedModel {
    /// Every thread that a CPU names is in the table.
    pub proof fn lemma_names(self, c: int)
        requires
            self.cpu_ok(c),
        ensures
            self.cpus[c].names_below(self.threads.len()),
    {
        let cpu = self.cpus[c];
        assert forall|b: int, i: int|
            #![trigger cpu.buckets[b][i]]
            0 <= b < BUCKETS && 0 <= i < cpu.buckets[b].len() implies cpu.buckets[b][i]
            < self.threads.len() by {
            assert(cpu.buckets[b].contains(cpu.buckets[b][i]));
        }
    }

    /// A CPU has room for a thread that does not run or wait there.
    pub proof fn lemma_capacity(self, t: int, c: int)
        requires
            self.inv(),
            0 <= t < self.threads.len(),
            0 <= c < self.cpus.len(),
            !self.threads[t].linked,
            !self.is_current(t as usize),
        ensures
            queued_total(self.cpus[c].buckets) < usize::MAX,
            self.cpus[c].load < usize::MAX,
            self.cpus[c].sysload < usize::MAX,
    {
        assert(self.cpu_ok(c));
        let n = self.threads.len();
        lemma_count_bound(n, linked_on(self.threads, c));
        lemma_count_bound(n, loaded_on(self.threads, self.cpus[c], c));
    }

    /// Changes that touch neither queues, placement nor load keep the
    /// scheduler consistent.
    pub proof fn lemma_benign(self, after: SchedModel)
        requires
            self.inv(),
            after.cpus.len() == self.cpus.len(),
            after.threads.len() == self.threads.len(),
            forall|c: int|
                #![trigger after.cpus[c]]
                0 <= c < self.cpus.len() ==> {
                    &&& after.cpus[c].buckets == self.cpus[c].buckets
                    &&& after.cpus[c].current == self.cpus[c].current
                    &&& after.cpus[c].idle == self.cpus[c].idle
                    &&& after.cpus[c].load == self.cpus[c].load
                    &&& after.cpus[c].sysload == self.cpus[c].sysload
                    &&& after.cpus[c].insert == self.cpus[c].insert || after.cpus[c].insert
                        < PRI_BATCH_RANGE
                    &&& after.cpus[c].pick == self.cpus[c].pick || after.cpus[c].pick
                        < PRI_BATCH_RANGE
                    &&& after.cpus[c].unwinding == self.cpus[c].unwinding || (
                    self.cpus[c].current.is_some() ==> after.cpus[c].unwinding
                        != self.cpus[c].current && self.cpus[c].unwinding
                        != self.cpus[c].current)
                },
            forall|t: int|
                #![trigger after.threads[t]]
                0 <= t < self.threads.len() ==> {
                    let new = after.threads[t];
                    let was = self.threads[t];
                    &&& new.linked == was.linked
                    &&& new.rqindex == was.rqindex
                    &&& new.cpu == was.cpu
                    &&& new.spec_is_idle() == was.spec_is_idle()
                    &&& new.spec_counts() == was.spec_counts()
                    &&& new.flags.no_migrate == was.flags.no_migrate
                    &&& nice_in_range(new.nice)
                    &&& was.linked ==> new.state == ThreadState::Ready
                    &&& self.is_current(t as usize) ==> new.state == ThreadState::Running
                        || new.state == ThreadState::Blocked
                    &&& new.park_state == ParkState::Parked ==> new.state == ThreadState::Blocked
                        && !new.spec_is_idle()
                },
        ensures
            after.inv(),
    {
        let n = self.threads.len();
        assert forall|c: int| 0 <= c < after.cpus.len() implies #[trigger] after.cpu_ok(c) by {
            assert(self.cpu_ok(c));
            let cpu = self.cpus[c];
            let new = after.cpus[c];
            assert forall|b: int, x: usize|
                0 <= b < BUCKETS && #[trigger] new.buckets[b].contains(x) implies x
                < after.threads.len() && after.threads[x as int].linked
                && after.threads[x as int].rqindex == b && after.threads[x as int].cpu == c by {
                assert(cpu.buckets[b].contains(x));
                assert(after.threads[x as int].linked == self.threads[x as int].linked);
            }
            assert forall|b: int| 0 <= b < BUCKETS implies (
            #[trigger] new.buckets[b]).no_duplicates() by {
                assert(cpu.buckets[b].no_duplicates());
            }
            let p = loaded_on(self.threads, cpu, c);
            let q = loaded_on(after.threads, new, c);
            assert forall|t: int| 0 <= t < n implies #[trigger] p(t) == q(t) by {
                assert(after.threads[t].linked == self.threads[t].linked);
            }
            lemma_count_same(n, p, q);
            let p = linked_on(self.threads, c);
            let q = linked_on(after.threads, c);
            assert forall|t: int| 0 <= t < n implies #[trigger] p(t) == q(t) by {
                assert(after.threads[t].linked == self.threads[t].linked);
            }
            lemma_count_same(n, p, q);
        }
        assert forall|t: int| 0 <= t < after.threads.len() implies #[trigger] after.thread_ok(t) by {
            assert(self.thread_ok(t));
            let record = after.threads[t];
            assert(after.cpus[record.cpu as int].buckets == self.cpus[record.cpu as int].buckets);
        }
    }

    /// Consistency is a matter of CPUs and threads alone.
    pub proof fn lemma_same(self, after: SchedModel)
        requires
            self.inv(),
            after.cpus == self.cpus,
            after.threads == self.threads,
        ensures
            after.inv(),
    {
        assert forall|c: int| 0 <= c < after.cpus.len() implies #[trigger] after.cpu_ok(c) by {
            assert(self.cpu_ok(c));
        }
        assert forall|t: int| 0 <= t < after.threads.len() implies #[trigger] after.thread_ok(t) by {
            assert(self.thread_ok(t));
        }
    }

    /// A change to one CPU that touches neither its queues nor its load keeps
    /// the scheduler consistent.
    pub proof fn lemma_benign_cpu(self, c: int, cpu: CpuModel)
        requires
            self.inv(),
            0 <= c < self.cpus.len(),
            cpu.buckets == self.cpus[c].buckets,
            cpu.current == self.cpus[c].current,
            cpu.idle == self.cpus[c].idle,
            cpu.load == self.cpus[c].load,
            cpu.sysload == self.cpus[c].sysload,
            cpu.insert == self.cpus[c].insert || cpu.insert < PRI_BATCH_RANGE,
            cpu.pick == self.cpus[c].pick || cpu.pick < PRI_BATCH_RANGE,
            cpu.unwinding == self.cpus[c].unwinding || (self.cpus[c].current.is_some()
                ==> cpu.unwinding != self.cpus[c].current && self.cpus[c].unwinding
                != self.cpus[c].current),
        ensures
            self.with_cpu(c, cpu).inv(),
    {
        let after = self.with_cpu(c, cpu);
        assert forall|t: int|
            #![trigger after.threads[t]]
            0 <= t < self.threads.len() implies self.thread_ok(t) && self.cpu_ok(
            self.threads[t].cpu as int,
        ) by {
            assert(self.thread_ok(t));
        }
        self.lemma_benign(after);
    }

    /// A change to one thread that touches neither its placement nor its load
    /// keeps the scheduler consistent.
    pub proof fn lemma_benign_thread(self, t: int, record: Thread)
        requires
            self.inv(),
            0 <= t < self.threads.len(),
            record.linked == self.threads[t].linked,
            record.rqindex == self.threads[t].rqindex,
            record.cpu == self.threads[t].cpu,
            record.spec_is_idle() == self.threads[t].spec_is_idle(),
            record.spec_counts() == self.threads[t].spec_counts(),
            record.flags.no_migrate == self.threads[t].flags.no_migrate,
            nice_in_range(record.nice),
            record.state == self.threads[t].state || (!record.linked && (self.is_current(
                t as usize,
            ) ==> record.state == ThreadState::Running || record.state == ThreadState::Blocked)),
            record.park_state == ParkState::Parked ==> record.state == ThreadState::Blocked
                && !record.spec_is_idle(),
        ensures
            self.with_thread(t, record).inv(),
    {
        let after = self.with_thread(t, record);
        assert forall|i: int|
            #![trigger after.threads[i]]
            0 <= i < self.threads.len() implies self.thread_ok(i) && self.cpu_ok(
            self.threads[i].cpu as int,
        ) by {
            assert(self.thread_ok(i));
        }
        self.lemma_benign(after);
    }

    /// The scheduler with thread `t`, now described by `record`, queued and
    /// counted on the CPU that `record` names.
    pub open spec fn placed(self, t: int, record: Thread, kind: EnqueueKind) -> SchedModel {
        let c = record.cpu as int;
        SchedModel {
            cpus: self.cpus.update(c, self.cpus[c].adopted(t as usize, record, kind)),
            threads: self.threads.update(
                t,
                record.ready_in(self.cpus[c].bucket_for(record.priority, kind)),
            ),
            ..self
        }
    }

    /// Queueing a thread that neither runs nor waits keeps the scheduler
    /// consistent.
    pub proof fn lemma_placed(self, t: int, record: Thread, kind: EnqueueKind)
        requires
            self.inv(),
            0 <= t < self.threads.len(),
            !self.threads[t].linked,
            !self.is_current(t as usize),
            !record.linked,
            record.cpu < self.cpus.len(),
            !record.spec_is_idle(),
            !self.threads[t].spec_is_idle(),
            nice_in_range(record.nice),
            record.park_state != ParkState::Parked,
        ensures
            self.placed(t, record, kind).inv(),
    {
        let after = self.placed(t, record, kind);
        let c = record.cpu as int;
        let n = self.threads.len();
        let cpu = self.cpus[c];
        assert(self.cpu_ok(c));
        self.lemma_capacity(t, c);
        let bucket = cpu.bucket_for(record.priority, kind) as int;
        let front = kind == EnqueueKind::Preempted;
        assert(!cpu.buckets[bucket].contains(t as usize));
        lemma_with_queued(cpu.buckets, bucket, t as usize, front);
        let ready = after.threads[t];
        assert forall|k: int| 0 <= k < after.cpus.len() implies #[trigger] after.cpu_ok(k) by {
            assert(self.cpu_ok(k));
            let was = self.cpus[k];
            let new = after.cpus[k];
            assert forall|b: int, x: usize|
                0 <= b < BUCKETS && #[trigger] new.buckets[b].contains(x) implies x
                < after.threads.len() && after.threads[x as int].linked
                && after.threads[x as int].rqindex == b && after.threads[x as int].cpu == k by {
                if x != t {
                    assert(was.buckets[b].contains(x));
                } else if k != c {
                    assert(was.buckets[b].contains(x));
                    assert(self.threads[t].linked);
                }
            }
            assert forall|b: int| 0 <= b < BUCKETS implies (
            #[trigger] new.buckets[b]).no_duplicates() by {
                assert(was.buckets[b].no_duplicates());
            }
            let p = loaded_on(self.threads, was, k);
            let q = loaded_on(after.threads, new, k);
            let pl = linked_on(self.threads, k);
            let ql = linked_on(after.threads, k);
            assert(new.current == was.current && new.unwinding == was.unwinding);
            assert(!pl(t));
            assert(!p(t)) by {
                if self.threads[t].cpu == k {
                    assert(was.current != Some(t as usize));
                }
            }
            assert forall|i: int| 0 <= i < n && i != t implies #[trigger] ql(i) == pl(i) by {}
            assert forall|i: int| 0 <= i < n && i != t implies #[trigger] q(i) == p(i) by {}
            if k == c {
                assert(ql(t));
                lemma_count_flip(n, ql, pl, t);
                if record.spec_counts() {
                    assert(q(t));
                    lemma_count_flip(n, q, p, t);
                } else {
                    assert(q(t) == p(t));
                    lemma_count_same(n, q, p);
                }
            } else {
                assert(ql(t) == pl(t));
                assert(q(t) == p(t));
                lemma_count_same(n, ql, pl);
                lemma_count_same(n, q, p);
            }
        }
        assert forall|i: int| 0 <= i < after.threads.len() implies #[trigger] after.thread_ok(i) by {
            assert(self.thread_ok(i));
            let new = after.threads[i];
            let home = new.cpu as int;
            if i == t {
                assert(after.cpus[c].buckets[bucket].contains(t as usize));
            } else if new.linked {
                assert(self.cpus[home].buckets[new.rqindex as int].contains(i as usize));
                assert(after.cpus[home].buckets[new.rqindex as int].contains(i as usize));
            }
        }
    }

    /// The scheduler with a queued thread taken off its CPU.
    pub open spec fn unplaced(self, t: int) -> SchedModel {
        let record = self.threads[t];
        let c = record.cpu as int;
        SchedModel {
            cpus: self.cpus.update(c, self.cpus[c].dequeued(t as usize, record).released(record)),
            threads: self.threads.update(t, record.unlinked()),
            ..self
        }
    }

    /// Taking a queued thread off its CPU keeps the scheduler consistent.
    pub proof fn lemma_unplaced(self, t: int)
        requires
            self.inv(),
            0 <= t < self.threads.len(),
            self.threads[t].linked,
        ensures
            self.unplaced(t).inv(),
            !self.unplaced(t).is_current(t as usize),
            !self.is_current(t as usize),
            self.cpus[self.threads[t].cpu as int].buckets[self.threads[t].rqindex as int].contains(
                t as usize,
            ),
    {
        let after = self.unplaced(t);
        let record = self.threads[t];
        let c = record.cpu as int;
        let n = self.threads.len();
        let cpu = self.cpus[c];
        assert(self.thread_ok(t));
        assert(self.cpu_ok(c));
        let bucket = record.rqindex as int;
        assert(cpu.buckets[bucket].no_duplicates());
        lemma_without_queued(cpu.buckets, bucket, t as usize);
        let buckets = without_queued(cpu.buckets, bucket, t as usize);
        lemma_next_pick(buckets, cpu.pick as int, cpu.insert as int);
        lemma_next_pick(buckets, (cpu.pick + 1) % (PRI_BATCH_RANGE as int), cpu.insert as int);
        assert forall|k: int| 0 <= k < after.cpus.len() implies #[trigger] after.cpu_ok(k) by {
            assert(self.cpu_ok(k));
            let was = self.cpus[k];
            let new = after.cpus[k];
            assert forall|b: int, x: usize|
                0 <= b < BUCKETS && #[trigger] new.buckets[b].contains(x) implies x
                < after.threads.len() && after.threads[x as int].linked
                && after.threads[x as int].rqindex == b && after.threads[x as int].cpu == k by {
                assert(was.buckets[b].contains(x));
            }
            assert forall|b: int| 0 <= b < BUCKETS implies (
            #[trigger] new.buckets[b]).no_duplicates() by {
                assert(was.buckets[b].no_duplicates());
            }
            let p = loaded_on(self.threads, was, k);
            let q = loaded_on(after.threads, new, k);
            let pl = linked_on(self.threads, k);
            let ql = linked_on(after.threads, k);
            assert(!ql(t));
            assert(!q(t)) by {
                if k == c {
                    assert(was.current != Some(t as usize));
                }
            }
            assert forall|i: int| 0 <= i < n && i != t implies #[trigger] pl(i) == ql(i) by {}
            assert forall|i: int| 0 <= i < n && i != t implies #[trigger] p(i) == q(i) by {}
            if k == c {
                assert(pl(t));
                lemma_count_flip(n, pl, ql, t);
                if record.spec_counts() {
                    assert(p(t));
                    lemma_count_flip(n, p, q, t);
                } else {
                    assert(p(t) == q(t));
                    lemma_count_same(n, p, q);
                }
            } else {
                assert(pl(t) == ql(t));
                assert(p(t) == q(t));
                lemma_count_same(n, pl, ql);
                lemma_count_same(n, p, q);
            }
        }
        assert forall|i: int| 0 <= i < after.threads.len() implies #[trigger] after.thread_ok(i) by {
            assert(self.thread_ok(i));
            let new = after.threads[i];
            let home = new.cpu as int;
            if new.linked {
                assert(self.cpus[home].buckets[new.rqindex as int].contains(i as usize));
                assert(after.cpus[home].buckets[new.rqindex as int].contains(i as usize));
            }
        }
    }
}

impl SchedModel {
    /// Nothing about a CPU's load changes when a current thread that is not
    /// counted stops being current.
    pub proof fn lemma_vacate(self, c: int)
        requires
            self.inv(),
            0 <= c < self.cpus.len(),
            self.cpus[c].current matches Some(t) ==> !self.threads[t as int].spec_counts()
                || self.cpus[c].unwinding == Some(t),
        ensures
            self.vacated(c).inv(),
    {
        let after = self.vacated(c);
        let n = self.threads.len();
        assert forall|k: int| 0 <= k < after.cpus.len() implies #[trigger] after.cpu_ok(k) by {
            assert(self.cpu_ok(k));
            let p = loaded_on(self.threads, self.cpus[k], k);
            let q = loaded_on(after.threads, after.cpus[k], k);
            assert forall|t: int| 0 <= t < n implies #[trigger] p(t) == q(t) by {}
            lemma_count_same(n, p, q);
        }
        assert forall|t: int| 0 <= t < after.threads.len() implies #[trigger] after.thread_ok(t) by {
            assert(self.thread_ok(t));
        }
    }

    /// A thread that is not queued can be named as current while it leaves.
    pub proof fn lemma_leaving(self, c: int)
        requires
            self.vacated(c).inv(),
            0 <= c < self.cpus.len(),
            self.cpus[c].current matches Some(t) && self.cpus[c].unwinding == Some(t) && t
                < self.threads.len() && self.threads[t as int].cpu == c
                && !self.threads[t as int].linked && (self.threads[t as int].state
                == ThreadState::Running || self.threads[t as int].state == ThreadState::Blocked),
        ensures
            self.inv(),
    {
        let before = self.vacated(c);
        let n = self.threads.len();
        assert(self.cpus.len() == before.cpus.len());
        assert forall|k: int| 0 <= k < self.cpus.len() implies #[trigger] self.cpu_ok(k) by {
            assert(before.cpu_ok(k));
            let p = loaded_on(before.threads, before.cpus[k], k);
            let q = loaded_on(self.threads, self.cpus[k], k);
            assert forall|t: int| 0 <= t < n implies #[trigger] p(t) == q(t) by {}
            lemma_count_same(n, p, q);
        }
        assert forall|t: int| 0 <= t < self.threads.len() implies #[trigger] self.thread_ok(t) by {
            assert(before.thread_ok(t));
        }
    }

    /// A running thread can go back to the queue of its CPU.
    pub proof fn lemma_requeued(self, c: int, record: Thread, kind: EnqueueKind)
        requires
            self.inv(),
            0 <= c < self.cpus.len(),
            self.cpus[c].current matches Some(t) && self.cpus[c].unwinding != Some(t)
                && !self.threads[t as int].spec_is_idle() && record.cpu == c && !record.linked
                && record.spec_counts() == self.threads[t as int].spec_counts()
                && !record.spec_is_idle() && nice_in_range(record.nice) && record.park_state
                != ParkState::Parked,
        ensures
            ({
                let t = self.cpus[c].current->0;
                let after = self.with_cpu(c, self.cpus[c].queued(t, record, kind)).with_thread(
                    t as int,
                    record.ready_in(self.cpus[c].bucket_for(record.priority, kind)),
                );
                after.vacated(c).inv()
            }),
            queued_total(self.cpus[c].buckets) < usize::MAX,
            queued_total(self.cpus[c].queued(self.cpus[c].current->0, record, kind).buckets) > 0,
    {
        let t = self.cpus[c].current->0 as int;
        let cpu = self.cpus[c];
        let n = self.threads.len();
        let bucket = cpu.bucket_for(record.priority, kind) as int;
        let front = kind == EnqueueKind::Preempted;
        let after = self.with_cpu(c, cpu.queued(t as usize, record, kind)).with_thread(
            t,
            record.ready_in(bucket as u8),
        ).vacated(c);
        assert(self.cpu_ok(c));
        assert(!cpu.buckets[bucket].contains(t as usize));
        lemma_with_queued(cpu.buckets, bucket, t as usize, front);
        lemma_count_bound(n, linked_on(self.threads, c));
        assert forall|k: int| 0 <= k < after.cpus.len() implies #[trigger] after.cpu_ok(k) by {
            assert(self.cpu_ok(k));
            let was = self.cpus[k];
            let new = after.cpus[k];
            assert forall|b: int, x: usize|
                0 <= b < BUCKETS && #[trigger] new.buckets[b].contains(x) implies x
                < after.threads.len() && after.threads[x as int].linked
                && after.threads[x as int].rqindex == b && after.threads[x as int].cpu == k by {
                if x != t {
                    assert(was.buckets[b].contains(x));
                } else if k != c {
                    assert(was.buckets[b].contains(x));
                    assert(self.threads[t].linked);
                }
            }
            assert forall|b: int| 0 <= b < BUCKETS implies (
            #[trigger] new.buckets[b]).no_duplicates() by {
                assert(was.buckets[b].no_duplicates());
            }
            let p = loaded_on(self.threads, was, k);
            let q = loaded_on(after.threads, new, k);
            let pl = linked_on(self.threads, k);
            let ql = linked_on(after.threads, k);
            assert(!pl(t));
            assert forall|i: int| 0 <= i < n && i != t implies #[trigger] ql(i) == pl(i) by {}
            assert forall|i: int| 0 <= i < n implies #[trigger] q(i) == p(i) by {
                if k == c && i != t {
                    assert(was.current != Some(i as usize));
                }
            }
            lemma_count_same(n, q, p);
            if k == c {
                assert(ql(t));
                lemma_count_flip(n, ql, pl, t);
            } else {
                assert(ql(t) == pl(t));
                lemma_count_same(n, ql, pl);
            }
        }
        assert forall|i: int| 0 <= i < after.threads.len() implies #[trigger] after.thread_ok(i) by {
            assert(self.thread_ok(i));
            let new = after.threads[i];
            let home = new.cpu as int;
            if i == t {
                assert(after.cpus[c].buckets[bucket].contains(t as usize));
            } else if new.linked {
                assert(self.cpus[home].buckets[new.rqindex as int].contains(i as usize));
                assert(after.cpus[home].buckets[new.rqindex as int].contains(i as usize));
            }
        }
    }

    /// A current thread can give up its CPU without being queued.
    pub proof fn lemma_departed(self, c: int, record: Thread)
        requires
            self.inv(),
            0 <= c < self.cpus.len(),
            self.cpus[c].current matches Some(t) && self.cpus[c].unwinding != Some(t)
                && record.cpu == c && !record.linked && record.flags == self.threads[t as int].flags
                && nice_in_range(record.nice) && (record.park_state == ParkState::Parked
                ==> record.state == ThreadState::Blocked && !record.spec_is_idle()),
        ensures
            ({
                let t = self.cpus[c].current->0;
                let after = self.with_cpu(c, self.cpus[c].released(record)).with_thread(
                    t as int,
                    record,
                );
                after.vacated(c).inv()
            }),
    {
        let t = self.cpus[c].current->0 as int;
        let cpu = self.cpus[c];
        let n = self.threads.len();
        let after = self.with_cpu(c, cpu.released(record)).with_thread(t, record).vacated(c);
        assert(self.cpu_ok(c));
        assert forall|k: int| 0 <= k < after.cpus.len() implies #[trigger] after.cpu_ok(k) by {
            assert(self.cpu_ok(k));
            let was = self.cpus[k];
            let new = after.cpus[k];
            assert forall|b: int, x: usize|
                0 <= b < BUCKETS && #[trigger] new.buckets[b].contains(x) implies x
                < after.threads.len() && after.threads[x as int].linked
                && after.threads[x as int].rqindex == b && after.threads[x as int].cpu == k by {
                assert(was.buckets[b].contains(x));
            }
            let p = loaded_on(self.threads, was, k);
            let q = loaded_on(after.threads, new, k);
            let pl = linked_on(self.threads, k);
            let ql = linked_on(after.threads, k);
            assert forall|i: int| 0 <= i < n implies #[trigger] pl(i) == ql(i) by {}
            lemma_count_same(n, pl, ql);
            assert forall|i: int| 0 <= i < n && i != t implies #[trigger] p(i) == q(i) by {
                if k == c {
                    assert(was.current != Some(i as usize));
                }
            }
            assert(!q(t));
            if k == c && record.spec_counts() {
                assert(p(t));
                lemma_count_flip(n, p, q, t);
            } else {
                assert(p(t) == q(t));
                lemma_count_same(n, p, q);
            }
        }
        assert forall|i: int| 0 <= i < after.threads.len() implies #[trigger] after.thread_ok(i) by {
            assert(self.thread_ok(i));
        }
    }

    /// The scheduler after CPU `c` switched to its next thread.
    pub open spec fn switched_on(self, c: int, now_ns: u64) -> SchedModel {
        let (cpu, threads) = self.cpus[c].switched(self.threads, c as usize, now_ns);
        self.with_cpu(c, cpu).with_threads(threads)
    }

    /// Switching keeps the scheduler consistent: the thread picked leaves its
    /// queue and becomes current, and still counts towards load.
    pub proof fn lemma_switched(self, c: int, now_ns: u64)
        requires
            self.vacated(c).inv(),
            0 <= c < self.cpus.len(),
            self.cpus[c].idle.is_some(),
        ensures
            self.switched_on(c, now_ns).inv(),
            ({
                let next = self.cpus[c].next_thread();
                &&& next < self.threads.len()
                &&& self.switched_on(c, now_ns).cpus[c].current == Some(next)
                &&& self.switched_on(c, now_ns).cpus[c].unwinding != Some(next)
                &&& !self.threads[next as int].spec_is_idle() ==> self.cpus[c].best().is_some()
                    && self.cpus[c].buckets[self.threads[next as int].rqindex as int].contains(
                    next,
                )
                &&& self.cpus[c].best().is_some() ==> !self.threads[next as int].spec_is_idle()
                    && self.threads[next as int].linked
            }),
    {
        let before = self.vacated(c);
        let after = self.switched_on(c, now_ns);
        let cpu = self.cpus[c];
        let n = self.threads.len();
        assert(before.cpu_ok(c));
        before.lemma_names(c);
        lemma_best_is_queued(cpu);
        let next = cpu.next_thread();
        let t = next as int;
        if let Some(best) = cpu.best() {
            let b = choose|b: int|
                0 <= b < BUCKETS && cpu.buckets[b].len() > 0 && #[trigger] cpu.buckets[b][0]
                    == best;
            assert(before.cpus[c].buckets[b].contains(best));
        }
        assert(before.thread_ok(t));
        let record = self.threads[t];
        let queued = cpu.best().is_some();
        let bucket = record.rqindex as int;
        let buckets = without_queued(cpu.buckets, bucket, next);
        if queued {
            assert(before.cpus[c].buckets[bucket].contains(next));
            assert(before.cpus[c].buckets[bucket].no_duplicates());
            lemma_without_queued(cpu.buckets, bucket, next);
            lemma_next_pick(buckets, cpu.pick as int, cpu.insert as int);
            lemma_next_pick(buckets, (cpu.pick + 1) % (PRI_BATCH_RANGE as int), cpu.insert as int);
        }
        assert forall|k: int| 0 <= k < after.cpus.len() implies #[trigger] after.cpu_ok(k) by {
            assert(before.cpu_ok(k));
            let was = before.cpus[k];
            let new = after.cpus[k];
            assert forall|b: int, x: usize|
                0 <= b < BUCKETS && #[trigger] new.buckets[b].contains(x) implies x
                < after.threads.len() && after.threads[x as int].linked
                && after.threads[x as int].rqindex == b && after.threads[x as int].cpu == k by {
                assert(was.buckets[b].contains(x));
                if x == next {
                    assert(queued);
                }
            }
            assert forall|b: int| 0 <= b < BUCKETS implies (
            #[trigger] new.buckets[b]).no_duplicates() by {
                assert(was.buckets[b].no_duplicates());
            }
            let p = loaded_on(before.threads, was, k);
            let q = loaded_on(after.threads, new, k);
            let pl = linked_on(before.threads, k);
            let ql = linked_on(after.threads, k);
            assert forall|i: int| 0 <= i < n implies #[trigger] p(i) == q(i) by {
                if k != c && i == t {
                    assert(before.threads[t].cpu == c);
                }
            }
            lemma_count_same(n, p, q);
            assert forall|i: int| 0 <= i < n && i != t implies #[trigger] pl(i) == ql(i) by {}
            if k == c && queued {
                assert(pl(t) && !ql(t));
                lemma_count_flip(n, pl, ql, t);
            } else {
                assert(pl(t) == ql(t));
                lemma_count_same(n, pl, ql);
            }
        }
        assert forall|i: int| 0 <= i < after.threads.len() implies #[trigger] after.thread_ok(i) by {
            assert(before.thread_ok(i));
            let new = after.threads[i];
            let home = new.cpu as int;
            if new.linked {
                assert(before.cpus[home].buckets[new.rqindex as int].contains(i as usize));
                assert(after.cpus[home].buckets[new.rqindex as int].contains(i as usize));
            }
        }
    }
}

/// Online CPU with the least load among the first `n`, and that load;
/// `start` and `usize::MAX` where none is online.
pub open spec fn least_loaded(cpus: Seq<CpuModel>, n: nat, start: usize) -> (usize, usize)
    decreases n,
{
    if n == 0 {
        (start, usize::MAX)
    } else {
        let (id, load) = least_loaded(cpus, (n - 1) as nat, start);
        if cpus[n - 1].online && cpus[n - 1].load < load {
            ((n - 1) as usize, cpus[n - 1].load)
        } else {
            (id, load)
        }
    }
}

/// Load of `cpu` as seen in a survey; offline CPUs look fully loaded.
pub open spec fn surveyed_load(cpus: Seq<CpuModel>, cpu: usize) -> usize {
    if cpu < cpus.len() && cpus[cpu as int].online {
        cpus[cpu as int].load
    } else {
        usize::MAX
    }
}

/// Online CPU other than `dst` with the greatest load of at least `min_load`
/// among the first `n`.
pub open spec fn steal_source(cpus: Seq<CpuModel>, dst: usize, min_load: usize, n: nat) -> Option<
    usize,
>
    decreases n,
{
    if n == 0 {
        None
    } else {
        let best = steal_source(cpus, dst, min_load, (n - 1) as nat);
        let cpu = cpus[n - 1];
        let floor = match best {
            Some(id) => cpus[id as int].load as int,
            None => minus_or_zero(min_load as int, 1),
        };
        if n - 1 != dst && cpu.online && cpu.load >= min_load && cpu.load > floor {
            Some((n - 1) as usize)
        } else {
            best
        }
    }
}

/// Busiest online CPU with any load among the first `n`.
pub open spec fn busiest(cpus: Seq<CpuModel>, n: nat) -> Option<usize>
    decreases n,
{
    if n == 0 {
        None
    } else {
        let best = busiest(cpus, (n - 1) as nat);
        let cpu = cpus[n - 1];
        let floor = match best {
            Some(id) => cpus[id as int].load as int,
            None => 0,
        };
        if cpu.online && cpu.load > floor {
            Some((n - 1) as usize)
        } else {
            best
        }
    }
}

/// Idlest online CPU among the first `n`.
pub open spec fn idlest(cpus: Seq<CpuModel>, n: nat) -> Option<usize>
    decreases n,
{
    if n == 0 {
        None
    } else {
        let best = idlest(cpus, (n - 1) as nat);
        let cpu = cpus[n - 1];
        let ceiling = match best {
            Some(id) => cpus[id as int].load,
            None => usize::MAX,
        };
        if cpu.online && cpu.load < ceiling {
            Some((n - 1) as usize)
        } else {
            best
        }
    }
}

/// First online CPU with no load, other than `from`, at or after `at`.
pub open spec fn first_unloaded(cpus: Seq<CpuModel>, from: usize, at: int) -> Option<usize>
    decreases cpus.len() - at,
{
    if at >= cpus.len() {
        None
    } else if at != from && cpus[at].online && cpus[at].load == 0 {
        Some(at as usize)
    } else {
        first_unloaded(cpus, from, at + 1)
    }
}

/// What a trap return ends in.
#[derive(Copy, Clone, Debug, PartialEq, Eq, Structural)]
pub struct TrapOutcome {
    /// Thread whose frame is resumed; `None` resumes the interrupted frame of
    /// a CPU that runs no thread.
    pub thread: Option<usize>,
    /// Deadline to program, if any is to be programmed.
    pub deadline_ns: Option<u64>,
    /// Kick that moving a thread here asks for.
    pub kick: Option<Kick>,
    /// Idle CPU to nudge because this one has a backlog.
    pub nudge: Option<usize>,
}

impl SchedModel {
    /// CPU on which a thread created on `this_cpu` starts.
    pub open spec fn spawn_cpu(self, this_cpu: Option<usize>) -> usize {
        let preferred = match this_cpu {
            Some(cpu) => cpu,
            None => 0,
        };
        let (best, best_load) = least_loaded(self.cpus, self.cpus.len(), 0);
        if self.cpus.len() == 1 {
            0
        } else if surveyed_load(self.cpus, preferred) <= best_load + 1 || best_load
            == usize::MAX {
            preferred
        } else {
            best
        }
    }

    /// CPU on which a woken thread runs; `online` tells which CPUs completed
    /// bring-up.
    pub open spec fn wake_cpu_for(
        self,
        record: Thread,
        wake_cpu: Option<usize>,
        now_ns: u64,
        online: spec_fn(int) -> bool,
    ) -> usize {
        let owner = record.cpu;
        let recent = minus_or_zero(now_ns as int, record.last_run_ns as int)
            <= SCHED_WAKE_AFFINITY_NS;
        let (best, best_load) = least_loaded(self.cpus, self.cpus.len(), owner);
        if self.cpus.len() == 1 || (!record.spec_can_migrate() && online(owner as int)) {
            owner
        } else if record.class == ThreadClass::Ithread && wake_cpu.is_some() && online(
            wake_cpu->0 as int,
        ) {
            wake_cpu->0
        } else if recent && self.cpus[owner as int].online && self.cpus[owner as int].available(
            self.threads,
        ) {
            owner
        } else if wake_cpu.is_some() && online(wake_cpu->0 as int) && surveyed_load(
            self.cpus,
            wake_cpu->0,
        ) != usize::MAX && surveyed_load(self.cpus, wake_cpu->0) <= best_load + 1 {
            wake_cpu->0
        } else {
            best
        }
    }

    /// The scheduler after a new thread was queued, and the kick it asks for.
    pub open spec fn started(self, t: usize, this_cpu: Option<usize>) -> (
        SchedModel,
        Option<Kick>,
    ) {
        let record = self.threads[t as int];
        let c = record.cpu;
        let had = queued_total(self.cpus[c as int].buckets) > 0;
        let placed = self.placed(t as int, record, EnqueueKind::Normal);
        let (cpu, kick) = placed.cpus[c as int].preempted_by(
            placed.threads,
            record.priority,
            this_cpu != Some(c),
        );
        (
            SchedModel {
                registry: self.registry.push(t),
                ..placed.with_cpu(c as int, cpu)
            },
            if !cpu.online {
                None
            } else {
                kick_for(c, kick, cpu.wants_deadline(placed.threads, had))
            },
        )
    }

    /// The scheduler after a sleeping thread was made runnable on `target`,
    /// and the kick it asks for.
    ///
    /// A thread that is still current on its CPU simply goes on running there,
    /// and one whose stack its CPU has not left yet is queued there, whatever
    /// the target.
    pub open spec fn resumed(
        self,
        t: usize,
        now_ns: u64,
        wake_cpu: Option<usize>,
        target: usize,
    ) -> (SchedModel, Option<Kick>) {
        let owner = self.threads[t as int].cpu;
        let home = self.cpus[owner as int];
        let (woken, latency) = wakeup_finished(self.threads[t as int], now_ns);
        if home.current == Some(t) {
            let threads = self.threads.update(t as int, woken.running_on(owner, now_ns));
            let calm = CpuModel { need_resched: false, ..home };
            let (cpu, kick) = match calm.best() {
                Some(best) => calm.preempted_by(
                    threads,
                    threads[best as int].priority,
                    wake_cpu != Some(owner),
                ),
                None => (calm, false),
            };
            let had = owner == target && queued_total(home.buckets) > 0;
            (
                self.with_threads(threads).with_cpu(owner as int, cpu),
                kick_for(
                    owner,
                    kick || wake_cpu != Some(owner),
                    cpu.wants_deadline(threads, had),
                ),
            )
        } else {
            let stays = owner != target && home.unwinding == Some(t);
            let c = if stays {
                owner
            } else {
                target
            };
            let had = queued_total(self.cpus[c as int].buckets) > 0;
            let record = Thread { cpu: c, ..woken };
            let placed = self.placed(t as int, record, EnqueueKind::Normal);
            let (cpu, kick) = placed.cpus[c as int].preempted_by_wakeup(
                placed.threads,
                placed.threads[t as int],
                latency,
                wake_cpu != Some(c),
            );
            (
                placed.with_cpu(c as int, cpu),
                kick_for(
                    c,
                    kick || (stays && wake_cpu != Some(c)),
                    cpu.wants_deadline(placed.threads, had),
                ),
            )
        }
    }

    /// The scheduler after a wake of thread `t` with `seq`, whether the wake
    /// reached the sleeper, and the kick it asks for.
    pub open spec fn woken(
        self,
        t: usize,
        seq: u64,
        now_ns: u64,
        wake_cpu: Option<usize>,
        online: spec_fn(int) -> bool,
    ) -> (SchedModel, bool, Option<Kick>) {
        let record = self.threads[t as int];
        let touched = self.with_thread(t as int, record.after_wake(seq));
        match record.spec_wake_result(seq) {
            WakeResult::Stale => (self, false, None),
            WakeResult::Pending => (touched, true, None),
            WakeResult::Parked => {
                let target = touched.wake_cpu_for(
                    touched.threads[t as int],
                    wake_cpu,
                    now_ns,
                    online,
                );
                let (after, kick) = touched.resumed(t, now_ns, wake_cpu, target);
                (after, true, kick)
            },
        }
    }

    /// The scheduler after an attempt to move a thread from `src` to `dst`,
    /// whether one moved, and the kick it asks for.
    pub open spec fn transferred(
        self,
        src: usize,
        dst: usize,
        require_idle_dst: bool,
        this_cpu: Option<usize>,
    ) -> (SchedModel, bool, Option<Kick>) {
        let from = self.cpus[src as int];
        let to = self.cpus[dst as int];
        if !from.online || !to.online || from.load <= to.load + 1 || (require_idle_dst
            && !to.available(self.threads)) || from.steal(self.threads).is_none() {
            (self, false, None)
        } else {
            let t = from.steal(self.threads)->0;
            let had = queued_total(to.buckets) > 0;
            let record = Thread { cpu: dst, ..self.threads[t as int].unlinked() };
            let placed = self.unplaced(t as int).placed(t as int, record, EnqueueKind::Normal);
            let (cpu, kick) = placed.cpus[dst as int].preempted_by(
                placed.threads,
                record.priority,
                this_cpu != Some(dst),
            );
            (
                placed.with_cpu(dst as int, cpu),
                true,
                kick_for(dst, kick, cpu.wants_deadline(placed.threads, had)),
            )
        }
    }

    /// The scheduler after CPU `dst` looked for a thread to take over.
    pub open spec fn stolen(self, dst: usize, require_idle_dst: bool, this_cpu: Option<usize>) -> (
        SchedModel,
        bool,
        Option<Kick>,
    ) {
        let to = self.cpus[dst as int];
        let busy = if require_idle_dst {
            !to.available(self.threads)
        } else {
            queued_total(to.buckets) > 0
        };
        let least = max_int(to.load as int, SCHED_STEAL_THRESHOLD as int) as usize;
        let source = steal_source(self.cpus, dst, least, self.cpus.len());
        if self.cpus.len() == 1 || !to.online || busy || source.is_none() {
            (self, false, None)
        } else {
            self.transferred(source->0, dst, require_idle_dst, this_cpu)
        }
    }

    /// The scheduler after one balancing pass.
    pub open spec fn rebalanced(self, this_cpu: Option<usize>) -> (SchedModel, bool, Option<Kick>) {
        let src = busiest(self.cpus, self.cpus.len());
        let dst = idlest(self.cpus, self.cpus.len());
        if self.cpus.len() == 1 || src.is_none() || dst.is_none() || src == dst
            || self.cpus[src->0 as int].load <= self.cpus[dst->0 as int].load + 1 {
            (self, false, None)
        } else {
            self.transferred(src->0, dst->0, false, this_cpu)
        }
    }

    /// Idle CPU to nudge because CPU `from` has a backlog.
    pub open spec fn idle_to_nudge(self, from: usize) -> Option<usize> {
        if self.cpus.len() == 1 || self.cpus[from as int].load < SCHED_STEAL_THRESHOLD {
            None
        } else {
            first_unloaded(self.cpus, from, 0)
        }
    }

    /// The scheduler after the current thread of CPU `c` was dealt with before
    /// a switch: a running thread is queued, a blocked one stops counting.
    pub open spec fn stepped_aside(self, c: int) -> SchedModel {
        let t = self.cpus[c].current->0;
        let record = self.threads[t as int];
        if record.state == ThreadState::Running && !record.spec_is_idle() {
            let kind = if record.flags.sliceend {
                EnqueueKind::Normal
            } else {
                EnqueueKind::Preempted
            };
            let rested = Thread {
                flags: ThreadFlags { sliceend: false, ..record.flags },
                ..record
            };
            self.with_cpu(c, self.cpus[c].queued(t, rested, kind)).with_thread(
                t as int,
                rested.ready_in(self.cpus[c].bucket_for(rested.priority, kind)),
            )
        } else if record.state == ThreadState::Blocked {
            self.with_cpu(c, self.cpus[c].released(record))
        } else {
            self
        }
    }

    /// The scheduler after the time of the current thread of CPU `c`, which
    /// was interrupted at `frame`, was accounted.
    pub open spec fn interrupted(self, c: int, frame: u64, now_ns: u64) -> SchedModel {
        let t = self.cpus[c].current->0;
        let framed = self.with_thread(t as int, Thread { frame, ..self.threads[t as int] });
        let (cpu, threads) = framed.cpus[c].accounted(framed.threads, now_ns);
        framed.with_cpu(c, cpu).with_threads(threads)
    }

    /// Whether CPU `c` leaves its current thread.
    pub open spec fn must_switch(self, c: int) -> bool {
        let cpu = self.cpus[c];
        let record = self.threads[cpu.current->0 as int];
        record.state != ThreadState::Running || cpu.need_resched || (record.spec_is_idle()
            && queued_total(cpu.buckets) > 0)
    }

    /// The scheduler after CPU `c` returned from a trap that interrupted
    /// `frame`, and what follows from it.
    pub open spec fn trapped(self, c: usize, frame: u64, now_ns: u64) -> (SchedModel, TrapOutcome) {
        let k = c as int;
        let begun = self.with_cpu(k, self.cpus[k].exit_published());
        if begun.cpus[k].current.is_none() {
            (
                begun.with_cpu(k, CpuModel { unwinding: None, ..begun.cpus[k] }),
                TrapOutcome { thread: None, deadline_ns: None, kick: None, nudge: None },
            )
        } else {
            let current = begun.cpus[k].current->0;
            let charged = begun.interrupted(k, frame, now_ns);
            if !charged.must_switch(k) {
                let kept = charged.with_cpu(k, CpuModel { unwinding: None, ..charged.cpus[k] });
                let idle = kept.threads[current as int].spec_is_idle();
                let (pulled, moved, kick) = kept.stolen(c, true, Some(c));
                if idle && moved {
                    let after = pulled.switched_on(k, now_ns);
                    (
                        after,
                        TrapOutcome {
                            thread: after.cpus[k].current,
                            deadline_ns: Some(after.cpus[k].deadline(after.threads, now_ns)),
                            kick,
                            nudge: None,
                        },
                    )
                } else {
                    (
                        kept,
                        TrapOutcome {
                            thread: Some(current),
                            deadline_ns: Some(kept.cpus[k].deadline(kept.threads, now_ns)),
                            kick: None,
                            nudge: None,
                        },
                    )
                }
            } else {
                let asked = charged.with_cpu(
                    k,
                    CpuModel { need_resched: false, ..charged.cpus[k] },
                );
                let aside = asked.stepped_aside(k);
                if queued_total(aside.cpus[k].buckets) > 0 {
                    let after = aside.switched_on(k, now_ns);
                    (
                        after,
                        TrapOutcome {
                            thread: after.cpus[k].current,
                            deadline_ns: Some(after.cpus[k].deadline(after.threads, now_ns)),
                            kick: None,
                            nudge: after.idle_to_nudge(c),
                        },
                    )
                } else {
                    let leaving = aside.with_cpu(
                        k,
                        CpuModel { unwinding: Some(current), ..aside.cpus[k] },
                    );
                    let (supplied, moved, kick) = leaving.stolen(c, false, Some(c));
                    let after = supplied.switched_on(k, now_ns);
                    (
                        after,
                        TrapOutcome {
                            thread: after.cpus[k].current,
                            deadline_ns: Some(after.cpus[k].deadline(after.threads, now_ns)),
                            kick,
                            nudge: None,
                        },
                    )
                }
            }
        }
    }
}

/// A survey returns a CPU that exists, and no online CPU has less load.
pub proof fn lemma_least_loaded(cpus: Seq<CpuModel>, n: nat, start: usize)
    requires
        n <= cpus.len() <= usize::MAX,
    ensures
        ({
            let (id, load) = least_loaded(cpus, n, start);
            &&& load == usize::MAX ==> id == start
            &&& load != usize::MAX ==> id < n && cpus[id as int].online && cpus[id as int].load
                == load
            &&& forall|c: int|
                0 <= c < n && (#[trigger] cpus[c]).online ==> load <= cpus[c].load
        }),
    decreases n,
{
    if n > 0 {
        lemma_least_loaded(cpus, (n - 1) as nat, start);
    }
}

/// A steal source exists, is online, is not the destination and is loaded.
pub proof fn lemma_steal_source(cpus: Seq<CpuModel>, dst: usize, min_load: usize, n: nat)
    requires
        n <= cpus.len() <= usize::MAX,
    ensures
        match steal_source(cpus, dst, min_load, n) {
            Some(id) => id < n && id != dst && cpus[id as int].online && cpus[id as int].load
                >= min_load && forall|c: int|
                0 <= c < n && c != dst && (#[trigger] cpus[c]).online ==> cpus[c].load
                    <= cpus[id as int].load,
            None => forall|c: int|
                0 <= c < n && c != dst && (#[trigger] cpus[c]).online ==> cpus[c].load < min_load
                    || cpus[c].load == 0,
        },
    decreases n,
{
    if n > 0 {
        lemma_steal_source(cpus, dst, min_load, (n - 1) as nat);
    }
}

/// The busiest and idlest CPUs exist and bound every online load.
pub proof fn lemma_extremes(cpus: Seq<CpuModel>, n: nat)
    requires
        n <= cpus.len() <= usize::MAX,
    ensures
        match busiest(cpus, n) {
            Some(id) => id < n && cpus[id as int].online && forall|c: int|
                0 <= c < n && (#[trigger] cpus[c]).online ==> cpus[c].load <= cpus[id as int].load,
            None => forall|c: int|
                0 <= c < n && (#[trigger] cpus[c]).online ==> cpus[c].load == 0,
        },
        match idlest(cpus, n) {
            Some(id) => id < n && cpus[id as int].online && forall|c: int|
                0 <= c < n && (#[trigger] cpus[c]).online ==> cpus[c].load >= cpus[id as int].load,
            None => forall|c: int|
                0 <= c < n && (#[trigger] cpus[c]).online ==> cpus[c].load == usize::MAX,
        },
    decreases n,
{
    if n > 0 {
        lemma_extremes(cpus, (n - 1) as nat);
    }
}

/// A thread that may be taken from a CPU is queued there, may move, and is
/// neither current nor still on the CPU's stack.
pub proof fn lemma_steal(m: SchedModel, c: int)
    requires
        m.inv(),
        0 <= c < m.cpus.len(),
    ensures
        m.cpus[c].steal(m.threads) matches Some(t) ==> t < m.threads.len()
            && m.threads[t as int].linked && m.threads[t as int].cpu == c
            && m.threads[t as int].spec_can_migrate() && m.cpus[c].current != Some(t)
            && m.cpus[c].unwinding != Some(t) && !m.threads[t as int].spec_is_idle(),
{
    assert(m.cpu_ok(c));
    let cpu = m.cpus[c];
    let accept = stealable(m.threads, cpu.current, cpu.unwinding);
    let start = MIN_BATCH + cpu.pick;
    lemma_first_accepted(cpu.buckets, 0, 114, accept);
    lemma_first_accepted(cpu.buckets, start, 223, accept);
    lemma_first_accepted(cpu.buckets, MIN_BATCH as int, start - 1, accept);
    if let Some(t) = cpu.steal(m.threads) {
        let b = choose|b: int| 0 <= b < BUCKETS && (#[trigger] cpu.buckets[b]).contains(t);
        assert(cpu.buckets[b].contains(t));
        assert(m.thread_ok(t as int));
    }
}

impl SchedModel {
    /// The scheduler with a new thread record at the end of the table.
    pub open spec fn with_new_thread(self, record: Thread) -> SchedModel {
        SchedModel { threads: self.threads.push(record), ..self }
    }

    /// A fresh thread record keeps the scheduler consistent.
    pub proof fn lemma_new_thread(self, record: Thread)
        requires
            self.inv(),
            self.threads.len() + 1 < usize::MAX,
            !record.linked,
            record.cpu < self.cpus.len(),
            nice_in_range(record.nice),
            record.park_state != ParkState::Parked,
            record.spec_is_idle() ==> !record.spec_counts() && record.flags.no_migrate,
        ensures
            self.with_new_thread(record).inv(),
            !self.with_new_thread(record).is_current(self.threads.len() as usize),
    {
        let after = self.with_new_thread(record);
        let n = self.threads.len();
        assert forall|k: int| 0 <= k < after.cpus.len() implies #[trigger] after.cpu_ok(k) by {
            assert(self.cpu_ok(k));
            let cpu = self.cpus[k];
            let p = loaded_on(self.threads, cpu, k);
            let q = loaded_on(after.threads, cpu, k);
            assert forall|t: int| 0 <= t < n implies #[trigger] p(t) == q(t) by {}
            lemma_count_same(n, p, q);
            assert(!q(n as int));
            assert(count_where(n + 1, q) == count_where(n, q));
            let p = linked_on(self.threads, k);
            let q = linked_on(after.threads, k);
            assert forall|t: int| 0 <= t < n implies #[trigger] p(t) == q(t) by {}
            lemma_count_same(n, p, q);
            assert(!q(n as int));
            assert(count_where(n + 1, q) == count_where(n, q));
            assert forall|b: int, x: usize|
                0 <= b < BUCKETS && #[trigger] cpu.buckets[b].contains(x) implies x
                < after.threads.len() && after.threads[x as int].linked
                && after.threads[x as int].rqindex == b && after.threads[x as int].cpu == k by {}
        }
        assert forall|t: int| 0 <= t < after.threads.len() implies #[trigger] after.thread_ok(t) by {
            if t < n {
                assert(self.thread_ok(t));
            }
        }
        assert(self.cpu_ok(record.cpu as int));
    }

    /// A scheduler whose CPUs have nothing queued and which has no threads is
    /// consistent.
    pub proof fn lemma_fresh(self)
        requires
            1 <= self.cpus.len() <= usize::MAX,
            self.threads.len() == 0,
            forall|c: int|
                0 <= c < self.cpus.len() ==> {
                    let cpu = #[trigger] self.cpus[c];
                    &&& cpu.buckets == Seq::new(BUCKETS as nat, |i: int| Seq::<usize>::empty())
                    &&& cpu.current.is_none()
                    &&& cpu.idle.is_none()
                    &&& cpu.load == 0
                    &&& cpu.sysload == 0
                    &&& cpu.insert == 0
                    &&& cpu.pick == 0
                },
        ensures
            self.inv(),
    {
        assert forall|c: int| 0 <= c < self.cpus.len() implies #[trigger] self.cpu_ok(c) by {
            let cpu = self.cpus[c];
            lemma_total_empty(cpu.buckets, BUCKETS as nat);
        }
    }

    /// Naming a CPU's idle thread keeps the scheduler consistent.
    pub proof fn lemma_idle_named(self, c: int, t: usize)
        requires
            self.inv(),
            0 <= c < self.cpus.len(),
            t < self.threads.len(),
            self.threads[t as int].cpu == c,
            self.threads[t as int].spec_is_idle(),
        ensures
            self.with_cpu(c, CpuModel { idle: Some(t), ..self.cpus[c] }).inv(),
    {
        let after = self.with_cpu(c, CpuModel { idle: Some(t), ..self.cpus[c] });
        assert forall|k: int| 0 <= k < after.cpus.len() implies #[trigger] after.cpu_ok(k) by {
            assert(self.cpu_ok(k));
            assert(loaded_on(after.threads, after.cpus[k], k) =~= loaded_on(
                self.threads,
                self.cpus[k],
                k,
            ));
        }
        assert forall|i: int| 0 <= i < after.threads.len() implies #[trigger] after.thread_ok(i) by {
            assert(self.thread_ok(i));
        }
    }

    /// A queued thread that counts makes its CPU loaded.
    pub proof fn lemma_linked_load(self, t: int)
        requires
            self.inv(),
            0 <= t < self.threads.len(),
            self.threads[t].linked,
            self.threads[t].spec_counts(),
        ensures
            self.cpus[self.threads[t].cpu as int].load >= 1,
            self.cpus[self.threads[t].cpu as int].sysload >= 1,
    {
        let c = self.threads[t].cpu as int;
        assert(self.thread_ok(t));
        assert(self.cpu_ok(c));
        let p = loaded_on(self.threads, self.cpus[c], c);
        assert(p(t));
        lemma_count_positive(self.threads.len(), p);
    }

    /// The scheduler after CPU `c` came online and picked its first thread.
    pub open spec fn cpu_started(self, c: usize, now_ns: u64) -> SchedModel {
        let k = c as int;
        let online = self.with_cpu(k, CpuModel { online: true, ..self.cpus[k] });
        online.stolen(c, true, Some(c)).0.switched_on(k, now_ns)
    }

    /// The scheduler with the current thread of CPU `c` gone for good.
    pub open spec fn current_retired(self, c: usize) -> SchedModel {
        let k = c as int;
        let published = self.cpus[k].exit_published();
        let t = published.current->0;
        let record = Thread { state: ThreadState::Exited, ..self.threads[t as int] };
        self.with_thread(t as int, record).with_cpu(
            k,
            CpuModel {
                deferred_exit: Some(t),
                current: None,
                need_resched: false,
                ..published.released(record)
            },
        )
    }

    /// The scheduler after the current thread of CPU `c` exited and another
    /// one was picked.
    pub open spec fn current_exited(self, c: usize, now_ns: u64) -> SchedModel {
        self.current_retired(c).stolen(c, true, Some(c)).0.switched_on(c as int, now_ns)
    }

    /// The scheduler after thread `t` got a new record that may change its
    /// priority: a queued thread moves to the bucket that fits.
    pub open spec fn rerecorded(self, t: int, record: Thread) -> SchedModel {
        if self.threads[t].linked {
            self.unplaced(t).placed(t, record.unlinked(), EnqueueKind::Normal)
        } else {
            let c = record.cpu as int;
            let changed = self.with_thread(t, record);
            if self.cpus[c].current == Some(t as usize) {
                changed.with_cpu(c, CpuModel { need_resched: true, ..self.cpus[c] })
            } else {
                changed
            }
        }
    }

    /// The scheduler after thread `t` got nice value `nice`.
    pub open spec fn niced(self, t: int, nice: i8) -> SchedModel {
        let record = Thread { nice, ..self.threads[t] };
        if record.state == ThreadState::Exited {
            self.with_thread(t, record)
        } else {
            self.rerecorded(t, reprioritized(record))
        }
    }

    /// The scheduler after every thread of `pid` among `ids` got `nice`.
    pub open spec fn all_niced(self, ids: Seq<usize>, pid: usize, nice: i8) -> SchedModel
        decreases ids.len(),
    {
        if ids.len() == 0 {
            self
        } else {
            let before = self.all_niced(ids.drop_last(), pid, nice);
            let t = ids.last() as int;
            if before.threads[t].process == Some(pid) {
                before.niced(t, nice)
            } else {
                before
            }
        }
    }

    /// The scheduler after a priority was lent to or taken back from `t`.
    pub open spec fn boosted(self, t: int, boost: Option<u8>) -> SchedModel {
        if self.threads[t].state == ThreadState::Exited {
            self
        } else {
            self.rerecorded(t, boosted_record(self.threads[t], boost))
        }
    }

    /// The scheduler after exited thread `t` was reclaimed; `active` tells
    /// which page-table roots are still in use.
    pub open spec fn reclaimed(self, t: usize, active: spec_fn(u64) -> bool) -> SchedModel {
        let record = self.threads[t as int];
        let registry = self.registry.remove_value(t);
        match record.address_space {
            Some(root) if active(root) => SchedModel {
                threads: self.threads.update(t as int, Thread { address_space: None, ..record }),
                retired: self.retired.push(root),
                registry,
                ..self
            },
            _ => SchedModel { registry, ..self },
        }
    }

    /// The scheduler after all exited threads of CPU `c` were reclaimed.
    pub open spec fn reaped(self, c: int, active: spec_fn(u64) -> bool) -> SchedModel
        decreases self.cpus[c].exited.len(),
        when 0 <= c < self.cpus.len()
    {
        if self.cpus[c].exited.len() == 0 {
            self
        } else {
            let t = self.cpus[c].exited[0];
            let popped = self.with_cpu(
                c,
                CpuModel { exited: self.cpus[c].exited.remove(0), ..self.cpus[c] },
            );
            popped.reclaimed(t, active).reaped(c, active)
        }
    }

    /// The scheduler after the exited threads of the first `n` CPUs were
    /// reclaimed.
    pub open spec fn reaped_below(self, n: nat, active: spec_fn(u64) -> bool) -> SchedModel
        decreases n,
    {
        if n == 0 {
            self
        } else {
            self.reaped_below((n - 1) as nat, active).reaped(n - 1, active)
        }
    }
}

/// Retired roots with the inactive ones from `index` on replaced by the last
/// ones.
pub open spec fn still_active(
    retired: Seq<u64>,
    index: int,
    active: spec_fn(u64) -> bool,
) -> Seq<u64>
    decreases retired.len() - index,
    when 0 <= index
{
    if index >= retired.len() {
        retired
    } else if active(retired[index]) {
        still_active(retired, index + 1, active)
    } else {
        still_active(retired.update(index, retired.last()).drop_last(), index, active)
    }
}

/// A thread after a priority was lent to it or taken back.
pub open spec fn boosted_record(record: Thread, boost: Option<u8>) -> Thread {
    match boost {
        Some(priority) => Thread {
            boost_count: if record.boost_count == u32::MAX {
                u32::MAX
            } else {
                (record.boost_count + 1) as u32
            },
            lent_priority: if priority < record.lent_priority {
                priority
            } else {
                record.lent_priority
            },
            ..record
        },
        None => Thread {
            boost_count: minus_or_zero(record.boost_count as int, 1) as u32,
            lent_priority: if record.boost_count <= 1 {
                u8::MAX
            } else {
                record.lent_priority
            },
            ..record
        },
    }.refreshed()
}

/// While a priority is lent, the thread competes at least that well, and
/// taking the last loan back restores the thread.
pub proof fn law_boost_is_undone(record: Thread, priority: u8)
    requires
        record.boost_count == 0,
        record.lent_priority == u8::MAX,
        record.priority == record.spec_effective_priority(),
    ensures
        boosted_record(record, Some(priority)).priority <= priority,
        boosted_record(record, Some(priority)).priority <= record.priority,
        boosted_record(boosted_record(record, Some(priority)), None) == record,
{
}

/// The load of every CPU is the number of its runnable threads that count:
/// those queued there and the one that runs.
pub proof fn law_load_is_exact(m: SchedModel, c: int)
    requires
        m.inv(),
        m.settled(),
        0 <= c < m.cpus.len(),
    ensures
        m.cpus[c].load == count_where(
            m.threads.len(),
            |t: int|
                m.threads[t].cpu == c && m.threads[t].spec_counts() && (m.threads[t].linked
                    || m.cpus[c].current == Some(t as usize)),
        ),
{
    assert(m.cpu_ok(c));
    let p = loaded_on(m.threads, m.cpus[c], c);
    let q = |t: int|
        m.threads[t].cpu == c && m.threads[t].spec_counts() && (m.threads[t].linked
            || m.cpus[c].current == Some(t as usize));
    assert forall|t: int| 0 <= t < m.threads.len() implies #[trigger] p(t) == q(t) by {}
    lemma_count_same(m.threads.len(), p, q);
}

/// A thread is queued at most once, and only on the CPU that owns it.
pub proof fn law_thread_is_queued_once(
    m: SchedModel,
    c: int,
    b: int,
    i: int,
    d: int,
    e: int,
    j: int,
)
    requires
        m.inv(),
        0 <= c < m.cpus.len(),
        0 <= d < m.cpus.len(),
        0 <= b < BUCKETS,
        0 <= e < BUCKETS,
        0 <= i < m.cpus[c].buckets[b].len(),
        0 <= j < m.cpus[d].buckets[e].len(),
        m.cpus[c].buckets[b][i] == m.cpus[d].buckets[e][j],
    ensures
        c == d,
        b == e,
        i == j,
{
    assert(m.cpu_ok(c));
    assert(m.cpu_ok(d));
    let t = m.cpus[c].buckets[b][i];
    assert(m.cpus[c].buckets[b].contains(t));
    assert(m.cpus[d].buckets[e].contains(t));
    assert(m.cpus[c].buckets[b].no_duplicates());
}

/// Moving a thread keeps the total load of the two CPUs and never leaves the
/// destination with more load than the source.
pub proof fn law_transfer_evens_load(
    m: SchedModel,
    src: usize,
    dst: usize,
    require_idle_dst: bool,
    this_cpu: Option<usize>,
)
    requires
        m.inv(),
        src < m.cpus.len(),
        dst < m.cpus.len(),
        src != dst,
    ensures
        ({
            let after = m.transferred(src, dst, require_idle_dst, this_cpu).0;
            &&& after.cpus[src as int].load + after.cpus[dst as int].load
                == m.cpus[src as int].load + m.cpus[dst as int].load
            &&& m.transferred(src, dst, require_idle_dst, this_cpu).1
                ==> after.cpus[dst as int].load <= after.cpus[src as int].load
        }),
{
    lemma_steal(m, src as int);
    assert(m.cpu_ok(src as int));
    assert(m.cpu_ok(dst as int));
    lemma_count_bound(
        m.threads.len(),
        loaded_on(m.threads, m.cpus[dst as int], dst as int),
    );
    if let Some(t) = m.cpus[src as int].steal(m.threads) {
        if m.threads[t as int].spec_counts() {
            m.lemma_linked_load(t as int);
        }
    }
}

/// Moving a thread never touches one that runs or whose stack is in use.
pub proof fn law_transfer_leaves_running_threads(
    m: SchedModel,
    src: usize,
    dst: usize,
    require_idle_dst: bool,
    this_cpu: Option<usize>,
    t: usize,
)
    requires
        m.inv(),
        src < m.cpus.len(),
        dst < m.cpus.len(),
        src != dst,
        t < m.threads.len(),
        m.is_current(t) || (m.threads[t as int].cpu == src && m.cpus[src as int].unwinding
            == Some(t)),
    ensures
        m.transferred(src, dst, require_idle_dst, this_cpu).0.threads[t as int]
            == m.threads[t as int],
{
    lemma_steal(m, src as int);
    assert(m.thread_ok(t as int));
    assert(m.cpu_ok(m.threads[t as int].cpu as int));
}

/// A woken thread that is still current on its CPU, or whose stack that CPU
/// has not left yet, stays there: no kernel stack is used by two CPUs.
pub proof fn law_wake_keeps_stack_on_its_cpu(
    m: SchedModel,
    t: usize,
    now_ns: u64,
    wake_cpu: Option<usize>,
    target: usize,
)
    requires
        m.inv(),
        t < m.threads.len(),
        target < m.cpus.len(),
        m.is_current(t) || m.cpus[m.threads[t as int].cpu as int].unwinding == Some(t),
    ensures
        m.resumed(t, now_ns, wake_cpu, target).0.threads[t as int].cpu == m.threads[t as int].cpu,
{
}

/// A new thread starts on a CPU that no online CPU undercuts by more than one
/// thread.
pub proof fn law_spawn_is_balanced(m: SchedModel, this_cpu: Option<usize>, c: int)
    requires
        m.inv(),
        this_cpu matches Some(id) ==> id < m.cpus.len() && m.cpus[id as int].online,
        m.cpus[0].online,
        0 <= c < m.cpus.len(),
        m.cpus[c].online,
    ensures
        m.cpus[m.spawn_cpu(this_cpu) as int].online,
        m.cpus[m.spawn_cpu(this_cpu) as int].load <= m.cpus[c].load + 1,
{
    lemma_least_loaded(m.cpus, m.cpus.len(), 0);
    assert(m.cpu_ok(0));
    lemma_count_bound(m.threads.len(), loaded_on(m.threads, m.cpus[0], 0));
    assert(m.cpus[0].online);
}

/// The thread a CPU switches to is taken from the best occupied bucket among
/// the urgent ones, and idles only when nothing is queued.
pub proof fn law_next_thread_is_best(m: SchedModel, c: int, b: int)
    requires
        m.inv(),
        0 <= c < m.cpus.len(),
        m.cpus[c].idle.is_some(),
        0 <= b < BUCKETS,
        m.cpus[c].buckets[b].len() > 0,
    ensures
        ({
            let next = m.cpus[c].next_thread();
            &&& !m.threads[next as int].spec_is_idle()
            &&& b <= MAX_INTERACT ==> m.threads[next as int].rqindex <= b
        }),
{
    assert(m.cpu_ok(c));
    let cpu = m.cpus[c];
    lemma_best_is_queued(cpu);
    lemma_total_positive(cpu.buckets);
    assert(queued_total(cpu.buckets) > 0);
    let next = cpu.next_thread();
    let d = choose|d: int|
        0 <= d < BUCKETS && cpu.buckets[d].len() > 0 && #[trigger] cpu.buckets[d][0] == next;
    assert(cpu.buckets[d].contains(next));
    assert(m.thread_ok(next as int));
    lemma_first_occupied(cpu.buckets, 0, MAX_INTERACT as int);
    if b <= MAX_INTERACT {
        let first = first_occupied(cpu.buckets, 0, MAX_INTERACT as int)->0;
        assert(cpu.buckets[first][0] == next);
        assert(cpu.buckets[first].contains(next));
    }
}

/// A wake-up for a wait that is over changes nothing; one that comes before
/// the thread parked only keeps it from parking.
pub proof fn law_wake_needs_a_wait(
    m: SchedModel,
    t: usize,
    seq: u64,
    now_ns: u64,
    wake_cpu: Option<usize>,
    online: spec_fn(int) -> bool,
)
    requires
        t < m.threads.len(),
    ensures
        ({
            let record = m.threads[t as int];
            let (after, woke, kick) = m.woken(t, seq, now_ns, wake_cpu, online);
            let waits = record.park_seq == seq && record.park_state != ParkState::Idle;
            &&& woke <==> waits
            &&& !waits ==> after == m && kick.is_none()
            &&& waits && record.park_state == ParkState::Waiting ==> kick.is_none() && after.cpus
                == m.cpus && after.threads[t as int] == (Thread {
                park_state: ParkState::Idle,
                ..record
            })
        }),
{
}

/// A parked thread that is woken can run: it runs on where it still has the
/// CPU, and is queued on a CPU otherwise. No other thread is changed.
pub proof fn law_woken_thread_can_run(
    m: SchedModel,
    t: usize,
    seq: u64,
    now_ns: u64,
    wake_cpu: Option<usize>,
    online: spec_fn(int) -> bool,
    other: int,
)
    requires
        m.inv(),
        t < m.threads.len(),
        m.threads[t as int].park_seq == seq,
        m.threads[t as int].park_state == ParkState::Parked,
        0 <= other < m.threads.len(),
        other != t,
    ensures
        ({
            let (after, woke, kick) = m.woken(t, seq, now_ns, wake_cpu, online);
            let record = after.threads[t as int];
            &&& woke
            &&& record.park_state == ParkState::Idle
            &&& m.is_current(t) ==> record.state == ThreadState::Running && record.cpu
                == m.threads[t as int].cpu
            &&& !m.is_current(t) ==> record.state == ThreadState::Ready && record.linked
            &&& after.threads[other] == m.threads[other]
        }),
{
    assert(m.thread_ok(t as int));
}

/// A woken thread that may not move stays on its CPU, an interrupt thread goes
/// to the CPU that woke it, and a thread that ran within the last two
/// milliseconds goes back to its CPU if that has nothing to do.
pub proof fn law_wake_prefers_warm_cpu(
    m: SchedModel,
    record: Thread,
    wake_cpu: Option<usize>,
    now_ns: u64,
    online: spec_fn(int) -> bool,
)
    requires
        record.cpu < m.cpus.len(),
    ensures
        ({
            let target = m.wake_cpu_for(record, wake_cpu, now_ns, online);
            let pinned = record.flags.no_migrate || record.migration_pins > 0;
            let single = m.cpus.len() == 1;
            &&& single ==> target == record.cpu
            &&& pinned && online(record.cpu as int) ==> target == record.cpu
            &&& !single && !(pinned && online(record.cpu as int)) && record.class
                == ThreadClass::Ithread && wake_cpu.is_some() && online(wake_cpu->0 as int)
                ==> target == wake_cpu->0
            &&& record.class != ThreadClass::Ithread && record.last_run_ns <= now_ns && now_ns
                - record.last_run_ns <= 2_000_000 && m.cpus[record.cpu as int].online
                && m.cpus[record.cpu as int].available(m.threads) ==> target == record.cpu
        }),
{
}

/// A thread that is woken without a reason to stay goes to a CPU that is online
/// and has at most one thread more than any other.
pub proof fn law_wake_is_balanced(
    m: SchedModel,
    record: Thread,
    wake_cpu: Option<usize>,
    now_ns: u64,
    online: spec_fn(int) -> bool,
    c: int,
)
    requires
        m.inv(),
        m.cpus.len() > 1,
        record.cpu < m.cpus.len(),
        record.class != ThreadClass::Ithread,
        !record.flags.no_migrate,
        record.migration_pins == 0,
        record.last_run_ns + 2_000_000 < now_ns,
        wake_cpu matches Some(id) ==> id < m.cpus.len(),
        0 <= c < m.cpus.len(),
        m.cpus[c].online,
        m.cpus[c].load < usize::MAX,
    ensures
        ({
            let target = m.wake_cpu_for(record, wake_cpu, now_ns, online);
            &&& target < m.cpus.len()
            &&& m.cpus[target as int].online
            &&& m.cpus[target as int].load <= m.cpus[c].load + 1
        }),
{
    lemma_least_loaded(m.cpus, m.cpus.len(), record.cpu);
}

/// A kick tells a CPU to choose anew, or else to set its timer, or is not
/// needed.
pub proof fn law_kick_says_what_to_do(cpu: usize, resched: bool, deadline: bool)
    ensures
        kick_for(cpu, resched, deadline).is_some() <==> resched || deadline,
        kick_for(cpu, resched, deadline) matches Some(kick) ==> kick.cpu == cpu && (kick.kind
            == CpuKick::Resched <==> resched),
{
}

/// A new thread is known, queued on its CPU and counted there; a CPU that is
/// not online is not kicked.
pub proof fn law_started_thread_is_queued(m: SchedModel, t: usize, this_cpu: Option<usize>)
    requires
        m.inv(),
        t < m.threads.len(),
        !m.threads[t as int].linked,
        !m.is_current(t),
        !m.threads[t as int].spec_is_idle(),
        m.threads[t as int].park_state != ParkState::Parked,
    ensures
        ({
            let (after, kick) = m.started(t, this_cpu);
            let record = after.threads[t as int];
            let c = m.threads[t as int].cpu as int;
            &&& after.registry == m.registry.push(t)
            &&& record.state == ThreadState::Ready
            &&& record.linked
            &&& record.cpu == c
            &&& record.priority == m.threads[t as int].priority
            &&& !m.threads[t as int].flags.noload ==> after.cpus[c].load == m.cpus[c].load + 1
            &&& queued_total(after.cpus[c].buckets) == queued_total(m.cpus[c].buckets) + 1
            &&& !m.cpus[c].online ==> kick.is_none()
        }),
{
    let record = m.threads[t as int];
    let c = record.cpu as int;
    assert(m.thread_ok(t as int));
    assert(m.cpu_ok(c));
    m.lemma_capacity(t as int, c);
    lemma_with_queued(
        m.cpus[c].buckets,
        m.cpus[c].bucket_for(record.priority, EnqueueKind::Normal) as int,
        t,
        false,
    );
}

/// A thread is moved only from an online CPU to another one that has at least
/// two fewer; balancing moves from the busiest to the idlest CPU.
pub proof fn law_balancing_needs_a_difference(
    m: SchedModel,
    this_cpu: Option<usize>,
    src: usize,
    dst: usize,
    require_idle_dst: bool,
)
    requires
        m.inv(),
        src < m.cpus.len(),
        dst < m.cpus.len(),
    ensures
        m.transferred(src, dst, require_idle_dst, this_cpu).1 ==> {
            &&& m.cpus[src as int].online
            &&& m.cpus[dst as int].online
            &&& m.cpus[src as int].load >= m.cpus[dst as int].load + 2
            &&& require_idle_dst ==> m.cpus[dst as int].available(m.threads)
        },
        !m.transferred(src, dst, require_idle_dst, this_cpu).1 ==> m.transferred(
            src,
            dst,
            require_idle_dst,
            this_cpu,
        ).0 == m,
        m.cpus[src as int].online && m.cpus[dst as int].online && m.cpus[src as int].load
            >= m.cpus[dst as int].load + 2 && !require_idle_dst && m.cpus[src as int].steal(
            m.threads,
        ).is_some() ==> m.transferred(src, dst, require_idle_dst, this_cpu).1,
        !m.rebalanced(this_cpu).1 ==> m.rebalanced(this_cpu).0 == m,
        m.cpus.len() > 1 && busiest(m.cpus, m.cpus.len()) == Some(src) && idlest(
            m.cpus,
            m.cpus.len(),
        ) == Some(dst) && m.cpus[src as int].load >= m.cpus[dst as int].load + 2 ==> m.rebalanced(
            this_cpu,
        ) == m.transferred(src, dst, false, this_cpu),
{
}

/// An idle CPU takes a thread from the busiest other one, if that has two or
/// more; a CPU that has something queued takes none.
pub proof fn law_idle_cpu_takes_from_busiest(
    m: SchedModel,
    dst: usize,
    require_idle_dst: bool,
    this_cpu: Option<usize>,
)
    requires
        m.inv(),
        dst < m.cpus.len(),
    ensures
        ({
            let (after, moved, kick) = m.stolen(dst, require_idle_dst, this_cpu);
            &&& !moved ==> after == m
            &&& queued_total(m.cpus[dst as int].buckets) > 0 ==> !moved
            &&& !m.cpus[dst as int].online ==> !moved
            &&& moved ==> exists|src: int|
                0 <= src < m.cpus.len() && src != dst && (#[trigger] m.cpus[src]).online
                    && m.cpus[src].load >= 2 && m.transferred(
                    src as usize,
                    dst,
                    require_idle_dst,
                    this_cpu,
                ).0 == after && forall|c: int|
                    0 <= c < m.cpus.len() && c != dst && (#[trigger] m.cpus[c]).online
                        ==> m.cpus[c].load <= m.cpus[src].load
        }),
{
    let to = m.cpus[dst as int];
    let least = max_int(to.load as int, 2) as usize;
    lemma_steal_source(m.cpus, dst, least, m.cpus.len());
    if m.stolen(dst, require_idle_dst, this_cpu).1 {
        let src = steal_source(m.cpus, dst, least, m.cpus.len())->0;
        assert(m.cpus[src as int].online);
    }
}

/// A running thread that leaves the CPU is queued again: behind the others of
/// its priority if its turn was over, in front of them if it was preempted. A
/// blocked thread no longer counts.
pub proof fn law_leaving_thread_keeps_its_turn(m: SchedModel, c: int)
    requires
        m.inv(),
        0 <= c < m.cpus.len(),
        m.cpus[c].current.is_some(),
    ensures
        ({
            let t = m.cpus[c].current->0;
            let record = m.threads[t as int];
            let after = m.stepped_aside(c);
            let place = after.threads[t as int].rqindex as int;
            let runs = record.state == ThreadState::Running && !record.flags.idle;
            &&& runs && record.flags.sliceend ==> after.cpus[c].buckets[place]
                == m.cpus[c].buckets[place].push(t)
            &&& runs && !record.flags.sliceend ==> after.cpus[c].buckets[place] == seq![t]
                + m.cpus[c].buckets[place]
            &&& runs ==> after.threads[t as int].state == ThreadState::Ready
                && !after.threads[t as int].flags.sliceend && after.threads[t as int].linked
            &&& record.state == ThreadState::Blocked && !record.flags.noload && m.cpus[c].load > 0
                ==> after.cpus[c].load == m.cpus[c].load - 1
            &&& runs ==> after.cpus[c].load == m.cpus[c].load
        }),
{
    assert(m.cpu_ok(c));
}

/// A CPU chooses anew when its thread no longer runs, when it was asked to, or
/// when it idles while something is queued.
pub proof fn law_cpu_chooses_anew(m: SchedModel, c: int)
    ensures
        m.must_switch(c) <==> m.threads[m.cpus[c].current->0 as int].state != ThreadState::Running
            || m.cpus[c].need_resched || (m.threads[m.cpus[c].current->0 as int].flags.idle
            && queued_total(m.cpus[c].buckets) > 0),
{
}

/// An idle CPU is woken by one that has work to give away: two or more threads.
pub proof fn law_idle_cpu_is_nudged(m: SchedModel, from: usize)
    requires
        m.inv(),
        from < m.cpus.len(),
    ensures
        m.cpus[from as int].load < 2 ==> m.idle_to_nudge(from).is_none(),
        m.idle_to_nudge(from) matches Some(c) ==> c < m.cpus.len() && c != from
            && m.cpus[c as int].online && m.cpus[c as int].load == 0,
        m.cpus[from as int].load >= 2 && m.idle_to_nudge(from).is_none() ==> forall|c: int|
            0 <= c < m.cpus.len() && c != from && (#[trigger] m.cpus[c]).online ==> m.cpus[c].load
                > 0,
{
    lemma_first_unloaded(m.cpus, from, 0);
}

proof fn lemma_first_unloaded(cpus: Seq<CpuModel>, from: usize, at: int)
    requires
        0 <= at <= cpus.len() <= usize::MAX,
    ensures
        match first_unloaded(cpus, from, at) {
            Some(c) => at <= c < cpus.len() && c != from && cpus[c as int].online
                && cpus[c as int].load == 0,
            None => forall|c: int|
                at <= c < cpus.len() && c != from && (#[trigger] cpus[c]).online ==> cpus[c].load
                    > 0,
        },
    decreases cpus.len() - at,
{
    if at < cpus.len() {
        lemma_first_unloaded(cpus, from, at + 1);
    }
}

/// Setting a thread's nice value sets it for that thread, whose priority then
/// follows it, and a queued thread stays queued; other threads keep theirs.
pub proof fn law_nice_is_set_for_one(m: SchedModel, t: int, nice: i8, other: int)
    requires
        m.inv(),
        0 <= t < m.threads.len(),
        0 <= other < m.threads.len(),
        other != t,
        -20 <= nice <= 20,
    ensures
        ({
            let after = m.niced(t, nice);
            &&& after.threads[t].nice == nice
            &&& after.threads[other] == m.threads[other]
            &&& after.threads[t].linked == m.threads[t].linked
            &&& m.threads[t].class == ThreadClass::Timeshare && m.threads[t].state
                != ThreadState::Exited ==> after.threads[t].user_priority == reprioritized(
                Thread { nice, ..m.threads[t] },
            ).user_priority
        }),
{
}

/// Lending a priority never makes a thread worse; while anything is lent the
/// best that was lent stays in force, and when nothing is lent any more the
/// thread has its own priority again.
pub proof fn law_lent_priority_is_the_best(record: Thread, priority: u8)
    ensures
        ({
            let lent = boosted_record(record, Some(priority));
            let back = boosted_record(record, None);
            &&& lent.lent_priority <= priority && lent.lent_priority <= record.lent_priority
            &&& lent.priority <= priority && lent.priority <= record.base_priority
            &&& record.boost_count < u32::MAX ==> lent.boost_count == record.boost_count + 1
            &&& lent.base_priority == record.base_priority
            &&& record.boost_count <= 1 ==> back.priority == record.base_priority
                && back.boost_count == 0
            &&& record.boost_count > 1 ==> back.boost_count == record.boost_count - 1
                && back.lent_priority == record.lent_priority
        }),
{
}

/// A thread that exits is marked so, leaves its CPU and its load, and is kept
/// until its stack is no longer in use.
pub proof fn law_exiting_thread_is_put_aside(m: SchedModel, c: usize)
    requires
        m.inv(),
        c < m.cpus.len(),
        m.cpus[c as int].current.is_some(),
    ensures
        ({
            let t = m.cpus[c as int].current->0;
            let after = m.current_retired(c);
            &&& after.threads[t as int].state == ThreadState::Exited
            &&& after.cpus[c as int].current.is_none()
            &&& after.cpus[c as int].deferred_exit == Some(t)
            &&& !m.threads[t as int].flags.noload && m.cpus[c as int].load > 0
                ==> after.cpus[c as int].load == m.cpus[c as int].load - 1
            &&& m.cpus[c as int].deferred_exit matches Some(before)
                ==> after.cpus[c as int].exited == m.cpus[c as int].exited.push(before)
            &&& m.cpus[c as int].deferred_exit.is_none() ==> after.cpus[c as int].exited
                == m.cpus[c as int].exited
        }),
{
    assert(m.cpu_ok(c as int));
}

} // verus!
