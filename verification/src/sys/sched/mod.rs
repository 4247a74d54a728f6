//! Scheduler with interactivity scoring, CPU decay, timeshare queue rotation,
//! load-scaled slices, preemption rules, wake affinity and load balancing.

pub mod cpu;
pub mod model;
pub mod policy;
pub mod runq;
pub mod scheduler;

use vstd::prelude::*;
use crate::num::{next_xorshift, xorshift};
use crate::sys::sched::cpu::CpuModel;
use crate::sys::sched::model::{CpuKick, Kick, SchedModel, TrapOutcome};
use crate::sys::sched::policy::{nice_in_range, MAX_ITHD, MIN_INTERACT, SCHED_BALANCE_INTERVAL_NS};
use crate::sys::sched::scheduler::{
    bootstrapped, online_of, thread_of, KickAction, ParkOutcome, Scheduler, StackSlot, ThreadSpec,
};
use crate::sys::smp::SmpState;
use crate::sys::thread::{ParkState, ThreadClass, ThreadFlags, ThreadState};

verus! {

/// Where and when a scheduling request is made.
#[derive(Copy, Clone, Debug, PartialEq, Eq, Structural)]
pub struct Site {
    /// CPU that makes the request, once CPUs are known.
    pub cpu: Option<usize>,
    /// Time of the request.
    pub now_ns: u64,
    /// Whether the CPU is handling a trap.
    pub in_interrupt: bool,
    /// Whether the CPU has interrupts enabled.
    pub irqs_enabled: bool,
}

impl Site {
    /// The CPU is one of the scheduler's.
    pub open spec fn on(self, m: SchedModel) -> bool {
        self.cpu matches Some(c) ==> c < m.cpus.len()
    }
}

/// What the new thread of a regular kernel task looks like.
pub open spec fn kernel_task() -> ThreadSpec {
    ThreadSpec {
        class: ThreadClass::Timeshare,
        priority: MIN_INTERACT,
        flags: ThreadFlags { idle: false, noload: false, sliceend: false, no_migrate: false },
        nice: 0,
        process: None,
        address_space: None,
        thread_pointer: 0,
    }
}

/// What a new thread of a process looks like.
pub open spec fn user_task(
    process: usize,
    nice: i8,
    address_space: u64,
    thread_pointer: u64,
) -> ThreadSpec {
    ThreadSpec {
        nice,
        process: Some(process),
        address_space: Some(address_space),
        thread_pointer,
        ..kernel_task()
    }
}

/// The scheduler after `spec` was started from `site`, and its kick.
pub open spec fn spawned(
    m: SchedModel,
    spec: ThreadSpec,
    site: Site,
    stack: StackSlot,
) -> (SchedModel, Option<Kick>) {
    let record = thread_of(spec, m.threads.len(), m.spawn_cpu(site.cpu), site.now_ns, stack);
    m.with_new_thread(record).started(m.threads.len() as usize, site.cpu)
}

/// How a kick is carried out from `site`.
pub open spec fn kick_action(m: SchedModel, kick: Option<Kick>, site: Site) -> KickAction {
    match kick {
        None => KickAction::Nothing,
        Some(kick) => if site.cpu != Some(kick.cpu) {
            KickAction::SendIpi(kick)
        } else if site.in_interrupt {
            KickAction::Nothing
        } else if kick.kind == CpuKick::Deadline {
            KickAction::SetDeadline(m.cpus[kick.cpu as int].deadline(m.threads, site.now_ns))
        } else if site.irqs_enabled {
            KickAction::Reschedule
        } else {
            KickAction::SetDeadline(site.now_ns)
        },
    }
}

fn deliver(scheduler: &Scheduler, kick: Option<Kick>, site: &Site) -> (action: KickAction)
    requires
        scheduler.wf(),
        kick matches Some(k) ==> k.cpu < scheduler@.cpus.len(),
    ensures
        action == kick_action(scheduler@, kick, *site),
{
    match kick {
        None => KickAction::Nothing,
        Some(kick) => scheduler.kick_cpu(
            kick,
            site.cpu,
            site.in_interrupt,
            site.irqs_enabled,
            site.now_ns,
        ),
    }
}

fn spawn_spec(scheduler: &mut Scheduler, spec: &ThreadSpec, site: &Site, stack: &StackSlot) -> (
started: (usize, KickAction))
    requires
        old(scheduler).wf(),
        old(scheduler)@.settled(),
        site.on(old(scheduler)@),
        old(scheduler)@.threads.len() + 1 < usize::MAX,
        stack.fits(),
        nice_in_range(spec.nice),
        !spec.flags.idle,
    ensures
        final(scheduler).wf(),
        final(scheduler)@.settled(),
        final(scheduler)@ == spawned(old(scheduler)@, *spec, *site, *stack).0,
        started.0 == old(scheduler)@.threads.len() + 1,
        started.1 == kick_action(
            final(scheduler)@,
            spawned(old(scheduler)@, *spec, *site, *stack).1,
            *site,
        ),
{
    let ghost m = scheduler@;
    proof {
        scheduler.lemma_wf();
        lemma_spawn_cpu(m, site.cpu);
    }
    let (tid, kick) = scheduler.spawn(spec, site.now_ns, stack, site.cpu);
    let action = deliver(scheduler, kick, site);
    (tid, action)
}

proof fn lemma_spawn_cpu(m: SchedModel, this_cpu: Option<usize>)
    requires
        m.inv(),
        this_cpu matches Some(c) ==> c < m.cpus.len(),
    ensures
        m.spawn_cpu(this_cpu) < m.cpus.len(),
{
    crate::sys::sched::model::lemma_least_loaded(m.cpus, m.cpus.len(), 0);
}

/// Spawns a regular kernel thread.
///
/// Returns its identifier and how to kick the CPU it starts on.
pub fn run(scheduler: &mut Scheduler, site: &Site, stack: &StackSlot) -> (started: (
    usize,
    KickAction,
))
    requires
        old(scheduler).wf(),
        old(scheduler)@.settled(),
        site.on(old(scheduler)@),
        old(scheduler)@.threads.len() + 1 < usize::MAX,
        stack.fits(),
    ensures
        final(scheduler).wf(),
        final(scheduler)@.settled(),
        final(scheduler)@ == spawned(old(scheduler)@, kernel_task(), *site, *stack).0,
        started.0 == old(scheduler)@.threads.len() + 1,
        started.1 == kick_action(
            final(scheduler)@,
            spawned(old(scheduler)@, kernel_task(), *site, *stack).1,
            *site,
        ),
{
    let spec = ThreadSpec {
        class: ThreadClass::Timeshare,
        priority: MIN_INTERACT,
        flags: ThreadFlags::empty(),
        nice: 0,
        process: None,
        address_space: None,
        thread_pointer: 0,
    };
    spawn_spec(scheduler, &spec, site, stack)
}

/// Spawns a thread of a process; `thread_pointer` is zero for its first one.
pub fn run_user_thread(
    scheduler: &mut Scheduler,
    process: usize,
    nice: i8,
    address_space: u64,
    thread_pointer: u64,
    site: &Site,
    stack: &StackSlot,
) -> (started: (usize, KickAction))
    requires
        old(scheduler).wf(),
        old(scheduler)@.settled(),
        site.on(old(scheduler)@),
        old(scheduler)@.threads.len() + 1 < usize::MAX,
        stack.fits(),
        nice_in_range(nice),
    ensures
        final(scheduler).wf(),
        final(scheduler)@.settled(),
        started.0 == old(scheduler)@.threads.len() + 1,
        ({
            let after = spawned(
                old(scheduler)@,
                user_task(process, nice, address_space, thread_pointer),
                *site,
                *stack,
            );
            &&& final(scheduler)@ == after.0
            &&& started.1 == kick_action(final(scheduler)@, after.1, *site)
        }),
{
    let spec = ThreadSpec {
        class: ThreadClass::Timeshare,
        priority: MIN_INTERACT,
        flags: ThreadFlags::empty(),
        nice,
        process: Some(process),
        address_space: Some(address_space),
        thread_pointer,
    };
    spawn_spec(scheduler, &spec, site, stack)
}

/// Spawns an interrupt thread of the worst interrupt priority.
pub fn create_ithread(scheduler: &mut Scheduler, site: &Site, stack: &StackSlot) -> (started: (
    usize,
    KickAction,
))
    requires
        old(scheduler).wf(),
        old(scheduler)@.settled(),
        site.on(old(scheduler)@),
        old(scheduler)@.threads.len() + 1 < usize::MAX,
        stack.fits(),
    ensures
        final(scheduler).wf(),
        final(scheduler)@.settled(),
        started.0 == old(scheduler)@.threads.len() + 1,
        ({
            let spec = ThreadSpec {
                class: ThreadClass::Ithread,
                priority: MAX_ITHD,
                ..kernel_task()
            };
            let after = spawned(old(scheduler)@, spec, *site, *stack);
            &&& final(scheduler)@ == after.0
            &&& started.1 == kick_action(final(scheduler)@, after.1, *site)
        }),
{
    create_ithread_with_priority(scheduler, MAX_ITHD, site, stack)
}

/// Spawns an interrupt thread of a priority in `0..=7`.
pub fn create_ithread_with_priority(
    scheduler: &mut Scheduler,
    priority: u8,
    site: &Site,
    stack: &StackSlot,
) -> (started: (usize, KickAction))
    requires
        old(scheduler).wf(),
        old(scheduler)@.settled(),
        site.on(old(scheduler)@),
        old(scheduler)@.threads.len() + 1 < usize::MAX,
        stack.fits(),
        priority <= MAX_ITHD,
    ensures
        final(scheduler).wf(),
        final(scheduler)@.settled(),
        started.0 == old(scheduler)@.threads.len() + 1,
        ({
            let spec = ThreadSpec { class: ThreadClass::Ithread, priority, ..kernel_task() };
            let after = spawned(old(scheduler)@, spec, *site, *stack);
            &&& final(scheduler)@ == after.0
            &&& started.1 == kick_action(final(scheduler)@, after.1, *site)
        }),
{
    let spec = ThreadSpec {
        class: ThreadClass::Ithread,
        priority,
        flags: ThreadFlags::empty(),
        nice: 0,
        process: None,
        address_space: None,
        thread_pointer: 0,
    };
    spawn_spec(scheduler, &spec, site, stack)
}

/// Builds the scheduler and queues the first kernel threads.
///
/// A scheduler that exists already is handed back as it is.
pub fn bootstrap(
    existing: Option<Scheduler>,
    cpu_count: usize,
    now_ns: u64,
    stacks: &[StackSlot],
) -> (scheduler: Scheduler)
    requires
        cpu_count >= 1,
        cpu_count + 3 < usize::MAX,
        stacks@.len() == cpu_count + 2,
        forall|i: int| 0 <= i < stacks@.len() ==> (#[trigger] stacks@[i]).fits(),
    ensures
        match existing {
            Some(ready) => scheduler == ready,
            None => scheduler.wf() && scheduler@.settled() && bootstrapped(
                scheduler@,
                cpu_count as nat,
                now_ns,
                stacks@,
            ),
        },
{
    match existing {
        Some(ready) => ready,
        None => {
            let mut scheduler = Scheduler::new(cpu_count);
            scheduler.bootstrap(now_ns, stacks);
            scheduler
        },
    }
}

/// Starts scheduling on CPU `cpu_id`.
///
/// Returns the thread to run and the deadline to program.
pub fn start(scheduler: &mut Scheduler, cpu_id: usize, now_ns: u64) -> (picked: (usize, u64))
    requires
        old(scheduler).wf(),
        old(scheduler)@.settled(),
        cpu_id < old(scheduler)@.cpus.len(),
        old(scheduler)@.cpus[cpu_id as int].idle.is_some(),
        old(scheduler)@.cpus[cpu_id as int].current.is_none(),
    ensures
        final(scheduler).wf(),
        final(scheduler)@.settled(),
        final(scheduler)@ == old(scheduler)@.cpu_started(cpu_id, now_ns),
        final(scheduler)@.cpus[cpu_id as int].current == Some(picked.0),
        picked.1 == final(scheduler)@.cpus[cpu_id as int].deadline(
            final(scheduler)@.threads,
            now_ns,
        ),
{
    scheduler.start_current_cpu(cpu_id, now_ns)
}

/// Terminates the current thread of CPU `cpu_id` and picks a replacement.
///
/// Returns the thread to run and the deadline to program.
pub fn exit_current(scheduler: &mut Scheduler, cpu_id: usize, now_ns: u64) -> (picked: (usize, u64))
    requires
        old(scheduler).wf(),
        old(scheduler)@.settled(),
        cpu_id < old(scheduler)@.cpus.len(),
        old(scheduler)@.cpus[cpu_id as int].idle.is_some(),
        old(scheduler)@.cpus[cpu_id as int].current matches Some(t) && !old(
            scheduler,
        )@.threads[t as int].spec_is_idle() && old(scheduler)@.threads[t as int].state
            == ThreadState::Running,
    ensures
        final(scheduler).wf(),
        final(scheduler)@.settled(),
        final(scheduler)@ == old(scheduler)@.current_exited(cpu_id, now_ns),
        final(scheduler)@.cpus[cpu_id as int].current == Some(picked.0),
        picked.1 == final(scheduler)@.cpus[cpu_id as int].deadline(
            final(scheduler)@.threads,
            now_ns,
        ),
{
    scheduler.exit_current(cpu_id, now_ns)
}

/// Handles scheduling before CPU `cpu_id` returns from a trap that interrupted
/// `frame`.
pub fn trap_return(scheduler: &mut Scheduler, cpu_id: usize, frame: u64, now_ns: u64) -> (outcome:
    TrapOutcome)
    requires
        old(scheduler).wf(),
        old(scheduler)@.settled(),
        cpu_id < old(scheduler)@.cpus.len(),
        old(scheduler)@.cpus[cpu_id as int].idle.is_some(),
    ensures
        final(scheduler).wf(),
        final(scheduler)@.settled(),
        (final(scheduler)@, outcome) == old(scheduler)@.trapped(cpu_id, frame, now_ns),
{
    scheduler.trap_return(cpu_id, frame, now_ns)
}

/// Wakes a sleeping thread.
///
/// Returns whether the wake belonged to its current sleep, and how to kick the
/// CPU it goes to.
pub fn wake(
    scheduler: &mut Scheduler,
    thread: usize,
    seq: u64,
    site: &Site,
    smp: &SmpState,
) -> (woke: (bool, KickAction))
    requires
        old(scheduler).wf(),
        old(scheduler)@.settled(),
        thread < old(scheduler)@.threads.len(),
        site.on(old(scheduler)@),
    ensures
        final(scheduler).wf(),
        final(scheduler)@.settled(),
        final(scheduler)@.cpus.len() == old(scheduler)@.cpus.len(),
        final(scheduler)@.threads.len() == old(scheduler)@.threads.len(),
        ({
            let after = old(scheduler)@.woken(
                thread,
                seq,
                site.now_ns,
                site.cpu,
                online_of(*smp),
            );
            &&& final(scheduler)@ == after.0
            &&& woke.0 == after.1
            &&& woke.1 == kick_action(final(scheduler)@, after.2, *site)
        }),
{
    let ghost m = scheduler@;
    proof {
        scheduler.lemma_wf();
        lemma_wake_target(m, thread, seq, site.now_ns, site.cpu, online_of(*smp));
    }
    let (woken, kick) = scheduler.wake_thread(thread, seq, site.now_ns, site.cpu, smp);
    let action = deliver(scheduler, kick, site);
    (woken, action)
}

proof fn lemma_wake_target(
    m: SchedModel,
    t: usize,
    seq: u64,
    now_ns: u64,
    wake_cpu: Option<usize>,
    online: spec_fn(int) -> bool,
)
    requires
        m.inv(),
        t < m.threads.len(),
        wake_cpu matches Some(c) ==> c < m.cpus.len(),
    ensures
        m.woken(t, seq, now_ns, wake_cpu, online).2 matches Some(kick) ==> kick.cpu
            < m.cpus.len(),
        m.woken(t, seq, now_ns, wake_cpu, online).0.cpus.len() == m.cpus.len(),
{
    assert(m.thread_ok(t as int));
    let touched = m.with_thread(t as int, m.threads[t as int].after_wake(seq));
    crate::sys::sched::model::lemma_least_loaded(
        touched.cpus,
        touched.cpus.len(),
        touched.threads[t as int].cpu,
    );
}

/// Puts the current thread of CPU `cpu_id` to sleep unless a wake came first.
pub fn park_current(
    scheduler: &mut Scheduler,
    cpu_id: usize,
    thread: usize,
    seq: u64,
    site: &Site,
) -> (outcome: ParkOutcome)
    requires
        old(scheduler).wf(),
        old(scheduler)@.settled(),
        cpu_id < old(scheduler)@.cpus.len(),
        old(scheduler)@.cpus[cpu_id as int].current == Some(thread),
        thread < old(scheduler)@.threads.len(),
        !old(scheduler)@.threads[thread as int].spec_is_idle(),
    ensures
        final(scheduler).wf(),
        final(scheduler)@.settled(),
        outcome.enable_irqs == !site.irqs_enabled,
        outcome.parked == (old(scheduler)@.threads[thread as int].park_seq == seq && old(
            scheduler,
        )@.threads[thread as int].park_state == ParkState::Waiting),
        !outcome.parked ==> final(scheduler)@ == old(scheduler)@,
        outcome.parked ==> final(scheduler)@ == old(scheduler)@.with_thread(
            thread as int,
            old(scheduler)@.threads[thread as int].with_park_state(ParkState::Parked).blocked_at(
                site.now_ns,
            ),
        ).with_cpu(
            cpu_id as int,
            CpuModel { need_resched: true, ..old(scheduler)@.cpus[cpu_id as int] },
        ),
{
    scheduler.park_current(cpu_id, thread, seq, site.now_ns, site.irqs_enabled)
}

/// Returns the priority that a thread lends when it waits for a lock.
pub fn thread_priority(scheduler: &Scheduler, thread: usize) -> (priority: u8)
    requires
        thread < scheduler@.threads.len(),
    ensures
        priority == scheduler@.threads[thread as int].spec_effective_priority(),
{
    scheduler.thread(thread).effective_priority()
}

/// Lends `priority` to a thread while a waiter blocks on a lock it holds.
///
/// Every call is paired with one [`unboost_priority`].
pub fn boost_priority(scheduler: &mut Scheduler, thread: usize, priority: u8)
    requires
        old(scheduler).wf(),
        thread < old(scheduler)@.threads.len(),
    ensures
        final(scheduler).wf(),
        final(scheduler)@ == old(scheduler)@.boosted(thread as int, Some(priority)),
        old(scheduler)@.settled() ==> final(scheduler)@.settled(),
{
    scheduler.adjust_boost(thread, Some(priority));
}

/// Takes back one priority lent to a thread.
pub fn unboost_priority(scheduler: &mut Scheduler, thread: usize)
    requires
        old(scheduler).wf(),
        thread < old(scheduler)@.threads.len(),
    ensures
        final(scheduler).wf(),
        final(scheduler)@ == old(scheduler)@.boosted(thread as int, None),
        old(scheduler)@.settled() ==> final(scheduler)@.settled(),
{
    scheduler.adjust_boost(thread, None);
}

/// Draws the time until the next load-balancing pass: half the interval plus a
/// random part of up to one interval.
pub fn balance_delay_ns(random: &mut u64) -> (delay: u64)
    ensures
        *final(random) == xorshift(
            if *old(random) == 0 {
                0xA076_1D64_78BD_642F
            } else {
                *old(random)
            },
        ),
        delay == SCHED_BALANCE_INTERVAL_NS / 2 + *final(random) % SCHED_BALANCE_INTERVAL_NS,
{
    if *random == 0 {
        *random = 0xA076_1D64_78BD_642F;
    }
    *random = next_xorshift(*random);
    (SCHED_BALANCE_INTERVAL_NS / 2).saturating_add(*random % SCHED_BALANCE_INTERVAL_NS)
}

/// Kernel threads are timeshare threads of the best timeshare priority that
/// count and may move; user threads are the same, in their process and address
/// space, with their nice value.
pub proof fn law_task_kinds(process: usize, nice: i8, address_space: u64, thread_pointer: u64)
    ensures
        kernel_task().class == ThreadClass::Timeshare,
        kernel_task().priority == 56,
        kernel_task().process.is_none() && kernel_task().address_space.is_none(),
        !kernel_task().flags.idle && !kernel_task().flags.noload
            && !kernel_task().flags.no_migrate,
        ({
            let task = user_task(process, nice, address_space, thread_pointer);
            &&& task.process == Some(process)
            &&& task.address_space == Some(address_space)
            &&& task.nice == nice
            &&& task.thread_pointer == thread_pointer
            &&& task.class == ThreadClass::Timeshare
            &&& task.priority == 56
            &&& !task.flags.noload && !task.flags.no_migrate && !task.flags.idle
        }),
{
}

/// A kick for another CPU is sent there. For this CPU it is left to the end of
/// an interrupt; elsewhere the CPU chooses anew at once, or as soon as
/// interrupts are on again, or sets its timer.
pub proof fn law_kick_reaches_its_cpu(m: SchedModel, kick: Kick, site: Site)
    ensures
        kick_action(m, None, site) == KickAction::Nothing,
        site.cpu != Some(kick.cpu) ==> kick_action(m, Some(kick), site) == KickAction::SendIpi(kick),
        site.cpu == Some(kick.cpu) && site.in_interrupt ==> kick_action(m, Some(kick), site)
            == KickAction::Nothing,
        site.cpu == Some(kick.cpu) && !site.in_interrupt && kick.kind == CpuKick::Resched
            && site.irqs_enabled ==> kick_action(m, Some(kick), site) == KickAction::Reschedule,
        site.cpu == Some(kick.cpu) && !site.in_interrupt && kick.kind == CpuKick::Resched
            && !site.irqs_enabled ==> kick_action(m, Some(kick), site) == KickAction::SetDeadline(
            site.now_ns,
        ),
        site.cpu == Some(kick.cpu) && !site.in_interrupt && kick.kind == CpuKick::Deadline
            ==> kick_action(m, Some(kick), site) == KickAction::SetDeadline(
            m.cpus[kick.cpu as int].deadline(m.threads, site.now_ns),
        ),
{
}

/// A spawned thread runs on the CPU chosen for it, as it was described.
pub proof fn law_spawned_thread_is_ready(
    m: SchedModel,
    spec: ThreadSpec,
    site: Site,
    stack: StackSlot,
)
    requires
        m.inv(),
        m.threads.len() + 1 < usize::MAX,
        site.on(m),
        stack.fits(),
        nice_in_range(spec.nice),
        !spec.flags.idle,
    ensures
        ({
            let after = spawned(m, spec, site, stack).0;
            let record = after.threads[m.threads.len() as int];
            &&& after.threads.len() == m.threads.len() + 1
            &&& record.cpu == m.spawn_cpu(site.cpu)
            &&& record.state == ThreadState::Ready && record.linked
            &&& record.priority == spec.priority && record.nice == spec.nice
            &&& record.process == spec.process && record.address_space == spec.address_space
            &&& after.registry == m.registry.push(m.threads.len() as usize)
        }),
{
    lemma_spawn_cpu(m, site.cpu);
    let record = thread_of(spec, m.threads.len(), m.spawn_cpu(site.cpu), site.now_ns, stack);
    m.lemma_new_thread(record);
}

} // verus!
