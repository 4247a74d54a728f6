use roanix::sys::event::{
    begin_wait, finish_wait, ready_event, wait_any, wake_targets, Event, EventWaiter, Registration,
    WaitGroups, WaitStart,
};
use roanix::sys::sched::cpu::{CpuState, EnqueueKind};
use roanix::sys::sched::policy::{
    interact_score, interact_update, pctcpu_update, priority_update, should_preempt,
    SchedulerConfig, MAX_BATCH, MAX_INTERACT, MIN_BATCH, MIN_INTERACT, SCHED_SLP_RUN_MAX_NS,
};
use roanix::sys::sched::runq::RunQueue;
use roanix::sys::sched::scheduler::{KickAction, Scheduler, StackSlot, ThreadSpec};
use roanix::sys::sched::{
    balance_delay_ns, boost_priority, bootstrap, create_ithread, exit_current, park_current, run,
    run_user_thread, start, thread_priority, trap_return, unboost_priority, wake, Site,
};
use roanix::sys::smp::{
    by_platform_id, core_local, cpu_count, discover, drain_ipi_queue, enter_interrupt_context,
    in_interrupt_context, is_blockable, is_online, leave_interrupt_context, mark_current_online,
    online_cpus, platform_id, secondary_cpus, send_ipi, spin_backoff, spinlock_depth, startup_step,
    CoreLocal, IpiAction, IpiTarget, IrqSpinLock, Masking, SmpState, StartupStep,
};
use roanix::sys::sync::{
    Contention, LockAttempt, LockStep, Mutex, Once, OnceStep, QueueStep, SpinWait, WakeTarget,
    ACTIVE_SPIN_ITERS,
};
use roanix::sys::thread::{
    allocate_thread_record, has_valid_stack_canary, ParkState, Thread, ThreadClass, ThreadFlags,
    write_stack_canary, ThreadState, WakeResult, KSTACK_SIZE, STACK_CANARY, STACK_CANARY_WORDS,
};

fn slot(i: u64) -> StackSlot {
    StackSlot { base: 0x100_0000 * (i + 1), frame_size: 256 }
}

fn slots(count: u64) -> Vec<StackSlot> {
    (0..count).map(slot).collect()
}

fn record() -> Thread {
    allocate_thread_record(
        9,
        0,
        1000,
        ThreadClass::Timeshare,
        100,
        ThreadFlags::empty(),
        None,
        None,
        0x1000,
        256,
    )
}

fn site(cpu: usize, now_ns: u64) -> Site {
    Site { cpu: Some(cpu), now_ns, in_interrupt: false, irqs_enabled: true }
}

fn one_cpu() -> (Scheduler, SmpState) {
    let mut scheduler = bootstrap(None, 1, 1000, &slots(3));
    let picked = start(&mut scheduler, 0, 2000);
    assert_eq!(picked.0, 1);
    (scheduler, discover(&[4], 4))
}

#[test]
fn a_fresh_thread_starts_at_the_top_of_its_stack() {
    let thread = record();
    assert_eq!(thread.stack_top, 0x1000 + KSTACK_SIZE);
    assert_eq!(thread.frame, 0x1000 + KSTACK_SIZE - 256);
    assert_eq!(thread.observed_state(), ThreadState::Ready);
    assert!(!thread.is_runq_linked() && !thread.is_idle());
    assert!(thread.counts_towards_load() && thread.can_migrate());
    assert!(thread.has_valid_frame_ptr(256));
    assert!(!thread.belongs_to_process(3));
}

#[test]
fn migration_pins_nest() {
    let mut thread = record();
    thread.pin_migration();
    thread.pin_migration();
    thread.unpin_migration();
    assert!(!thread.can_migrate());
    thread.unpin_migration();
    assert!(thread.can_migrate());
}

#[test]
fn an_address_space_is_given_up_once() {
    let mut thread = record();
    assert_eq!(thread.replace_address_space(Some(0x5000)), None);
    assert_eq!(thread.address_space_root(), Some(0x5000));
    assert_eq!(thread.replace_address_space(Some(0x6000)), Some(0x5000));
    assert_eq!(thread.take_address_space(), Some(0x6000));
    assert_eq!(thread.take_address_space(), None);
    thread.set_thread_pointer(0x77);
    assert_eq!(thread.thread_pointer, 0x77);
}

#[test]
fn stack_canaries_are_checked() {
    let mut stack = Vec::new();
    for _ in 0..STACK_CANARY_WORDS {
        stack.extend_from_slice(&STACK_CANARY.to_le_bytes());
    }
    stack.extend_from_slice(&[0; 32]);
    assert!(has_valid_stack_canary(&stack));
    stack[11] ^= 1;
    assert!(!has_valid_stack_canary(&stack));
    let mut fresh = vec![0; 100];
    assert!(!has_valid_stack_canary(&fresh));
    write_stack_canary(&mut fresh);
    assert!(has_valid_stack_canary(&fresh));
    assert_eq!(fresh[64..], [0; 36]);
}

#[test]
fn an_early_wake_prevents_the_park() {
    let mut thread = record();
    let seq = thread.prepare_park();
    assert_eq!(thread.wake(seq), WakeResult::Pending);
    assert!(!thread.mark_parked(seq));
    assert_eq!(thread.wake(seq), WakeResult::Stale);
}

#[test]
fn a_parked_thread_wakes_once() {
    let mut thread = record();
    let seq = thread.prepare_park();
    assert!(thread.mark_parked(seq));
    assert_eq!(thread.wake(seq + 1), WakeResult::Stale);
    assert_eq!(thread.wake(seq), WakeResult::Parked);
    assert_eq!(thread.park_state, ParkState::Idle);
    assert_eq!(thread.wake(seq), WakeResult::Stale);
}

#[test]
fn thread_states_follow_the_marks() {
    let mut thread = record();
    thread.mark_running(3, 5000);
    assert_eq!((thread.state, thread.cpu), (ThreadState::Running, 3));
    thread.mark_blocked(6000);
    assert_eq!((thread.state, thread.sleep_start_ns), (ThreadState::Blocked, 6000));
    thread.mark_ready(77);
    assert_eq!((thread.state, thread.rqindex), (ThreadState::Ready, 77));
    thread.mark_exited();
    assert_eq!(thread.state, ThreadState::Exited);
    thread.flags.sliceend = true;
    assert!(thread.take_slice_end());
    assert!(!thread.take_slice_end());
}

#[test]
fn interactivity_scores() {
    let mut thread = record();
    thread.runtime_ns = 10;
    thread.slptime_ns = 5;
    assert_eq!(interact_score(&thread), 50);
    thread.runtime_ns = 1_000;
    thread.slptime_ns = 10_000;
    assert_eq!(interact_score(&thread), 5);
}

#[test]
fn priorities_keep_to_their_bands() {
    let mut thread = record();
    thread.runtime_ns = 1_000;
    thread.slptime_ns = 10_000;
    priority_update(&mut thread);
    assert_eq!(thread.priority, MIN_INTERACT + 9);
    assert!(thread.priority <= MAX_INTERACT);
    thread.nice = 20;
    priority_update(&mut thread);
    assert_eq!(thread.priority, MIN_INTERACT + 49);
    thread.runtime_ns = 10_000;
    thread.nice = 0;
    priority_update(&mut thread);
    assert_eq!(thread.priority, MIN_BATCH + 25);
    thread.nice = 20;
    priority_update(&mut thread);
    assert_eq!(thread.priority, MIN_BATCH + 50);
    assert!(thread.priority <= MAX_BATCH);
}

#[test]
fn history_stays_bounded() {
    let mut thread = record();
    thread.runtime_ns = 3 * SCHED_SLP_RUN_MAX_NS;
    thread.slptime_ns = 10;
    interact_update(&mut thread);
    assert_eq!((thread.runtime_ns, thread.slptime_ns), (SCHED_SLP_RUN_MAX_NS, 1));
    thread.runtime_ns = 4_000_000_000;
    thread.slptime_ns = 1_500_000_000;
    interact_update(&mut thread);
    assert_eq!((thread.runtime_ns, thread.slptime_ns), (3_200_000_000, 1_200_000_000));
}

#[test]
fn cpu_usage_accumulates_and_decays() {
    let mut thread = record();
    pctcpu_update(&mut thread, 1_000_001_000, true);
    assert_eq!(thread.cpu_estimate, 1_024_000_000_000);
    pctcpu_update(&mut thread, 50_000_000_000, false);
    assert_eq!(thread.cpu_estimate, 0);
    assert_eq!(thread.cpu_window_start_ns, 40_000_000_000);
}

#[test]
fn slices_shrink_with_load() {
    let config = SchedulerConfig::new();
    let slices: Vec<u64> = (0..8).map(|load| config.slice_for_load(load)).collect();
    assert_eq!(
        slices,
        vec![7_874_015, 7_874_015, 3_937_007, 2_624_671, 1_968_503, 1_574_803, 1_312_335, 1_312_335],
    );
}

#[test]
fn preemption_rules() {
    assert!(should_preempt(100, 240, false));
    assert!(should_preempt(10, 20, false));
    assert!(!should_preempt(20, 20, false));
    assert!(!should_preempt(100, 150, false));
    assert!(should_preempt(100, 150, true));
}

#[test]
fn a_run_queue_gives_back_what_it_took() {
    let mut queue = RunQueue::new();
    queue.push(60, 1, false);
    queue.push(60, 2, false);
    queue.push(60, 3, true);
    queue.push(200, 4, false);
    assert_eq!(queue.len(), 4);
    assert_eq!(queue.first_in_range(0, 255), Some(3));
    assert!(!queue.remove(60, 3));
    assert_eq!(queue.first_in_range(0, 255), Some(1));
    assert!(!queue.remove(60, 1));
    assert!(queue.remove(60, 2));
    assert_eq!(queue.first_occupied_bucket(0, 255), Some(200));
    assert_eq!(queue.first_in_range(0, 199), None);
    assert!(queue.remove(200, 4));
    assert!(!queue.has_runnable());
}

#[test]
fn a_cpu_queues_its_threads() {
    let mut threads = vec![record()];
    let mut cpu = CpuState::new(0);
    cpu.adopt_thread(0, &mut threads, EnqueueKind::Normal);
    assert_eq!(cpu.load(), 1);
    assert!(threads[0].linked && cpu.has_runnable());
    assert_eq!(cpu.best_runnable(), Some(0));
    assert_eq!(cpu.summary().load, 1);
    cpu.dequeue_thread(0, &mut threads);
    assert!(!threads[0].linked && !cpu.has_runnable());
    cpu.release_thread(&threads[0]);
    assert_eq!(cpu.load(), 0);
}

#[test]
fn bootstrap_makes_idle_threads_and_two_workers() {
    let mut scheduler = bootstrap(None, 2, 1000, &slots(4));
    assert_eq!(scheduler.cpu_count(), 2);
    assert!(scheduler.thread(0).is_idle() && scheduler.thread(1).is_idle());
    assert_eq!(scheduler.thread(1).cpu, 1);
    assert!(scheduler.thread(2).linked && scheduler.thread(3).linked);
    assert_eq!(scheduler.thread(2).cpu, 0);
    let (first, deadline) = start(&mut scheduler, 0, 2000);
    assert_eq!(first, 2);
    assert!(deadline > 2000);
    assert_eq!(scheduler.thread(2).state, ThreadState::Running);
    assert_eq!(scheduler.current_thread_opt(0), Some(2));
    let (second, idle_deadline) = start(&mut scheduler, 1, 2000);
    assert_eq!((second, idle_deadline), (1, 0));
}

#[test]
fn a_wake_is_taken_once_and_an_early_one_keeps_the_thread_running() {
    let (mut scheduler, smp) = one_cpu();
    let early = scheduler.prepare_park(1);
    assert!(wake(&mut scheduler, 1, early, &site(0, 2100), &smp).0);
    assert!(!park_current(&mut scheduler, 0, 1, early, &site(0, 2200)).parked);
    let seq = scheduler.prepare_park(1);
    assert!(park_current(&mut scheduler, 0, 1, seq, &site(0, 2300)).parked);
    let outcome = trap_return(&mut scheduler, 0, 0x40, 2400);
    assert_eq!(outcome.thread, Some(2));
    assert_eq!(scheduler.thread(1).state, ThreadState::Blocked);
    assert!(wake(&mut scheduler, 1, seq, &site(0, 2500), &smp).0);
    assert_eq!(scheduler.thread(1).state, ThreadState::Ready);
    assert!(scheduler.thread(1).linked);
    assert_eq!(wake(&mut scheduler, 1, seq, &site(0, 2600), &smp), (false, KickAction::Nothing));
}

#[test]
fn an_exiting_thread_hands_over() {
    let (mut scheduler, _) = one_cpu();
    let (next, _) = exit_current(&mut scheduler, 0, 3000);
    assert_eq!(next, 2);
    assert_eq!(scheduler.thread(1).state, ThreadState::Exited);
    scheduler.publish_deferred_exit(0);
    scheduler.reap_all_exited(&Vec::new());
    let (idle, deadline) = exit_current(&mut scheduler, 0, 4000);
    assert_eq!((idle, deadline), (0, 0));
}

#[test]
fn the_best_thread_runs_next() {
    let (mut scheduler, _) = one_cpu();
    let (id, _) = create_ithread(&mut scheduler, &site(0, 2500), &slot(10));
    let ithread = id - 1;
    assert!(scheduler.thread(ithread).priority < scheduler.thread(2).priority);
    let (next, _) = exit_current(&mut scheduler, 0, 3000);
    assert_eq!(next, ithread);
}

#[test]
fn spawns_are_balanced() {
    let mut scheduler = bootstrap(None, 2, 1000, &slots(4));
    start(&mut scheduler, 0, 2000);
    start(&mut scheduler, 1, 2000);
    let (first, action) = run(&mut scheduler, &site(0, 2500), &slot(10));
    assert_eq!(scheduler.thread(first - 1).cpu, 0);
    assert!(!matches!(action, KickAction::SendIpi(_)));
    let mut counts = [1, 0];
    for i in 11..17 {
        let chosen = scheduler.pick_spawn_cpu(Some(0));
        assert!(counts[chosen] <= counts[0].min(counts[1]) + 1);
        let (id, _) = run(&mut scheduler, &site(0, 2500), &slot(i));
        assert_eq!(scheduler.thread(id - 1).cpu, chosen);
        counts[chosen] += 1;
    }
    assert!(counts[1] >= 2);
}

#[test]
fn the_nice_value_of_a_process_is_set_on_its_threads() {
    let (mut scheduler, _) = one_cpu();
    let (id, _) = run_user_thread(&mut scheduler, 7, 5, 0x9000, 0x55, &site(0, 2500), &slot(10));
    let thread = id - 1;
    assert_eq!(scheduler.thread(thread).process, Some(7));
    assert_eq!(scheduler.thread(thread).thread_pointer, 0x55);
    assert_eq!(scheduler.process_nice(7), Some(5));
    assert_eq!(scheduler.process_nice(8), None);
    assert_eq!(scheduler.set_process_nice(7, -3), 1);
    assert_eq!(scheduler.process_nice(7), Some(-3));
    assert_eq!(scheduler.set_process_nice(8, 1), 0);
    let mut core = CoreLocal::new(0);
    let activation = scheduler.activate_current(thread, &mut core);
    assert_eq!(activation.address_space, Some(0x9000));
    assert_eq!(activation.thread_pointer, 0x55);
    assert_eq!(activation.kernel_stack, slot(10).base + KSTACK_SIZE);
}

#[test]
fn a_boost_is_undone() {
    let (mut scheduler, _) = one_cpu();
    let before = scheduler.thread(2);
    boost_priority(&mut scheduler, 2, 20);
    assert_eq!(thread_priority(&scheduler, 2), 20);
    unboost_priority(&mut scheduler, 2);
    assert_eq!(thread_priority(&scheduler, 2), before.priority);
}

#[test]
fn an_idle_cpu_pulls_work() {
    let mut scheduler = Scheduler::new(2);
    scheduler.bootstrap(1000, &slots(4));
    start(&mut scheduler, 0, 2000);
    for i in 10..13 {
        let (id, _) = run(&mut scheduler, &site(0, 2500), &slot(i));
        assert_eq!(scheduler.thread(id - 1).cpu, 0);
    }
    let (pulled, _) = start(&mut scheduler, 1, 3000);
    let moved: Vec<usize> = (4..7).filter(|t| scheduler.thread(*t).cpu == 1).collect();
    assert_eq!(moved, vec![pulled]);
    assert_eq!(scheduler.thread(2).cpu, 0);
    assert!(!scheduler.try_idle_pull(1, Some(1)).0);
    assert!(!scheduler.rebalance_once(Some(0)).0);
}

#[test]
fn a_spawned_thread_keeps_its_description() {
    let mut scheduler = Scheduler::new(1);
    scheduler.bootstrap(1000, &slots(3));
    start(&mut scheduler, 0, 1500);
    let spec = ThreadSpec {
        class: ThreadClass::Timeshare,
        priority: 120,
        flags: ThreadFlags::empty(),
        nice: 2,
        process: Some(4),
        address_space: None,
        thread_pointer: 8,
    };
    let (id, _) = scheduler.spawn(&spec, 2000, &slot(5), None);
    let record = scheduler.thread(id - 1);
    assert_eq!((record.class, record.nice, record.process), (ThreadClass::Timeshare, 2, Some(4)));
    assert_eq!(record.id, id);
}

#[test]
fn balance_delays_lie_between_a_half_and_one_and_a_half_intervals() {
    let mut random = 1;
    assert_eq!(balance_delay_ns(&mut random), 582_269_761);
    assert_eq!(random, 1_082_269_761);
    let mut unseeded = 0;
    let delay = balance_delay_ns(&mut unseeded);
    assert!((500_000_000..1_500_000_000).contains(&delay));
    assert_ne!(unseeded, 0);
}

#[test]
fn cpus_are_numbered_from_the_boot_processor() {
    let mut smp = discover(&[10, 20, 30], 20);
    assert_eq!(cpu_count(&smp), 3);
    assert_eq!(online_cpus(&smp), 1);
    assert_eq!(platform_id(&smp, 0), Some(20));
    assert_eq!(platform_id(&smp, 3), None);
    assert_eq!(by_platform_id(&smp, 20), Some(0));
    assert_eq!(by_platform_id(&smp, 99), None);
    assert_eq!(secondary_cpus(&smp), vec![1, 2]);
    assert_eq!(startup_step(&smp, 0, 10), StartupStep::Wait);
    assert_eq!(startup_step(&smp, 0, 2_000_000_000), StartupStep::GiveUp);
    mark_current_online(&mut smp, 2);
    mark_current_online(&mut smp, 1);
    assert!(is_online(&smp, 2));
    assert_eq!(online_cpus(&smp), 3);
    assert_eq!(startup_step(&smp, 0, 10), StartupStep::AllOnline);
    assert_eq!(core_local(&smp, 2).map(|core| core.id), Some(2));
    assert!(core_local(&smp, 3).is_none());
}

#[test]
fn a_pending_callback_is_queued_once() {
    let mut smp = discover(&[10, 20], 10);
    mark_current_online(&mut smp, 1);
    assert_eq!(
        send_ipi(&mut smp, 77, IpiTarget::Single(1), Some(0), true, false),
        (1, IpiAction::Send(1)),
    );
    assert_eq!(
        send_ipi(&mut smp, 77, IpiTarget::Single(1), Some(0), true, false),
        (0, IpiAction::Nothing),
    );
    assert_eq!(
        send_ipi(&mut smp, 78, IpiTarget::All, Some(0), true, false),
        (1, IpiAction::SendAllExcludingSelf),
    );
    assert_eq!(drain_ipi_queue(&mut smp, 1), vec![77, 78]);
    assert_eq!(drain_ipi_queue(&mut smp, 1), Vec::<usize>::new());
    assert_eq!(
        send_ipi(&mut smp, 77, IpiTarget::Single(1), Some(0), true, false),
        (1, IpiAction::Send(1)),
    );
}

#[test]
fn interrupt_context_and_spin_locks_forbid_blocking() {
    let mut core = CoreLocal::new(0);
    assert!(is_blockable(Some(&core), true));
    let guard = enter_interrupt_context(Some(&mut core));
    assert!(in_interrupt_context(Some(&core), false));
    assert!(!in_interrupt_context(Some(&core), true));
    assert!(!is_blockable(Some(&core), false));
    leave_interrupt_context(guard, &mut core);
    let mut cpu = Masking { core, irqs: true };
    assert!(cpu.can_sleep());
    let mut lock = IrqSpinLock::new(5);
    let held = lock.lock(&mut cpu);
    assert!(lock.is_locked() && held.irqs_were_enabled() && !cpu.irqs);
    assert_eq!(spinlock_depth(Some(&cpu.core)), 1);
    assert!(!is_blockable(Some(&cpu.core), true) && !cpu.can_sleep());
    let before = cpu;
    assert!(lock.try_lock(&mut cpu).is_none());
    assert_eq!(cpu, before);
    *lock.value_mut(&held) = 6;
    assert!(held.unlock_keep_irqs_disabled(&mut lock, &mut cpu));
    assert!(!lock.is_locked() && !cpu.irqs);
    assert_eq!(spinlock_depth(Some(&cpu.core)), 0);
    assert_eq!(spinlock_depth(None), 0);
    assert!(!cpu.can_sleep());
}

#[test]
fn nested_spin_locks_restore_interrupts() {
    let mut cpu = Masking { core: CoreLocal::new(0), irqs: true };
    let mut lock = IrqSpinLock::new(5);
    let mut inner = IrqSpinLock::new(7);
    let before = cpu;
    let outer_guard = lock.lock(&mut cpu);
    let inner_guard = inner.try_lock(&mut cpu).unwrap();
    assert!(!inner_guard.irqs_were_enabled());
    assert_eq!(cpu.core.spinlock_depth, 2);
    inner_guard.unlock(&mut inner, &mut cpu);
    assert!(!cpu.irqs);
    outer_guard.unlock(&mut lock, &mut cpu);
    assert_eq!(cpu, before);
    let mut masked = Masking { irqs: false, ..before };
    let guard = lock.lock(&mut masked);
    guard.unlock(&mut lock, &mut masked);
    assert!(!masked.irqs);
}

#[test]
fn a_resent_callback_is_queued_nowhere() {
    let mut smp = discover(&[7, 8, 9], 7);
    for cpu_id in 0..3 {
        mark_current_online(&mut smp, cpu_id);
    }
    let first = send_ipi(&mut smp, 5, IpiTarget::All, Some(0), true, false);
    assert_eq!(first, (2, IpiAction::SendAllExcludingSelf));
    let second = send_ipi(&mut smp, 5, IpiTarget::All, Some(0), true, false);
    assert_eq!(second, (0, IpiAction::Nothing));
    assert_eq!(drain_ipi_queue(&mut smp, 2), vec![5]);
    let third = send_ipi(&mut smp, 5, IpiTarget::All, Some(0), true, false);
    assert_eq!(third, (1, IpiAction::SendAllExcludingSelf));
}

#[test]
fn spin_waits_double_up_to_a_limit() {
    assert_eq!(spin_backoff(1), 2);
    assert_eq!(spin_backoff(64), 64);
    let mut wait = SpinWait::new();
    let spins: Vec<u32> = (0..8).map(|_| wait.spin()).collect();
    assert_eq!(spins, vec![1, 2, 4, 8, 16, 32, 64, 64]);
}

#[test]
fn a_value_is_made_once() {
    let mut once = Once::new();
    assert!(once.get().is_none());
    assert_eq!(*once.call_once(|| 5), 5);
    assert_eq!(*once.call_once(|| 6), 5);
    let mut failing: Once<u32> = Once::new();
    assert_eq!(failing.begin(), OnceStep::Initialize);
    assert_eq!(failing.begin(), OnceStep::Wait);
    failing.abandon();
    assert_eq!(failing.begin(), OnceStep::Failed);
    let mut slow = Once::new();
    assert_eq!(slow.begin(), OnceStep::Initialize);
    slow.finish(9);
    assert_eq!(slow.begin(), OnceStep::Ready);
    assert_eq!(slow.get(), Some(&9));
}

fn thread_context() -> Masking {
    Masking { core: CoreLocal::new(0), irqs: true }
}

#[test]
fn a_contender_spins_before_it_queues_up() {
    let mut mutex = Mutex::new(1);
    let cpu = thread_context();
    let mut attempt = LockAttempt::new(2);
    assert_eq!(attempt.looks, ACTIVE_SPIN_ITERS);
    assert_eq!(LockAttempt::new(1).looks, 0);
    let _holder = mutex.lock(Some(1), &cpu).unwrap();
    let mut spins = Vec::new();
    loop {
        match mutex.lock_step(&mut attempt, Some(2), &cpu) {
            LockStep::Spin(count) => spins.push(count),
            LockStep::Queue => break,
            LockStep::Acquired(_) => panic!("taken twice"),
        }
    }
    assert_eq!(spins, vec![1, 2, 4, 8, 16, 32, 64, 64]);
    assert!(matches!(mutex.lock_step(&mut attempt, Some(2), &cpu), LockStep::Queue));
    let masked = Masking { irqs: false, ..cpu };
    assert!(matches!(mutex.lock_step(&mut attempt, Some(2), &masked), LockStep::Spin(64)));
    assert!(matches!(mutex.lock_step(&mut attempt, None, &cpu), LockStep::Spin(64)));
    let mut free = Mutex::new(1);
    let mut alone = LockAttempt::new(1);
    assert!(matches!(free.lock_step(&mut alone, Some(2), &cpu), LockStep::Acquired(_)));
}

#[test]
fn an_uncontended_mutex_opens_and_closes() {
    let (mut scheduler, smp) = one_cpu();
    let mut mutex = Mutex::new(7);
    let cpu = thread_context();
    let guard = mutex.lock(Some(1), &cpu).unwrap();
    assert!(mutex.is_locked());
    assert!(mutex.try_lock(Some(2), &cpu).is_none());
    *mutex.value_mut(&guard) = 8;
    assert!(mutex.unlock(guard, &cpu, &mut scheduler, &site(0, 2500), &smp).is_none());
    assert!(!mutex.is_locked());
    *mutex.get_mut() += 1;
    assert_eq!(mutex.into_inner(), 9);
}

#[test]
fn waiters_lend_their_priority_and_get_the_mutex_in_order() {
    let (mut scheduler, smp) = one_cpu();
    let (id, _) = run(&mut scheduler, &site(0, 2100), &slot(10));
    let third = id - 1;
    let own = thread_priority(&scheduler, 1);
    let mut mutex = Mutex::new(());
    let cpu = thread_context();
    let guard = mutex.lock(Some(1), &cpu).unwrap();
    assert!(matches!(mutex.lock_slow(Some(2), false), Contention::Spin));
    assert!(matches!(mutex.lock_slow(Some(2), true), Contention::Queue));
    let first = scheduler.prepare_park(2);
    let queued = mutex.queue_waiter(2, first, 30, &mut scheduler, &site(0, 2200), &smp);
    assert!(matches!(queued, QueueStep::Sleep));
    assert_eq!(thread_priority(&scheduler, 1), 30);
    let second = scheduler.prepare_park(third);
    let queued = mutex.queue_waiter(third, second, 45, &mut scheduler, &site(0, 2300), &smp);
    assert!(matches!(queued, QueueStep::Sleep));
    let released = mutex.unlock(guard, &cpu, &mut scheduler, &site(0, 2400), &smp).unwrap();
    assert_eq!(released.0, WakeTarget { thread: 2, park_seq: first });
    assert_eq!(thread_priority(&scheduler, 1), own);
    assert!(mutex.try_lock(Some(1), &cpu).is_none());
    let guard = mutex.lock_resumed(2, first, &mut scheduler).unwrap();
    let released = mutex.unlock(guard, &cpu, &mut scheduler, &site(0, 2500), &smp).unwrap();
    assert_eq!(released.0, WakeTarget { thread: third, park_seq: second });
    let guard = mutex.lock_resumed(third, second, &mut scheduler).unwrap();
    assert!(mutex.unlock(guard, &cpu, &mut scheduler, &site(0, 2600), &smp).is_none());
}

#[test]
fn a_signal_ends_a_wait_once_and_stays() {
    let mut groups = WaitGroups::new();
    let mut events = vec![Event::new(), Event::new()];
    assert_eq!(wait_any(&thread_context(), &mut events, &mut groups, 3, 9), None);
    assert_eq!(events[1].signal(&mut groups), vec![WakeTarget { thread: 3, park_seq: 9 }]);
    assert_eq!(events[0].signal(&mut groups), vec![]);
    assert_eq!(finish_wait(&mut events, &groups, 3), 1);
    assert!(events[0].is_signaled() && events[1].is_signaled());
    assert_eq!(ready_event(&events), Some(0));
    assert_eq!(wait_any(&thread_context(), &mut events, &mut groups, 3, 10), Some(0));
    assert!(events[0].reset());
    assert!(!events[0].reset());
    assert_eq!(wait_any(&thread_context(), &mut events, &mut groups, 3, 11), Some(1));
}

#[test]
fn a_wait_begins_with_a_sleep_or_ends_at_once() {
    let (mut scheduler, smp) = one_cpu();
    let mut groups = WaitGroups::new();
    let mut events = vec![Event::new(), Event::new()];
    let thread = scheduler.current_thread_opt(0).unwrap();
    let cpu = thread_context();
    events[1].signal(&mut groups);
    let place = site(0, 2600);
    let start =
        begin_wait(&cpu, &mut events, &mut groups, &mut scheduler, thread, &place, &smp);
    assert!(matches!(start, WaitStart::Won(1, _)));
    assert_eq!(scheduler.thread(thread).park_state, ParkState::Idle);
    assert_eq!(events[0].wake_one(&mut groups), None);
    events[1].reset();
    let start =
        begin_wait(&cpu, &mut events, &mut groups, &mut scheduler, thread, &place, &smp);
    assert!(matches!(start, WaitStart::Asleep(outcome) if outcome.parked && outcome.enable_irqs));
    assert_eq!(scheduler.thread(thread).park_state, ParkState::Parked);
    let park_seq = scheduler.thread(thread).park_seq;
    assert_eq!(events[0].signal(&mut groups), vec![WakeTarget { thread, park_seq }]);
    assert_eq!(finish_wait(&mut events, &groups, thread), 0);
}

#[test]
fn the_oldest_waiter_wakes_first() {
    let mut groups = WaitGroups::new();
    groups.begin(1, 5);
    groups.begin(2, 6);
    let mut event = Event::new();
    let first = EventWaiter { thread: 1, index: 0 };
    let second = EventWaiter { thread: 2, index: 0 };
    assert_eq!(event.register_wait(&mut groups, first), Registration::Waiting);
    assert_eq!(event.register_wait(&mut groups, second), Registration::Waiting);
    assert_eq!(event.wake_one(&mut groups), Some(WakeTarget { thread: 1, park_seq: 5 }));
    assert_eq!(groups.winner(1), Some(0));
    assert_eq!(event.wake_one(&mut groups), Some(WakeTarget { thread: 2, park_seq: 6 }));
    assert_eq!(event.wake_one(&mut groups), None);
    assert!(!event.is_signaled());
}

#[test]
fn everyone_hears_a_signal() {
    let (mut scheduler, smp) = one_cpu();
    let mut groups = WaitGroups::new();
    let mut event = Event::new();
    let seq = scheduler.prepare_park(2);
    groups.begin(1, 1);
    groups.begin(2, seq);
    for thread in [1, 2] {
        event.register_wait(&mut groups, EventWaiter { thread, index: 0 });
    }
    let targets = event.wake_all(&mut groups);
    assert_eq!(targets.len(), 2);
    let woken = wake_targets(&targets, &mut scheduler, &site(0, 2500), &smp);
    assert_eq!(woken.iter().map(|woke| woke.0).collect::<Vec<bool>>(), vec![false, true]);
    groups.begin(1, 2);
    event.register_wait(&mut groups, EventWaiter { thread: 1, index: 0 });
    event.unregister(EventWaiter { thread: 1, index: 0 });
    assert_eq!(event.signal(&mut groups), vec![]);
}

#[test]
fn a_busy_thread_is_never_interactive() {
    let mut thread = record();
    thread.runtime_ns = 500;
    thread.slptime_ns = 500;
    thread.nice = -20;
    priority_update(&mut thread);
    assert!(thread.priority > MAX_INTERACT);
}
