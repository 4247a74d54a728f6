use roanix::mem::UserMemory;
use roanix::sys::clock::{
    apply_deadline, bootstrap_clocks, delay, delay_is_over, duration_to_ns, finish_sleep,
    format_frequency,
    handle_local_timer_interrupt, monotonic_ns, monotonic_ns_or_zero, program_timer, realtime_is_set,
    realtime_ns, register_clocksource, register_event_timer, remove_timer, set_realtime_offset,
    set_scheduler_deadline, sleep, start_cpu, stop, timed_wait_winner, wait_any_timeout, Clock,
    ClockScale, ClockSource, EventTimer, LocalClockState, TimedWait, TimerOp, TimerTarget,
};
use roanix::sys::smp::{CoreLocal, Masking};
use roanix::sys::sync::WakeTarget;
use roanix::sys::syscall::{syscall_clock_get, syscall_clock_sleep, syscall_system_uname};
use roanix::syscall::{Errno, Timespec};
use roanix::Arch;
use std::sync::Mutex;

struct Counter {
    frequency: u64,
}

impl ClockSource for Counter {
    fn name(&self) -> &'static str {
        "counter"
    }

    fn rating(&self) -> u32 {
        100
    }

    fn frequency_hz(&self) -> u64 {
        self.frequency
    }

    fn counter(&self) -> u64 {
        500
    }
}

struct Shot {
    min: u64,
    max: u64,
    calls: Mutex<Vec<Option<u64>>>,
}

impl EventTimer for Shot {
    fn name(&self) -> &'static str {
        "shot"
    }

    fn min_period_ns(&self) -> u64 {
        self.min
    }

    fn max_period_ns(&self) -> u64 {
        self.max
    }

    fn set_oneshot(&self, delay_ns: u64) {
        self.calls.lock().unwrap().push(Some(delay_ns));
    }

    fn stop(&self) {
        self.calls.lock().unwrap().push(None);
    }
}

fn span(seconds: u64, nanoseconds: u32) -> Timespec {
    Timespec { seconds, nanoseconds }
}

#[test]
fn cycles_and_nanoseconds_convert() {
    let exact = ClockScale::new(1_000_000_000);
    assert_eq!(exact.cycles_to_ns(12_345), 12_345);
    let slow = ClockScale::new(10_000_000);
    assert_eq!(slow.cycles_to_ns(10), 1_000);
    assert!((10..=11).contains(&slow.ns_to_cycles(1_000)));
}

#[test]
fn waits_take_the_cycles_that_they_need() {
    let gigahertz = ClockScale::new(1_000_000_000);
    for ns in [0, 1, 999, 123_456_789, u64::MAX] {
        assert_eq!(gigahertz.ns_to_cycles(ns), ns);
    }
    let slow = ClockScale::new(10_000_000);
    assert_eq!((slow.ns_to_cycles(0), slow.ns_to_cycles(1)), (0, 1));
    let fast = ClockScale::new(3_000_000_000);
    assert_eq!(fast.ns_to_cycles(u64::MAX), u64::MAX);
    let mut last = 0;
    for ns in (0..2_000).map(|step| step * 37) {
        let cycles = slow.ns_to_cycles(ns);
        let exact = (ns * 10_000_000).div_ceil(1_000_000_000);
        assert!(exact <= cycles && cycles <= exact + 1);
        assert!(last <= cycles);
        last = cycles;
    }
}

#[test]
fn a_sleeper_goes_on_after_its_deadline() {
    let masked = Masking { core: CoreLocal::new(0), irqs: false };
    let cpu = Masking { irqs: true, ..masked };
    let mut local = LocalClockState::new();
    let sleeper = WakeTarget { thread: 4, park_seq: 8 };
    assert_eq!(sleep(&masked, &mut local, 100, span(0, 0), sleeper), None);
    let (timer, _) = sleep(&cpu, &mut local, 100, span(0, 50), sleeper).unwrap();
    assert_eq!(handle_local_timer_interrupt(&mut local, 149), vec![]);
    assert_eq!(local.finish_interrupt(149), Some(150));
    assert_eq!(finish_sleep(&mut local, timer, 149, Some(0)), None);
    let woken = handle_local_timer_interrupt(&mut local, 150);
    assert_eq!(woken, vec![TimerTarget::Thread(sleeper)]);
    assert_eq!(local.finish_interrupt(150), None);
    assert_eq!(finish_sleep(&mut local, timer, 150, Some(0)), Some(None));
    let (again, _) = sleep(&cpu, &mut local, 200, span(0, 50), sleeper).unwrap();
    assert_eq!(finish_sleep(&mut local, again, 300, Some(0)), Some(Some(0)));
    assert_eq!(local.take_due(400), vec![]);
}

#[test]
fn time_never_goes_back() {
    let scale = ClockScale::new(24_000_000);
    let times: Vec<u64> = (0..100).map(|cycles| scale.cycles_to_ns(cycles * 7)).collect();
    assert!(times.windows(2).all(|pair| pair[0] <= pair[1]));
    assert_eq!(times[0], 0);
}

#[test]
fn a_clock_counts_from_its_registration() {
    let mut clock = Clock::new();
    assert_eq!(monotonic_ns_or_zero(&clock, 900), 0);
    assert!(register_clocksource(&mut clock, &Counter { frequency: 1_000_000_000 }));
    assert_eq!(monotonic_ns(&clock, 1500), 1000);
    assert!(!realtime_is_set(&clock));
    set_realtime_offset(&mut clock, 77);
    assert!(realtime_is_set(&clock));
    assert_eq!(realtime_ns(&clock, 1500), 1077);
    register_event_timer(&mut clock);
    assert!(clock.has_event_timer);
    let mut other = Clock::new();
    assert!(!register_clocksource(&mut other, &Counter { frequency: 0 }));
}

#[test]
fn delays_are_long_enough() {
    let mut clock = Clock::new();
    clock.adopt(24_000_000, 0);
    let cycles = delay(&clock, span(0, 1_000));
    assert!(monotonic_ns(&clock, cycles) >= 1_000);
    assert!(!delay_is_over(10, 10 + cycles - 1, cycles));
    assert!(delay_is_over(10, 10 + cycles, cycles));
    assert!(delay_is_over(u64::MAX, cycles - 1, cycles));
    assert_eq!(duration_to_ns(span(2, 5)), 2_000_000_005);
    assert_eq!(delay(&Clock::new(), span(0, 0)), 0);
    assert_eq!(delay(&clock, span(0, 0)), 0);
}

#[test]
fn frequencies_are_shown_in_hundredths() {
    assert_eq!(format_frequency(2_995_000_000), (3, 0, "GHz"));
    assert_eq!(format_frequency(10_000_000), (10_000, 0, "KHz"));
    assert_eq!(format_frequency(1_234), (1, 23, "KHz"));
}

#[test]
fn the_earliest_deadline_is_armed() {
    let mut local = LocalClockState::new();
    assert_eq!(start_cpu(&mut local), None);
    assert_eq!(set_scheduler_deadline(&mut local, 500), Some(500));
    assert_eq!(set_scheduler_deadline(&mut local, 500), None);
    let (early, arm) = local.insert_timer(300, 0, TimerTarget::Event(1));
    assert_eq!(arm, Some(300));
    assert_eq!(local.insert_timer(400, 0, TimerTarget::Event(2)).1, None);
    assert_eq!(remove_timer(&mut local, early, Some(0)), Some(400));
    assert_eq!(handle_local_timer_interrupt(&mut local, 450), vec![TimerTarget::Event(2)]);
    assert_eq!(local.finish_interrupt(450), Some(500));
    assert_eq!(stop(&mut local), Some(0));
    assert_eq!(stop(&mut local), None);
}

#[test]
fn stopping_ends_delivery_though_a_timer_is_pending() {
    let mut local = LocalClockState::new();
    assert_eq!(set_scheduler_deadline(&mut local, 500), Some(500));
    assert_eq!(local.insert_timer(300, 0, TimerTarget::Event(1)).1, Some(300));
    assert_eq!(stop(&mut local), Some(0));
    assert_eq!(local.take_due(400), vec![TimerTarget::Event(1)]);
    local.insert_timer(900, 0, TimerTarget::Event(2));
    assert_eq!(stop(&mut local), Some(0));
    assert_eq!(start_cpu(&mut local), Some(900));
}

#[test]
fn due_timers_fire_in_order_and_cancelled_ones_do_not() {
    let mut local = LocalClockState::new();
    let (late, _) = local.insert_timer(300, 1, TimerTarget::Event(3));
    local.insert_timer(100, 1, TimerTarget::Event(1));
    local.insert_timer(100, 1, TimerTarget::Event(2));
    local.insert_timer(900, 1, TimerTarget::Event(9));
    assert_eq!(remove_timer(&mut local, late, Some(0)), None);
    assert_eq!(local.take_expired(99), None);
    assert_eq!(local.take_due(800), vec![TimerTarget::Event(1), TimerTarget::Event(2)]);
    assert_eq!(local.take_due(800), vec![]);
    assert_eq!(bootstrap_clocks(3).len(), 3);
}

#[test]
fn sleeps_and_timed_waits_use_timers() {
    let cpu = Masking { core: CoreLocal::new(0), irqs: true };
    let mut local = LocalClockState::new();
    let sleeper = WakeTarget { thread: 4, park_seq: 8 };
    assert_eq!(sleep(&cpu, &mut local, 100, span(0, 0), sleeper), None);
    let (timer, arm) = sleep(&cpu, &mut local, 100, span(0, 50), sleeper).unwrap();
    assert_eq!((timer.deadline_ns, timer.target), (150, TimerTarget::Thread(sleeper)));
    assert_eq!(arm, Some(150));
    assert_eq!(
        wait_any_timeout(&cpu, &mut local, Some(2), 100, span(0, 0), 5),
        TimedWait::Polled(Some(2)),
    );
    assert!(matches!(
        wait_any_timeout(&cpu, &mut local, None, 100, span(1, 0), 5),
        TimedWait::Waiting(timer, None) if timer.deadline_ns == 1_000_000_100,
    ));
    assert_eq!(timed_wait_winner(3, 3), None);
    assert_eq!(timed_wait_winner(1, 3), Some(1));
}

#[test]
fn the_hardware_is_programmed_within_its_limits() {
    assert_eq!(apply_deadline(0, 100, 10, 1000), TimerOp::Stop);
    assert_eq!(apply_deadline(500, 100, 10, 1000), TimerOp::OneShot(400));
    assert_eq!(apply_deadline(50, 100, 10, 1000), TimerOp::OneShot(10));
    assert_eq!(apply_deadline(9000, 100, 10, 1000), TimerOp::OneShot(1000));
    let shot = Shot { min: 10, max: 1000, calls: Mutex::new(Vec::new()) };
    assert_eq!(program_timer(&shot, 500, 100), Some(TimerOp::OneShot(400)));
    assert_eq!(program_timer(&shot, 0, 100), Some(TimerOp::Stop));
    assert_eq!(*shot.calls.lock().unwrap(), vec![Some(400), None]);
    let odd = Shot { min: 10, max: 5, calls: Mutex::new(Vec::new()) };
    assert_eq!(program_timer(&odd, 500, 100), None);
}

#[test]
fn the_time_is_told_to_programs() {
    let mut memory = UserMemory { start: 0x4000, bytes: vec![0; 16] };
    let now = 3_000_000_007;
    assert_eq!(syscall_clock_get(&mut memory, 1, 0x4000, 0x4008, now), Ok(0));
    assert_eq!((memory.bytes[0], memory.bytes[8]), (3, 7));
    assert_eq!(syscall_clock_get(&mut memory, 9, 0x4000, 0x4008, now), Err(Errno::Invalid));
    assert_eq!(syscall_clock_get(&mut memory, 1, 0x9000, 0x4008, now), Err(Errno::Fault));
    assert_eq!(syscall_clock_sleep(2, 5), Ok(span(2, 5)));
    assert_eq!(syscall_clock_sleep(2, 1_000_000_000), Err(Errno::Invalid));
}

#[test]
fn the_system_has_a_name() {
    let mut memory = UserMemory { start: 0x4000, bytes: vec![0; 390] };
    let named = syscall_system_uname(&mut memory, 0x4000, Arch::X86_64, b"0.1.0", b"today");
    assert_eq!(named, Ok(0));
    for (field, text) in [(0, "Roanix"), (1, "local"), (2, "0.1.0"), (3, "#1 today"), (4, "x86_64")] {
        assert_eq!(&memory.bytes[field * 65..field * 65 + text.len()], text.as_bytes());
        assert_eq!(memory.bytes[field * 65 + text.len()], 0);
    }
    let far = syscall_system_uname(&mut memory, 0x4001, Arch::X86_64, b"0.1.0", b"today");
    assert_eq!(far, Err(Errno::Fault));
}
