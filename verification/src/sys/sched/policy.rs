//! Priority bands, interactivity scoring and CPU-usage decay.

use vstd::prelude::*;
use crate::num::{cap_u64, max_int, max_u64, min_int, minus_or_zero, mul_capped};
use crate::sys::thread::{Thread, ThreadClass, ThreadFlags, NICE_MAX, NICE_MIN};

verus! {

/// Lowest nice value the priority formula knows.
pub const PRIO_MIN: i32 = -20;

/// Highest nice value the priority formula knows.
pub const PRIO_MAX: i32 = 20;

/// Worst priority of an interrupt thread.
pub const MAX_ITHD: u8 = 7;

/// Best priority below which a wake always preempts.
pub const MIN_KERN: u8 = 40;

/// Best timeshare priority.
pub const MIN_TIMESHARE: u8 = 56;

/// Worst timeshare priority.
pub const MAX_TIMESHARE: u8 = 223;

/// Best idle priority.
pub const MIN_IDLE: u8 = 224;

/// Worst idle priority.
pub const MAX_IDLE: u8 = 255;

/// Priorities set aside for the nice value.
pub const SCHED_PRI_NRESV: u32 = 50;

/// Best priority of an interactive thread.
pub const MIN_INTERACT: u8 = 56;

/// Worst priority of an interactive thread.
pub const MAX_INTERACT: u8 = 114;

/// Best priority of a batch thread.
pub const MIN_BATCH: u8 = 115;

/// Worst priority of a batch thread.
pub const MAX_BATCH: u8 = 223;

/// Number of batch priorities.
pub const PRI_BATCH_RANGE: usize = 109;

/// Batch priorities left for CPU usage.
pub const SCHED_PRI_CPU_RANGE: u32 = 59;

/// Score of a thread that runs as long as it sleeps.
pub const SCHED_INTERACT_HALF: u64 = 50;

/// Score below which a thread counts as interactive.
pub const SCHED_INTERACT_THRESH: u64 = 30;

/// Fixed-point scale of the CPU-usage estimate.
pub const SCHED_TICK_SCALE: u64 = 1024;

/// Longest CPU-usage window.
pub const SCHED_CPU_DECAY_WINDOW_NS: u64 = 11_000_000_000;

/// CPU-usage window after decay.
pub const SCHED_CPU_DECAY_TARGET_NS: u64 = 10_000_000_000;

/// Sleep and run history kept for the interactivity score.
pub const SCHED_SLP_RUN_MAX_NS: u64 = 5_000_000_000;

/// Shortest sleep that counts as voluntary.
pub const SCHED_SLEEP_TICK_NS: u64 = 1_000_000;

/// Nanoseconds in a second.
pub const NSEC_PER_SEC: u64 = 1_000_000_000;

/// Period of the 127 Hz statistics clock.
pub const SCHED_STAT_INTERVAL_NS: u64 = 7_874_015;

/// Slice of a thread that runs alone.
pub const SCHED_SLICE_DEFAULT_NS: u64 = 7_874_015;

/// Load from which on a slice no longer shrinks.
pub const SCHED_SLICE_MIN_DIVISOR: usize = 6;

/// Shortest slice.
pub const SCHED_SLICE_MIN_NS: u64 = 1_312_335;

/// Mean time between two load-balancing passes.
pub const SCHED_BALANCE_INTERVAL_NS: u64 = 1_000_000_000;

/// How recently a thread must have run to prefer its CPU.
pub const SCHED_WAKE_AFFINITY_NS: u64 = 2_000_000;

/// Least load of a CPU that others take threads from.
pub const SCHED_STEAL_THRESHOLD: usize = 2;

/// Slice length for a runnable load.
pub open spec fn slice_for(load: int) -> u64 {
    if load <= 1 {
        SCHED_SLICE_DEFAULT_NS
    } else if load >= SCHED_SLICE_MIN_DIVISOR {
        SCHED_SLICE_MIN_NS
    } else {
        (SCHED_SLICE_DEFAULT_NS as int / load) as u64
    }
}

/// Slice lengths by runnable load.
#[derive(Copy, Clone)]
pub struct SchedulerConfig {
    /// Slice of a thread that runs alone or is not timeshared.
    pub sched_slice_ns: u64,
    /// How recently a thread must have run to prefer its CPU.
    pub wake_affinity_ns: u64,
    /// Slice length per runnable-load level.
    pub slice_by_load: [u64; 7],
}

impl SchedulerConfig {
    /// The table holds the slice of every load level.
    pub open spec fn wf(self) -> bool {
        &&& self.sched_slice_ns == SCHED_SLICE_DEFAULT_NS
        &&& self.wake_affinity_ns == SCHED_WAKE_AFFINITY_NS
        &&& forall|i: int| 0 <= i < 7 ==> #[trigger] self.slice_by_load[i] == slice_for(i)
    }

    /// Computes the slice table.
    pub fn new() -> (config: Self)
        ensures
            config.wf(),
    {
        let slice: u64 = SCHED_SLICE_DEFAULT_NS;
        let least: u64 = max_u64(slice / 6, 1);
        let table: [u64; 7] = [
            slice,
            slice,
            max_u64(slice / 2, least),
            max_u64(slice / 3, least),
            max_u64(slice / 4, least),
            max_u64(slice / 5, least),
            least,
        ];
        SchedulerConfig {
            sched_slice_ns: slice,
            wake_affinity_ns: SCHED_WAKE_AFFINITY_NS,
            slice_by_load: table,
        }
    }

    /// Returns the slice length for a runnable load.
    pub fn slice_for_load(&self, runnable_load: usize) -> (slice: u64)
        requires
            self.wf(),
        ensures
            slice == slice_for(runnable_load as int),
    {
        let level: usize = if runnable_load < SCHED_SLICE_MIN_DIVISOR {
            runnable_load
        } else {
            SCHED_SLICE_MIN_DIVISOR
        };
        self.slice_by_load[level]
    }
}

/// A slice never grows with load and stays between the bounds.
pub proof fn law_slice_shrinks_with_load(less: int, more: int)
    requires
        0 <= less <= more,
    ensures
        SCHED_SLICE_MIN_NS <= slice_for(more) <= slice_for(less) <= SCHED_SLICE_DEFAULT_NS,
{
    assert(slice_for(2) == 3_937_007);
    assert(slice_for(3) == 2_624_671);
    assert(slice_for(4) == 1_968_503);
    assert(slice_for(5) == 1_574_803);
}

/// Whether a thread of `priority` preempts one of priority `current`.
pub open spec fn preempts(priority: u8, current: u8, remote: bool) -> bool {
    priority < current && (current >= MIN_IDLE || priority < MIN_KERN || (remote && priority
        <= MAX_INTERACT && current > MAX_INTERACT))
}

/// Returns whether a thread of `priority` preempts one of priority `current`.
pub fn should_preempt(priority: u8, current: u8, remote: bool) -> (preempt: bool)
    ensures
        preempt == preempts(priority, current, remote),
{
    if priority >= current {
        return false;
    }
    if current >= MIN_IDLE {
        return true;
    }
    if priority < MIN_KERN {
        return true;
    }
    remote && priority <= MAX_INTERACT && current > MAX_INTERACT
}

/// Length of a thread's CPU-usage window.
pub open spec fn window_length(thread: Thread) -> int {
    max_int(minus_or_zero(thread.cpu_last_update_ns as int, thread.cpu_window_start_ns as int), 1)
}

/// Returns the length of a thread's CPU-usage window, at least one.
pub fn window_length_ns(thread: &Thread) -> (len: u64)
    ensures
        len == window_length(*thread),
{
    max_u64(thread.cpu_last_update_ns.saturating_sub(thread.cpu_window_start_ns), 1)
}

/// Interactivity score of a thread with the given run and sleep history.
pub open spec fn score_of(runtime_ns: int, slptime_ns: int) -> int {
    let half = SCHED_INTERACT_HALF as int;
    if SCHED_INTERACT_THRESH <= SCHED_INTERACT_HALF && runtime_ns >= slptime_ns {
        half
    } else if runtime_ns > slptime_ns {
        half + minus_or_zero(half, slptime_ns / max_int(runtime_ns / half, 1))
    } else if slptime_ns > runtime_ns {
        runtime_ns / max_int(slptime_ns / half, 1)
    } else if runtime_ns != 0 {
        half
    } else {
        0
    }
}

/// Computes a thread's interactivity score.
///
/// A thread that ran at least as long as it slept cannot score below the
/// threshold, so its exact score is not computed.
pub fn interact_score(thread: &Thread) -> (score: u64)
    ensures
        score == score_of(thread.runtime_ns as int, thread.slptime_ns as int),
        score <= 100,
{
    let half: u64 = SCHED_INTERACT_HALF;
    proof {
        law_score_range(thread.runtime_ns as int, thread.slptime_ns as int);
    }
    if SCHED_INTERACT_THRESH <= SCHED_INTERACT_HALF && thread.runtime_ns >= thread.slptime_ns {
        return half;
    }
    let div: u64 = max_u64(thread.slptime_ns / half, 1);
    thread.runtime_ns / div
}

/// Interactivity scores lie in `0..=100`.
pub proof fn law_score_range(runtime_ns: int, slptime_ns: int)
    requires
        runtime_ns >= 0,
        slptime_ns >= 0,
    ensures
        0 <= score_of(runtime_ns, slptime_ns) <= 100,
{
    if slptime_ns > runtime_ns {
        let div = max_int(slptime_ns / 50, 1);
        assert(runtime_ns < 50 * div + 50);
        assert(0 <= runtime_ns / div <= 100) by (nonlinear_arith)
            requires
                runtime_ns >= 0,
                div >= 1,
                runtime_ns < 50 * div + 50,
        ;
    }
}

/// Batch-priority offset for CPU usage `estimate` over a window of `len`.
pub open spec fn cpu_offset(estimate: int, len: int) -> int {
    ((58 * estimate + len / 2) / len + 512) / 1024
}

/// Batch-priority offset for a nice value.
pub open spec fn nice_offset(nice: int) -> int {
    ((nice - PRIO_MIN) * 5) / 4
}

/// Priority of a timeshare thread.
pub open spec fn timeshare_priority(thread: Thread) -> int {
    let score = max_int(
        score_of(thread.runtime_ns as int, thread.slptime_ns as int) + thread.nice,
        0,
    );
    if score < SCHED_INTERACT_THRESH {
        MIN_INTERACT + (59 * score) / 30
    } else {
        min_int(
            MIN_BATCH + min_int(cpu_offset(thread.cpu_estimate as int, window_length(thread)), 58)
                + nice_offset(thread.nice as int),
            MAX_BATCH as int,
        )
    }
}

/// A thread with its priority recomputed from its history.
pub open spec fn reprioritized(thread: Thread) -> Thread {
    if thread.class != ThreadClass::Timeshare {
        thread
    } else {
        let priority = timeshare_priority(thread) as u8;
        Thread { user_priority: priority, base_priority: priority, ..thread }.refreshed()
    }
}

/// Whether a nice value is one that threads can have.
pub open spec fn nice_in_range(nice: i8) -> bool {
    NICE_MIN <= nice <= NICE_MAX
}

/// Nice values run from -20 to 20.
pub proof fn law_nice_range(nice: i8)
    ensures
        nice_in_range(nice) <==> -20 <= nice <= 20,
{
}

proof fn lemma_cpu_offset(estimate: int, len: int)
    requires
        estimate >= 0,
        len >= 1,
    ensures
        cpu_offset(estimate, len) >= 0,
{
    assert((58 * estimate + len / 2) / len >= 0) by (nonlinear_arith)
        requires
            estimate >= 0,
            len >= 1,
    ;
}

/// Timeshare priorities stay in the timeshare band; interactive ones stay in
/// the interactive part and all others in the batch part.
pub proof fn law_priority_bands(thread: Thread)
    requires
        nice_in_range(thread.nice),
    ensures
        MIN_TIMESHARE <= timeshare_priority(thread) <= MAX_TIMESHARE,
        timeshare_priority(thread) <= MAX_INTERACT <==> score_of(
            thread.runtime_ns as int,
            thread.slptime_ns as int,
        ) + thread.nice < SCHED_INTERACT_THRESH,
{
    law_score_range(thread.runtime_ns as int, thread.slptime_ns as int);
    lemma_cpu_offset(thread.cpu_estimate as int, window_length(thread));
}

/// A thread that ran at least as long as it slept is never interactive,
/// whatever its nice value.
pub proof fn law_busy_thread_is_not_interactive(thread: Thread)
    requires
        nice_in_range(thread.nice),
        thread.runtime_ns >= thread.slptime_ns,
    ensures
        timeshare_priority(thread) > MAX_INTERACT,
{
    law_priority_bands(thread);
}

/// Raising the nice value of a thread never improves its priority.
pub proof fn law_nicer_is_never_better(thread: Thread, nicer: i8)
    requires
        nice_in_range(thread.nice),
        nice_in_range(nicer),
        thread.nice <= nicer,
    ensures
        timeshare_priority(thread) <= timeshare_priority(Thread { nice: nicer, ..thread }),
{
    law_priority_bands(thread);
    law_priority_bands(Thread { nice: nicer, ..thread });
}

/// Recomputes a timeshare thread's priority from its score, CPU usage and
/// nice value.
pub fn priority_update(thread: &mut Thread)
    requires
        nice_in_range(old(thread).nice),
    ensures
        *final(thread) == reprioritized(*old(thread)),
{
    match thread.class {
        ThreadClass::Timeshare => {},
        _ => {
            return;
        },
    }
    proof {
        law_priority_bands(*thread);
        lemma_cpu_offset(thread.cpu_estimate as int, window_length(*thread));
    }
    let signed: i64 = interact_score(thread) as i64 + thread.nice as i64;
    let score: u64 = if signed < 0 {
        0
    } else {
        signed as u64
    };
    let priority: u8 = if score < SCHED_INTERACT_THRESH {
        MIN_INTERACT + ((59 * score) / 30) as u8
    } else {
        let len: u128 = window_length_ns(thread) as u128;
        let usage: u128 = (58 * (thread.cpu_estimate as u128) + len / 2) / len;
        proof {
            assert((58 * (thread.cpu_estimate as int) + len / 2) / (len as int) <= 58 * (
            thread.cpu_estimate as int) + len / 2) by (nonlinear_arith)
                requires
                    len >= 1,
                    thread.cpu_estimate >= 0,
            ;
        }
        let offset: u128 = (usage + 512) / 1024;
        let capped: u32 = if offset < 58 {
            offset as u32
        } else {
            58
        };
        let nice_off: u32 = (((thread.nice as i32) - PRIO_MIN) as u32 * 5) / 4;
        let sum: u32 = MIN_BATCH as u32 + capped + nice_off;
        if sum < MAX_BATCH as u32 {
            sum as u8
        } else {
            MAX_BATCH
        }
    };
    thread.user_priority = priority;
    thread.base_priority = priority;
    thread.refresh_priority();
}

/// The same thread with another CPU-usage estimate over the same window.
pub open spec fn with_usage(thread: Thread, estimate: u64) -> Thread {
    Thread { cpu_estimate: estimate, ..thread }
}

/// Whether a thread is scheduled by its CPU usage and not as an interactive one.
pub open spec fn runs_as_batch(thread: Thread) -> bool {
    &&& thread.class == ThreadClass::Timeshare
    &&& score_of(thread.runtime_ns as int, thread.slptime_ns as int) + thread.nice >= 30
}

proof fn lemma_rounded_share(estimate: int, len: int)
    requires
        estimate >= 0,
        len >= 1,
    ensures
        2 * (1024 * len * cpu_offset(estimate, len) - 58 * estimate) <= 1025 * len,
        2 * (58 * estimate - 1024 * len * cpu_offset(estimate, len)) <= 1025 * len,
{
    let part = (58 * estimate + len / 2) / len;
    let offset = (part + 512) / 1024;
    assert(len * part <= 58 * estimate + len / 2 < len * part + len) by {
        vstd::arithmetic::div_mod::lemma_fundamental_div_mod(58 * estimate + len / 2, len);
    }
    assert(1024 * offset <= part + 512 <= 1024 * offset + 1023);
    assert(len * (1024 * offset) <= len * (part + 512)) by (nonlinear_arith)
        requires
            1024 * offset <= part + 512,
            len >= 1,
    ;
    assert(len * (part + 512) <= len * (1024 * offset + 1023)) by (nonlinear_arith)
        requires
            part + 512 <= 1024 * offset + 1023,
            len >= 1,
    ;
    assert(len * (1024 * offset) == 1024 * len * offset) by (nonlinear_arith);
    assert(len * (part + 512) == len * part + 512 * len) by (nonlinear_arith);
    assert(len * (1024 * offset + 1023) == 1024 * len * offset + 1023 * len) by (nonlinear_arith);
}

proof fn lemma_share_grows(less: int, more: int, len: int)
    requires
        0 <= less <= more,
        len >= 1,
    ensures
        cpu_offset(less, len) <= cpu_offset(more, len),
{
    assert((58 * less + len / 2) / len <= (58 * more + len / 2) / len) by (nonlinear_arith)
        requires
            0 <= less <= more,
            len >= 1,
    ;
}

/// CPU usage costs a batch thread priority: what it used of its window is
/// charged in 58 parts, rounded to the nearest priority, so a thread that used
/// none of it loses nothing and one that used all of it loses 58 priorities.
/// More usage over the same window never improves the priority.
pub proof fn law_cpu_usage_costs_priority(thread: Thread, less: u64, more: u64)
    requires
        nice_in_range(thread.nice),
        runs_as_batch(thread),
        less <= more,
    ensures
        ({
            let window: int = if thread.cpu_last_update_ns > thread.cpu_window_start_ns {
                thread.cpu_last_update_ns - thread.cpu_window_start_ns
            } else {
                1
            };
            let unused = reprioritized(with_usage(thread, 0)).user_priority;
            let light = reprioritized(with_usage(thread, less)).user_priority;
            let heavy = reprioritized(with_usage(thread, more)).user_priority;
            let cost = heavy - unused;
            &&& unused <= light <= heavy <= 223
            &&& cost <= 58
            &&& more >= 1024 * window ==> heavy == min_int(unused + 58, 223)
            &&& more <= 1024 * window && heavy < 223 ==> {
                &&& 2 * (1024 * window * cost - 58 * more) <= 1025 * window
                &&& 2 * (58 * more - 1024 * window * cost) <= 1025 * window
            }
        }),
{
    let window = window_length(thread);
    let nothing = with_usage(thread, 0);
    let light = with_usage(thread, less);
    let heavy = with_usage(thread, more);
    assert(window_length(nothing) == window && window_length(light) == window && window_length(
        heavy,
    ) == window);
    law_priority_bands(nothing);
    law_priority_bands(light);
    law_priority_bands(heavy);
    law_score_range(thread.runtime_ns as int, thread.slptime_ns as int);
    lemma_share_grows(0, less as int, window);
    lemma_share_grows(less as int, more as int, window);
    lemma_rounded_share(0, window);
    lemma_rounded_share(more as int, window);
    lemma_cpu_offset(0, window);
    assert(cpu_offset(0, window) == 0) by (nonlinear_arith)
        requires
            window >= 1,
            cpu_offset(0, window) >= 0,
            2 * (1024 * window * cpu_offset(0, window) - 58 * 0) <= 1025 * window,
    ;
    let full = 1024 * window;
    if more >= full {
        lemma_share_grows(full, more as int, window);
        lemma_rounded_share(full, window);
        assert(cpu_offset(full, window) == 58) by (nonlinear_arith)
            requires
                window >= 1,
                full == 1024 * window,
                2 * (1024 * window * cpu_offset(full, window) - 58 * full) <= 1025 * window,
                2 * (58 * full - 1024 * window * cpu_offset(full, window)) <= 1025 * window,
        ;
    } else {
        lemma_share_grows(more as int, full, window);
        lemma_rounded_share(full, window);
        assert(cpu_offset(full, window) == 58) by (nonlinear_arith)
            requires
                window >= 1,
                full == 1024 * window,
                2 * (1024 * window * cpu_offset(full, window) - 58 * full) <= 1025 * window,
                2 * (58 * full - 1024 * window * cpu_offset(full, window)) <= 1025 * window,
        ;
    }
}

/// A batch thread that used no CPU starts at the best batch priority and loses
/// five priorities for every four steps of its nice value above the lowest one.
pub proof fn law_nice_costs_priority(thread: Thread)
    requires
        nice_in_range(thread.nice),
        runs_as_batch(thread),
        thread.cpu_estimate == 0,
    ensures
        ({
            let cost = reprioritized(thread).user_priority - 115;
            4 * cost <= 5 * (thread.nice + 20) < 4 * cost + 4
        }),
{
    law_priority_bands(thread);
    law_cpu_usage_costs_priority(thread, 0, 0);
    let window = window_length(thread);
    lemma_rounded_share(0, window);
    lemma_cpu_offset(0, window);
    assert(cpu_offset(0, window) == 0) by (nonlinear_arith)
        requires
            window >= 1,
            cpu_offset(0, window) >= 0,
            2 * (1024 * window * cpu_offset(0, window) - 58 * 0) <= 1025 * window,
    ;
}

/// An interactive thread's priority grows evenly with its score and nice value
/// over the 59 interactive priorities, whatever CPU it used.
pub proof fn law_interactive_priority_follows_score(thread: Thread)
    requires
        nice_in_range(thread.nice),
        thread.class == ThreadClass::Timeshare,
        !runs_as_batch(thread),
    ensures
        ({
            let score = score_of(thread.runtime_ns as int, thread.slptime_ns as int) + thread.nice;
            let place = reprioritized(thread).user_priority - 56;
            &&& score <= 0 ==> place == 0
            &&& score > 0 ==> 30 * place <= 59 * score < 30 * place + 30
            &&& 0 <= place <= 58
        }),
{
    law_priority_bands(thread);
}

/// A recomputed priority is a timeshare thread's user and base priority, and a
/// borrowed better one stays in force; nothing else of the thread changes, and
/// threads of other classes keep everything.
pub proof fn law_reprioritized_keeps_the_rest(thread: Thread)
    requires
        nice_in_range(thread.nice),
    ensures
        thread.class != ThreadClass::Timeshare ==> reprioritized(thread) == thread,
        thread.class == ThreadClass::Timeshare ==> {
            let after = reprioritized(thread);
            &&& after.base_priority == after.user_priority
            &&& after.priority <= after.base_priority
            &&& after == (Thread {
                user_priority: after.user_priority,
                base_priority: after.base_priority,
                priority: after.priority,
                ..thread
            })
        },
{
}

/// The score of a thread that sleeps longer than it runs is fifty times the
/// share of its running time, within rounding; one that runs at least as long
/// as it sleeps scores fifty.
pub proof fn law_score_is_running_share(runtime_ns: int, slptime_ns: int)
    requires
        runtime_ns >= 0,
        slptime_ns >= 0,
    ensures
        runtime_ns >= slptime_ns ==> score_of(runtime_ns, slptime_ns) == 50,
        runtime_ns < slptime_ns && slptime_ns >= 50 ==> {
            let score = score_of(runtime_ns, slptime_ns);
            &&& 50 * runtime_ns < (score + 1) * slptime_ns
            &&& score * (slptime_ns - 49) <= 50 * runtime_ns
        },
        runtime_ns < slptime_ns < 50 ==> score_of(runtime_ns, slptime_ns) == runtime_ns,
{
    if runtime_ns < slptime_ns && slptime_ns >= 50 {
        let div = slptime_ns / 50;
        let score = runtime_ns / div;
        assert(50 * div <= slptime_ns <= 50 * div + 49);
        assert(div * score <= runtime_ns < div * score + div) by {
            vstd::arithmetic::div_mod::lemma_fundamental_div_mod(runtime_ns, div);
        }
        assert(50 * runtime_ns < (score + 1) * slptime_ns) by (nonlinear_arith)
            requires
                runtime_ns < div * score + div,
                50 * div <= slptime_ns,
                score >= 0,
        ;
        assert(score * (slptime_ns - 49) <= 50 * runtime_ns) by (nonlinear_arith)
            requires
                div * score <= runtime_ns,
                slptime_ns - 49 <= 50 * div,
                score >= 0,
        ;
    } else if runtime_ns < slptime_ns {
        assert(slptime_ns / 50 == 0);
        assert(runtime_ns / 1 == runtime_ns);
    }
}

/// Only a better thread preempts. It always preempts an idle thread; a thread
/// better than the kernel's own ones preempts anything worse; and a thread
/// woken from another CPU preempts batch work when it is interactive. No other
/// thread is preempted.
pub proof fn law_preemption_is_earned(priority: u8, current: u8, remote: bool)
    ensures
        preempts(priority, current, remote) ==> priority < current,
        priority < current && current >= 224 ==> preempts(priority, current, remote),
        priority < current && priority < 40 ==> preempts(priority, current, remote),
        remote && priority <= 114 && 114 < current ==> preempts(priority, current, remote),
        priority >= 40 && current < 224 && !remote ==> !preempts(priority, current, remote),
        priority >= 40 && current < 224 && priority > 114 ==> !preempts(priority, current, remote),
        priority >= 40 && current <= 114 ==> !preempts(priority, current, remote),
{
}

/// A thread with its run and sleep history scaled down when it grew too long.
pub open spec fn history_scaled(thread: Thread) -> Thread {
    let total = min_int(thread.runtime_ns + thread.slptime_ns, u64::MAX as int);
    if total < SCHED_SLP_RUN_MAX_NS {
        thread
    } else if total > SCHED_SLP_RUN_MAX_NS * 2 {
        if thread.runtime_ns > thread.slptime_ns {
            Thread { runtime_ns: SCHED_SLP_RUN_MAX_NS, slptime_ns: 1, ..thread }
        } else {
            Thread { slptime_ns: SCHED_SLP_RUN_MAX_NS, runtime_ns: 1, ..thread }
        }
    } else if total > (SCHED_SLP_RUN_MAX_NS as int / 5) * 6 {
        Thread { runtime_ns: thread.runtime_ns / 2, slptime_ns: thread.slptime_ns / 2, ..thread }
    } else {
        Thread {
            runtime_ns: ((thread.runtime_ns / 5) * 4) as u64,
            slptime_ns: ((thread.slptime_ns / 5) * 4) as u64,
            ..thread
        }
    }
}

/// Bounds the history that the interactivity score looks at.
pub fn interact_update(thread: &mut Thread)
    ensures
        *final(thread) == history_scaled(*old(thread)),
{
    let total: u64 = thread.runtime_ns.saturating_add(thread.slptime_ns);
    if total < SCHED_SLP_RUN_MAX_NS {
        return;
    }
    if total > SCHED_SLP_RUN_MAX_NS * 2 {
        if thread.runtime_ns > thread.slptime_ns {
            thread.runtime_ns = SCHED_SLP_RUN_MAX_NS;
            thread.slptime_ns = 1;
        } else {
            thread.slptime_ns = SCHED_SLP_RUN_MAX_NS;
            thread.runtime_ns = 1;
        }
        return;
    }
    if total > (SCHED_SLP_RUN_MAX_NS / 5) * 6 {
        thread.runtime_ns = thread.runtime_ns / 2;
        thread.slptime_ns = thread.slptime_ns / 2;
        return;
    }
    thread.runtime_ns = (thread.runtime_ns / 5) * 4;
    thread.slptime_ns = (thread.slptime_ns / 5) * 4;
}

/// A scaled history is bounded, and scaling keeps which of the two parts is
/// the longer one.
pub proof fn law_history_bounded(thread: Thread)
    ensures
        history_scaled(thread).runtime_ns + history_scaled(thread).slptime_ns
            <= SCHED_SLP_RUN_MAX_NS + 1,
        thread.runtime_ns <= thread.slptime_ns ==> history_scaled(thread).runtime_ns
            <= history_scaled(thread).slptime_ns,
        thread.runtime_ns > thread.slptime_ns ==> history_scaled(thread).runtime_ns
            >= history_scaled(thread).slptime_ns,
{
}

/// A thread with its CPU usage brought up to `now_ns`.
pub open spec fn usage_updated(thread: Thread, now_ns: u64, running: bool) -> Thread {
    let target = SCHED_CPU_DECAY_TARGET_NS;
    let elapsed = minus_or_zero(now_ns as int, thread.cpu_last_update_ns as int);
    if elapsed >= target {
        Thread {
            cpu_estimate: if running {
                (target * SCHED_TICK_SCALE) as u64
            } else {
                0
            },
            cpu_window_start_ns: minus_or_zero(now_ns as int, target as int) as u64,
            cpu_last_update_ns: now_ns,
            ..thread
        }
    } else {
        let slide = minus_or_zero(now_ns as int, thread.cpu_window_start_ns as int)
            >= SCHED_CPU_DECAY_WINDOW_NS;
        let carried = if slide {
            cap_u64((thread.cpu_estimate * (target - elapsed)) / window_length(thread))
        } else {
            thread.cpu_estimate
        };
        Thread {
            cpu_estimate: if running {
                cap_u64(carried + elapsed * SCHED_TICK_SCALE)
            } else {
                carried
            },
            cpu_window_start_ns: if slide {
                minus_or_zero(now_ns as int, target as int) as u64
            } else {
                thread.cpu_window_start_ns
            },
            cpu_last_update_ns: now_ns,
            ..thread
        }
    }
}

/// Brings a thread's CPU-usage estimate up to `now_ns`.
pub fn pctcpu_update(thread: &mut Thread, now_ns: u64, running: bool)
    ensures
        *final(thread) == usage_updated(*old(thread), now_ns, running),
{
    let t_max: u64 = SCHED_CPU_DECAY_WINDOW_NS;
    let t_tgt: u64 = SCHED_CPU_DECAY_TARGET_NS;
    let elapsed_ns: u64 = now_ns.saturating_sub(thread.cpu_last_update_ns);
    if elapsed_ns >= t_tgt {
        thread.cpu_estimate =
        if running {
            mul_capped(t_tgt, SCHED_TICK_SCALE)
        } else {
            0
        };
        thread.cpu_window_start_ns = now_ns.saturating_sub(t_tgt);
        thread.cpu_last_update_ns = now_ns;
        return;
    }
    if now_ns.saturating_sub(thread.cpu_window_start_ns) >= t_max {
        let len: u128 = window_length_ns(thread) as u128;
        let estimate: u128 = thread.cpu_estimate as u128;
        let rest: u128 = t_tgt.saturating_sub(elapsed_ns) as u128;
        proof {
            assert(0 <= estimate * rest <= u64::MAX * u64::MAX) by (nonlinear_arith)
                requires
                    0 <= estimate <= u64::MAX,
                    0 <= rest <= u64::MAX,
            ;
            assert(0 <= (estimate * rest) / (len as int)) by (nonlinear_arith)
                requires
                    0 <= estimate * rest,
                    len >= 1,
            ;
        }
        let scaled: u128 = (estimate * rest) / len;
        thread.cpu_estimate =
        if scaled < u64::MAX as u128 {
            scaled as u64
        } else {
            u64::MAX
        };
        thread.cpu_window_start_ns = now_ns.saturating_sub(t_tgt);
    }
    if running {
        thread.cpu_estimate =
        thread.cpu_estimate.saturating_add(mul_capped(elapsed_ns, SCHED_TICK_SCALE));
    }
    thread.cpu_last_update_ns = now_ns;
}

/// Whether a thread's estimate is no more than full use of its window.
pub open spec fn usage_sound(thread: Thread) -> bool {
    &&& thread.cpu_window_start_ns <= thread.cpu_last_update_ns
    &&& thread.cpu_estimate <= (thread.cpu_last_update_ns - thread.cpu_window_start_ns)
        * SCHED_TICK_SCALE
}

/// While time does not run backwards, the CPU-usage estimate never claims more
/// than full use of the window it covers.
pub proof fn law_usage_stays_sound(thread: Thread, now_ns: u64, running: bool)
    requires
        usage_sound(thread),
        thread.cpu_last_update_ns <= now_ns,
    ensures
        usage_sound(usage_updated(thread, now_ns, running)),
{
    let target = SCHED_CPU_DECAY_TARGET_NS as int;
    let elapsed = now_ns - thread.cpu_last_update_ns;
    let estimate = thread.cpu_estimate as int;
    if elapsed < target && now_ns - thread.cpu_window_start_ns >= SCHED_CPU_DECAY_WINDOW_NS {
        let window = (thread.cpu_last_update_ns - thread.cpu_window_start_ns) as int;
        let rest = target - elapsed;
        assert(window >= 1);
        assert((estimate * rest) / window <= rest * 1024) by (nonlinear_arith)
            requires
                0 <= estimate <= window * 1024,
                rest > 0,
                window >= 1,
        ;
        assert(0 <= (estimate * rest) / window) by (nonlinear_arith)
            requires
                0 <= estimate,
                rest > 0,
                window >= 1,
        ;
    }
}

/// Time that a thread runs is added to its estimate in full and time that it
/// does not run adds nothing, as long as its window does not slide.
pub proof fn law_running_time_is_charged(thread: Thread, now_ns: u64, running: bool)
    requires
        thread.cpu_window_start_ns <= thread.cpu_last_update_ns <= now_ns,
        now_ns - thread.cpu_last_update_ns < 10_000_000_000,
        now_ns - thread.cpu_window_start_ns < 11_000_000_000,
        usage_sound(thread),
    ensures
        ({
            let after = usage_updated(thread, now_ns, running);
            &&& after.cpu_last_update_ns == now_ns
            &&& after.cpu_window_start_ns == thread.cpu_window_start_ns
            &&& running ==> after.cpu_estimate - thread.cpu_estimate == 1024 * (now_ns
                - thread.cpu_last_update_ns)
            &&& !running ==> after.cpu_estimate == thread.cpu_estimate
        }),
{
}

/// A thread that was not looked at for the whole decay target counts as fully
/// busy if it ran all that time and as idle if it did not.
pub proof fn law_long_absence_decides_usage(thread: Thread, now_ns: u64, running: bool)
    requires
        now_ns - thread.cpu_last_update_ns >= 10_000_000_000,
    ensures
        ({
            let after = usage_updated(thread, now_ns, running);
            &&& after.cpu_last_update_ns - after.cpu_window_start_ns == 10_000_000_000
            &&& after.cpu_last_update_ns == now_ns
            &&& running ==> after.cpu_estimate == 1024 * (after.cpu_last_update_ns
                - after.cpu_window_start_ns)
            &&& !running ==> after.cpu_estimate == 0
        }),
{
}

/// When the window slides, the share of it that was used before is carried
/// over, rounded down, and the window then covers ten seconds up to now.
pub proof fn law_sliding_keeps_usage_share(thread: Thread, now_ns: u64)
    requires
        usage_sound(thread),
        thread.cpu_last_update_ns <= now_ns,
        now_ns - thread.cpu_last_update_ns < 10_000_000_000,
        now_ns - thread.cpu_window_start_ns >= 11_000_000_000,
    ensures
        ({
            let after = usage_updated(thread, now_ns, false);
            let busy = usage_updated(thread, now_ns, true);
            let window = thread.cpu_last_update_ns - thread.cpu_window_start_ns;
            let elapsed = now_ns - thread.cpu_last_update_ns;
            let rest = 10_000_000_000 - elapsed;
            &&& after.cpu_last_update_ns == now_ns
            &&& now_ns - after.cpu_window_start_ns == 10_000_000_000
            &&& after.cpu_estimate * window <= thread.cpu_estimate * rest < after.cpu_estimate
                * window + window
            &&& busy.cpu_estimate == after.cpu_estimate + 1024 * elapsed
            &&& busy.cpu_window_start_ns == after.cpu_window_start_ns
        }),
{
    let elapsed = now_ns - thread.cpu_last_update_ns;
    let estimate = thread.cpu_estimate as int;
    let window = (thread.cpu_last_update_ns - thread.cpu_window_start_ns) as int;
    let rest = 10_000_000_000 - elapsed;
    assert(window >= 1);
    assert((estimate * rest) / window <= rest * 1024) by (nonlinear_arith)
        requires
            0 <= estimate <= window * 1024,
            rest > 0,
            window >= 1,
    ;
    assert(0 <= (estimate * rest) / window) by (nonlinear_arith)
        requires
            0 <= estimate,
            rest > 0,
            window >= 1,
    ;
    vstd::arithmetic::div_mod::lemma_fundamental_div_mod(estimate * rest, window);
    assert(window * ((estimate * rest) / window) == ((estimate * rest) / window) * window)
        by (nonlinear_arith);
}

/// A scaled history keeps the balance of running and sleeping: a history that
/// is not too long stays as it is, one somewhat too long shrinks to four
/// fifths or to a half, and a very long one leaves only its larger part.
pub proof fn law_history_keeps_balance(thread: Thread)
    ensures
        ({
            let after = history_scaled(thread);
            let total = thread.runtime_ns + thread.slptime_ns;
            let (run, slept) = (thread.runtime_ns as int, thread.slptime_ns as int);
            &&& total < 5_000_000_000 ==> after == thread
            &&& 5_000_000_000 <= total <= 6_000_000_000 ==> {
                &&& 4 * run - 20 < 5 * after.runtime_ns <= 4 * run
                &&& 4 * slept - 20 < 5 * after.slptime_ns <= 4 * slept
            }
            &&& 6_000_000_000 < total <= 10_000_000_000 ==> {
                &&& run - 1 <= 2 * after.runtime_ns <= run
                &&& slept - 1 <= 2 * after.slptime_ns <= slept
            }
            &&& total > 10_000_000_000 && run > slept ==> after.runtime_ns == 5_000_000_000
                && after.slptime_ns == 1
            &&& total > 10_000_000_000 && run <= slept ==> after.slptime_ns == 5_000_000_000
                && after.runtime_ns == 1
            &&& after == (Thread {
                runtime_ns: after.runtime_ns,
                slptime_ns: after.slptime_ns,
                ..thread
            })
        }),
{
}

/// What waking a thread does to its record, and whether the thread is
/// latency sensitive.
pub open spec fn wakeup_finished(thread: Thread, now_ns: u64) -> (Thread, bool) {
    let cleared = Thread {
        slice_ns: 0,
        flags: ThreadFlags { sliceend: false, ..thread.flags },
        sleep_start_ns: 0,
        ..thread
    };
    let slept = minus_or_zero(now_ns as int, thread.sleep_start_ns as int);
    if thread.class == ThreadClass::Ithread {
        (Thread { base_priority: thread.ithread_base_priority, ..cleared }.refreshed(), false)
    } else if thread.class != ThreadClass::Timeshare || thread.sleep_start_ns == 0 || slept
        < SCHED_SLEEP_TICK_NS {
        (cleared, false)
    } else {
        let rested = Thread { slptime_ns: cap_u64(thread.slptime_ns + slept), ..cleared };
        let woken = reprioritized(usage_updated(history_scaled(rested), now_ns, false));
        (woken, woken.priority <= MAX_INTERACT)
    }
}

/// Ends a thread's sleep: credits the time slept, recomputes its priority and
/// returns whether the thread is latency sensitive.
pub fn finish_wakeup(thread: &mut Thread, now_ns: u64) -> (latency_sensitive: bool)
    requires
        nice_in_range(old(thread).nice),
    ensures
        (*final(thread), latency_sensitive) == wakeup_finished(*old(thread), now_ns),
{
    thread.slice_ns = 0;
    thread.flags.sliceend = false;
    let sleep_start_ns: u64 = thread.sleep_start_ns;
    thread.sleep_start_ns = 0;
    match thread.class {
        ThreadClass::Ithread => {
            thread.base_priority = thread.ithread_base_priority;
            thread.refresh_priority();
            return false;
        },
        ThreadClass::Idle => {
            return false;
        },
        ThreadClass::Timeshare => {},
    }
    if sleep_start_ns == 0 {
        return false;
    }
    let slept_ns: u64 = now_ns.saturating_sub(sleep_start_ns);
    if slept_ns >= SCHED_SLEEP_TICK_NS {
        thread.slptime_ns = thread.slptime_ns.saturating_add(slept_ns);
        interact_update(thread);
        pctcpu_update(thread, now_ns, false);
        priority_update(thread);
    }
    slept_ns >= SCHED_SLEEP_TICK_NS && thread.priority <= MAX_INTERACT
}

/// A timeshare thread that slept a millisecond or more is credited with its
/// sleep: its running share, and so its score, never grows by it. One that
/// slept for less keeps its history and priority. Either way the slice starts
/// anew and the sleep is over.
pub proof fn law_sleep_is_credited(thread: Thread, now_ns: u64)
    requires
        nice_in_range(thread.nice),
        thread.class == ThreadClass::Timeshare,
        thread.sleep_start_ns > 0,
        thread.sleep_start_ns <= now_ns,
        thread.runtime_ns + thread.slptime_ns + (now_ns - thread.sleep_start_ns) < 5_000_000_000,
    ensures
        ({
            let (woken, sensitive) = wakeup_finished(thread, now_ns);
            let slept = now_ns - thread.sleep_start_ns;
            &&& woken.slice_ns == 0
            &&& !woken.flags.sliceend
            &&& woken.sleep_start_ns == 0
            &&& woken.runtime_ns == thread.runtime_ns
            &&& slept >= 1_000_000 ==> {
                &&& woken.slptime_ns == thread.slptime_ns + slept
                &&& woken.cpu_last_update_ns == now_ns
                &&& sensitive == (woken.priority <= 114)
            }
            &&& slept < 1_000_000 ==> {
                &&& !sensitive
                &&& woken.slptime_ns == thread.slptime_ns
                &&& woken.priority == thread.priority
                &&& woken.cpu_estimate == thread.cpu_estimate
            }
        }),
{
}

/// Waking an interrupt thread gives it its own priority again, and neither it
/// nor an idle thread counts as latency sensitive.
pub proof fn law_interrupt_thread_wakes_at_its_priority(thread: Thread, now_ns: u64)
    requires
        thread.class != ThreadClass::Timeshare,
    ensures
        !wakeup_finished(thread, now_ns).1,
        thread.class == ThreadClass::Ithread ==> wakeup_finished(thread, now_ns).0.base_priority
            == thread.ithread_base_priority,
        thread.class == ThreadClass::Idle ==> wakeup_finished(thread, now_ns).0.base_priority
            == thread.base_priority,
        wakeup_finished(thread, now_ns).0.slice_ns == 0,
{
}

} // verus!
