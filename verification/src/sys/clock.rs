//! Timekeeping, deadlines and per-CPU sleep queues.

use vstd::prelude::*;
use vstd::arithmetic::power2::{lemma2_to64_rest, lemma_pow2_pos, lemma_pow2_unfold, pow2};
use crate::lists::{first_where, lemma_first_where};
use crate::num::{cap_u64, max_int, min_int, minus_or_zero};
use crate::sys::smp::Masking;
use crate::sys::sync::WakeTarget;
use crate::syscall::Timespec;

verus! {

/// Most fraction bits of a conversion factor.
pub const CLOCK_SCALE_MAX_SHIFT: u32 = 48;

/// Nanoseconds in a second.
pub const NSEC_PER_SEC: u128 = 1_000_000_000;

/// Monotonic counter used for timekeeping and delays.
pub trait ClockSource: Sync {
    /// Human-readable source name.
    fn name(&self) -> &'static str;

    /// Relative quality score. Higher is better.
    fn rating(&self) -> u32;

    /// Counter frequency in Hz.
    fn frequency_hz(&self) -> u64;

    /// Current raw counter value.
    fn counter(&self) -> u64;

    /// Number of significant bits in the raw counter.
    ///
    /// Only 64-bit sources are accepted: the counter must not wrap in the
    /// lifetime of the system.
    fn counter_bits(&self) -> u32 {
        64
    }
}

/// One-shot local interrupt source that delivers deadlines on the current CPU.
pub trait EventTimer: Sync {
    /// Human-readable timer name.
    fn name(&self) -> &'static str;

    /// Minimum armable delay in nanoseconds.
    fn min_period_ns(&self) -> u64;

    /// Maximum armable delay in nanoseconds.
    fn max_period_ns(&self) -> u64;

    /// Programs the next one-shot interrupt after `delay_ns`.
    fn set_oneshot(&self, delay_ns: u64);

    /// Stops timer delivery, if supported.
    fn stop(&self);
}

/// Fixed-point conversion between nanoseconds and counter cycles.
#[derive(Copy, Clone, Debug, PartialEq, Eq, Structural)]
pub struct ClockScale {
    ns_mult: u64,
    ns_shift: u32,
    cycles_mult: u64,
    cycles_shift: u32,
}

/// Nanoseconds per cycle with `shift` fraction bits, rounded to the nearest.
pub open spec fn ns_factor(frequency: int, shift: nat) -> int {
    (1_000_000_000 * pow2(shift) + frequency / 2) / frequency
}

/// Cycles per nanosecond with `shift` fraction bits, rounded up.
pub open spec fn cycle_factor(frequency: int, shift: nat) -> int {
    (frequency * pow2(shift) + 999_999_999) / 1_000_000_000
}

/// Whether `shift` is the most fraction bits with which `factor` fits.
pub open spec fn best_shift(factor: spec_fn(nat) -> int, shift: nat) -> bool {
    &&& shift <= CLOCK_SCALE_MAX_SHIFT
    &&& 1 <= factor(shift) <= u64::MAX
    &&& forall|s: nat|
        shift < s <= CLOCK_SCALE_MAX_SHIFT ==> !(1 <= #[trigger] factor(s) <= u64::MAX)
}

/// Nanosecond factors of a frequency.
pub open spec fn ns_factors(frequency: int) -> spec_fn(nat) -> int {
    |shift: nat| ns_factor(frequency, shift)
}

/// Cycle factors of a frequency.
pub open spec fn cycle_factors(frequency: int) -> spec_fn(nat) -> int {
    |shift: nat| cycle_factor(frequency, shift)
}

fn power(shift: u32) -> (unit: u128)
    requires
        shift <= CLOCK_SCALE_MAX_SHIFT,
    ensures
        unit == pow2(shift as nat),
        1 <= unit <= 0x1_0000_0000_0000,
{
    let mut unit: u128 = 0x1_0000_0000_0000;
    let mut at: u32 = CLOCK_SCALE_MAX_SHIFT;
    proof {
        lemma2_to64_rest();
    }
    while at > shift
        invariant
            shift <= at <= CLOCK_SCALE_MAX_SHIFT,
            unit == pow2(at as nat),
            1 <= unit <= 0x1_0000_0000_0000,
        decreases at,
    {
        proof {
            lemma_pow2_unfold(at as nat);
            lemma_pow2_pos((at - 1) as nat);
        }
        unit = unit / 2;
        at = at - 1;
    }
    unit
}

/// Scaled product of a factor with `shift` fraction bits, rounded down.
pub open spec fn scaled_down(amount: int, factor: int, shift: nat) -> int {
    (amount * factor) / (pow2(shift) as int)
}

/// Scaled product of a factor with `shift` fraction bits, rounded up.
pub open spec fn scaled_up(amount: int, factor: int, shift: nat) -> int {
    (amount * factor + pow2(shift) - 1) / (pow2(shift) as int)
}

impl ClockScale {
    /// Nanoseconds per cycle, with its fraction bits.
    pub closed spec fn ns_per_cycle(self) -> (u64, u32) {
        (self.ns_mult, self.ns_shift)
    }

    /// Cycles per nanosecond, with its fraction bits.
    pub closed spec fn cycles_per_ns(self) -> (u64, u32) {
        (self.cycles_mult, self.cycles_shift)
    }

    /// The factors are positive and their fractions not too fine.
    pub open spec fn wf(self) -> bool {
        &&& self.ns_per_cycle().0 > 0
        &&& self.ns_per_cycle().1 <= CLOCK_SCALE_MAX_SHIFT
        &&& self.cycles_per_ns().0 > 0
        &&& self.cycles_per_ns().1 <= CLOCK_SCALE_MAX_SHIFT
    }

    /// Whether this is the scale for a frequency.
    pub open spec fn fits(self, frequency: int) -> bool {
        &&& best_shift(ns_factors(frequency), self.ns_per_cycle().1 as nat)
        &&& self.ns_per_cycle().0 == ns_factor(frequency, self.ns_per_cycle().1 as nat)
        &&& best_shift(cycle_factors(frequency), self.cycles_per_ns().1 as nat)
        &&& self.cycles_per_ns().0 == cycle_factor(frequency, self.cycles_per_ns().1 as nat)
    }

    /// What `cycles` take.
    pub open spec fn ns_of(self, cycles: int) -> u64 {
        cap_u64(
            scaled_down(cycles, self.ns_per_cycle().0 as int, self.ns_per_cycle().1 as nat),
        )
    }

    /// How many cycles last at least `ns`.
    pub open spec fn cycles_of(self, ns: int) -> u64 {
        if ns == 0 {
            0
        } else {
            cap_u64(
                max_int(
                    scaled_up(ns, self.cycles_per_ns().0 as int, self.cycles_per_ns().1 as nat),
                    1,
                ),
            )
        }
    }

    fn ns_scale(frequency_hz: u64) -> (factor: (u64, u32))
        requires
            frequency_hz != 0,
        ensures
            best_shift(ns_factors(frequency_hz as int), factor.1 as nat),
            factor.0 == ns_factor(frequency_hz as int, factor.1 as nat),
    {
        let frequency: u128 = frequency_hz as u128;
        let ghost factors = ns_factors(frequency_hz as int);
        let mut shift: u32 = CLOCK_SCALE_MAX_SHIFT;
        proof {
            lemma2_to64_rest();
        }
        loop
            invariant
                shift <= CLOCK_SCALE_MAX_SHIFT,
                frequency == frequency_hz,
                frequency != 0,
                factors == ns_factors(frequency_hz as int),
                1_000_000_000 * pow2(shift as nat) >= frequency,
                forall|s: nat|
                    shift < s <= CLOCK_SCALE_MAX_SHIFT ==> !(1 <= #[trigger] factors(s)
                        <= u64::MAX),
            decreases shift,
        {
            let unit: u128 = power(shift);
            let sum: u128 = NSEC_PER_SEC * unit + frequency / 2;
            let multiplier: u128 = sum / frequency;
            assert(multiplier == ns_factor(frequency_hz as int, shift as nat));
            assert(multiplier >= 1) by (nonlinear_arith)
                requires
                    sum >= frequency,
                    frequency > 0,
                    multiplier == sum / frequency,
            ;
            if multiplier <= u64::MAX as u128 {
                assert(factors(shift as nat) == multiplier);
                return (multiplier as u64, shift);
            }
            assert(sum >= frequency * 0x1_0000_0000_0000_0000) by (nonlinear_arith)
                requires
                    frequency > 0,
                    multiplier == sum / frequency,
                    multiplier >= 0x1_0000_0000_0000_0000,
            ;
            proof {
                if shift == 0 {
                    lemma2_to64_rest();
                    vstd::arithmetic::power2::lemma2_to64();
                    assert(unit == 1);
                    assert(sum < 0x1_0000_0000_0000_0000);
                    assert(false);
                }
                lemma_pow2_unfold(shift as nat);
                assert(factors(shift as nat) == multiplier);
            }
            shift = shift - 1;
        }
    }

    fn cycle_scale(frequency_hz: u64) -> (factor: (u64, u32))
        requires
            frequency_hz != 0,
        ensures
            best_shift(cycle_factors(frequency_hz as int), factor.1 as nat),
            factor.0 == cycle_factor(frequency_hz as int, factor.1 as nat),
    {
        let frequency: u128 = frequency_hz as u128;
        let ghost factors = cycle_factors(frequency_hz as int);
        let mut shift: u32 = CLOCK_SCALE_MAX_SHIFT;
        loop
            invariant
                shift <= CLOCK_SCALE_MAX_SHIFT,
                frequency == frequency_hz,
                frequency != 0,
                factors == cycle_factors(frequency_hz as int),
                forall|s: nat|
                    shift < s <= CLOCK_SCALE_MAX_SHIFT ==> !(1 <= #[trigger] factors(s)
                        <= u64::MAX),
            decreases shift,
        {
            let unit: u128 = power(shift);
            assert(1 <= frequency * unit <= 0x1_0000_0000_0000 * 0x1_0000_0000_0000_0000)
                by (nonlinear_arith)
                requires
                    1 <= frequency < 0x1_0000_0000_0000_0000,
                    1 <= unit <= 0x1_0000_0000_0000,
            ;
            let product: u128 = frequency * unit;
            let multiplier: u128 = (product + (NSEC_PER_SEC - 1)) / NSEC_PER_SEC;
            assert(multiplier == cycle_factor(frequency_hz as int, shift as nat));
            assert(factors(shift as nat) == multiplier);
            if multiplier <= u64::MAX as u128 {
                return (multiplier as u64, shift);
            }
            proof {
                if shift == 0 {
                    vstd::arithmetic::power2::lemma2_to64();
                    assert(unit == 1);
                    assert(product == frequency) by (nonlinear_arith)
                        requires
                            product == frequency * unit,
                            unit == 1,
                    ;
                    assert(false);
                }
            }
            shift = shift - 1;
        }
    }

    /// Builds the conversion for a counter of `frequency_hz`.
    pub fn new(frequency_hz: u64) -> (scale: Self)
        requires
            frequency_hz != 0,
        ensures
            scale.wf(),
            scale.fits(frequency_hz as int),
    {
        let (ns_mult, ns_shift) = ClockScale::ns_scale(frequency_hz);
        let (cycles_mult, cycles_shift) = ClockScale::cycle_scale(frequency_hz);
        ClockScale { ns_mult, ns_shift, cycles_mult, cycles_shift }
    }

    /// Converts counter cycles to nanoseconds, rounding down.
    pub fn cycles_to_ns(self, cycles: u64) -> (ns: u64)
        requires
            self.wf(),
        ensures
            ns == self.ns_of(cycles as int),
    {
        assert(cycles * self.ns_mult <= u64::MAX * u64::MAX) by (nonlinear_arith)
            requires
                cycles <= u64::MAX,
                self.ns_mult <= u64::MAX,
        ;
        let product: u128 = cycles as u128 * self.ns_mult as u128;
        let scaled: u128 = product / power(self.ns_shift);
        if scaled > u64::MAX as u128 {
            u64::MAX
        } else {
            scaled as u64
        }
    }

    /// Converts nanoseconds to counter cycles, rounding up.
    pub fn ns_to_cycles(self, ns: u64) -> (cycles: u64)
        requires
            self.wf(),
        ensures
            cycles == self.cycles_of(ns as int),
    {
        if ns == 0 {
            return 0;
        }
        assert(ns * self.cycles_mult <= u64::MAX * u64::MAX) by (nonlinear_arith)
            requires
                ns <= u64::MAX,
                self.cycles_mult <= u64::MAX,
        ;
        let product: u128 = ns as u128 * self.cycles_mult as u128;
        let unit: u128 = power(self.cycles_shift);
        let scaled: u128 = (product + (unit - 1)) / unit;
        if scaled > u64::MAX as u128 {
            u64::MAX
        } else if scaled < 1 {
            1
        } else {
            scaled as u64
        }
    }
}

/// The interval in nanoseconds, at most what a counter holds.
pub fn duration_to_ns(duration: Timespec) -> (ns: u64)
    ensures
        ns == cap_u64(duration.total()),
{
    duration.as_nanos()
}

/// A frequency for display: whole and hundredths of a unit.
pub fn format_frequency(freq_hz: u64) -> (shown: (u64, u64, &'static str))
    ensures
        freq_hz >= 1_000_000_000 ==> {
            let hundredths = (freq_hz * 100 + 500_000_000) / 1_000_000_000;
            &&& shown.0 == hundredths / 100
            &&& shown.1 == hundredths % 100
            &&& shown.2@ == "GHz"@
        },
        freq_hz < 1_000_000_000 ==> {
            let hundredths = (freq_hz * 100 + 500) / 1_000;
            &&& shown.0 == hundredths / 100
            &&& shown.1 == hundredths % 100
            &&& shown.2@ == "KHz"@
        },
{
    if freq_hz >= 1_000_000_000 {
        let centi_ghz: u128 = ((freq_hz as u128) * 100 + 500_000_000) / 1_000_000_000;
        return ((centi_ghz / 100) as u64, (centi_ghz % 100) as u64, "GHz");
    }
    let centi_khz: u128 = ((freq_hz as u128) * 100 + 500) / 1_000;
    ((centi_khz / 100) as u64, (centi_khz % 100) as u64, "KHz")
}

/// The active clock source.
#[derive(Copy, Clone, Debug, PartialEq, Eq, Structural)]
pub struct RegisteredClockSource {
    /// Conversion of its counter.
    pub scale: ClockScale,
    /// Counter value at registration, which makes time start near zero.
    pub epoch: u64,
}

impl RegisteredClockSource {
    /// Nanoseconds since registration when the counter stands at `counter`.
    pub open spec fn elapsed(self, counter: u64) -> u64 {
        self.scale.ns_of((counter - self.epoch) % 0x1_0000_0000_0000_0000)
    }
}

/// Timekeeping shared by all CPUs.
#[derive(Copy, Clone, Debug, PartialEq, Eq, Structural)]
pub struct Clock {
    /// The clock source, once registered.
    pub source: Option<RegisteredClockSource>,
    /// Whether an event timer was registered.
    pub has_event_timer: bool,
    /// Offset from the monotonic clock to the Unix epoch, or zero when unknown.
    pub realtime_offset_ns: u64,
}

impl Clock {
    /// The source's conversion is sound.
    pub open spec fn wf(self) -> bool {
        self.source matches Some(source) ==> source.scale.wf()
    }

    /// Timekeeping without source, timer or date.
    pub fn new() -> (clock: Self)
        ensures
            clock.wf(),
            clock == (Clock { source: None, has_event_timer: false, realtime_offset_ns: 0 }),
    {
        Clock { source: None, has_event_timer: false, realtime_offset_ns: 0 }
    }

    /// Makes a counter of `frequency_hz` that stands at `counter` the source.
    pub fn adopt(&mut self, frequency_hz: u64, counter: u64)
        requires
            old(self).source.is_none(),
            frequency_hz != 0,
        ensures
            final(self).wf(),
            final(self).source matches Some(source) && source.epoch == counter
                && source.scale.fits(frequency_hz as int),
            *final(self) == (Clock { source: final(self).source, ..*old(self) }),
    {
        self.source =
        Some(RegisteredClockSource { scale: ClockScale::new(frequency_hz), epoch: counter });
    }
}

/// Registers the active clock source.
///
/// Refuses one that does not count, or whose counter is not 64 bits wide.
pub fn register_clocksource<S: ClockSource>(clock: &mut Clock, clocksource: &S) -> (accepted: bool)
    requires
        old(clock).source.is_none(),
        old(clock).wf(),
    ensures
        final(clock).wf(),
        accepted == final(clock).source.is_some(),
        *final(clock) == (Clock { source: final(clock).source, ..*old(clock) }),
        !accepted ==> *final(clock) == *old(clock),
        exists|hz: u64, bits: u32, count: u64|
            {
                &&& #[trigger] call_ensures(S::frequency_hz, (clocksource,), hz)
                &&& #[trigger] call_ensures(S::counter_bits, (clocksource,), bits)
                &&& #[trigger] call_ensures(S::counter, (clocksource,), count)
                &&& accepted == (bits == 64 && hz != 0)
                &&& accepted ==> final(clock).source->Some_0.epoch == count
                    && final(clock).source->Some_0.scale.fits(hz as int)
            },
{
    let frequency_hz: u64 = clocksource.frequency_hz();
    let counter_bits: u32 = clocksource.counter_bits();
    let counter: u64 = clocksource.counter();
    accept_clocksource(clock, frequency_hz, counter_bits, counter)
}

/// Takes a clock source into use that runs at a frequency and stands at
/// `counter`; only a full 64-bit counter that runs is accepted.
pub fn accept_clocksource(
    clock: &mut Clock,
    frequency_hz: u64,
    counter_bits: u32,
    counter: u64,
) -> (accepted: bool)
    requires
        old(clock).source.is_none(),
        old(clock).wf(),
    ensures
        final(clock).wf(),
        accepted == (counter_bits == 64 && frequency_hz != 0),
        !accepted ==> *final(clock) == *old(clock),
        accepted ==> (final(clock).source matches Some(source) && source.epoch == counter
            && source.scale.fits(frequency_hz as int)),
        *final(clock) == (Clock { source: final(clock).source, ..*old(clock) }),
{
    if counter_bits != 64 || frequency_hz == 0 {
        return false;
    }
    clock.adopt(frequency_hz, counter);
    true
}

/// Registers the event timer, which is never replaced.
pub fn register_event_timer(clock: &mut Clock)
    requires
        !old(clock).has_event_timer,
    ensures
        *final(clock) == (Clock { has_event_timer: true, ..*old(clock) }),
{
    clock.has_event_timer = true;
}

/// Nanoseconds since the clock source was registered, at counter value
/// `counter`.
pub fn monotonic_ns(clock: &Clock, counter: u64) -> (ns: u64)
    requires
        clock.wf(),
        clock.source.is_some(),
    ensures
        ns == clock.source->Some_0.elapsed(counter),
{
    match clock.source {
        Some(source) => source.scale.cycles_to_ns(counter.wrapping_sub(source.epoch)),
        None => 0,
    }
}

/// Nanoseconds since the clock source was registered, or zero without one.
pub fn monotonic_ns_or_zero(clock: &Clock, counter: u64) -> (ns: u64)
    requires
        clock.wf(),
    ensures
        clock.source.is_none() ==> ns == 0,
        clock.source matches Some(source) ==> ns == source.elapsed(counter),
{
    match clock.source {
        Some(_) => monotonic_ns(clock, counter),
        None => 0,
    }
}

/// Nanoseconds since the Unix epoch; without a date, since registration.
pub fn realtime_ns(clock: &Clock, counter: u64) -> (ns: u64)
    requires
        clock.wf(),
        clock.source.is_some(),
    ensures
        ns == cap_u64(clock.source->Some_0.elapsed(counter) + clock.realtime_offset_ns),
{
    monotonic_ns(clock, counter).saturating_add(clock.realtime_offset_ns)
}

/// Whether a driver has set the date.
pub fn realtime_is_set(clock: &Clock) -> (is_set: bool)
    ensures
        is_set == (clock.realtime_offset_ns != 0),
{
    clock.realtime_offset_ns != 0
}

/// Records the offset between the monotonic clock and the Unix epoch.
pub fn set_realtime_offset(clock: &mut Clock, offset_ns: u64)
    ensures
        *final(clock) == (Clock { realtime_offset_ns: offset_ns, ..*old(clock) }),
{
    clock.realtime_offset_ns = offset_ns;
}

/// How many cycles a busy wait of the given length takes; an empty one takes
/// none, with or without a clock source.
pub fn delay(clock: &Clock, duration: Timespec) -> (cycles: u64)
    requires
        clock.wf(),
        duration.total() > 0 ==> clock.source.is_some(),
    ensures
        duration.total() == 0 ==> cycles == 0,
        duration.total() > 0 ==> cycles == clock.source->Some_0.scale.cycles_of(
            cap_u64(duration.total()) as int,
        ),
{
    let ns: u64 = duration_to_ns(duration);
    if ns == 0 {
        return 0;
    }
    match clock.source {
        Some(source) => source.scale.ns_to_cycles(ns),
        None => 0,
    }
}

/// Whether a busy wait that began at `start` is over at `counter`.
pub fn delay_is_over(start: u64, counter: u64, cycles: u64) -> (over: bool)
    ensures
        over == ((counter - start) % 0x1_0000_0000_0000_0000 >= cycles),
{
    counter.wrapping_sub(start) >= cycles
}


/// What an expired timer wakes.
#[derive(Copy, Clone, Debug, PartialEq, Eq, Structural)]
pub enum TimerTarget {
    /// The timeout event of a wait, by its number.
    Event(u64),
    /// A sleeping thread.
    Thread(WakeTarget),
}

/// A pending timer.
#[derive(Copy, Clone, Debug, PartialEq, Eq, Structural)]
pub struct Timer {
    /// When it expires.
    pub deadline_ns: u64,
    /// When it was added, among timers of one deadline.
    pub order: u64,
    /// CPU whose queue holds it.
    pub cpu_id: usize,
    /// What it wakes.
    pub target: TimerTarget,
}

impl Timer {
    /// Whether it expires after `other`.
    pub open spec fn follows(self, other: Timer) -> bool {
        self.deadline_ns > other.deadline_ns || (self.deadline_ns == other.deadline_ns
            && self.order > other.order)
    }

    fn is_after(self, other: Timer) -> (after: bool)
        ensures
            after == self.follows(other),
    {
        self.deadline_ns > other.deadline_ns || (self.deadline_ns == other.deadline_ns
            && self.order > other.order)
    }
}

/// A CPU's clock as specifications see it.
#[verifier::ext_equal]
pub struct LocalModel {
    /// Order of the next timer.
    pub next_order: u64,
    /// Deadline of the scheduler, or zero.
    pub scheduler: u64,
    /// Deadline of the first timer, or zero.
    pub timer: u64,
    /// Deadline that the hardware is programmed with, or zero.
    pub armed: u64,
    /// Pending timers, first to expire first.
    pub timers: Seq<Timer>,
}

/// Which timers expire after `timer`.
pub open spec fn after(timer: Timer) -> spec_fn(Timer) -> bool {
    |t: Timer| t.follows(timer)
}

/// The timers with `timer` at its place.
pub open spec fn queued(timers: Seq<Timer>, timer: Timer) -> Seq<Timer> {
    timers.insert(first_where(timers, after(timer), 0), timer)
}

/// Which timer is `timer`.
pub open spec fn same(timer: Timer) -> spec_fn(Timer) -> bool {
    |t: Timer| t == timer
}

/// The earlier of two deadlines, where zero is none.
pub open spec fn earlier(a: u64, b: u64) -> u64 {
    if a == 0 {
        b
    } else if b == 0 {
        a
    } else {
        min_int(a as int, b as int) as u64
    }
}

/// How many timers at the front are due.
pub open spec fn due(timers: Seq<Timer>, now_ns: u64) -> int {
    first_where(timers, |t: Timer| t.deadline_ns > now_ns, 0)
}

impl LocalModel {
    /// Whether the timers expire in their order.
    pub open spec fn sorted(self) -> bool {
        forall|i: int, j: int|
            0 <= i < j < self.timers.len() ==> !(#[trigger] self.timers[i]).follows(
                #[trigger] self.timers[j],
            )
    }

    /// Whether the timers expire in their order and the first of them is noted,
    /// as always but during a timer interrupt.
    pub open spec fn settled(self) -> bool {
        self.sorted() && self.timer == self.front()
    }

    /// Whether `timer` is pending at most once.
    pub open spec fn holds_once(self, timer: Timer) -> bool {
        forall|i: int, j: int|
            0 <= i < self.timers.len() && 0 <= j < self.timers.len() && #[trigger] self.timers[i]
                == timer && #[trigger] self.timers[j] == timer ==> i == j
    }

    /// The deadline of the first timer, or zero.
    pub open spec fn front(self) -> u64 {
        if self.timers.len() == 0 {
            0
        } else {
            self.timers[0].deadline_ns
        }
    }

    /// The clock with its first timer noted.
    pub open spec fn noted(self) -> LocalModel {
        LocalModel { timer: self.front(), ..self }
    }

    /// The clock with the hardware programmed.
    pub open spec fn programmed(self) -> LocalModel {
        LocalModel { armed: earlier(self.scheduler, self.timer), ..self }
    }

    /// What the hardware must be programmed with, if that changes.
    pub open spec fn arm(self) -> Option<u64> {
        if earlier(self.scheduler, self.timer) == self.armed {
            None
        } else {
            Some(earlier(self.scheduler, self.timer))
        }
    }

    /// The clock with one more timer.
    pub open spec fn with(self, timer: Timer) -> LocalModel {
        LocalModel {
            next_order: ((self.next_order + 1) % 0x1_0000_0000_0000_0000) as u64,
            timers: queued(self.timers, timer),
            ..self
        }.noted()
    }

    /// The clock without a timer.
    pub open spec fn without(self, timer: Timer) -> LocalModel {
        LocalModel {
            timers: self.timers.remove(first_where(self.timers, same(timer), 0)),
            ..self
        }.noted()
    }

    /// The clock at the end of a timer interrupt.
    pub open spec fn rested(self, now_ns: u64) -> LocalModel {
        LocalModel {
            scheduler: if self.scheduler <= now_ns {
                0
            } else {
                self.scheduler
            },
            armed: 0,
            ..self.noted()
        }
    }
}

proof fn lemma_queued_sorted(local: LocalModel, timer: Timer)
    requires
        local.sorted(),
    ensures
        local.with(timer).sorted(),
{
    let before = local.timers;
    let at = first_where(before, after(timer), 0);
    lemma_first_where(before, after(timer), 0);
    let now = queued(before, timer);
    assert forall|i: int, j: int| 0 <= i < j < now.len() implies !(#[trigger] now[i]).follows(
        #[trigger] now[j],
    ) by {
        if i < at {
            assert(now[i] == before[i]);
            assert(!after(timer)(before[i]));
            if j > at {
                assert(now[j] == before[j - 1]);
            } else if j < at {
                assert(now[j] == before[j]);
            }
        } else if i > at {
            assert(now[i] == before[i - 1] && now[j] == before[j - 1]);
        } else {
            assert(now[j] == before[j - 1]);
            assert(after(timer)(before[at]));
            if j - 1 > at {
                assert(!before[at].follows(before[j - 1]));
            }
        }
    }
}

/// Timer queue and deadlines of one CPU.
pub struct LocalClockState {
    next_order: u64,
    next_scheduler_deadline_ns: u64,
    next_timer_deadline_ns: u64,
    armed_deadline_ns: u64,
    timers: Vec<Timer>,
}

impl View for LocalClockState {
    type V = LocalModel;

    closed spec fn view(&self) -> LocalModel {
        LocalModel {
            next_order: self.next_order,
            scheduler: self.next_scheduler_deadline_ns,
            timer: self.next_timer_deadline_ns,
            armed: self.armed_deadline_ns,
            timers: self.timers@,
        }
    }
}

impl LocalClockState {
    /// A clock without timers and deadlines.
    pub fn new() -> (local: Self)
        ensures
            local@ == (LocalModel {
                next_order: 0,
                scheduler: 0,
                timer: 0,
                armed: 0,
                timers: Seq::empty(),
            }),
            local@.settled(),
    {
        LocalClockState {
            next_order: 0,
            next_scheduler_deadline_ns: 0,
            next_timer_deadline_ns: 0,
            armed_deadline_ns: 0,
            timers: Vec::new(),
        }
    }

    /// Programs the hardware for the first time.
    pub fn start(&mut self) -> (arm: Option<u64>)
        ensures
            arm == old(self)@.arm(),
            final(self)@ == old(self)@.programmed(),
            old(self)@.settled() ==> final(self)@.settled(),
    {
        self.refresh_programmed_deadline()
    }

    /// Stops the hardware and drops the scheduler's deadline; pending timers
    /// stay queued.
    pub fn stop(&mut self) -> (arm: Option<u64>)
        ensures
            arm == if old(self)@.armed == 0 {
                None
            } else {
                Some(0u64)
            },
            final(self)@ == (LocalModel { scheduler: 0, armed: 0, ..old(self)@ }),
            old(self)@.settled() ==> final(self)@.settled(),
    {
        self.next_scheduler_deadline_ns = 0;
        if self.armed_deadline_ns == 0 {
            return None;
        }
        self.armed_deadline_ns = 0;
        Some(0)
    }

    /// Sets the scheduler's deadline.
    pub fn set_scheduler_deadline(&mut self, deadline_ns: u64) -> (arm: Option<u64>)
        ensures
            ({
                let next = LocalModel { scheduler: deadline_ns, ..old(self)@ };
                arm == next.arm() && final(self)@ == next.programmed()
            }),
            old(self)@.settled() ==> final(self)@.settled(),
    {
        self.next_scheduler_deadline_ns = deadline_ns;
        self.refresh_programmed_deadline()
    }

    /// Adds a timer.
    pub fn insert_timer(&mut self, deadline_ns: u64, cpu_id: usize, target: TimerTarget) -> (added: (
        Timer,
        Option<u64>,
    ))
        requires
            old(self)@.sorted(),
        ensures
            added.0 == (Timer { deadline_ns, order: old(self)@.next_order, cpu_id, target }),
            added.1 == old(self)@.with(added.0).arm(),
            final(self)@ == old(self)@.with(added.0).programmed(),
            final(self)@.settled(),
    {
        let timer = Timer { deadline_ns, order: self.next_order, cpu_id, target };
        self.next_order = self.next_order.wrapping_add(1);
        let ghost p = after(timer);
        let ghost before = self.timers@;
        let mut at: usize = 0;
        while at < self.timers.len() && !self.timers[at].is_after(timer)
            invariant
                p == after(timer),
                before == self.timers@,
                at <= before.len(),
                first_where(before, p, 0) == first_where(before, p, at as int),
            decreases before.len() - at,
        {
            at = at + 1;
        }
        self.timers.insert(at, timer);
        proof {
            lemma_queued_sorted(old(self)@, timer);
        }
        self.refresh_timer_deadline();
        let arm = self.refresh_programmed_deadline();
        (timer, arm)
    }

    /// Takes the first timer if it is due.
    pub fn take_expired(&mut self, now_ns: u64) -> (expired: Option<TimerTarget>)
        requires
            old(self)@.sorted(),
        ensures
            final(self)@.sorted(),
            ({
                let timers = old(self)@.timers;
                if timers.len() > 0 && timers[0].deadline_ns <= now_ns {
                    &&& expired == Some(timers[0].target)
                    &&& final(self)@ == (LocalModel { timers: timers.skip(1), ..old(self)@ })
                } else {
                    expired.is_none() && final(self)@ == old(self)@
                }
            }),
    {
        if self.timers.len() == 0 || self.timers[0].deadline_ns > now_ns {
            return None;
        }
        let timer = self.timers.remove(0);
        assert(self.timers@ =~= old(self)@.timers.skip(1));
        Some(timer.target)
    }

    /// Takes every timer that is due, first to expire first.
    pub fn take_due(&mut self, now_ns: u64) -> (expired: Vec<TimerTarget>)
        requires
            old(self)@.sorted(),
        ensures
            final(self)@.sorted(),
            ({
                let n = due(old(self)@.timers, now_ns);
                &&& expired@ == old(self)@.timers.take(n).map_values(|t: Timer| t.target)
                &&& final(self)@ == (LocalModel {
                    timers: old(self)@.timers.skip(n),
                    ..old(self)@
                })
            }),
    {
        let ghost all = self@.timers;
        let ghost late = |t: Timer| t.deadline_ns > now_ns;
        let mut expired: Vec<TimerTarget> = Vec::new();
        assert(all.skip(0) =~= all);
        loop
            invariant
                all == old(self)@.timers,
                late == (|t: Timer| t.deadline_ns > now_ns),
                self@.sorted(),
                expired@.len() <= all.len(),
                self@ == (LocalModel { timers: all.skip(expired@.len() as int), ..old(self)@ }),
                expired@ == all.take(expired@.len() as int).map_values(|t: Timer| t.target),
                first_where(all, late, 0) == first_where(all, late, expired@.len() as int),
            decreases all.len() - expired@.len(),
        {
            let ghost n = expired@.len() as int;
            match self.take_expired(now_ns) {
                Some(target) => {
                    assert(all.skip(n)[0] == all[n]);
                    assert(all.skip(n).skip(1) =~= all.skip(n + 1));
                    expired.push(target);
                    assert(expired@ =~= all.take(n + 1).map_values(|t: Timer| t.target));
                },
                None => {
                    assert(n < all.len() ==> all.skip(n)[0] == all[n]);
                    assert(first_where(all, late, n) == n);
                    return expired;
                },
            }
        }
    }

    /// Removes a timer that is still pending.
    pub fn remove_timer(&mut self, timer: Timer) -> (arm: Option<u64>)
        requires
            old(self)@.sorted(),
        ensures
            final(self)@.sorted(),
            old(self)@.settled() ==> final(self)@.settled(),
            ({
                let at = first_where(old(self)@.timers, same(timer), 0);
                if at < old(self)@.timers.len() {
                    &&& arm == old(self)@.without(timer).arm()
                    &&& final(self)@ == old(self)@.without(timer).programmed()
                } else {
                    arm.is_none() && final(self)@ == old(self)@
                }
            }),
    {
        let ghost before = self.timers@;
        let ghost p = same(timer);
        let mut at: usize = 0;
        while at < self.timers.len() && self.timers[at] != timer
            invariant
                p == same(timer),
                before == self.timers@,
                at <= before.len(),
                first_where(before, p, 0) == first_where(before, p, at as int),
            decreases before.len() - at,
        {
            at = at + 1;
        }
        if at == self.timers.len() {
            return None;
        }
        let _ = self.timers.remove(at);
        let ghost now = self.timers@;
        assert(now == before.remove(at as int));
        assert forall|i: int, j: int| 0 <= i < j < now.len() implies !(#[trigger] now[i]).follows(
            #[trigger] now[j],
        ) by {
            let x = if i < at {
                i
            } else {
                i + 1
            };
            let y = if j < at {
                j
            } else {
                j + 1
            };
            assert(now[i] == before[x] && now[j] == before[y]);
        }
        self.refresh_timer_deadline();
        self.refresh_programmed_deadline()
    }

    /// Ends a timer interrupt: the hardware has fired and must be programmed
    /// anew.
    pub fn finish_interrupt(&mut self, now_ns: u64) -> (arm: Option<u64>)
        ensures
            arm == old(self)@.rested(now_ns).arm(),
            final(self)@ == old(self)@.rested(now_ns).programmed(),
            old(self)@.sorted() ==> final(self)@.settled(),
    {
        self.refresh_timer_deadline();
        if self.next_scheduler_deadline_ns != 0 && self.next_scheduler_deadline_ns <= now_ns {
            self.next_scheduler_deadline_ns = 0;
        }
        self.armed_deadline_ns = 0;
        self.refresh_programmed_deadline()
    }

    fn refresh_timer_deadline(&mut self)
        ensures
            final(self)@ == old(self)@.noted(),
    {
        self.next_timer_deadline_ns = if self.timers.len() == 0 {
            0
        } else {
            self.timers[0].deadline_ns
        };
    }

    fn combined_deadline(&self) -> (deadline: u64)
        ensures
            deadline == earlier(self@.scheduler, self@.timer),
    {
        if self.next_scheduler_deadline_ns == 0 {
            self.next_timer_deadline_ns
        } else if self.next_timer_deadline_ns == 0 || self.next_scheduler_deadline_ns
            <= self.next_timer_deadline_ns {
            self.next_scheduler_deadline_ns
        } else {
            self.next_timer_deadline_ns
        }
    }

    fn refresh_programmed_deadline(&mut self) -> (arm: Option<u64>)
        ensures
            arm == old(self)@.arm(),
            final(self)@ == old(self)@.programmed(),
    {
        let next: u64 = self.combined_deadline();
        if next == self.armed_deadline_ns {
            assert(self@ =~= old(self)@.programmed());
            return None;
        }
        self.armed_deadline_ns = next;
        Some(next)
    }
}

/// The clocks of all CPUs.
pub fn bootstrap_clocks(cpu_count: usize) -> (clocks: Vec<LocalClockState>)
    ensures
        clocks@.len() == cpu_count,
        forall|i: int|
            0 <= i < cpu_count ==> (#[trigger] clocks@[i])@ == (LocalModel {
                next_order: 0,
                scheduler: 0,
                timer: 0,
                armed: 0,
                timers: Seq::empty(),
            }),
{
    let mut clocks: Vec<LocalClockState> = Vec::new();
    while clocks.len() < cpu_count
        invariant
            clocks@.len() <= cpu_count,
            forall|i: int|
                0 <= i < clocks@.len() ==> (#[trigger] clocks@[i])@ == (LocalModel {
                    next_order: 0,
                    scheduler: 0,
                    timer: 0,
                    armed: 0,
                    timers: Seq::empty(),
                }),
        decreases cpu_count - clocks@.len(),
    {
        clocks.push(LocalClockState::new());
    }
    clocks
}

/// Starts timer delivery on the current CPU.
pub fn start_cpu(local: &mut LocalClockState) -> (arm: Option<u64>)
    ensures
        arm == old(local)@.arm(),
        final(local)@ == old(local)@.programmed(),
        old(local)@.settled() ==> final(local)@.settled(),
{
    local.start()
}

/// Stops timer delivery on the current CPU: the hardware is stopped even
/// where a timer is pending.
pub fn stop(local: &mut LocalClockState) -> (arm: Option<u64>)
    ensures
        arm == if old(local)@.armed == 0 {
            None
        } else {
            Some(0u64)
        },
        final(local)@ == (LocalModel { scheduler: 0, armed: 0, ..old(local)@ }),
        old(local)@.settled() ==> final(local)@.settled(),
{
    local.stop()
}

/// Sets the scheduler deadline of the current CPU.
pub fn set_scheduler_deadline(local: &mut LocalClockState, deadline_ns: u64) -> (arm: Option<u64>)
    ensures
        ({
            let next = LocalModel { scheduler: deadline_ns, ..old(local)@ };
            arm == next.arm() && final(local)@ == next.programmed()
        }),
        old(local)@.settled() ==> final(local)@.settled(),
{
    local.set_scheduler_deadline(deadline_ns)
}

/// Removes a timer from the queue that holds it.
///
/// Only the owning CPU may program its hardware; another leaves it to re-arm on
/// its next trap.
pub fn remove_timer(local: &mut LocalClockState, timer: Timer, this_cpu: Option<usize>) -> (arm:
    Option<u64>)
    requires
        old(local)@.sorted(),
    ensures
        final(local)@.sorted(),
        old(local)@.settled() ==> final(local)@.settled(),
        ({
            let at = first_where(old(local)@.timers, same(timer), 0);
            if at < old(local)@.timers.len() {
                &&& arm == if this_cpu == Some(timer.cpu_id) {
                    old(local)@.without(timer).arm()
                } else {
                    None
                }
                &&& final(local)@ == old(local)@.without(timer).programmed()
            } else {
                arm.is_none() && final(local)@ == old(local)@
            }
        }),
{
    let arm = local.remove_timer(timer);
    match this_cpu {
        Some(cpu) => if cpu == timer.cpu_id {
            arm
        } else {
            None
        },
        None => None,
    }
}

/// Puts the current thread to sleep: adds the timer that wakes it to the queue of
/// its CPU.
///
/// Returns the timer, and what to program the hardware with; an empty sleep
/// does nothing, wherever it is asked for.
pub fn sleep(
    cpu: &Masking,
    local: &mut LocalClockState,
    now_ns: u64,
    duration: Timespec,
    sleeper: WakeTarget,
) -> (timer: Option<(Timer, Option<u64>)>)
    requires
        old(local)@.settled(),
        duration.total() > 0 ==> cpu.may_sleep(),
    ensures
        final(local)@.settled(),
        duration.total() == 0 ==> timer.is_none() && final(local)@ == old(local)@,
        duration.total() > 0 ==> {
            &&& timer matches Some((added, arm))
            &&& added == (Timer {
                deadline_ns: cap_u64(now_ns + cap_u64(duration.total())),
                order: old(local)@.next_order,
                cpu_id: cpu.core.id,
                target: TimerTarget::Thread(sleeper),
            })
            &&& arm == old(local)@.with(added).arm()
            &&& final(local)@ == old(local)@.with(added).programmed()
        },
{
    let ns: u64 = duration_to_ns(duration);
    if ns == 0 {
        return None;
    }
    Some(local.insert_timer(now_ns.saturating_add(ns), cpu.core.id, TimerTarget::Thread(sleeper)))
}

/// Ends the sleep of a thread that runs again, and drops its timer if that is
/// still pending.
///
/// Returns what to program the hardware with; nothing where the time is not
/// over, so that the thread has to sleep on.
pub fn finish_sleep(
    local: &mut LocalClockState,
    timer: Timer,
    now_ns: u64,
    this_cpu: Option<usize>,
) -> (done: Option<Option<u64>>)
    requires
        old(local)@.settled(),
    ensures
        final(local)@.settled(),
        done.is_some() == (timer.deadline_ns <= now_ns),
        done.is_none() ==> final(local)@ == old(local)@,
        done matches Some(arm) ==> {
            let at = first_where(old(local)@.timers, same(timer), 0);
            if at < old(local)@.timers.len() {
                &&& arm == if this_cpu == Some(timer.cpu_id) {
                    old(local)@.without(timer).arm()
                } else {
                    None
                }
                &&& final(local)@ == old(local)@.without(timer).programmed()
            } else {
                arm.is_none() && final(local)@ == old(local)@
            }
        },
        done.is_some() && old(local)@.holds_once(timer) ==> !final(local)@.timers.contains(timer),
{
    if now_ns < timer.deadline_ns {
        return None;
    }
    let arm = remove_timer(local, timer, this_cpu);
    proof {
        let before = old(local)@.timers;
        let now = local@.timers;
        let at = first_where(before, same(timer), 0);
        lemma_first_where(before, same(timer), 0);
        if old(local)@.holds_once(timer) && now.contains(timer) {
            let i = now.index_of(timer);
            assert(now[i] == timer);
            if at < before.len() {
                assert(same(timer)(before[at]));
                let j = if i < at {
                    i
                } else {
                    i + 1
                };
                assert(before[j] == timer);
            } else {
                assert(before[i] == timer);
                assert(same(timer)(before[i]));
            }
        }
    }
    Some(arm)
}

/// How a wait with a timeout begins.
#[derive(Copy, Clone, Debug, PartialEq, Eq, Structural)]
pub enum TimedWait {
    /// It does not wait: this event was signaled, or none.
    Polled(Option<usize>),
    /// It waits until the timer expires at the latest.
    Waiting(Timer, Option<u64>),
}

/// Begins a wait for events with a timeout.
///
/// `ready` is the first signaled event. The timeout event stands behind the
/// events, so that its index is their number.
pub fn wait_any_timeout(
    cpu: &Masking,
    local: &mut LocalClockState,
    ready: Option<usize>,
    now_ns: u64,
    duration: Timespec,
    timeout_event: u64,
) -> (wait: TimedWait)
    requires
        old(local)@.settled(),
        duration.total() > 0 ==> cpu.may_sleep(),
    ensures
        final(local)@.settled(),
        duration.total() == 0 ==> wait == TimedWait::Polled(ready) && final(local)@ == old(local)@,
        duration.total() > 0 ==> {
            &&& wait matches TimedWait::Waiting(added, arm)
            &&& added == (Timer {
                deadline_ns: cap_u64(now_ns + cap_u64(duration.total())),
                order: old(local)@.next_order,
                cpu_id: cpu.core.id,
                target: TimerTarget::Event(timeout_event),
            })
            &&& arm == old(local)@.with(added).arm()
            &&& final(local)@ == old(local)@.with(added).programmed()
        },
{
    let ns: u64 = duration_to_ns(duration);
    if ns == 0 {
        return TimedWait::Polled(ready);
    }
    let (timer, arm) = local.insert_timer(
        now_ns.saturating_add(ns),
        cpu.core.id,
        TimerTarget::Event(timeout_event),
    );
    TimedWait::Waiting(timer, arm)
}

/// The event that ended a wait for `events` events and a timeout behind them.
pub fn timed_wait_winner(winner: usize, events: usize) -> (won: Option<usize>)
    ensures
        won == if winner == events {
            None
        } else {
            Some(winner)
        },
{
    if winner == events {
        None
    } else {
        Some(winner)
    }
}

/// Begins a local timer interrupt: what the due timers wake.
pub fn handle_local_timer_interrupt(local: &mut LocalClockState, now_ns: u64) -> (expired: Vec<
    TimerTarget,
>)
    requires
        old(local)@.sorted(),
    ensures
        final(local)@.sorted(),
        ({
            let n = due(old(local)@.timers, now_ns);
            &&& expired@ == old(local)@.timers.take(n).map_values(|t: Timer| t.target)
            &&& final(local)@ == (LocalModel { timers: old(local)@.timers.skip(n), ..old(local)@ })
        }),
{
    local.take_due(now_ns)
}

/// What to do to the timer hardware.
#[derive(Copy, Clone, Debug, PartialEq, Eq, Structural)]
pub enum TimerOp {
    /// Stop it.
    Stop,
    /// Let it fire once after this many nanoseconds.
    OneShot(u64),
}

/// How the hardware is programmed for a deadline, within its limits.
pub open spec fn deadline_op(deadline_ns: u64, now_ns: u64, min_ns: u64, max_ns: u64) -> TimerOp {
    if deadline_ns == 0 {
        TimerOp::Stop
    } else {
        TimerOp::OneShot(
            max_int(
                min_ns as int,
                min_int(max_ns as int, minus_or_zero(deadline_ns as int, now_ns as int)),
            ) as u64,
        )
    }
}

/// Programs a timer for a deadline, within its limits; nothing happens where
/// the timer's limits exclude each other.
pub fn program_timer<T: EventTimer>(timer: &T, deadline_ns: u64, now_ns: u64) -> (op: Option<
    TimerOp,
>)
    ensures
        deadline_ns == 0 ==> op == Some(TimerOp::Stop),
        deadline_ns > 0 ==> exists|min_ns: u64, max_ns: u64|
            {
                &&& #[trigger] call_ensures(T::min_period_ns, (timer,), min_ns)
                &&& #[trigger] call_ensures(T::max_period_ns, (timer,), max_ns)
                &&& op == if min_ns > max_ns {
                    None
                } else {
                    Some(deadline_op(deadline_ns, now_ns, min_ns, max_ns))
                }
            },
        op == Some(TimerOp::Stop) ==> call_ensures(T::stop, (timer,), ()),
        op matches Some(TimerOp::OneShot(delay_ns)) ==> call_ensures(
            T::set_oneshot,
            (timer, delay_ns),
            (),
        ),
{
    if deadline_ns == 0 {
        timer.stop();
        return Some(TimerOp::Stop);
    }
    let min_ns: u64 = timer.min_period_ns();
    let max_ns: u64 = timer.max_period_ns();
    if min_ns > max_ns {
        return None;
    }
    let op = apply_deadline(deadline_ns, now_ns, min_ns, max_ns);
    if let TimerOp::OneShot(delay_ns) = op {
        timer.set_oneshot(delay_ns);
    }
    Some(op)
}

/// How the hardware is programmed for a deadline, within its limits.
pub fn apply_deadline(deadline_ns: u64, now_ns: u64, min_ns: u64, max_ns: u64) -> (op: TimerOp)
    requires
        min_ns <= max_ns,
    ensures
        op == deadline_op(deadline_ns, now_ns, min_ns, max_ns),
{
    if deadline_ns == 0 {
        return TimerOp::Stop;
    }
    let delay_ns: u64 = deadline_ns.saturating_sub(now_ns);
    if delay_ns < min_ns {
        TimerOp::OneShot(min_ns)
    } else if delay_ns > max_ns {
        TimerOp::OneShot(max_ns)
    } else {
        TimerOp::OneShot(delay_ns)
    }
}

/// Time never goes back: a later counter gives no earlier time.
pub proof fn law_time_is_monotonic(scale: ClockScale, early: int, late: int)
    requires
        scale.wf(),
        0 <= early <= late <= u64::MAX,
    ensures
        scale.ns_of(early) <= scale.ns_of(late),
{
    let unit = pow2(scale.ns_per_cycle().1 as nat) as int;
    let factor = scale.ns_per_cycle().0 as int;
    lemma_pow2_pos(scale.ns_per_cycle().1 as nat);
    assert(0 <= early * factor <= late * factor) by (nonlinear_arith)
        requires
            0 <= early <= late,
            0 <= factor,
    ;
    assert((early * factor) / unit <= (late * factor) / unit) by (nonlinear_arith)
        requires
            early * factor <= late * factor,
            unit > 0,
    ;
    assert((early * factor) / unit >= 0) by (nonlinear_arith)
        requires
            0 <= early * factor,
            unit > 0,
    ;
}

/// A delay is never too short: its cycles last at least the requested time,
/// unless they are more than a counter holds.
pub proof fn law_delay_is_long_enough(scale: ClockScale, frequency: int, ns: int)
    requires
        0 < frequency <= u64::MAX,
        scale.fits(frequency),
        0 <= ns <= u64::MAX,
        scale.cycles_of(ns) < u64::MAX,
    ensures
        scale.cycles_of(ns) * 1_000_000_000 >= ns * frequency,
{
    let unit = pow2(scale.cycles_per_ns().1 as nat) as int;
    let factor = scale.cycles_per_ns().0 as int;
    lemma_pow2_pos(scale.cycles_per_ns().1 as nat);
    if ns > 0 {
        let up = (ns * factor + unit - 1) / unit;
        let cycles = scale.cycles_of(ns) as int;
        assert(up * unit >= ns * factor) by (nonlinear_arith)
            requires
                up == (ns * factor + unit - 1) / unit,
                unit > 0,
        ;
        assert(factor * 1_000_000_000 >= frequency * unit);
        assert(cycles >= up);
        assert(cycles * 1_000_000_000 >= ns * frequency) by (nonlinear_arith)
            requires
                cycles >= up,
                up * unit >= ns * factor,
                factor * 1_000_000_000 >= frequency * unit,
                unit > 0,
                ns > 0,
        {
            assert((up * 1_000_000_000) * unit >= (ns * frequency) * unit) by (nonlinear_arith)
                requires
                    up * unit >= ns * factor,
                    factor * 1_000_000_000 >= frequency * unit,
                    unit > 0,
                    ns > 0,
            {
                assert(ns * (factor * 1_000_000_000) >= ns * (frequency * unit));
                assert((up * unit) * 1_000_000_000 >= (ns * factor) * 1_000_000_000);
            }
        }
    }
}

/// The fewest cycles of a counter that last `ns`.
pub open spec fn exact_cycles(frequency: int, ns: int) -> int {
    (ns * frequency + 999_999_999) / 1_000_000_000
}

/// A wait takes no cycle exactly when it is empty, and never fewer than it
/// needs, or than a counter holds.
pub proof fn law_cycles_suffice(scale: ClockScale, frequency: int, ns: int)
    requires
        0 < frequency <= u64::MAX,
        scale.fits(frequency),
        0 <= ns <= u64::MAX,
    ensures
        scale.cycles_of(ns) >= min_int(exact_cycles(frequency, ns), u64::MAX as int),
        scale.cycles_of(ns) == 0 <==> ns == 0,
{
    if scale.cycles_of(ns) < u64::MAX {
        law_delay_is_long_enough(scale, frequency, ns);
    }
}

proof fn lemma_finest_cycles(scale: ClockScale, frequency: int)
    requires
        0 < frequency <= 10_000_000_000_000,
        scale.fits(frequency),
    ensures
        scale.cycles_per_ns().1 == 48,
        scale.cycles_per_ns().0 == (frequency * 0x1_0000_0000_0000 + 999_999_999) / 1_000_000_000,
        pow2(48) == 0x1_0000_0000_0000,
{
    lemma2_to64_rest();
    let factors = cycle_factors(frequency);
    assert(factors(48) == cycle_factor(frequency, 48));
    assert(1 <= factors(48) <= u64::MAX);
    let shift = scale.cycles_per_ns().1 as nat;
    if shift < 48 {
        assert(!(1 <= factors(48) <= u64::MAX));
    }
}

/// For a counter of at most ten terahertz, a wait of up to three days takes at
/// most one cycle more than it needs.
pub proof fn law_cycles_are_tight(scale: ClockScale, frequency: int, ns: int)
    requires
        0 < frequency <= 10_000_000_000_000,
        scale.fits(frequency),
        0 <= ns <= 0x1_0000_0000_0000,
    ensures
        scale.cycles_of(ns) <= exact_cycles(frequency, ns) + 1,
{
    lemma_finest_cycles(scale, frequency);
    if ns > 0 {
        let unit: int = 0x1_0000_0000_0000;
        let factor = scale.cycles_per_ns().0 as int;
        let exact = exact_cycles(frequency, ns);
        let up = (ns * factor + unit - 1) / unit;
        assert(factor * 1_000_000_000 <= frequency * unit + 999_999_999);
        assert(exact * 1_000_000_000 >= ns * frequency);
        assert((exact + 1) * unit >= ns * factor) by (nonlinear_arith)
            requires
                0 < ns <= unit,
                unit == 0x1_0000_0000_0000,
                factor * 1_000_000_000 <= frequency * unit + 999_999_999,
                exact * 1_000_000_000 >= ns * frequency,
        {
            assert(ns * (factor * 1_000_000_000) <= ns * (frequency * unit + 999_999_999));
            assert(ns * (frequency * unit) == (ns * frequency) * unit);
            assert((ns * frequency) * unit <= (exact * 1_000_000_000) * unit);
        }
        assert(ns * frequency > 0) by (nonlinear_arith)
            requires
                ns > 0,
                frequency > 0,
        ;
        assert(exact >= 1);
        assert(up <= exact + 1);
    }
}

/// A longer wait never takes fewer cycles.
pub proof fn law_cycles_are_monotonic(scale: ClockScale, short: int, long: int)
    requires
        scale.wf(),
        0 <= short <= long <= u64::MAX,
    ensures
        scale.cycles_of(short) <= scale.cycles_of(long),
{
    let unit = pow2(scale.cycles_per_ns().1 as nat) as int;
    let factor = scale.cycles_per_ns().0 as int;
    lemma_pow2_pos(scale.cycles_per_ns().1 as nat);
    assert(short * factor <= long * factor) by (nonlinear_arith)
        requires
            short <= long,
            0 <= factor,
    ;
    assert((short * factor + unit - 1) / unit <= (long * factor + unit - 1) / unit)
        by (nonlinear_arith)
        requires
            short * factor <= long * factor,
            unit > 0,
    ;
}

/// A counter of one gigahertz counts nanoseconds.
pub proof fn law_gigahertz_counts_nanoseconds(scale: ClockScale, ns: int)
    requires
        scale.fits(1_000_000_000),
        0 <= ns <= u64::MAX,
    ensures
        scale.cycles_of(ns) == ns,
{
    lemma_finest_cycles(scale, 1_000_000_000);
    let unit: int = 0x1_0000_0000_0000;
    assert(scale.cycles_per_ns().0 == unit);
    assert((ns * unit + unit - 1) / unit == ns);
}

/// A timer interrupt wakes a sleeper exactly when at least the requested time
/// has passed since its sleep began, and then its timer is gone.
pub proof fn law_sleep_lasts(
    local: LocalModel,
    timer: Timer,
    start_ns: u64,
    duration: Timespec,
    now_ns: u64,
)
    requires
        local.sorted(),
        timer.deadline_ns == cap_u64(start_ns + cap_u64(duration.total())),
        forall|i: int|
            0 <= i < local.timers.len() ==> (#[trigger] local.timers[i]).target != timer.target,
    ensures
        ({
            let timers = local.with(timer).timers;
            let n = due(timers, now_ns);
            let woken = timers.take(n).map_values(|t: Timer| t.target);
            &&& woken.contains(timer.target) <==> now_ns >= cap_u64(
                start_ns + cap_u64(duration.total()),
            )
            &&& woken.contains(timer.target) ==> !timers.skip(n).contains(timer)
        }),
{
    let at = first_where(local.timers, after(timer), 0);
    lemma_first_where(local.timers, after(timer), 0);
    lemma_queued_sorted(local, timer);
    let whole = local.with(timer);
    let timers = whole.timers;
    let n = due(timers, now_ns);
    lemma_first_where(timers, |t: Timer| t.deadline_ns > now_ns, 0);
    let woken = timers.take(n).map_values(|t: Timer| t.target);
    assert(timers[at] == timer);
    law_due_timers_fire(whole, now_ns, at);
    assert forall|i: int| 0 <= i < timers.len() && i != at implies (#[trigger] timers[i]).target
        != timer.target by {
        if i < at {
            assert(timers[i] == local.timers[i]);
        } else {
            assert(timers[i] == local.timers[i - 1]);
        }
    }
    if at < n {
        assert(woken[at] == timer.target);
        if timers.skip(n).contains(timer) {
            let i = timers.skip(n).index_of(timer);
            assert(timers[i + n] == timer);
        }
    } else if woken.contains(timer.target) {
        let i = woken.index_of(timer.target);
        assert(woken[i] == timers[i].target);
    }
}

/// After each change of a queue the hardware is programmed with the earliest
/// deadline of scheduler and timers.
pub proof fn law_earliest_deadline_is_armed(local: LocalModel, timer: Timer, now_ns: u64)
    ensures
        ({
            let added = local.with(timer).programmed();
            let removed = local.without(timer).programmed();
            let rested = local.rested(now_ns).programmed();
            &&& added.armed == earlier(added.scheduler, added.front())
            &&& removed.armed == earlier(removed.scheduler, removed.front())
            &&& rested.armed == earlier(rested.scheduler, rested.front())
        }),
{
}

/// A timer interrupt fires exactly the timers that are due.
pub proof fn law_due_timers_fire(local: LocalModel, now_ns: u64, i: int)
    requires
        local.sorted(),
        0 <= i < local.timers.len(),
    ensures
        local.timers[i].deadline_ns <= now_ns <==> i < due(local.timers, now_ns),
{
    let late = |t: Timer| t.deadline_ns > now_ns;
    lemma_first_where(local.timers, late, 0);
    let n = due(local.timers, now_ns);
    if i >= n {
        assert(late(local.timers[n]));
        if i > n {
            assert(!local.timers[n].follows(local.timers[i]));
        }
    } else {
        assert(!late(local.timers[i]));
    }
}

/// A sleep that is taken back leaves no trace but the order it used up, and no
/// other timer is lost.
pub proof fn law_cancelled_timer_leaves_queue(local: LocalModel, timer: Timer)
    requires
        local.sorted(),
        timer.order == local.next_order,
        forall|i: int| 0 <= i < local.timers.len() ==> #[trigger] local.timers[i] != timer,
    ensures
        local.with(timer).programmed().without(timer).timers == local.timers,
{
    let at = first_where(local.timers, after(timer), 0);
    lemma_first_where(local.timers, after(timer), 0);
    let now = queued(local.timers, timer);
    lemma_first_where(now, same(timer), 0);
    let found = first_where(now, same(timer), 0);
    assert(now[at] == timer);
    assert(same(timer)(now[at]));
    if found < at {
        assert(now[found] == local.timers[found]);
    }
    assert(now.remove(at) =~= local.timers);
}

/// For a counter between sixteen kilohertz and ten terahertz, a count of cycles
/// gives the time that they take to within two nanoseconds.
pub proof fn law_cycles_tell_the_time(scale: ClockScale, frequency: int, cycles: int)
    requires
        16_000 <= frequency <= 10_000_000_000_000,
        scale.fits(frequency),
        0 <= cycles <= 0x1_0000_0000_0000,
        scale.ns_of(cycles) < u64::MAX,
    ensures
        2 * frequency * scale.ns_of(cycles) <= 2_000_000_000 * cycles + frequency,
        2_000_000_000 * cycles <= 2 * frequency * (scale.ns_of(cycles) + 1) + frequency,
{
    lemma2_to64_rest();
    let unit: int = 0x1_0000_0000_0000;
    let factors = ns_factors(frequency);
    let whole = 1_000_000_000 * unit + frequency / 2;
    assert(factors(48) == ns_factor(frequency, 48));
    vstd::arithmetic::div_mod::lemma_fundamental_div_mod(whole, frequency);
    assert(1 <= whole / frequency <= u64::MAX) by (nonlinear_arith)
        requires
            16_000 <= frequency <= 10_000_000_000_000,
            whole == 1_000_000_000 * 0x1_0000_0000_0000int + frequency / 2,
    ;
    let shift = scale.ns_per_cycle().1 as nat;
    if shift < 48 {
        assert(!(1 <= factors(48) <= u64::MAX));
    }
    let factor = scale.ns_per_cycle().0 as int;
    assert(factor == whole / frequency);
    assert(frequency * factor <= whole < frequency * factor + frequency) by {
        assert(0 <= whole % frequency < frequency);
    }
    let ns = scale.ns_of(cycles) as int;
    assert(ns == (cycles * factor) / unit) by {
        assert((cycles * factor) / unit >= 0) by (nonlinear_arith)
            requires
                cycles >= 0,
                factor >= 0,
                unit == 0x1_0000_0000_0000,
        ;
    }
    assert(unit * ns <= cycles * factor < unit * ns + unit);
    assert(2 * frequency * factor <= 2_000_000_000 * unit + frequency) by (nonlinear_arith)
        requires
            frequency * factor <= whole,
            whole == 1_000_000_000 * unit + frequency / 2,
            frequency > 0,
    ;
    assert(2 * frequency * factor + frequency >= 2_000_000_000 * unit) by (nonlinear_arith)
        requires
            whole < frequency * factor + frequency,
            whole == 1_000_000_000 * unit + frequency / 2,
            frequency > 0,
    ;
    assert(2 * frequency * ns <= 2_000_000_000 * cycles + frequency) by (nonlinear_arith)
        requires
            unit == 0x1_0000_0000_0000,
            0 <= cycles <= unit,
            frequency > 0,
            unit * ns <= cycles * factor,
            2 * frequency * factor <= 2_000_000_000 * unit + frequency,
    {
        assert(2 * frequency * (unit * ns) <= 2 * frequency * (cycles * factor));
        assert(2 * frequency * (cycles * factor) == cycles * (2 * frequency * factor));
        assert(cycles * (2 * frequency * factor) <= cycles * (2_000_000_000 * unit + frequency));
        assert(cycles * (2_000_000_000 * unit + frequency) == (2_000_000_000 * cycles) * unit
            + cycles * frequency);
        assert(cycles * frequency <= unit * frequency);
        assert(2 * frequency * (unit * ns) == (2 * frequency * ns) * unit);
        assert((2 * frequency * ns) * unit <= (2_000_000_000 * cycles + frequency) * unit);
    }
    assert(2_000_000_000 * cycles <= 2 * frequency * (ns + 1) + frequency) by (nonlinear_arith)
        requires
            unit == 0x1_0000_0000_0000,
            0 <= cycles <= unit,
            frequency > 0,
            cycles * factor < unit * ns + unit,
            2 * frequency * factor + frequency >= 2_000_000_000 * unit,
    {
        assert(cycles * (2 * frequency * factor + frequency) >= cycles * (2_000_000_000 * unit));
        assert(cycles * (2 * frequency * factor) == 2 * frequency * (cycles * factor));
        assert(2 * frequency * (cycles * factor) <= 2 * frequency * (unit * ns + unit));
        assert(2 * frequency * (unit * ns + unit) == (2 * frequency * (ns + 1)) * unit);
        assert(cycles * frequency <= unit * frequency);
        assert((2_000_000_000 * cycles) * unit <= (2 * frequency * (ns + 1) + frequency) * unit);
    }
}

/// Time passes from when the source was registered: a count that wrapped is
/// taken to have wrapped once.
pub proof fn law_time_starts_at_registration(source: RegisteredClockSource, counter: u64)
    ensures
        counter >= source.epoch ==> source.elapsed(counter) == source.scale.ns_of(
            counter - source.epoch,
        ),
        counter < source.epoch ==> source.elapsed(counter) == source.scale.ns_of(
            counter + 0x1_0000_0000_0000_0000 - source.epoch,
        ),
        source.scale.wf() ==> source.elapsed(source.epoch) == 0,
{
    let unit = pow2(source.scale.ns_per_cycle().1 as nat) as int;
    lemma_pow2_pos(source.scale.ns_per_cycle().1 as nat);
    assert(0int * source.scale.ns_per_cycle().0 == 0);
    assert(0int / unit == 0) by (nonlinear_arith)
        requires
            unit > 0,
    ;
}

/// Of two deadlines the earlier one counts; zero means that there is none.
pub proof fn law_earlier_deadline_counts(a: u64, b: u64)
    ensures
        a == 0 ==> earlier(a, b) == b,
        b == 0 ==> earlier(a, b) == a,
        a != 0 && b != 0 ==> earlier(a, b) <= a && earlier(a, b) <= b && (earlier(a, b) == a
            || earlier(a, b) == b),
{
}

/// The timer is stopped without a deadline and set to ring at the deadline
/// otherwise, as near to it as it can.
pub proof fn law_timer_is_set_to_deadline(deadline_ns: u64, now_ns: u64, min_ns: u64, max_ns: u64)
    requires
        min_ns <= max_ns,
    ensures
        deadline_ns == 0 <==> deadline_op(deadline_ns, now_ns, min_ns, max_ns) == TimerOp::Stop,
        deadline_op(deadline_ns, now_ns, min_ns, max_ns) matches TimerOp::OneShot(delay) ==> {
            &&& min_ns <= delay <= max_ns
            &&& now_ns + min_ns <= deadline_ns <= now_ns + max_ns ==> now_ns + delay == deadline_ns
            &&& deadline_ns < now_ns + min_ns ==> delay == min_ns
            &&& deadline_ns > now_ns + max_ns ==> delay == max_ns
        },
{
}

/// The hardware is set anew only when the earliest deadline changed, and then
/// to that deadline.
pub proof fn law_timer_is_set_when_needed(local: LocalModel)
    ensures
        local.arm().is_none() <==> local.programmed() == local,
        local.arm() matches Some(at) ==> local.programmed().armed == at && at != local.armed,
        local.programmed().arm().is_none(),
        local.programmed().timers == local.timers,
{
}

/// A timer that is added is in the queue once more, and the others stay.
pub proof fn law_added_timer_is_queued(local: LocalModel, timer: Timer, i: int)
    requires
        0 <= i < local.timers.len(),
    ensures
        local.with(timer).timers.len() == local.timers.len() + 1,
        local.with(timer).timers.contains(timer),
        local.with(timer).timers.contains(local.timers[i]),
        local.with(timer).scheduler == local.scheduler,
        local.next_order < u64::MAX ==> local.with(timer).next_order == local.next_order + 1,
{
    lemma_first_where(local.timers, after(timer), 0);
    let at = first_where(local.timers, after(timer), 0);
    let timers = local.with(timer).timers;
    assert(timers[at] == timer);
    assert(timers[if i < at { i } else { i + 1 }] == local.timers[i]);
}

/// Timers are ordered by their deadline, and those of one deadline by when they
/// were added.
pub proof fn law_timers_are_ordered(a: Timer, b: Timer)
    ensures
        a.deadline_ns > b.deadline_ns ==> a.follows(b) && !b.follows(a),
        a.deadline_ns == b.deadline_ns && a.order > b.order ==> a.follows(b) && !b.follows(a),
        a.deadline_ns == b.deadline_ns && a.order == b.order ==> !a.follows(b),
{
}

/// When the timer rang, a deadline of the scheduler that has passed is done
/// with and a later one stays.
pub proof fn law_reached_deadline_is_done(local: LocalModel, now_ns: u64)
    ensures
        local.scheduler <= now_ns ==> local.rested(now_ns).scheduler == 0,
        local.scheduler > now_ns ==> local.rested(now_ns).scheduler == local.scheduler,
        local.rested(now_ns).armed == 0,
        local.rested(now_ns).timers == local.timers,
        local.timers.len() > 0 ==> local.rested(now_ns).timer == local.timers[0].deadline_ns,
        local.timers.len() == 0 ==> local.rested(now_ns).timer == 0,
{
}

} // verus!
