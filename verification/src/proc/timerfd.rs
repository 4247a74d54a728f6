//! Clock-backed expiration descriptors.

use vstd::prelude::*;
use crate::bytes::{get_u64, put_u64, u64_at, u64_bytes};
use crate::fs::PollEvents;
use crate::num::{cap_u64, mul_capped};
use crate::sys::event::{all_claimed, all_targets, waiters_known, Event, EventModel, WaitGroups};
use crate::sys::sync::WakeTarget;
use crate::syscall::{Errno, NANOS_PER_SEC};

verus! {

/// Wall-clock time.
pub const CLOCK_REALTIME: i32 = 0;

/// Time since boot.
pub const CLOCK_MONOTONIC: i32 = 1;

/// Time since boot, with suspension.
pub const CLOCK_BOOTTIME: i32 = 7;

/// Creation flag: reading never waits.
pub const TFD_NONBLOCK: u64 = 0o4000;

/// Creation flag: the descriptor is closed when the program is replaced.
pub const TFD_CLOEXEC: u64 = 0o2000000;

/// Setting flag: the time is a point in time.
pub const TFD_TIMER_ABSTIME: u64 = 1;

/// Setting flag: a change of the clock cancels the timer.
pub const TFD_TIMER_CANCEL_ON_SET: u64 = 2;

/// Size of a timer setting in user memory.
pub const ITIMERSPEC_SIZE: usize = 32;

/// State of a timer.
#[derive(Copy, Clone, Debug, PartialEq, Eq, Structural)]
pub struct TimerState {
    /// Next expiration, or zero.
    pub deadline_ns: u64,
    /// Time between expirations, or zero.
    pub interval_ns: u64,
    /// Expirations that nobody read yet.
    pub expirations: u64,
}

impl TimerState {
    /// Expirations since the last refresh.
    pub open spec fn due(self, now_ns: u64) -> int {
        if self.deadline_ns == 0 || now_ns < self.deadline_ns {
            0
        } else if self.interval_ns == 0 {
            1
        } else {
            cap_u64((now_ns - self.deadline_ns) / (self.interval_ns as int) + 1) as int
        }
    }

    /// The state at `now_ns`.
    pub open spec fn refreshed(self, now_ns: u64) -> TimerState {
        if self.deadline_ns == 0 || now_ns < self.deadline_ns {
            self
        } else if self.interval_ns == 0 {
            TimerState {
                deadline_ns: 0,
                expirations: cap_u64(self.expirations + 1),
                ..self
            }
        } else {
            let count = self.due(now_ns);
            TimerState {
                deadline_ns: cap_u64(self.deadline_ns + cap_u64(self.interval_ns * count)),
                expirations: cap_u64(self.expirations + count),
                ..self
            }
        }
    }

    /// Time until the next expiration.
    pub open spec fn remaining(self, now_ns: u64) -> u64 {
        if self.deadline_ns > now_ns {
            (self.deadline_ns - now_ns) as u64
        } else {
            0
        }
    }
}

/// Counts the expirations up to `now_ns`.
pub fn refresh(state: &mut TimerState, now_ns: u64)
    ensures
        *final(state) == old(state).refreshed(now_ns),
{
    if state.deadline_ns == 0 || now_ns < state.deadline_ns {
        return;
    }
    let count: u64 = if state.interval_ns == 0 {
        state.deadline_ns = 0;
        1
    } else {
        let passed: u64 = now_ns - state.deadline_ns;
        let count: u64 = (passed / state.interval_ns).saturating_add(1);
        state.deadline_ns =
        state.deadline_ns.saturating_add(mul_capped(state.interval_ns, count));
        count
    };
    state.expirations = state.expirations.saturating_add(count);
}

/// Returns the time until the next expiration.
pub fn remaining_ns(state: &TimerState, now_ns: u64) -> (remaining: u64)
    ensures
        remaining == state.remaining(now_ns),
{
    state.deadline_ns.saturating_sub(now_ns)
}

/// A timer descriptor.
pub struct TimerFd {
    clock_id: i32,
    state: TimerState,
    changed: Event,
    nonblocking: bool,
}

/// A timer descriptor as specifications see it.
#[verifier::ext_equal]
pub struct TimerModel {
    /// Clock.
    pub clock_id: i32,
    /// State.
    pub state: TimerState,
    /// Event that tells of changes.
    pub changed: EventModel,
    /// Whether reading never waits.
    pub nonblocking: bool,
}

impl View for TimerFd {
    type V = TimerModel;

    closed spec fn view(&self) -> TimerModel {
        TimerModel {
            clock_id: self.clock_id,
            state: self.state,
            changed: self.changed@,
            nonblocking: self.nonblocking,
        }
    }
}

/// What reading a timer ended in.
#[derive(Copy, Clone, Debug, PartialEq, Eq, Structural)]
pub enum TimerRead {
    /// This many expirations, to be confirmed with
    /// [`TimerFd::confirm_read`] once they reached the reader.
    Expirations(u64),
    /// Wait for a change.
    Sleep,
    /// Wait for a change, but at most this long.
    SleepFor(u64),
}

/// Whether a timer on `clock_id` can be set with `flags`.
pub open spec fn flags_ok(clock_id: i32, flags: u64) -> bool {
    &&& flags <= 3
    &&& flags >= 2 ==> clock_id == CLOCK_REALTIME && flags % 2 == 1
}

proof fn lemma_flags(flags: u64)
    ensures
        (flags & !3u64 == 0) == (flags <= 3),
        flags <= 3 ==> (flags & 1 != 0) == (flags % 2 == 1),
        flags <= 3 ==> (flags & 2 != 0) == (flags >= 2),
        1u64 | 2u64 == 3u64,
{
    assert((flags & !3u64 == 0) == (flags <= 3)) by (bit_vector);
    assert(flags <= 3 ==> (flags & 1 != 0) == (flags % 2 == 1) && (flags & 2 != 0) == (flags >= 2))
        by (bit_vector);
    assert(1u64 | 2u64 == 3u64) by (bit_vector);
}

impl TimerFd {
    /// The event is consistent.
    pub closed spec fn wf(self) -> bool {
        self.changed.wf()
    }

    /// Creates a timer that is not set.
    pub fn new(clock_id: i32, nonblocking: bool) -> (timer: Self)
        ensures
            timer.wf(),
            timer@ == (TimerModel {
                clock_id,
                state: TimerState { deadline_ns: 0, interval_ns: 0, expirations: 0 },
                changed: EventModel { signaled: false, waiters: Seq::empty() },
                nonblocking,
            }),
    {
        TimerFd {
            clock_id,
            state: TimerState { deadline_ns: 0, interval_ns: 0, expirations: 0 },
            changed: Event::new(),
            nonblocking,
        }
    }

    /// Sets the timer; returns its state before, and whom to wake.
    pub fn set_time(
        &mut self,
        flags: u64,
        interval_ns: u64,
        value_ns: u64,
        now_ns: u64,
        groups: &mut WaitGroups,
    ) -> (previous: Result<(TimerState, Vec<WakeTarget>), Errno>)
        requires
            old(self).wf(),
            waiters_known(old(self)@.changed.waiters, old(groups)@),
        ensures
            final(self).wf(),
            if !flags_ok(old(self)@.clock_id, flags) {
                &&& previous == Err::<(TimerState, Vec<WakeTarget>), Errno>(Errno::Invalid)
                &&& final(self)@ == old(self)@
                &&& final(groups)@ == old(groups)@
            } else {
                &&& previous matches Ok((state, woken)) && state == old(self)@.state.refreshed(
                    now_ns,
                ) && woken@ == all_targets(old(self)@.changed.waiters, old(groups)@)
                &&& final(groups)@ == all_claimed(old(self)@.changed.waiters, old(groups)@)
                &&& final(self)@ == (TimerModel {
                    state: TimerState {
                        deadline_ns: if value_ns == 0 {
                            0
                        } else if flags % 2 == 1 {
                            value_ns
                        } else {
                            cap_u64(now_ns + value_ns)
                        },
                        interval_ns,
                        expirations: 0,
                    },
                    changed: EventModel { signaled: true, waiters: Seq::empty() },
                    ..old(self)@
                })
            },
            previous.is_ok() ==> {
                let state = final(self)@.state;
                &&& state.interval_ns == interval_ns && state.expirations == 0
                &&& value_ns == 0 ==> state.deadline_ns == 0
                &&& value_ns > 0 && flags == 0 && now_ns + value_ns <= u64::MAX
                    ==> state.deadline_ns == now_ns + value_ns
                &&& value_ns > 0 && flags == 1 ==> state.deadline_ns == value_ns
            },
            previous.is_err() ==> final(self)@ == old(self)@,
    {
        proof {
            lemma_flags(flags);
        }
        if flags & !(TFD_TIMER_ABSTIME | TFD_TIMER_CANCEL_ON_SET) != 0 || (flags
            & TFD_TIMER_CANCEL_ON_SET != 0 && (self.clock_id != CLOCK_REALTIME || flags
            & TFD_TIMER_ABSTIME == 0)) {
            return Err(Errno::Invalid);
        }
        refresh(&mut self.state, now_ns);
        let previous = self.state;
        self.state =
        TimerState {
            deadline_ns: if value_ns == 0 {
                0
            } else if flags & TFD_TIMER_ABSTIME != 0 {
                value_ns
            } else {
                now_ns.saturating_add(value_ns)
            },
            interval_ns,
            expirations: 0,
        };
        let woken = self.changed.signal(groups);
        Ok((previous, woken))
    }

    /// Returns the state at `now_ns`.
    pub fn current_time(&mut self, now_ns: u64) -> (state: TimerState)
        requires
            old(self).wf(),
        ensures
            final(self).wf(),
            state == old(self)@.state.refreshed(now_ns),
            final(self)@ == (TimerModel { state, ..old(self)@ }),
    {
        refresh(&mut self.state, now_ns);
        self.state
    }

    /// Reads the expirations into `capacity` bytes.
    pub fn read(&mut self, capacity: usize, now_ns: u64) -> (read: Result<TimerRead, Errno>)
        requires
            old(self).wf(),
        ensures
            final(self).wf(),
            ({
                let state = old(self)@.state.refreshed(now_ns);
                if capacity < 8 {
                    &&& read == Err::<TimerRead, Errno>(Errno::Invalid)
                    &&& final(self)@ == old(self)@
                } else if state.expirations != 0 {
                    &&& read == Ok::<TimerRead, Errno>(TimerRead::Expirations(state.expirations))
                    &&& final(self)@ == (TimerModel { state, ..old(self)@ })
                } else if old(self)@.nonblocking {
                    &&& read == Err::<TimerRead, Errno>(Errno::TryAgain)
                    &&& final(self)@ == (TimerModel { state, ..old(self)@ })
                } else {
                    &&& read == Ok::<TimerRead, Errno>(
                        if state.deadline_ns == 0 {
                            TimerRead::Sleep
                        } else {
                            TimerRead::SleepFor(
                                if state.remaining(now_ns) > 1 {
                                    state.remaining(now_ns)
                                } else {
                                    1
                                },
                            )
                        },
                    )
                    &&& final(self)@ == (TimerModel {
                        state,
                        changed: EventModel { signaled: false, ..old(self)@.changed },
                        ..old(self)@
                    })
                }
            }),
    {
        if capacity < 8 {
            return Err(Errno::Invalid);
        }
        refresh(&mut self.state, now_ns);
        if self.state.expirations != 0 {
            return Ok(TimerRead::Expirations(self.state.expirations));
        }
        if self.nonblocking {
            return Err(Errno::TryAgain);
        }
        let _ = self.changed.reset();
        if self.state.deadline_ns == 0 {
            return Ok(TimerRead::Sleep);
        }
        let remaining: u64 = remaining_ns(&self.state, now_ns);
        Ok(TimerRead::SleepFor(if remaining > 1 {
            remaining
        } else {
            1
        }))
    }

    /// Forgets the expirations once they reached the reader.
    pub fn confirm_read(&mut self)
        requires
            old(self).wf(),
        ensures
            final(self).wf(),
            final(self)@ == (TimerModel {
                state: TimerState { expirations: 0, ..old(self)@.state },
                ..old(self)@
            }),
    {
        self.state.expirations = 0;
    }

    /// Returns what the descriptor is ready for.
    pub fn poll(&mut self, requested: &PollEvents, now_ns: u64) -> (ready: PollEvents)
        requires
            old(self).wf(),
        ensures
            final(self).wf(),
            !requested.readable ==> final(self)@ == old(self)@,
            requested.readable ==> final(self)@ == (TimerModel {
                state: old(self)@.state.refreshed(now_ns),
                ..old(self)@
            }),
            ready == (PollEvents {
                readable: requested.readable && old(self)@.state.refreshed(now_ns).expirations != 0,
                ..PollEvents::nothing()
            }),
    {
        let mut ready = PollEvents::empty();
        if requested.readable {
            refresh(&mut self.state, now_ns);
            ready.readable = self.state.expirations != 0;
        }
        ready
    }

    /// Returns whether reading never waits.
    pub fn is_nonblocking(&self) -> (nonblocking: bool)
        ensures
            nonblocking == self@.nonblocking,
    {
        self.nonblocking
    }

    /// Changes whether reading never waits, and tells those who wait.
    pub fn set_nonblocking(&mut self, nonblocking: bool, groups: &mut WaitGroups) -> (woken: Vec<
        WakeTarget,
    >)
        requires
            old(self).wf(),
            waiters_known(old(self)@.changed.waiters, old(groups)@),
        ensures
            final(self).wf(),
            final(self)@ == (TimerModel {
                nonblocking,
                changed: EventModel { signaled: true, waiters: Seq::empty() },
                ..old(self)@
            }),
            final(groups)@ == all_claimed(old(self)@.changed.waiters, old(groups)@),
            woken@ == all_targets(old(self)@.changed.waiters, old(groups)@),
    {
        self.nonblocking = nonblocking;
        self.changed.signal(groups)
    }
}

/// The nanoseconds in a timespec.
pub open spec fn timespec_at(bytes: Seq<u8>, at: int) -> Result<u64, Errno> {
    let seconds = u64_at(bytes, at);
    let nanoseconds = u64_at(bytes, at + 8);
    if seconds > i64::MAX || nanoseconds >= NANOS_PER_SEC {
        Err(Errno::Invalid)
    } else if seconds * NANOS_PER_SEC + nanoseconds > u64::MAX {
        Err(Errno::Overflow)
    } else {
        Ok((seconds * NANOS_PER_SEC + nanoseconds) as u64)
    }
}

/// Reads the nanoseconds in a timespec.
pub fn decode_timespec(bytes: &[u8], at: usize) -> (nanoseconds: Result<u64, Errno>)
    requires
        at + 16 <= bytes@.len(),
    ensures
        nanoseconds == timespec_at(bytes@, at as int),
{
    assert(bytes@.len() == bytes.len());
    let seconds: u64 = get_u64(bytes, at);
    let nanoseconds: u64 = get_u64(bytes, at + 8);
    if seconds > i64::MAX as u64 || nanoseconds >= NANOS_PER_SEC {
        return Err(Errno::Invalid);
    }
    match seconds.checked_mul(NANOS_PER_SEC) {
        Some(whole) => match whole.checked_add(nanoseconds) {
            Some(total) => Ok(total),
            None => Err(Errno::Overflow),
        },
        None => Err(Errno::Overflow),
    }
}

/// A number of nanoseconds as timespec.
pub open spec fn timespec_bytes(nanoseconds: u64) -> Seq<u8> {
    u64_bytes(nanoseconds / NANOS_PER_SEC) + u64_bytes(nanoseconds % NANOS_PER_SEC)
}

/// Appends a number of nanoseconds as timespec.
pub fn encode_timespec(bytes: &mut Vec<u8>, nanoseconds: u64)
    ensures
        final(bytes)@ == old(bytes)@ + timespec_bytes(nanoseconds),
{
    put_u64(bytes, nanoseconds / NANOS_PER_SEC);
    put_u64(bytes, nanoseconds % NANOS_PER_SEC);
    assert(bytes@ =~= old(bytes)@ + timespec_bytes(nanoseconds));
}

/// Encodes a timer setting: interval, then time until the next expiration.
pub fn encode_itimerspec(interval_ns: u64, value_ns: u64) -> (bytes: Vec<u8>)
    ensures
        bytes@ == timespec_bytes(interval_ns) + timespec_bytes(value_ns),
        bytes@.len() == ITIMERSPEC_SIZE,
{
    let mut bytes: Vec<u8> = Vec::new();
    encode_timespec(&mut bytes, interval_ns);
    encode_timespec(&mut bytes, value_ns);
    assert(bytes@ =~= timespec_bytes(interval_ns) + timespec_bytes(value_ns));
    bytes
}

/// Reads a timer setting: interval, then time until the next expiration.
pub fn decode_itimerspec(bytes: &[u8]) -> (setting: Result<(u64, u64), Errno>)
    requires
        bytes@.len() == ITIMERSPEC_SIZE,
    ensures
        setting == match (timespec_at(bytes@, 0), timespec_at(bytes@, 16)) {
            (Err(error), _) => Err::<(u64, u64), Errno>(error),
            (_, Err(error)) => Err(error),
            (Ok(interval), Ok(value)) => Ok((interval, value)),
        },
{
    match decode_timespec(bytes, 0) {
        Err(error) => Err(error),
        Ok(interval) => match decode_timespec(bytes, 16) {
            Err(error) => Err(error),
            Ok(value) => Ok((interval, value)),
        },
    }
}

/// Checks the arguments for a new timer.
pub fn timerfd_create_ok(clock_id: i32, flags: u64) -> (valid: bool)
    ensures
        valid == ((clock_id == CLOCK_REALTIME || clock_id == CLOCK_MONOTONIC || clock_id
            == CLOCK_BOOTTIME) && flags & !(TFD_NONBLOCK | TFD_CLOEXEC) == 0),
{
    (clock_id == CLOCK_REALTIME || clock_id == CLOCK_MONOTONIC || clock_id == CLOCK_BOOTTIME)
        && flags & !(TFD_NONBLOCK | TFD_CLOEXEC) == 0
}

/// A refreshed timer lies in the future, and refreshing it again at the same
/// time counts nothing twice.
pub proof fn law_refresh_counts_once(state: TimerState, now_ns: u64)
    requires
        now_ns < u64::MAX,
    ensures
        state.refreshed(now_ns).deadline_ns == 0 || state.refreshed(now_ns).deadline_ns > now_ns,
        state.refreshed(now_ns).refreshed(now_ns) == state.refreshed(now_ns),
{
    if state.deadline_ns != 0 && now_ns >= state.deadline_ns && state.interval_ns != 0 {
        let passed = now_ns - state.deadline_ns;
        let interval = state.interval_ns as int;
        let count = passed / interval + 1;
        assert(passed < interval * count <= passed + interval) by (nonlinear_arith)
            requires
                interval > 0,
                passed >= 0,
                count == passed / interval + 1,
        ;
        assert(passed / interval <= passed) by (nonlinear_arith)
            requires
                interval > 0,
                passed >= 0,
        ;
    }
}

/// A span of time reads back as it was written.
pub proof fn law_timespec_round_trip(nanoseconds: u64)
    ensures
        timespec_at(timespec_bytes(nanoseconds), 0) == Ok::<u64, Errno>(nanoseconds),
{
    let bytes = timespec_bytes(nanoseconds);
    let seconds = nanoseconds / NANOS_PER_SEC;
    let rest = nanoseconds % NANOS_PER_SEC;
    assert(bytes.subrange(0, 8) =~= u64_bytes(seconds));
    assert(bytes.subrange(8, 16) =~= u64_bytes(rest));
    crate::bytes::lemma_u64_at(bytes, 0, seconds);
    crate::bytes::lemma_u64_at(bytes, 8, rest);
}

/// A timer that is off or not yet due does nothing.
pub proof fn law_timer_waits_for_deadline(state: TimerState, now_ns: u64)
    requires
        state.deadline_ns == 0 || now_ns < state.deadline_ns,
    ensures
        state.refreshed(now_ns) == state,
{
}

/// A timer without an interval expires once when it is due and is off then.
pub proof fn law_single_timer_expires_once(state: TimerState, now_ns: u64)
    requires
        0 < state.deadline_ns <= now_ns,
        state.interval_ns == 0,
        state.expirations < u64::MAX,
    ensures
        state.refreshed(now_ns).expirations == state.expirations + 1,
        state.refreshed(now_ns).deadline_ns == 0,
        state.refreshed(now_ns).interval_ns == 0,
{
}

/// A timer with an interval has expired once for its deadline and once for
/// each whole interval since, and is next due at the first later multiple.
pub proof fn law_periodic_timer_counts_periods(state: TimerState, now_ns: u64)
    requires
        0 < state.deadline_ns <= now_ns,
        state.interval_ns > 0,
        now_ns + state.interval_ns <= u64::MAX,
        state.expirations + now_ns < u64::MAX,
    ensures
        ({
            let after = state.refreshed(now_ns);
            let count = after.expirations - state.expirations;
            &&& count >= 1
            &&& after.deadline_ns == state.deadline_ns + count * state.interval_ns
            &&& now_ns < after.deadline_ns <= now_ns + state.interval_ns
            &&& after.interval_ns == state.interval_ns
        }),
{
    let past = now_ns - state.deadline_ns;
    let interval = state.interval_ns as int;
    let whole = past / interval;
    vstd::arithmetic::div_mod::lemma_fundamental_div_mod(past, interval);
    assert(0 <= whole <= past) by (nonlinear_arith)
        requires
            past >= 0,
            interval >= 1,
            whole == past / interval,
    ;
    assert(interval * (whole + 1) == interval * whole + interval) by (nonlinear_arith);
    assert((whole + 1) * interval == interval * (whole + 1)) by (nonlinear_arith);
    assert(0 <= past % interval < interval);
}

/// What remains of a timer is the time to its deadline, and nothing when it is
/// off or due.
pub proof fn law_remaining_time_ends_at_deadline(state: TimerState, now_ns: u64)
    ensures
        state.deadline_ns >= now_ns ==> now_ns + state.remaining(now_ns) == state.deadline_ns,
        state.deadline_ns <= now_ns ==> state.remaining(now_ns) == 0,
{
}

/// A timer is set with no flags or with the one for absolute times; the one for
/// being told of clock changes needs that one and the real-time clock.
pub proof fn law_timer_flags(clock_id: i32)
    ensures
        flags_ok(clock_id, 0),
        flags_ok(clock_id, 1),
        !flags_ok(clock_id, 2),
        flags_ok(clock_id, 3) <==> clock_id == 0,
        forall|flags: u64| flags > 3 ==> !#[trigger] flags_ok(clock_id, flags),
{
}

/// A time is read as whole seconds and nanoseconds below a second; a negative
/// one and one with too many nanoseconds are refused, and so is one that does
/// not fit.
pub proof fn law_time_is_seconds_and_nanoseconds(bytes: Seq<u8>, at: int)
    ensures
        ({
            let seconds = u64_at(bytes, at);
            let nanoseconds = u64_at(bytes, at + 8);
            match timespec_at(bytes, at) {
                Ok(total) => total == 1_000_000_000 * seconds + nanoseconds && nanoseconds
                    < 1_000_000_000 && seconds < 0x8000_0000_0000_0000,
                Err(error) => if seconds >= 0x8000_0000_0000_0000 || nanoseconds >= 1_000_000_000 {
                    error == Errno::Invalid
                } else {
                    error == Errno::Overflow && 1_000_000_000 * seconds + nanoseconds > u64::MAX
                },
            }
        }),
{
}

} // verus!
