//! Waitable events: level-triggered, with transient wakeups and waiting for
//! any of several events.

use vstd::prelude::*;
use crate::sys::sched::model::SchedModel;
use crate::sys::sched::scheduler::{online_of, KickAction, ParkOutcome, Scheduler};
use crate::sys::sched::{kick_action, park_current, wake, Site};
use crate::sys::smp::{Masking, SmpState};
use crate::sys::sched::cpu::CpuModel;
use crate::sys::sync::WakeTarget;
use crate::sys::thread::{ParkState, Thread};

verus! {

/// A thread that waits on an event, and the event's place among those that
/// the thread waits on.
#[derive(Copy, Clone, Debug, PartialEq, Eq, Structural)]
pub struct EventWaiter {
    /// Waiting thread.
    pub thread: usize,
    /// Place of the event.
    pub index: usize,
}

/// One wait of a thread on a set of events.
#[derive(Copy, Clone, Debug, PartialEq, Eq, Structural)]
pub struct WaitGroup {
    /// Number of the sleep that the thread announced.
    pub park_seq: u64,
    /// Event that ended the wait.
    pub winner: Option<usize>,
}

impl WaitGroup {
    /// A wait that no event ended yet.
    pub fn new(park_seq: u64) -> (group: Self)
        ensures
            group == (WaitGroup { park_seq, winner: None }),
    {
        WaitGroup { park_seq, winner: None }
    }
}

/// The waits of all threads; a thread waits at most once at a time.
pub struct WaitGroups {
    groups: Vec<WaitGroup>,
}

/// The waits after `waiter` claimed its own, unless another event did.
pub open spec fn claimed(groups: Seq<WaitGroup>, waiter: EventWaiter) -> Seq<WaitGroup> {
    let t = waiter.thread as int;
    if groups[t].winner.is_none() {
        groups.update(t, WaitGroup { winner: Some(waiter.index), ..groups[t] })
    } else {
        groups
    }
}

/// The thread to wake for `waiter`.
pub open spec fn target_of(groups: Seq<WaitGroup>, waiter: EventWaiter) -> WakeTarget {
    WakeTarget { thread: waiter.thread, park_seq: groups[waiter.thread as int].park_seq }
}

/// The waits after all `waiters` were served in order.
pub open spec fn all_claimed(waiters: Seq<EventWaiter>, groups: Seq<WaitGroup>) -> Seq<WaitGroup>
    decreases waiters.len(),
{
    if waiters.len() == 0 {
        groups
    } else {
        claimed(all_claimed(waiters.drop_last(), groups), waiters.last())
    }
}

/// The threads to wake after all `waiters` were served in order.
pub open spec fn all_targets(waiters: Seq<EventWaiter>, groups: Seq<WaitGroup>) -> Seq<WakeTarget>
    decreases waiters.len(),
{
    if waiters.len() == 0 {
        Seq::empty()
    } else {
        let before = all_claimed(waiters.drop_last(), groups);
        let woken = all_targets(waiters.drop_last(), groups);
        if before[waiters.last().thread as int].winner.is_none() {
            woken.push(target_of(before, waiters.last()))
        } else {
            woken
        }
    }
}

/// Place of the oldest waiter whose wait is still open.
pub open spec fn first_open(waiters: Seq<EventWaiter>, groups: Seq<WaitGroup>, at: int) -> int
    decreases waiters.len() - at,
{
    if at >= waiters.len() {
        at
    } else if groups[waiters[at].thread as int].winner.is_none() {
        at
    } else {
        first_open(waiters, groups, at + 1)
    }
}

/// Serving waiters keeps the number of waits and their sleeps.
pub proof fn lemma_all_claimed(waiters: Seq<EventWaiter>, groups: Seq<WaitGroup>)
    requires
        forall|i: int|
            0 <= i < waiters.len() ==> (#[trigger] waiters[i]).thread < groups.len(),
    ensures
        all_claimed(waiters, groups).len() == groups.len(),
        forall|t: int|
            0 <= t < groups.len() ==> (#[trigger] all_claimed(waiters, groups)[t]).park_seq
                == groups[t].park_seq,
        forall|t: int|
            0 <= t < groups.len() && groups[t].winner.is_some() ==> #[trigger] all_claimed(
                waiters,
                groups,
            )[t] == groups[t],
    decreases waiters.len(),
{
    if waiters.len() > 0 {
        lemma_all_claimed(waiters.drop_last(), groups);
        assert(waiters.last() == waiters[waiters.len() - 1]);
    }
}

impl View for WaitGroups {
    type V = Seq<WaitGroup>;

    closed spec fn view(&self) -> Seq<WaitGroup> {
        self.groups@
    }
}

impl WaitGroups {
    /// No waits.
    pub fn new() -> (groups: Self)
        ensures
            groups@.len() == 0,
    {
        WaitGroups { groups: Vec::new() }
    }

    /// Starts a wait of `thread`.
    pub fn begin(&mut self, thread: usize, park_seq: u64)
        requires
            thread < usize::MAX,
        ensures
            final(self)@.len() == if thread < old(self)@.len() {
                old(self)@.len() as int
            } else {
                thread + 1
            },
            final(self)@[thread as int] == (WaitGroup { park_seq, winner: None }),
            forall|t: int|
                0 <= t < old(self)@.len() && t != thread ==> #[trigger] final(self)@[t] == old(
                    self,
                )@[t],
    {
        while self.groups.len() <= thread
            invariant
                thread < usize::MAX,
                old(self)@.len() <= self@.len(),
                self@.len() <= thread + 1 || self@.len() == old(self)@.len(),
                forall|t: int| 0 <= t < old(self)@.len() ==> #[trigger] self@[t] == old(self)@[t],
            decreases thread + 1 - self@.len(),
        {
            self.groups.push(WaitGroup::new(0));
        }
        self.groups.set(thread, WaitGroup::new(park_seq));
    }

    /// Claims the wait of `waiter`; tells whether no event claimed it before.
    pub fn try_claim(&mut self, waiter: EventWaiter) -> (won: bool)
        requires
            waiter.thread < old(self)@.len(),
        ensures
            won == old(self)@[waiter.thread as int].winner.is_none(),
            final(self)@ == claimed(old(self)@, waiter),
    {
        let mut group = self.groups[waiter.thread];
        if group.winner.is_some() {
            return false;
        }
        group.winner = Some(waiter.index);
        self.groups.set(waiter.thread, group);
        true
    }

    /// Returns the event that ended the wait of `thread`.
    pub fn winner(&self, thread: usize) -> (winner: Option<usize>)
        requires
            thread < self@.len(),
        ensures
            winner == self@[thread as int].winner,
    {
        self.groups[thread].winner
    }

    /// Returns whom to wake for the wait of `waiter`.
    pub fn target(&self, waiter: EventWaiter) -> (target: WakeTarget)
        requires
            waiter.thread < self@.len(),
        ensures
            target == target_of(self@, waiter),
    {
        WakeTarget { thread: waiter.thread, park_seq: self.groups[waiter.thread].park_seq }
    }
}

/// Event as specifications see it.
#[verifier::ext_equal]
pub struct EventModel {
    /// Whether the event is signaled.
    pub signaled: bool,
    /// Waiters, oldest first.
    pub waiters: Seq<EventWaiter>,
}

impl EventModel {
    /// The event, signaled or left alone.
    pub open spec fn raised(self, signal: bool) -> EventModel {
        if signal {
            EventModel { signaled: true, waiters: Seq::empty() }
        } else {
            self
        }
    }

    /// The waits after the event was signaled or left alone.
    pub open spec fn claims(self, signal: bool, groups: Seq<WaitGroup>) -> Seq<WaitGroup> {
        if signal {
            all_claimed(self.waiters, groups)
        } else {
            groups
        }
    }

    /// Whom to wake after the event was signaled or left alone.
    pub open spec fn wakes(self, signal: bool, groups: Seq<WaitGroup>) -> Seq<WakeTarget> {
        if signal {
            all_targets(self.waiters, groups)
        } else {
            Seq::empty()
        }
    }
}

/// An event on which threads can wait.
///
/// A signal persists until it is reset: waits complete at once while it lasts.
/// The transient wakeups leave the signal alone.
pub struct Event {
    signaled: bool,
    queued: bool,
    waiters: Vec<EventWaiter>,
}

/// What registering on one event ended in.
#[derive(Copy, Clone, Debug, PartialEq, Eq, Structural)]
pub enum Registration {
    /// The thread waits on the event.
    Waiting,
    /// The event is signaled and ended the wait.
    Won,
    /// Another event ended the wait before.
    Over,
}

/// Every waiter's thread has a wait.
pub open spec fn waiters_known(waiters: Seq<EventWaiter>, groups: Seq<WaitGroup>) -> bool {
    forall|i: int| 0 <= i < waiters.len() ==> (#[trigger] waiters[i]).thread < groups.len()
}

impl View for Event {
    type V = EventModel;

    closed spec fn view(&self) -> EventModel {
        EventModel { signaled: self.signaled, waiters: self.waiters@ }
    }
}

impl Event {
    /// The queue flag is right and nobody waits on a signaled event.
    pub closed spec fn wf(self) -> bool {
        &&& self.queued == (self.waiters@.len() > 0)
        &&& self.signaled ==> self.waiters@.len() == 0
    }

    /// Nobody waits on a signaled event.
    pub proof fn lemma_wf(&self)
        requires
            self.wf(),
        ensures
            self@.signaled ==> self@.waiters.len() == 0,
    {
    }

    /// Creates an event that is not signaled.
    pub fn new() -> (event: Self)
        ensures
            event.wf(),
            event@ == (EventModel { signaled: false, waiters: Seq::empty() }),
    {
        Event { signaled: false, queued: false, waiters: Vec::new() }
    }

    /// Returns whether the event is signaled.
    pub fn is_signaled(&self) -> (signaled: bool)
        ensures
            signaled == self@.signaled,
    {
        self.signaled
    }

    /// Signals the event and ends the waits of all its waiters.
    ///
    /// Returns whom to wake.
    pub fn signal(&mut self, groups: &mut WaitGroups) -> (targets: Vec<WakeTarget>)
        requires
            old(self).wf(),
            waiters_known(old(self)@.waiters, old(groups)@),
        ensures
            final(self).wf(),
            final(self)@ == (EventModel { signaled: true, waiters: Seq::empty() }),
            final(groups)@ == all_claimed(old(self)@.waiters, old(groups)@),
            targets@ == all_targets(old(self)@.waiters, old(groups)@),
    {
        self.signaled = true;
        if !self.queued {
            return Vec::new();
        }
        self.claim_all(groups)
    }

    /// Clears the signal; returns whether there was one.
    pub fn reset(&mut self) -> (was_signaled: bool)
        requires
            old(self).wf(),
        ensures
            final(self).wf(),
            was_signaled == old(self)@.signaled,
            final(self)@ == (EventModel { signaled: false, ..old(self)@ }),
    {
        let was_signaled = self.signaled;
        self.signaled = false;
        was_signaled
    }

    /// Ends the wait of the oldest waiter that still waits, without signaling.
    pub fn wake_one(&mut self, groups: &mut WaitGroups) -> (target: Option<WakeTarget>)
        requires
            old(self).wf(),
            waiters_known(old(self)@.waiters, old(groups)@),
        ensures
            final(self).wf(),
            final(self)@.signaled == old(self)@.signaled,
            ({
                let waiters = old(self)@.waiters;
                let at = first_open(waiters, old(groups)@, 0);
                if at < waiters.len() {
                    &&& target == Some(target_of(old(groups)@, waiters[at]))
                    &&& final(groups)@ == claimed(old(groups)@, waiters[at])
                    &&& final(self)@.waiters == waiters.skip(at + 1)
                } else {
                    &&& target.is_none()
                    &&& final(groups)@ == old(groups)@
                    &&& final(self)@.waiters.len() == 0
                }
            }),
    {
        if !self.queued {
            return None;
        }
        self.claim_one(groups)
    }

    /// Ends the waits of all waiters without signaling.
    pub fn wake_all(&mut self, groups: &mut WaitGroups) -> (targets: Vec<WakeTarget>)
        requires
            old(self).wf(),
            waiters_known(old(self)@.waiters, old(groups)@),
        ensures
            final(self).wf(),
            final(self)@ == (EventModel { waiters: Seq::empty(), ..old(self)@ }),
            final(groups)@ == all_claimed(old(self)@.waiters, old(groups)@),
            targets@ == all_targets(old(self)@.waiters, old(groups)@),
    {
        if !self.queued {
            return Vec::new();
        }
        self.claim_all(groups)
    }

    fn claim_one(&mut self, groups: &mut WaitGroups) -> (target: Option<WakeTarget>)
        requires
            old(self).wf(),
            waiters_known(old(self)@.waiters, old(groups)@),
        ensures
            final(self).wf(),
            final(self)@.signaled == old(self)@.signaled,
            ({
                let waiters = old(self)@.waiters;
                let at = first_open(waiters, old(groups)@, 0);
                if at < waiters.len() {
                    &&& target == Some(target_of(old(groups)@, waiters[at]))
                    &&& final(groups)@ == claimed(old(groups)@, waiters[at])
                    &&& final(self)@.waiters == waiters.skip(at + 1)
                } else {
                    &&& target.is_none()
                    &&& final(groups)@ == old(groups)@
                    &&& final(self)@.waiters.len() == 0
                }
            }),
    {
        let ghost waiters = self.waiters@;
        let ghost mut at: int = 0;
        while self.waiters.len() > 0
            invariant
                0 <= at <= waiters.len(),
                waiters == old(self)@.waiters,
                waiters_known(waiters, groups@),
                self.waiters@ == waiters.skip(at),
                groups@ == old(groups)@,
                *self == (Event { waiters: self.waiters, ..*old(self) }),
                old(self).wf(),
                first_open(waiters, groups@, 0) == first_open(waiters, groups@, at),
            decreases self.waiters@.len(),
        {
            let waiter = self.waiters.remove(0);
            assert(self.waiters@ =~= waiters.skip(at + 1));
            assert(waiter == waiters[at]);
            if groups.try_claim(waiter) {
                let target = groups.target(waiter);
                if self.waiters.len() == 0 {
                    self.queued = false;
                }
                return Some(target);
            }
            proof {
                at = at + 1;
            }
        }
        self.queued = false;
        None
    }

    fn claim_all(&mut self, groups: &mut WaitGroups) -> (targets: Vec<WakeTarget>)
        requires
            old(self).queued == (old(self)@.waiters.len() > 0),
            waiters_known(old(self)@.waiters, old(groups)@),
        ensures
            final(self).wf(),
            final(self)@ == (EventModel { waiters: Seq::empty(), ..old(self)@ }),
            final(groups)@ == all_claimed(old(self)@.waiters, old(groups)@),
            targets@ == all_targets(old(self)@.waiters, old(groups)@),
    {
        let mut targets: Vec<WakeTarget> = Vec::new();
        let mut at: usize = 0;
        let ghost waiters = self.waiters@;
        while at < self.waiters.len()
            invariant
                *self == *old(self),
                waiters == self.waiters@,
                waiters_known(waiters, old(groups)@),
                at <= waiters.len(),
                groups@.len() == old(groups)@.len(),
                groups@ == all_claimed(waiters.take(at as int), old(groups)@),
                targets@ == all_targets(waiters.take(at as int), old(groups)@),
            decreases waiters.len() - at,
        {
            let waiter = self.waiters[at];
            proof {
                let longer = waiters.take(at + 1);
                assert(longer.drop_last() =~= waiters.take(at as int));
                assert(longer.last() == waiter);
            }
            if groups.try_claim(waiter) {
                targets.push(groups.target(waiter));
            }
            at = at + 1;
        }
        assert(waiters.take(at as int) =~= waiters);
        self.waiters = Vec::new();
        self.queued = false;
        targets
    }

    /// Queues a waiter unless the event is signaled.
    fn register(&mut self, waiter: EventWaiter) -> (waiting: bool)
        requires
            old(self).wf(),
        ensures
            final(self).wf(),
            waiting == !old(self)@.signaled,
            final(self)@ == if waiting {
                EventModel { waiters: old(self)@.waiters.push(waiter), ..old(self)@ }
            } else {
                old(self)@
            },
    {
        if self.signaled {
            return false;
        }
        self.waiters.push(waiter);
        self.queued = true;
        true
    }

    /// Takes a waiter off the queue if it is still there.
    pub fn unregister(&mut self, waiter: EventWaiter)
        requires
            old(self).wf(),
        ensures
            final(self).wf(),
            final(self)@ == (EventModel {
                waiters: old(self)@.waiters.filter(|w: EventWaiter| w != waiter),
                ..old(self)@
            }),
    {
        let mut kept: Vec<EventWaiter> = Vec::new();
        let mut at: usize = 0;
        let ghost others = |w: EventWaiter| w != waiter;
        let ghost waiters = self.waiters@;
        while at < self.waiters.len()
            invariant
                *self == *old(self),
                waiters == self.waiters@,
                others == (|w: EventWaiter| w != waiter),
                at <= waiters.len(),
                kept@ == waiters.take(at as int).filter(others),
            decreases waiters.len() - at,
        {
            let w = self.waiters[at];
            proof {
                reveal(Seq::filter);
                let longer = waiters.take(at + 1);
                assert(longer.drop_last() =~= waiters.take(at as int));
                assert(longer.last() == w);
            }
            if w != waiter {
                kept.push(w);
            }
            at = at + 1;
        }
        proof {
            assert(waiters.take(at as int) =~= waiters);
            waiters.lemma_filter_len(others);
        }
        self.queued = kept.len() > 0;
        self.waiters = kept;
    }

    /// Registers the wait of `waiter` on the event, ends the wait if the event
    /// is signaled, and leaves a wait that is over alone.
    pub fn register_wait(&mut self, groups: &mut WaitGroups, waiter: EventWaiter) -> (registration:
        Registration)
        requires
            old(self).wf(),
            waiter.thread < old(groups)@.len(),
        ensures
            final(self).wf(),
            registration == if old(groups)@[waiter.thread as int].winner.is_some() {
                Registration::Over
            } else if old(self)@.signaled {
                Registration::Won
            } else {
                Registration::Waiting
            },
            final(self)@ == if registration == Registration::Waiting {
                EventModel { waiters: old(self)@.waiters.push(waiter), ..old(self)@ }
            } else {
                old(self)@
            },
            final(groups)@ == if registration == Registration::Won {
                claimed(old(groups)@, waiter)
            } else {
                old(groups)@
            },
    {
        if groups.winner(waiter.thread).is_some() {
            return Registration::Over;
        }
        if self.register(waiter) {
            return Registration::Waiting;
        }
        let _ = groups.try_claim(waiter);
        Registration::Won
    }
}

impl Default for Event {
    fn default() -> (event: Self)
        ensures
            event.wf(),
            event@ == (EventModel { signaled: false, waiters: Seq::empty() }),
    {
        Event::new()
    }
}

/// The first signaled event, or their number if none is.
pub open spec fn first_signaled(events: Seq<EventModel>, at: int) -> int
    decreases events.len() - at,
{
    if at >= events.len() || events[at].signaled {
        at
    } else {
        first_signaled(events, at + 1)
    }
}

/// The events as specifications see them.
pub open spec fn models(events: Seq<Event>) -> Seq<EventModel> {
    Seq::new(events.len(), |i: int| events[i]@)
}

/// Every event is consistent.
pub open spec fn events_wf(events: Seq<Event>) -> bool {
    forall|i: int| 0 <= i < events.len() ==> (#[trigger] events[i]).wf()
}

/// Returns the first signaled event, on which no wait is needed.
pub fn ready_event(events: &Vec<Event>) -> (index: Option<usize>)
    ensures
        ({
            let at = first_signaled(models(events@), 0);
            index == if at < events@.len() {
                Some(at as usize)
            } else {
                None
            }
        }),
{
    let mut at: usize = 0;
    let ghost views = models(events@);
    while at < events.len()
        invariant
            views == models(events@),
            at <= events@.len(),
            first_signaled(views, 0) == first_signaled(views, at as int),
        decreases events@.len() - at,
    {
        if events[at].is_signaled() {
            return Some(at);
        }
        at = at + 1;
    }
    None
}

/// Registers a thread that announced its sleep on every event, up to the first
/// signaled one, which ends the wait.
///
/// Returns the event that ended the wait; the thread then withdraws its
/// announcement by waking itself. Otherwise it sleeps.
pub fn wait_any(
    cpu: &Masking,
    events: &mut Vec<Event>,
    groups: &mut WaitGroups,
    thread: usize,
    park_seq: u64,
) -> (won: Option<usize>)
    requires
        cpu.may_sleep(),
        thread < usize::MAX,
        events_wf(old(events)@),
        old(events)@.len() > 0,
    ensures
        events_wf(final(events)@),
        final(events)@.len() == old(events)@.len(),
        ({
            let at = first_signaled(models(old(events)@), 0);
            &&& won == if at < old(events)@.len() {
                Some(at as usize)
            } else {
                None
            }
            &&& final(groups)@[thread as int] == (WaitGroup { park_seq, winner: won })
            &&& forall|i: int|
                0 <= i < old(events)@.len() ==> #[trigger] final(events)@[i]@ == if i < at {
                    EventModel {
                        waiters: old(events)@[i]@.waiters.push(
                            EventWaiter { thread, index: i as usize },
                        ),
                        ..old(events)@[i]@
                    }
                } else {
                    old(events)@[i]@
                }
        }),
        final(groups)@.len() == if thread < old(groups)@.len() {
            old(groups)@.len() as int
        } else {
            thread + 1
        },
        forall|t: int|
            0 <= t < old(groups)@.len() && t != thread ==> #[trigger] final(groups)@[t] == old(
                groups,
            )@[t],
{
    let _ = cpu;
    groups.begin(thread, park_seq);
    let mut at: usize = 0;
    let ghost views = models(events@);
    let ghost begun = groups@;
    while at < events.len()
        invariant
            at <= events@.len() == views.len(),
            events@.len() == old(events)@.len(),
            views == models(old(events)@),
            events_wf(events@),
            thread < groups@.len(),
            groups@ == begun,
            begun[thread as int] == (WaitGroup { park_seq, winner: None }),
            begun.len() == if thread < old(groups)@.len() {
                old(groups)@.len() as int
            } else {
                thread + 1
            },
            forall|t: int|
                0 <= t < old(groups)@.len() && t != thread ==> #[trigger] begun[t] == old(
                    groups,
                )@[t],
            first_signaled(views, 0) == first_signaled(views, at as int),
            forall|i: int|
                0 <= i < at ==> #[trigger] events@[i]@ == (EventModel {
                    waiters: views[i].waiters.push(EventWaiter { thread, index: i as usize }),
                    ..views[i]
                }),
            forall|i: int| at <= i < events@.len() ==> #[trigger] events@[i] == old(events)@[i],
        decreases events@.len() - at,
    {
        let ghost before = events@;
        match events[at].register_wait(groups, EventWaiter { thread, index: at }) {
            Registration::Waiting => {},
            _ => {
                return Some(at);
            },
        }
        at = at + 1;
    }
    None
}

/// Ends the wait of a thread on `events` and returns the event that ended it.
pub fn finish_wait(events: &mut Vec<Event>, groups: &WaitGroups, thread: usize) -> (winner: usize)
    requires
        events_wf(old(events)@),
        thread < groups@.len(),
        groups@[thread as int].winner.is_some(),
    ensures
        events_wf(final(events)@),
        final(events)@.len() == old(events)@.len(),
        Some(winner) == groups@[thread as int].winner,
        forall|i: int|
            0 <= i < old(events)@.len() ==> #[trigger] final(events)@[i]@ == (EventModel {
                waiters: old(events)@[i]@.waiters.filter(
                    |w: EventWaiter| w != (EventWaiter { thread, index: i as usize }),
                ),
                ..old(events)@[i]@
            }),
{
    let mut at: usize = 0;
    while at < events.len()
        invariant
            at <= events@.len() == old(events)@.len(),
            events_wf(events@),
            forall|i: int|
                0 <= i < at ==> #[trigger] events@[i]@ == (EventModel {
                    waiters: old(events)@[i]@.waiters.filter(
                        |w: EventWaiter| w != (EventWaiter { thread, index: i as usize }),
                    ),
                    ..old(events)@[i]@
                }),
            forall|i: int| at <= i < events@.len() ==> #[trigger] events@[i] == old(events)@[i],
        decreases events@.len() - at,
    {
        events[at].unregister(EventWaiter { thread, index: at });
        at = at + 1;
    }
    groups.winner(thread).unwrap()
}

/// How a wait begins.
pub enum WaitStart {
    /// It is over: this event ended it, and the thread's own CPU is kicked so.
    Won(usize, KickAction),
    /// The thread leaves its CPU so, until an event ends the wait.
    Asleep(ParkOutcome),
}

/// The scheduler after a thread announced a sleep.
pub open spec fn announced(m: SchedModel, thread: usize) -> SchedModel {
    m.with_thread(
        thread as int,
        Thread {
            park_seq: m.threads[thread as int].park_seq.wrapping_add(1),
            park_state: ParkState::Waiting,
            ..m.threads[thread as int]
        },
    )
}

/// Begins the wait of the current thread for any of several events.
///
/// It announces its sleep and registers on each event up to the first signaled
/// one. That one ends the wait at once: the thread takes its announcement back
/// and registers nowhere. Otherwise it masks interrupts and leaves its CPU.
pub fn begin_wait(
    cpu: &Masking,
    events: &mut Vec<Event>,
    groups: &mut WaitGroups,
    scheduler: &mut Scheduler,
    thread: usize,
    site: &Site,
    smp: &SmpState,
) -> (start: WaitStart)
    requires
        cpu.may_sleep(),
        events_wf(old(events)@),
        old(events)@.len() > 0,
        old(scheduler).wf(),
        old(scheduler)@.settled(),
        cpu.core.id < old(scheduler)@.cpus.len(),
        old(scheduler)@.cpus[cpu.core.id as int].current == Some(thread),
        thread < old(scheduler)@.threads.len(),
        !old(scheduler)@.threads[thread as int].spec_is_idle(),
        site.on(old(scheduler)@),
    ensures
        events_wf(final(events)@),
        final(events)@.len() == old(events)@.len(),
        final(scheduler).wf(),
        final(scheduler)@.settled(),
        ({
            let at = first_signaled(models(old(events)@), 0);
            let m = announced(old(scheduler)@, thread);
            let seq = m.threads[thread as int].park_seq;
            &&& final(groups)@[thread as int].park_seq == seq
            &&& if at < old(events)@.len() {
                let after = m.woken(thread, seq, site.now_ns, site.cpu, online_of(*smp));
                &&& start == WaitStart::Won(
                    at as usize,
                    kick_action(after.0, after.2, *site),
                )
                &&& final(scheduler)@ == after.0
                &&& final(groups)@[thread as int].winner == Some(at as usize)
                &&& forall|i: int|
                    0 <= i < old(events)@.len() ==> #[trigger] final(events)@[i]@ == unregistered(
                        if i < at {
                            registered(old(events)@[i]@, thread, i)
                        } else {
                            old(events)@[i]@
                        },
                        thread,
                        i,
                    )
            } else {
                &&& start matches WaitStart::Asleep(outcome) && outcome.parked
                    && outcome.enable_irqs
                &&& final(scheduler)@ == m.with_thread(
                    thread as int,
                    m.threads[thread as int].with_park_state(ParkState::Parked).blocked_at(
                        site.now_ns,
                    ),
                ).with_cpu(
                    cpu.core.id as int,
                    CpuModel { need_resched: true, ..m.cpus[cpu.core.id as int] },
                )
                &&& final(groups)@[thread as int].winner.is_none()
                &&& forall|i: int|
                    0 <= i < old(events)@.len() ==> #[trigger] final(events)@[i]@ == registered(
                        old(events)@[i]@,
                        thread,
                        i,
                    )
            }
        }),
        forall|t: int|
            0 <= t < old(groups)@.len() && t != thread ==> #[trigger] final(groups)@[t] == old(
                groups,
            )@[t],
{
    proof {
        scheduler.lemma_wf();
        assert(scheduler@.threads.len() <= usize::MAX);
    }
    let seq: u64 = scheduler.prepare_park(thread);
    let ghost m = scheduler@;
    assert(m == announced(old(scheduler)@, thread));
    match wait_any(cpu, events, groups, thread, seq) {
        Some(won) => {
            let (_, action) = wake(scheduler, thread, seq, site, smp);
            let _ = finish_wait(events, groups, thread);
            WaitStart::Won(won, action)
        },
        None => {
            let masked = Site { irqs_enabled: false, ..*site };
            WaitStart::Asleep(park_current(scheduler, cpu.core.id, thread, seq, &masked))
        },
    }
}

/// An event on which a thread waits, too, as the event at a place of its wait.
pub open spec fn registered(event: EventModel, thread: usize, place: int) -> EventModel {
    EventModel {
        waiters: event.waiters.push(EventWaiter { thread, index: place as usize }),
        ..event
    }
}

/// An event on which a thread waits no longer.
pub open spec fn unregistered(event: EventModel, thread: usize, place: int) -> EventModel {
    EventModel {
        waiters: event.waiters.filter(
            |w: EventWaiter| w != (EventWaiter { thread, index: place as usize }),
        ),
        ..event
    }
}

/// The scheduler after all `targets` were woken in order, and how to kick
/// their CPUs.
pub open spec fn targets_woken(
    m: SchedModel,
    targets: Seq<WakeTarget>,
    site: Site,
    online: spec_fn(int) -> bool,
) -> (SchedModel, Seq<(bool, KickAction)>)
    decreases targets.len(),
{
    if targets.len() == 0 {
        (m, Seq::empty())
    } else {
        let before = targets_woken(m, targets.drop_last(), site, online);
        let after = before.0.woken(
            targets.last().thread,
            targets.last().park_seq,
            site.now_ns,
            site.cpu,
            online,
        );
        (after.0, before.1.push((after.1, kick_action(after.0, after.2, site))))
    }
}

/// Wakes the threads whose waits ended, in order.
///
/// Tells for each whether it was still in the sleep of that wait, and how to
/// kick its CPU.
pub fn wake_targets(
    targets: &Vec<WakeTarget>,
    scheduler: &mut Scheduler,
    site: &Site,
    smp: &SmpState,
) -> (woken: Vec<(bool, KickAction)>)
    requires
        old(scheduler).wf(),
        old(scheduler)@.settled(),
        site.on(old(scheduler)@),
        forall|i: int|
            0 <= i < targets@.len() ==> (#[trigger] targets@[i]).thread < old(
                scheduler,
            )@.threads.len(),
    ensures
        final(scheduler).wf(),
        final(scheduler)@.settled(),
        ({
            let after = targets_woken(old(scheduler)@, targets@, *site, online_of(*smp));
            &&& final(scheduler)@ == after.0
            &&& woken@ == after.1
        }),
{
    let mut woken: Vec<(bool, KickAction)> = Vec::new();
    let mut at: usize = 0;
    let ghost m = scheduler@;
    while at < targets.len()
        invariant
            at <= targets@.len(),
            scheduler.wf(),
            scheduler@.settled(),
            site.on(scheduler@),
            scheduler@.threads.len() == m.threads.len(),
            forall|i: int|
                0 <= i < targets@.len() ==> (#[trigger] targets@[i]).thread < m.threads.len(),
            scheduler@ == targets_woken(m, targets@.take(at as int), *site, online_of(*smp)).0,
            woken@ == targets_woken(m, targets@.take(at as int), *site, online_of(*smp)).1,
        decreases targets@.len() - at,
    {
        let target = targets[at];
        proof {
            let longer = targets@.take(at + 1);
            assert(longer.drop_last() =~= targets@.take(at as int));
            assert(longer.last() == target);
        }
        woken.push(wake(scheduler, target.thread, target.park_seq, site, smp));
        at = at + 1;
    }
    assert(targets@.take(at as int) =~= targets@);
    woken
}

/// While an event is signaled nobody waits on it: a wait that includes it ends
/// at once, and resetting it is the only way to make threads wait again.
pub proof fn law_signal_is_level_triggered(events: Seq<EventModel>, i: int)
    requires
        0 <= i < events.len(),
        events[i].signaled,
    ensures
        first_signaled(events, 0) <= i,
        events[first_signaled(events, 0)].signaled,
{
    lemma_first_signaled(events, 0, i);
}

proof fn lemma_first_signaled(events: Seq<EventModel>, at: int, i: int)
    requires
        0 <= at <= i < events.len(),
        events[i].signaled,
    ensures
        at <= first_signaled(events, at) <= i,
        events[first_signaled(events, at)].signaled,
        forall|k: int| at <= k < first_signaled(events, at) ==> !(#[trigger] events[k]).signaled,
    decreases i - at,
{
    if !events[at].signaled {
        lemma_first_signaled(events, at + 1, i);
    }
}

/// If several events are signaled the one with the lowest place ends the wait.
pub proof fn law_lowest_event_wins(events: Seq<EventModel>, i: int)
    requires
        0 <= i < first_signaled(events, 0),
    ensures
        i < events.len() ==> !events[i].signaled,
{
    if i < events.len() && events[i].signaled {
        lemma_first_signaled(events, 0, i);
    }
}

/// A wait is ended by one event only: once it is over, serving further waiters
/// leaves it alone and wakes its thread no more.
pub proof fn law_wait_ends_once(waiters: Seq<EventWaiter>, groups: Seq<WaitGroup>, t: usize)
    requires
        waiters_known(waiters, groups),
        t < groups.len(),
        groups[t as int].winner.is_some(),
    ensures
        all_claimed(waiters, groups)[t as int] == groups[t as int],
        forall|i: int|
            0 <= i < all_targets(waiters, groups).len() ==> (#[trigger] all_targets(
                waiters,
                groups,
            )[i]).thread != t,
    decreases waiters.len(),
{
    lemma_all_claimed(waiters, groups);
    if waiters.len() > 0 {
        law_wait_ends_once(waiters.drop_last(), groups, t);
        lemma_all_claimed(waiters.drop_last(), groups);
        assert(all_claimed(waiters.drop_last(), groups)[t as int] == groups[t as int]);
        let earlier = all_targets(waiters.drop_last(), groups);
        assert forall|i: int| 0 <= i < all_targets(waiters, groups).len() implies (
        #[trigger] all_targets(waiters, groups)[i]).thread != t by {
            if i < earlier.len() {
                assert(all_targets(waiters, groups)[i] == earlier[i]);
            }
        }
    }
}

/// A signal ends the wait of every waiter of the event.
pub proof fn law_signal_reaches_everyone(
    waiters: Seq<EventWaiter>,
    groups: Seq<WaitGroup>,
    i: int,
)
    requires
        waiters_known(waiters, groups),
        0 <= i < waiters.len(),
    ensures
        all_claimed(waiters, groups)[waiters[i].thread as int].winner.is_some(),
    decreases waiters.len(),
{
    let before = waiters.drop_last();
    lemma_all_claimed(before, groups);
    if i < before.len() {
        law_signal_reaches_everyone(before, groups, i);
        assert(before[i] == waiters[i]);
    }
}

/// A transient wakeup goes to the oldest waiter whose wait is still open.
pub proof fn law_oldest_waiter_wakes(waiters: Seq<EventWaiter>, groups: Seq<WaitGroup>, i: int)
    requires
        0 <= i < waiters.len(),
        groups[waiters[i].thread as int].winner.is_none(),
    ensures
        first_open(waiters, groups, 0) <= i,
        groups[waiters[first_open(waiters, groups, 0)].thread as int].winner.is_none(),
{
    lemma_first_open(waiters, groups, 0, i);
}

proof fn lemma_first_open(waiters: Seq<EventWaiter>, groups: Seq<WaitGroup>, at: int, i: int)
    requires
        0 <= at <= i < waiters.len(),
        groups[waiters[i].thread as int].winner.is_none(),
    ensures
        at <= first_open(waiters, groups, at) <= i,
        groups[waiters[first_open(waiters, groups, at)].thread as int].winner.is_none(),
    decreases i - at,
{
    if groups[waiters[at].thread as int].winner.is_some() {
        lemma_first_open(waiters, groups, at + 1, i);
    }
}

/// A signal wakes a thread that waits for it for the wait that it is in, and
/// each thread once: those whose wait was still open are woken, no others.
pub proof fn law_signal_wakes_open_waits(
    waiters: Seq<EventWaiter>,
    groups: Seq<WaitGroup>,
    target: WakeTarget,
)
    requires
        waiters_known(waiters, groups),
    ensures
        all_targets(waiters, groups).contains(target) <==> exists|i: int|
            0 <= i < waiters.len() && (#[trigger] waiters[i]).thread == target.thread
                && groups[waiters[i].thread as int].winner.is_none()
                && groups[waiters[i].thread as int].park_seq == target.park_seq,
    decreases waiters.len(),
{
    let targets = all_targets(waiters, groups);
    if waiters.len() > 0 {
        let rest = waiters.drop_last();
        let last = waiters.len() - 1;
        let w = waiters.last();
        assert(waiters[last] == w);
        assert forall|i: int| 0 <= i < rest.len() implies (#[trigger] rest[i]).thread
            < groups.len() by {
            assert(rest[i] == waiters[i]);
        }
        law_signal_wakes_open_waits(rest, groups, target);
        lemma_all_claimed(rest, groups);
        let before = all_targets(rest, groups);
        let claims = all_claimed(rest, groups);
        if targets.contains(target) {
            let j = choose|j: int| 0 <= j < targets.len() && targets[j] == target;
            if j < before.len() {
                assert(before[j] == target);
                let i = choose|i: int|
                    0 <= i < rest.len() && (#[trigger] rest[i]).thread == target.thread
                        && groups[rest[i].thread as int].winner.is_none()
                        && groups[rest[i].thread as int].park_seq == target.park_seq;
                assert(waiters[i] == rest[i]);
            } else {
                assert(waiters[last].thread == target.thread);
                assert(groups[w.thread as int].winner.is_none());
            }
        }
        if before.contains(target) {
            let j = choose|j: int| 0 <= j < before.len() && before[j] == target;
            assert(targets[j] == target);
        }
        if exists|i: int|
            0 <= i < waiters.len() && (#[trigger] waiters[i]).thread == target.thread
                && groups[waiters[i].thread as int].winner.is_none()
                && groups[waiters[i].thread as int].park_seq == target.park_seq {
            let i = choose|i: int|
                0 <= i < waiters.len() && (#[trigger] waiters[i]).thread == target.thread
                    && groups[waiters[i].thread as int].winner.is_none()
                    && groups[waiters[i].thread as int].park_seq == target.park_seq;
            if i < last {
                assert(rest[i] == waiters[i]);
            } else if claims[w.thread as int].winner.is_none() {
                assert(targets[targets.len() - 1] == target);
            } else {
                lemma_claimed_by_waiter(rest, groups, w.thread);
                let k = choose|k: int| 0 <= k < rest.len() && (#[trigger] rest[k]).thread == w.thread;
                assert(rest[k].thread == target.thread);
            }
        }
    }
}

proof fn lemma_claimed_by_waiter(waiters: Seq<EventWaiter>, groups: Seq<WaitGroup>, thread: usize)
    requires
        waiters_known(waiters, groups),
        thread < groups.len(),
        groups[thread as int].winner.is_none(),
        all_claimed(waiters, groups)[thread as int].winner.is_some(),
    ensures
        exists|k: int| 0 <= k < waiters.len() && (#[trigger] waiters[k]).thread == thread,
    decreases waiters.len(),
{
    if waiters.len() > 0 {
        let rest = waiters.drop_last();
        assert forall|i: int| 0 <= i < rest.len() implies (#[trigger] rest[i]).thread
            < groups.len() by {
            assert(rest[i] == waiters[i]);
        }
        lemma_all_claimed(rest, groups);
        if waiters.last().thread == thread {
            assert(waiters[waiters.len() - 1].thread == thread);
        } else {
            lemma_claimed_by_waiter(rest, groups, thread);
            let k = choose|k: int| 0 <= k < rest.len() && (#[trigger] rest[k]).thread == thread;
            assert(waiters[k].thread == thread);
        }
    }
}

/// The first event to claim a wait wins it: its number is what the wait ends
/// with, and a wait that was won keeps its winner. Other waits are untouched.
pub proof fn law_first_claim_wins(groups: Seq<WaitGroup>, waiter: EventWaiter, other: int)
    requires
        waiter.thread < groups.len(),
        0 <= other < groups.len(),
        other != waiter.thread,
    ensures
        ({
            let t = waiter.thread as int;
            let after = claimed(groups, waiter);
            &&& groups[t].winner.is_none() ==> after[t].winner == Some(waiter.index)
            &&& groups[t].winner.is_some() ==> after == groups
            &&& after[t].park_seq == groups[t].park_seq
            &&& after[other] == groups[other]
            &&& target_of(groups, waiter).thread == waiter.thread
            &&& target_of(groups, waiter).park_seq == groups[t].park_seq
        }),
{
}

/// An event that is raised stays raised and has nobody waiting; one that is not
/// raised is not changed and wakes nobody.
pub proof fn law_raised_event_keeps_nobody(event: EventModel, groups: Seq<WaitGroup>)
    ensures
        event.raised(true).signaled && event.raised(true).waiters.len() == 0,
        event.raised(false) == event,
        event.wakes(false, groups).len() == 0,
        event.claims(false, groups) == groups,
        event.wakes(true, groups) == all_targets(event.waiters, groups),
        event.claims(true, groups) == all_claimed(event.waiters, groups),
{
}

/// A thread announces a wait under a new number, so that wake-ups of earlier
/// waits are stale.
pub proof fn law_announced_wait_is_new(m: SchedModel, thread: usize)
    requires
        thread < m.threads.len(),
        m.threads[thread as int].park_seq < u64::MAX,
    ensures
        ({
            let record = announced(m, thread).threads[thread as int];
            &&& record.park_seq == m.threads[thread as int].park_seq + 1
            &&& record.park_state == ParkState::Waiting
            &&& announced(m, thread).cpus == m.cpus
        }),
{
}

/// A waiter is queued behind those that wait already, and withdrawing it takes
/// it alone away.
pub proof fn law_waiter_can_withdraw(event: EventModel, thread: usize, place: int, other: EventWaiter)
    requires
        0 <= place <= usize::MAX,
        other != (EventWaiter { thread, index: place as usize }),
    ensures
        registered(event, thread, place).waiters == event.waiters.push(
            EventWaiter { thread, index: place as usize },
        ),
        registered(event, thread, place).signaled == event.signaled,
        !unregistered(event, thread, place).waiters.contains(
            EventWaiter { thread, index: place as usize },
        ),
        event.waiters.contains(other) ==> unregistered(event, thread, place).waiters.contains(other),
{
    let p = |w: EventWaiter| w != (EventWaiter { thread, index: place as usize });
    lemma_filter_keeps(event.waiters, p);
    let after = unregistered(event, thread, place).waiters;
    let own = EventWaiter { thread, index: place as usize };
    if after.contains(own) {
        let i = choose|i: int| 0 <= i < after.len() && after[i] == own;
        assert(p(after[i]));
    }
    if event.waiters.contains(other) {
        let i = choose|i: int| 0 <= i < event.waiters.len() && event.waiters[i] == other;
        assert(p(event.waiters[i]));
    }
}

proof fn lemma_filter_keeps(s: Seq<EventWaiter>, p: spec_fn(EventWaiter) -> bool)
    ensures
        forall|i: int| 0 <= i < s.filter(p).len() ==> p(#[trigger] s.filter(p)[i]),
        forall|i: int| 0 <= i < s.len() && p(s[i]) ==> s.filter(p).contains(#[trigger] s[i]),
    decreases s.len(),
{
    reveal(Seq::filter);
    if s.len() > 0 {
        let rest = s.drop_last();
        lemma_filter_keeps(rest, p);
        let kept = rest.filter(p);
        assert forall|i: int| 0 <= i < s.filter(p).len() implies p(#[trigger] s.filter(p)[i]) by {
            if i < kept.len() {
                assert(kept[i] == s.filter(p)[i]);
            }
        }
        assert forall|i: int| 0 <= i < s.len() && p(s[i]) implies s.filter(p).contains(
            #[trigger] s[i],
        ) by {
            if i < rest.len() {
                assert(rest[i] == s[i]);
                let j = choose|j: int| 0 <= j < kept.len() && kept[j] == s[i];
                assert(s.filter(p)[j] == s[i]);
            } else {
                assert(s.filter(p)[s.filter(p).len() - 1] == s[i]);
            }
        }
    }
}

} // verus!
