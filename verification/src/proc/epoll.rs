//! Aggregated descriptor readiness.

use vstd::prelude::*;
use crate::bytes::{
    get_u32, get_u64, law_u64_round_trip, lemma_u32_round_trip, lemma_u64_at, put_u32, put_u64,
    put_zeros, u32_at, u32_bytes, u64_at, u64_bytes, zeros,
};
use crate::fs::PollEvents;
use crate::lists::{any_where, first_where, lemma_first_where};
use crate::proc::files::{holds_key, Descriptor, DescriptorEntry, DescriptorKey, FileTable};
use crate::sys::event::{all_claimed, all_targets, waiters_known, Event, EventModel, WaitGroups};
use crate::sys::sync::WakeTarget;
use crate::syscall::Errno;
use crate::Arch;

verus! {

/// Creation flag: the descriptor is closed when the program is replaced.
pub const EPOLL_CLOEXEC: u64 = 0o2000000;

/// Creation flag: operations never wait.
pub const EPOLL_NONBLOCK: u64 = 0o4000;

/// Adds a watch.
pub const EPOLL_CTL_ADD: i32 = 1;

/// Removes a watch.
pub const EPOLL_CTL_DEL: i32 = 2;

/// Changes a watch.
pub const EPOLL_CTL_MOD: i32 = 3;

/// Readiness for reading.
pub const POLL_IN: u16 = 0x001;

/// The descriptor failed.
pub const EPOLLERR: u32 = 0x008;

/// The other end is gone.
pub const EPOLLHUP: u32 = 0x010;

/// The other end stopped writing.
pub const EPOLLRDHUP: u32 = 0x2000;

/// Report a watch once, then disable it.
pub const EPOLLONESHOT: u32 = 0x4000_0000;

/// Report changes only.
pub const EPOLLET: u32 = 0x8000_0000;

/// Watch flags that are not supported.
pub const EPOLL_UNSUPPORTED_FLAGS: u32 = 0x3000_0000;

/// Readiness that can be watched, and watch flags.
pub const EPOLL_KNOWN: u32 = 0xc000_27ff;

/// Most events that one call reports.
pub const EPOLL_WAIT_MAX: usize = 4096;

/// Time between two looks at descriptors that do not tell.
pub const WAIT_INTERVAL_NS: u64 = 1_000_000;

/// What a program watches for, and what it is told then.
#[derive(Copy, Clone, Debug, PartialEq, Eq, Structural)]
pub struct UserEpollEvent {
    /// Readiness and flags.
    pub events: u32,
    /// Value for the program.
    pub data: u64,
}

/// One watched descriptor.
#[derive(Copy, Clone, Debug, PartialEq, Eq, Structural)]
pub struct Watch {
    /// Descriptor.
    pub descriptor: Descriptor,
    /// Readiness and flags.
    pub events: u32,
    /// Value for the program.
    pub data: u64,
    /// Readiness at the last look.
    pub last_ready: u32,
    /// Whether the watch was reported and is not to be reported again.
    pub disabled: bool,
}

/// Order of descriptions: by kind, then by object.
pub open spec fn key_less(a: DescriptorKey, b: DescriptorKey) -> bool {
    a.kind < b.kind || (a.kind == b.kind && a.pointer < b.pointer)
}

/// Whether a watch is for this description.
pub open spec fn watches_key(key: DescriptorKey) -> spec_fn(Watch) -> bool {
    |w: Watch| w.descriptor.identity() == key
}

/// Whether a watch comes after this description.
pub open spec fn comes_after(key: DescriptorKey) -> spec_fn(Watch) -> bool {
    |w: Watch| key_less(key, w.descriptor.identity())
}

/// Whether a watch is for a description that `files` still hold.
pub open spec fn still_held(files: Seq<Option<DescriptorEntry>>) -> spec_fn(Watch) -> bool {
    |w: Watch| any_where(files, holds_key(w.descriptor.identity()))
}

/// Whether the watches are in order.
pub open spec fn in_order(watches: Seq<Watch>) -> bool {
    forall|i: int, j: int|
        #![trigger watches[i], watches[j]]
        0 <= i < j < watches.len() ==> key_less(
            watches[i].descriptor.identity(),
            watches[j].descriptor.identity(),
        )
}

/// The watches after a change, or why there is none.
pub open spec fn controlled(
    watches: Seq<Watch>,
    operation: i32,
    descriptor: Descriptor,
    event: Option<UserEpollEvent>,
) -> Result<Seq<Watch>, Errno> {
    let key = descriptor.identity();
    let at = first_where(watches, watches_key(key), 0);
    let fresh = Watch {
        descriptor,
        events: event->0.events,
        data: event->0.data,
        last_ready: 0,
        disabled: false,
    };
    if descriptor is Epoll {
        Err(Errno::Invalid)
    } else if operation == EPOLL_CTL_ADD {
        if event.is_none() {
            Err(Errno::Fault)
        } else if !events_ok(event->0.events) {
            Err(Errno::Invalid)
        } else if at < watches.len() {
            Err(Errno::Exists)
        } else {
            Ok(watches.insert(first_where(watches, comes_after(key), 0), fresh))
        }
    } else if operation == EPOLL_CTL_DEL {
        if at < watches.len() {
            Ok(watches.remove(at))
        } else {
            Err(Errno::NoEntry)
        }
    } else if operation == EPOLL_CTL_MOD {
        if event.is_none() {
            Err(Errno::Fault)
        } else if !events_ok(event->0.events) {
            Err(Errno::Invalid)
        } else if at >= watches.len() {
            Err(Errno::NoEntry)
        } else {
            Ok(watches.update(at, Watch { descriptor: watches[at].descriptor, ..fresh }))
        }
    } else {
        Err(Errno::Invalid)
    }
}

/// Whether a watch for `events` is supported.
pub open spec fn events_ok(events: u32) -> bool {
    events & EPOLL_UNSUPPORTED_FLAGS == 0 && events & !EPOLL_KNOWN == 0
}

/// What is asked of a descriptor watched for `events`.
pub open spec fn asked(events: u32) -> u16 {
    (events as u16) | 0x018
}

/// What a watch finds ready when its descriptor is ready for `polled`.
pub open spec fn found_ready(watch: Watch, polled: u16) -> u32 {
    (polled as u32) & (watch.events | EPOLLERR | EPOLLHUP | EPOLLRDHUP)
}

/// What a watch reports when its descriptor is ready for `polled`.
pub open spec fn reported(watch: Watch, polled: u16) -> u32 {
    if watch.events & EPOLLET != 0 {
        found_ready(watch, polled) & !watch.last_ready
    } else {
        found_ready(watch, polled)
    }
}

/// The watches after a look at the first of them, and the reports, of which
/// there are at most `maximum`.
pub open spec fn collected(watches: Seq<Watch>, polled: Seq<u16>, maximum: int) -> (
    Seq<Watch>,
    Seq<UserEpollEvent>,
)
    decreases watches.len(),
{
    if watches.len() == 0 {
        (watches, Seq::empty())
    } else {
        let before = collected(watches.drop_last(), polled, maximum);
        let watch = watches.last();
        let seen = polled[watches.len() - 1];
        if before.1.len() == maximum || watch.disabled {
            (before.0.push(watch), before.1)
        } else {
            let report = reported(watch, seen);
            (
                before.0.push(
                    Watch {
                        last_ready: found_ready(watch, seen),
                        disabled: report != 0 && watch.events & EPOLLONESHOT != 0,
                        ..watch
                    },
                ),
                if report == 0 {
                    before.1
                } else {
                    before.1.push(UserEpollEvent { events: report, data: watch.data })
                },
            )
        }
    }
}

/// Whether any of the watches has something to report.
pub open spec fn any_ready(watches: Seq<Watch>, polled: Seq<u16>, at: int) -> bool
    decreases watches.len() - at,
{
    if at >= watches.len() {
        false
    } else {
        (!watches[at].disabled && reported(watches[at], polled[at]) != 0) || any_ready(
            watches,
            polled,
            at + 1,
        )
    }
}

/// A set of watches as specifications see it.
#[verifier::ext_equal]
pub struct EpollModel {
    /// Watches, ordered by description.
    pub watches: Seq<Watch>,
    /// Event that tells of changes.
    pub changed: EventModel,
}

impl EpollModel {
    /// The set without the watches for descriptions that `files` do not hold.
    pub open spec fn held_by(self, files: Seq<Option<DescriptorEntry>>) -> EpollModel {
        EpollModel { watches: self.watches.filter(still_held(files)), ..self }
    }
}

/// A set of descriptor readiness watches.
pub struct Epoll {
    watches: Vec<Watch>,
    changed: Event,
}

impl View for Epoll {
    type V = EpollModel;

    closed spec fn view(&self) -> EpollModel {
        EpollModel { watches: self.watches@, changed: self.changed@ }
    }
}

fn validate_events(events: u32) -> (valid: bool)
    ensures
        valid == events_ok(events),
{
    events & EPOLL_UNSUPPORTED_FLAGS == 0 && events & !EPOLL_KNOWN == 0
}

fn poll_mask(events: u32) -> (mask: u16)
    ensures
        mask == asked(events),
{
    (#[verifier::truncate] (events as u16)) | 0x018
}

fn is_before(a: &DescriptorKey, b: &DescriptorKey) -> (less: bool)
    ensures
        less == key_less(*a, *b),
{
    a.kind < b.kind || (a.kind == b.kind && a.pointer < b.pointer)
}

fn look(watch: &Watch, polled: u16) -> (seen: (u32, u32))
    ensures
        seen.0 == found_ready(*watch, polled),
        seen.1 == reported(*watch, polled),
{
    let ready: u32 = (polled as u32) & (watch.events | EPOLLERR | EPOLLHUP | EPOLLRDHUP);
    let report: u32 = if watch.events & EPOLLET != 0 {
        ready & !watch.last_ready
    } else {
        ready
    };
    (ready, report)
}

impl Epoll {
    /// The watches are in order, so each description is watched once.
    pub closed spec fn wf(self) -> bool {
        &&& in_order(self.watches@)
        &&& self.changed.wf()
    }

    /// A consistent set is in order.
    pub proof fn lemma_wf(&self)
        requires
            self.wf(),
        ensures
            in_order(self@.watches),
    {
    }

    /// No watches.
    pub fn new() -> (epoll: Self)
        ensures
            epoll.wf(),
            epoll@ == (EpollModel {
                watches: Seq::empty(),
                changed: EventModel { signaled: false, waiters: Seq::empty() },
            }),
    {
        Epoll { watches: Vec::new(), changed: Event::new() }
    }

    fn find(&self, key: &DescriptorKey) -> (at: usize)
        ensures
            at == first_where(self@.watches, watches_key(*key), 0),
            at <= self@.watches.len(),
    {
        let mut at: usize = 0;
        while at < self.watches.len()
            invariant
                at <= self.watches@.len(),
                first_where(self@.watches, watches_key(*key), 0) == first_where(
                    self@.watches,
                    watches_key(*key),
                    at as int,
                ),
            decreases self.watches@.len() - at,
        {
            if self.watches[at].descriptor.key() == *key {
                return at;
            }
            at = at + 1;
        }
        at
    }

    fn insertion_place(&self, key: &DescriptorKey) -> (at: usize)
        ensures
            at == first_where(self@.watches, comes_after(*key), 0),
            at <= self@.watches.len(),
    {
        let mut at: usize = 0;
        while at < self.watches.len()
            invariant
                at <= self.watches@.len(),
                first_where(self@.watches, comes_after(*key), 0) == first_where(
                    self@.watches,
                    comes_after(*key),
                    at as int,
                ),
            decreases self.watches@.len() - at,
        {
            if is_before(key, &self.watches[at].descriptor.key()) {
                return at;
            }
            at = at + 1;
        }
        at
    }

    /// Adds, removes or changes a watch; returns whom to wake.
    pub fn control(
        &mut self,
        operation: i32,
        descriptor: Descriptor,
        event: Option<UserEpollEvent>,
        groups: &mut WaitGroups,
    ) -> (result: Result<Vec<WakeTarget>, Errno>)
        requires
            old(self).wf(),
            waiters_known(old(self)@.changed.waiters, old(groups)@),
        ensures
            final(self).wf(),
            match controlled(old(self)@.watches, operation, descriptor, event) {
                Ok(after) => {
                    &&& result matches Ok(woken) && woken@ == all_targets(
                        old(self)@.changed.waiters,
                        old(groups)@,
                    )
                    &&& final(groups)@ == all_claimed(old(self)@.changed.waiters, old(groups)@)
                    &&& final(self)@ == (EpollModel {
                        watches: after,
                        changed: EventModel { signaled: true, waiters: Seq::empty() },
                    })
                },
                Err(error) => {
                    &&& result == Err::<Vec<WakeTarget>, Errno>(error)
                    &&& final(self)@ == old(self)@
                    &&& final(groups)@ == old(groups)@
                },
            },
    {
        let key = descriptor.key();
        match descriptor {
            Descriptor::Epoll(_) => {
                return Err(Errno::Invalid);
            },
            _ => {},
        }
        proof {
            lemma_first_where(self@.watches, watches_key(key), 0);
            lemma_first_where(self@.watches, comes_after(key), 0);
        }
        if operation == EPOLL_CTL_ADD {
            let event = match event {
                Some(event) => event,
                None => {
                    return Err(Errno::Fault);
                },
            };
            if !validate_events(event.events) {
                return Err(Errno::Invalid);
            }
            if self.find(&key) < self.watches.len() {
                return Err(Errno::Exists);
            }
            let at: usize = self.insertion_place(&key);
            let ghost before = self.watches@;
            self.watches.insert(
                at,
                Watch {
                    descriptor,
                    events: event.events,
                    data: event.data,
                    last_ready: 0,
                    disabled: false,
                },
            );
            proof {
                lemma_inserted(before, at as int, self.watches@[at as int]);
            }
        } else if operation == EPOLL_CTL_DEL {
            let at: usize = self.find(&key);
            if at >= self.watches.len() {
                return Err(Errno::NoEntry);
            }
            let ghost before = self.watches@;
            let _ = self.watches.remove(at);
            proof {
                assert forall|i: int, j: int|
                    #![trigger self.watches@[i], self.watches@[j]]
                    0 <= i < j < self.watches@.len() implies key_less(
                    self.watches@[i].descriptor.identity(),
                    self.watches@[j].descriptor.identity(),
                ) by {
                    let a = if i < at { i } else { i + 1 };
                    let b = if j < at { j } else { j + 1 };
                    assert(self.watches@[i] == before[a] && self.watches@[j] == before[b]);
                }
            }
        } else if operation == EPOLL_CTL_MOD {
            let event = match event {
                Some(event) => event,
                None => {
                    return Err(Errno::Fault);
                },
            };
            if !validate_events(event.events) {
                return Err(Errno::Invalid);
            }
            let at: usize = self.find(&key);
            if at >= self.watches.len() {
                return Err(Errno::NoEntry);
            }
            let same = self.watches[at].descriptor;
            self.watches.set(
                at,
                Watch {
                    descriptor: same,
                    events: event.events,
                    data: event.data,
                    last_ready: 0,
                    disabled: false,
                },
            );
        } else {
            return Err(Errno::Invalid);
        }
        Ok(self.changed.signal(groups))
    }

    fn held_watches(&self, files: &FileTable) -> (kept: Vec<Watch>)
        ensures
            kept@ == self@.watches.filter(still_held(files@)),
    {
        let ghost before = self.watches@;
        let ghost held = still_held(files@);
        let mut kept: Vec<Watch> = Vec::new();
        let mut at: usize = 0;
        while at < self.watches.len()
            invariant
                before == self.watches@,
                held == still_held(files@),
                at <= before.len(),
                kept@ == before.take(at as int).filter(held),
            decreases before.len() - at,
        {
            let watch = self.watches[at];
            proof {
                reveal(Seq::filter);
                let longer = before.take(at + 1);
                assert(longer.drop_last() =~= before.take(at as int));
                assert(longer.last() == watch);
            }
            if files.contains_descriptor(watch.descriptor.key()) {
                kept.push(watch);
            }
            at = at + 1;
        }
        assert(before.take(at as int) =~= before);
        kept
    }

    /// Drops watches for descriptions that the process closed.
    pub fn drop_closed(&mut self, files: &FileTable)
        requires
            old(self).wf(),
        ensures
            final(self).wf(),
            final(self)@ == old(self)@.held_by(files@),
    {
        let kept = self.held_watches(files);
        proof {
            lemma_filtered_order(self.watches@, still_held(files@));
        }
        self.watches = kept;
    }

    /// Returns what to ask each watched descriptor for, in order; descriptions
    /// that the process closed are left out.
    pub fn poll_requests(&self, files: &FileTable) -> (requests: Vec<(Descriptor, u16)>)
        ensures
            requests@ == self@.held_by(files@).watches.map_values(
                |w: Watch| (w.descriptor, asked(w.events)),
            ),
    {
        let watches = self.held_watches(files);
        let mut requests: Vec<(Descriptor, u16)> = Vec::new();
        let mut at: usize = 0;
        while at < watches.len()
            invariant
                at <= watches@.len(),
                requests@.len() == at,
                forall|i: int|
                    0 <= i < at ==> #[trigger] requests@[i] == (
                        watches@[i].descriptor,
                        asked(watches@[i].events),
                    ),
            decreases watches@.len() - at,
        {
            let watch = watches[at];
            requests.push((watch.descriptor, poll_mask(watch.events)));
            at = at + 1;
        }
        requests
    }

    /// Collects up to `maximum` reports, after dropping the watches for
    /// descriptions that the process closed; `polled` is what the others
    /// answered to [`Epoll::poll_requests`].
    pub fn collect_ready(&mut self, files: &FileTable, polled: &Vec<u16>, maximum: usize) -> (reports:
        Vec<UserEpollEvent>)
        requires
            old(self).wf(),
            polled@.len() == old(self)@.held_by(files@).watches.len(),
        ensures
            final(self).wf(),
            ({
                let after = collected(
                    old(self)@.held_by(files@).watches,
                    polled@,
                    maximum as int,
                );
                &&& reports@ == after.1
                &&& final(self)@ == (EpollModel { watches: after.0, ..old(self)@ })
            }),
            reports@.len() <= maximum,
    {
        self.drop_closed(files);
        let ghost start = *self;
        let ghost before = self.watches@;
        let mut reports: Vec<UserEpollEvent> = Vec::new();
        let mut at: usize = 0;
        while at < self.watches.len()
            invariant
                start.wf(),
                before == start.watches@,
                polled@.len() == before.len(),
                self.watches@.len() == before.len(),
                *self == (Epoll { watches: self.watches, ..start }),
                at <= before.len(),
                reports@.len() <= maximum,
                collected(before.take(at as int), polled@, maximum as int).0.len() == at,
                forall|i: int|
                    0 <= i < at ==> #[trigger] self.watches@[i] == collected(
                        before.take(at as int),
                        polled@,
                        maximum as int,
                    ).0[i],
                forall|i: int| at <= i < before.len() ==> #[trigger] self.watches@[i] == before[i],
                forall|i: int|
                    0 <= i < before.len() ==> (#[trigger] self.watches@[i]).descriptor
                        == before[i].descriptor,
                reports@ == collected(before.take(at as int), polled@, maximum as int).1,
            decreases before.len() - at,
        {
            proof {
                let longer = before.take(at + 1);
                assert(longer.drop_last() =~= before.take(at as int));
                assert(longer.last() == before[at as int]);
            }
            let mut watch = self.watches[at];
            if reports.len() != maximum && !watch.disabled {
                let (ready, report) = look(&watch, polled[at]);
                watch.last_ready = ready;
                if report != 0 {
                    reports.push(UserEpollEvent { events: report, data: watch.data });
                    if watch.events & EPOLLONESHOT != 0 {
                        watch.disabled = true;
                    }
                }
                self.watches.set(at, watch);
            }
            at = at + 1;
        }
        proof {
            assert(before.take(at as int) =~= before);
            assert(self.watches@ =~= collected(before, polled@, maximum as int).0);
        }
        reports
    }

    /// Returns whether any watch has something to report, where the process
    /// still holds its description; `polled` is what those answered to
    /// [`Epoll::poll_requests`].
    pub fn has_ready(&self, files: &FileTable, polled: &Vec<u16>) -> (ready: bool)
        requires
            polled@.len() == self@.held_by(files@).watches.len(),
        ensures
            ready == any_ready(self@.held_by(files@).watches, polled@, 0),
    {
        let watches = self.held_watches(files);
        let mut at: usize = 0;
        while at < watches.len()
            invariant
                polled@.len() == watches@.len(),
                watches@ == self@.held_by(files@).watches,
                at <= watches@.len(),
                any_ready(watches@, polled@, 0) == any_ready(watches@, polled@, at as int),
            decreases watches@.len() - at,
        {
            let watch = watches[at];
            if !watch.disabled {
                let (_, report) = look(&watch, polled[at]);
                if report != 0 {
                    assert(any_ready(watches@, polled@, at as int));
                    return true;
                }
            }
            at = at + 1;
        }
        false
    }

    /// Returns what the set itself is ready for.
    pub fn poll(&self, files: &FileTable, requested: &PollEvents, polled: &Vec<u16>) -> (ready:
        PollEvents)
        requires
            polled@.len() == self@.held_by(files@).watches.len(),
        ensures
            ready == (PollEvents {
                readable: requested.readable && any_ready(
                    self@.held_by(files@).watches,
                    polled@,
                    0,
                ),
                ..PollEvents::nothing()
            }),
    {
        let mut ready = PollEvents::empty();
        ready.readable = requested.readable && self.has_ready(files, polled);
        ready
    }

    /// Prepares a wait, after dropping the watches for descriptions that the
    /// process closed: returns which descriptors to wait for, and what for.
    pub fn wait_descriptors(&mut self, files: &FileTable) -> (waits: Vec<(Descriptor, u16)>)
        requires
            old(self).wf(),
        ensures
            final(self).wf(),
            final(self)@ == (EpollModel {
                changed: EventModel { signaled: false, ..old(self)@.changed },
                ..old(self)@.held_by(files@)
            }),
            waits@ == old(self)@.held_by(files@).watches.filter(|w: Watch| !w.disabled).map_values(
                |w: Watch| (w.descriptor, asked(w.events)),
            ),
    {
        self.drop_closed(files);
        let ghost start = *self;
        let ghost before = self.watches@;
        let ghost on = |w: Watch| !w.disabled;
        let ghost ask = |w: Watch| (w.descriptor, asked(w.events));
        let mut waits: Vec<(Descriptor, u16)> = Vec::new();
        let mut at: usize = 0;
        while at < self.watches.len()
            invariant
                *self == start,
                before == self.watches@,
                on == (|w: Watch| !w.disabled),
                ask == (|w: Watch| (w.descriptor, asked(w.events))),
                at <= before.len(),
                waits@ == before.take(at as int).filter(on).map_values(ask),
            decreases before.len() - at,
        {
            let watch = self.watches[at];
            proof {
                reveal(Seq::filter);
                let longer = before.take(at + 1);
                assert(longer.drop_last() =~= before.take(at as int));
                assert(longer.last() == watch);
            }
            if !watch.disabled {
                waits.push((watch.descriptor, poll_mask(watch.events)));
                proof {
                    let shorter = before.take(at as int).filter(on);
                    assert(shorter.push(watch).map_values(ask) =~= shorter.map_values(ask).push(
                        ask(watch),
                    ));
                }
            }
            at = at + 1;
        }
        assert(before.take(at as int) =~= before);
        let _ = self.changed.reset();
        waits
    }
}

proof fn lemma_inserted(watches: Seq<Watch>, at: int, watch: Watch)
    requires
        in_order(watches),
        at == first_where(watches, comes_after(watch.descriptor.identity()), 0),
        first_where(watches, watches_key(watch.descriptor.identity()), 0) >= watches.len(),
    ensures
        in_order(watches.insert(at, watch)),
{
    let key = watch.descriptor.identity();
    lemma_first_where(watches, comes_after(key), 0);
    lemma_first_where(watches, watches_key(key), 0);
    let after = watches.insert(at, watch);
    assert forall|i: int, j: int|
        #![trigger after[i], after[j]]
        0 <= i < j < after.len() implies key_less(
        after[i].descriptor.identity(),
        after[j].descriptor.identity(),
    ) by {
        let a = if i < at { i } else { i - 1 };
        let b = if j < at { j } else { j - 1 };
        if i == at {
            assert(after[j] == watches[b]);
            assert(comes_after(key)(watches[at]));
            if at < b {
                assert(key_less(
                    watches[at].descriptor.identity(),
                    watches[b].descriptor.identity(),
                ));
            }
        } else if j == at {
            assert(after[i] == watches[a]);
            assert(!comes_after(key)(watches[a]));
            assert(!watches_key(key)(watches[a]));
        } else {
            assert(after[i] == watches[a] && after[j] == watches[b]);
        }
    }
}

proof fn lemma_filtered_order(s: Seq<Watch>, p: spec_fn(Watch) -> bool)
    requires
        in_order(s),
    ensures
        in_order(s.filter(p)),
        forall|i: int| 0 <= i < s.filter(p).len() ==> s.contains(#[trigger] s.filter(p)[i]),
    decreases s.len(),
{
    reveal(Seq::filter);
    if s.len() > 0 {
        let rest = s.drop_last();
        lemma_filtered_order(rest, p);
        let kept = rest.filter(p);
        let f = s.filter(p);
        assert forall|i: int| 0 <= i < f.len() implies s.contains(#[trigger] f[i]) by {
            if i < kept.len() {
                assert(f[i] == kept[i]);
                let k = choose|k: int| 0 <= k < rest.len() && rest[k] == kept[i];
                assert(s[k] == f[i]);
            } else {
                assert(f[i] == s[s.len() - 1]);
            }
        }
        assert forall|i: int, j: int|
            #![trigger f[i], f[j]]
            0 <= i < j < f.len() implies key_less(
            f[i].descriptor.identity(),
            f[j].descriptor.identity(),
        ) by {
            if j < kept.len() {
                assert(f[i] == kept[i] && f[j] == kept[j]);
            } else {
                assert(rest.contains(kept[i]));
                let k = choose|k: int| 0 <= k < rest.len() && rest[k] == kept[i];
                assert(s[k] == f[i] && s[s.len() - 1] == f[j]);
            }
        }
    }
}

/// Size of a report in user memory.
pub fn user_event_size(arch: Arch) -> (size: usize)
    ensures
        size == match arch {
            Arch::X86_64 => 12usize,
            Arch::Riscv64 => 16,
        },
{
    match arch {
        Arch::X86_64 => 12,
        Arch::Riscv64 => 16,
    }
}

/// A report in user memory.
pub open spec fn event_bytes(arch: Arch, event: UserEpollEvent) -> Seq<u8> {
    match arch {
        Arch::X86_64 => u32_bytes(event.events) + u64_bytes(event.data),
        Arch::Riscv64 => u32_bytes(event.events) + zeros(4) + u64_bytes(event.data),
    }
}

/// Reports in user memory.
pub open spec fn events_bytes(arch: Arch, events: Seq<UserEpollEvent>) -> Seq<u8>
    decreases events.len(),
{
    if events.len() == 0 {
        Seq::empty()
    } else {
        events_bytes(arch, events.drop_last()) + event_bytes(arch, events.last())
    }
}

/// Encodes reports for user memory.
pub fn encode_events(arch: Arch, events: &Vec<UserEpollEvent>) -> (bytes: Vec<u8>)
    ensures
        bytes@ == events_bytes(arch, events@),
{
    let mut bytes: Vec<u8> = Vec::new();
    let mut at: usize = 0;
    while at < events.len()
        invariant
            at <= events@.len(),
            bytes@ == events_bytes(arch, events@.take(at as int)),
        decreases events@.len() - at,
    {
        let event = events[at];
        proof {
            let longer = events@.take(at + 1);
            assert(longer.drop_last() =~= events@.take(at as int));
            assert(longer.last() == event);
        }
        let ghost before = bytes@;
        put_u32(&mut bytes, event.events);
        match arch {
            Arch::X86_64 => {},
            Arch::Riscv64 => {
                put_zeros(&mut bytes, 4);
            },
        }
        put_u64(&mut bytes, event.data);
        assert(bytes@ =~= before + event_bytes(arch, event));
        at = at + 1;
    }
    assert(events@.take(at as int) =~= events@);
    bytes
}

/// Reads what a program watches for.
pub fn decode_event(arch: Arch, bytes: &[u8]) -> (event: UserEpollEvent)
    requires
        bytes@.len() == match arch {
            Arch::X86_64 => 12int,
            Arch::Riscv64 => 16,
        },
    ensures
        event.events == u32_at(bytes@, 0),
        event.data == u64_at(
            bytes@,
            match arch {
                Arch::X86_64 => 4,
                Arch::Riscv64 => 8,
            },
        ),
{
    let place: usize = match arch {
        Arch::X86_64 => 4,
        Arch::Riscv64 => 8,
    };
    UserEpollEvent { events: get_u32(bytes, 0), data: get_u64(bytes, place) }
}

/// What a wait does next when nothing is ready.
#[derive(Copy, Clone, Debug, PartialEq, Eq, Structural)]
pub enum EpollStep {
    /// The time is up.
    TimedOut,
    /// Wait for the events.
    WaitEvents,
    /// Wait for the events, but at most this long.
    WaitEventsFor(u64),
    /// Sleep this long and look again.
    SleepFor(u64),
}

/// Decides how to wait: `event_driven` tells whether all watched descriptors
/// tell their readiness through events.
pub fn epoll_wait_step(timeout_ms: i32, deadline: Option<u64>, now_ns: u64, event_driven: bool) -> (step:
    EpollStep)
    ensures
        step == if timeout_ms == 0 || (deadline matches Some(end) && now_ns >= end) {
            EpollStep::TimedOut
        } else if event_driven {
            match deadline {
                Some(end) => EpollStep::WaitEventsFor((end - now_ns) as u64),
                None => EpollStep::WaitEvents,
            }
        } else {
            EpollStep::SleepFor(
                match deadline {
                    Some(end) => if end - now_ns < WAIT_INTERVAL_NS {
                        (end - now_ns) as u64
                    } else {
                        WAIT_INTERVAL_NS
                    },
                    None => WAIT_INTERVAL_NS,
                },
            )
        },
{
    match deadline {
        Some(end) => {
            if timeout_ms == 0 || now_ns >= end {
                return EpollStep::TimedOut;
            }
            let left: u64 = end - now_ns;
            if event_driven {
                EpollStep::WaitEventsFor(left)
            } else if left < WAIT_INTERVAL_NS {
                EpollStep::SleepFor(left)
            } else {
                EpollStep::SleepFor(WAIT_INTERVAL_NS)
            }
        },
        None => {
            if timeout_ms == 0 {
                return EpollStep::TimedOut;
            }
            if event_driven {
                EpollStep::WaitEvents
            } else {
                EpollStep::SleepFor(WAIT_INTERVAL_NS)
            }
        },
    }
}

/// Checks the arguments of a wait and computes when it ends.
pub fn epoll_wait_deadline(maximum: i32, timeout_ms: i32, now_ns: u64) -> (deadline: Result<
    Option<u64>,
    Errno,
>)
    ensures
        deadline == if maximum <= 0 || maximum > EPOLL_WAIT_MAX || timeout_ms < -1 {
            Err::<Option<u64>, Errno>(Errno::Invalid)
        } else if timeout_ms < 0 {
            Ok(None)
        } else {
            Ok(Some(crate::num::cap_u64(now_ns + timeout_ms * 1_000_000)))
        },
{
    if maximum <= 0 || maximum as usize > EPOLL_WAIT_MAX || timeout_ms < -1 {
        return Err(Errno::Invalid);
    }
    if timeout_ms < 0 {
        return Ok(None);
    }
    Ok(Some(now_ns.saturating_add(timeout_ms as u64 * 1_000_000)))
}

/// A watch that was reported once and asked for that is not reported again
/// before it is set again.
pub proof fn law_oneshot_reports_once(watches: Seq<Watch>, polled: Seq<u16>, maximum: int, i: int)
    requires
        0 <= i < watches.len(),
        watches[i].disabled,
    ensures
        collected(watches, polled, maximum).0.len() == watches.len(),
        collected(watches, polled, maximum).0[i] == watches[i],
    decreases watches.len(),
{
    lemma_collected_len(watches, polled, maximum);
    if i < watches.len() - 1 {
        assert(watches.drop_last()[i] == watches[i]);
        law_oneshot_reports_once(watches.drop_last(), polled, maximum, i);
    } else {
        lemma_collected_len(watches.drop_last(), polled, maximum);
    }
}

proof fn lemma_collected_len(watches: Seq<Watch>, polled: Seq<u16>, maximum: int)
    ensures
        collected(watches, polled, maximum).0.len() == watches.len(),
        maximum >= 0 ==> collected(watches, polled, maximum).1.len() <= maximum,
    decreases watches.len(),
{
    if watches.len() > 0 {
        lemma_collected_len(watches.drop_last(), polled, maximum);
    }
}

/// An edge-triggered watch reports a readiness once: at the next look nothing
/// is new.
pub proof fn law_edge_reports_changes(watch: Watch, polled: u16)
    requires
        watch.events & EPOLLET != 0,
        watch.last_ready == found_ready(watch, polled),
    ensures
        reported(watch, polled) == 0,
{
    let seen = watch.last_ready;
    assert(seen & !seen == 0) by (bit_vector);
}

/// A description is watched at most once.
pub proof fn law_description_is_watched_once(watches: Seq<Watch>, i: int, j: int)
    requires
        in_order(watches),
        0 <= i < j < watches.len(),
    ensures
        watches[i].descriptor.identity() != watches[j].descriptor.identity(),
{
}

/// A report that a program hands back unchanged reads as it was.
pub proof fn law_event_round_trip(arch: Arch, event: UserEpollEvent)
    ensures
        ({
            let bytes = event_bytes(arch, event);
            let place = match arch {
                Arch::X86_64 => 4,
                Arch::Riscv64 => 8int,
            };
            &&& bytes.len() == place + 8
            &&& u32_at(bytes, 0) == event.events
            &&& u64_at(bytes, place) == event.data
        }),
{
    let bytes = event_bytes(arch, event);
    let place = match arch {
        Arch::X86_64 => 4,
        Arch::Riscv64 => 8int,
    };
    lemma_u32_round_trip(event.events);
    law_u64_round_trip(event.data);
    assert(u32_at(bytes, 0) == u32_at(u32_bytes(event.events), 0));
    assert(bytes.subrange(place, place + 8) =~= u64_bytes(event.data));
    lemma_u64_at(bytes, place, event.data);
}

/// What a watch without the edge flag reports is what its descriptor is ready
/// for now, among what it watches and the conditions that are always watched,
/// whatever it reported before.
pub proof fn law_level_reports_while_ready(watch: Watch, polled: u16)
    requires
        watch.events & 0x8000_0000u32 == 0,
    ensures
        reported(watch, polled) == (polled as u32) & (watch.events | 0x2018u32),
        forall|before: u32| #[trigger]
            reported(Watch { last_ready: before, ..watch }, polled) == reported(watch, polled),
        (polled as u32) & watch.events != 0 ==> reported(watch, polled) != 0,
        polled & 0x18u16 != 0 ==> reported(watch, polled) != 0,
{
    let events = watch.events;
    lemma_always_watched(events, polled);
}

/// What an edge-triggered watch reports is what its descriptor became ready
/// for since the last look.
pub proof fn law_edge_reports_what_is_new(watch: Watch, polled: u16)
    requires
        watch.events & 0x8000_0000u32 != 0,
    ensures
        reported(watch, polled) == (polled as u32) & (watch.events | 0x2018u32)
            & !watch.last_ready,
        watch.last_ready == 0 && (polled as u32) & watch.events != 0 ==> reported(watch, polled)
            != 0,
{
    let events = watch.events;
    lemma_always_watched(events, polled);
    let seen = (polled as u32) & (events | 0x2018u32);
    assert(seen & !0u32 == seen) by (bit_vector);
}

proof fn lemma_always_watched(events: u32, polled: u16)
    by (bit_vector)
    ensures
        events | 0x8u32 | 0x10u32 | 0x2000u32 == events | 0x2018u32,
        (polled as u32) & events != 0 ==> (polled as u32) & (events | 0x2018u32) != 0,
        polled & 0x18u16 != 0 ==> (polled as u32) & (events | 0x2018u32) != 0,
{
}

/// Looking at one enabled watch gives exactly its report, with the value that
/// the program gave, if it has anything to report, and nothing otherwise. The
/// watch remembers what it found; it is disabled if it is to report once and
/// did.
pub proof fn law_watch_is_reported(watch: Watch, polled: u16, maximum: int)
    requires
        !watch.disabled,
        maximum > 0,
    ensures
        ({
            let (after, reports) = collected(seq![watch], seq![polled], maximum);
            let report = reported(watch, polled);
            &&& report == 0 ==> reports.len() == 0
            &&& report != 0 ==> reports == seq![UserEpollEvent { events: report, data: watch.data }]
            &&& after.len() == 1
            &&& after[0].last_ready == (polled as u32) & (watch.events | 0x2018u32)
            &&& after[0].descriptor == watch.descriptor
            &&& after[0].events == watch.events
            &&& after[0].data == watch.data
            &&& after[0].disabled <==> report != 0 && watch.events & 0x4000_0000u32 != 0
        }),
{
    reveal_with_fuel(collected, 2);
    let events = watch.events;
    lemma_always_watched(events, polled);
    assert(seq![watch].drop_last() =~= Seq::empty());
}

/// A level-triggered watch that is not to report once is reported on every
/// look as long as its descriptor stays ready.
pub proof fn law_level_is_reported_again(watch: Watch, polled: u16, maximum: int)
    requires
        !watch.disabled,
        maximum > 0,
        watch.events & 0xc000_0000u32 == 0,
        (polled as u32) & watch.events != 0,
    ensures
        ({
            let (once, first) = collected(seq![watch], seq![polled], maximum);
            let (twice, second) = collected(once, seq![polled], maximum);
            &&& first == second
            &&& first.len() == 1
            &&& first[0].events == (polled as u32) & (watch.events | 0x2018u32)
            &&& first[0].data == watch.data
            &&& once == twice
        }),
{
    let events = watch.events;
    lemma_flag_parts(events);
    law_watch_is_reported(watch, polled, maximum);
    let once = collected(seq![watch], seq![polled], maximum).0;
    assert(once =~= seq![once[0]]);
    law_level_reports_while_ready(watch, polled);
    law_level_reports_while_ready(once[0], polled);
    law_watch_is_reported(once[0], polled, maximum);
    let twice = collected(once, seq![polled], maximum).0;
    assert(twice =~= seq![twice[0]]);
}

proof fn lemma_flag_parts(events: u32)
    by (bit_vector)
    ensures
        events & 0xc000_0000u32 == 0 <==> events & 0x8000_0000u32 == 0 && events & 0x4000_0000u32
            == 0,
{
}

/// Watches are looked at one after the other: a look at one more watch adds
/// its report behind the others, unless there is no more room or the watch is
/// disabled, and then it stays as it was.
pub proof fn law_reports_keep_order(watches: Seq<Watch>, watch: Watch, polled: Seq<u16>, maximum: int)
    requires
        polled.len() == watches.len() + 1,
        maximum >= 0,
    ensures
        ({
            let (before, earlier) = collected(watches, polled, maximum);
            let (after, reports) = collected(watches.push(watch), polled, maximum);
            let seen = polled[watches.len() as int];
            let looked = earlier.len() < maximum && !watch.disabled;
            &&& after.len() == watches.len() + 1
            &&& after.take(watches.len() as int) == before
            &&& reports.take(earlier.len() as int) == earlier
            &&& !looked ==> reports == earlier && after.last() == watch
            &&& looked && reported(watch, seen) == 0 ==> reports == earlier
            &&& looked && reported(watch, seen) != 0 ==> reports == earlier.push(
                UserEpollEvent { events: reported(watch, seen), data: watch.data },
            )
        }),
{
    assert(watches.push(watch).drop_last() =~= watches);
    lemma_collected_len(watches, polled, maximum);
    let (before, earlier) = collected(watches, polled, maximum);
    let (after, reports) = collected(watches.push(watch), polled, maximum);
    assert(after.take(watches.len() as int) =~= before);
    assert(reports.take(earlier.len() as int) =~= earlier);
}

/// A set of watches is ready exactly if one of its enabled watches has
/// something to report.
pub proof fn law_set_is_ready_with_a_watch(watches: Seq<Watch>, polled: Seq<u16>)
    ensures
        any_ready(watches, polled, 0) <==> exists|i: int|
            0 <= i < watches.len() && !(#[trigger] watches[i]).disabled && reported(
                watches[i],
                polled[i],
            ) != 0,
{
    lemma_any_ready(watches, polled, 0);
}

proof fn lemma_any_ready(watches: Seq<Watch>, polled: Seq<u16>, at: int)
    requires
        0 <= at <= watches.len(),
    ensures
        any_ready(watches, polled, at) <==> exists|i: int|
            at <= i < watches.len() && !(#[trigger] watches[i]).disabled && reported(
                watches[i],
                polled[i],
            ) != 0,
    decreases watches.len() - at,
{
    if at < watches.len() {
        lemma_any_ready(watches, polled, at + 1);
    }
}

/// A descriptor is asked for what is watched among the sixteen kinds of
/// readiness, and always for errors and hang-ups.
pub proof fn law_descriptor_is_asked_for_what_is_watched(events: u32)
    ensures
        asked(events) & 0x18u16 == 0x18,
        asked(events) as u32 == events & 0xffffu32 | 0x18u32,
{
    assert(((events as u16) | 0x018u16) & 0x18u16 == 0x18 && ((events as u16) | 0x018u16) as u32
        == events & 0xffffu32 | 0x18u32) by (bit_vector);
}

/// Watches for readiness and for reporting edges or once are accepted; watches
/// with any other flag are refused.
pub proof fn law_unknown_watch_is_refused(events: u32)
    ensures
        events_ok(events) <==> events & !0xc000_27ffu32 == 0,
{
    assert(events & !0xc000_27ffu32 == 0 ==> events & 0x3000_0000u32 == 0) by (bit_vector);
}

/// Adding, changing and removing a watch does what it says: an added watch is
/// there with what was asked for and enabled, a changed one replaces what was
/// watched before, a removed one is gone, and the other watches stay.
pub proof fn law_control_changes_one_watch(
    watches: Seq<Watch>,
    operation: i32,
    descriptor: Descriptor,
    event: UserEpollEvent,
    other: Watch,
)
    requires
        in_order(watches),
        controlled(watches, operation, descriptor, Some(event)).is_ok(),
    ensures
        ({
            let after = controlled(watches, operation, descriptor, Some(event))->Ok_0;
            let key = descriptor.identity();
            &&& other.descriptor.identity() != key ==> (watches.contains(other) <==> after.contains(
                other,
            ))
            &&& operation == 1 ==> {
                &&& after.len() == watches.len() + 1
                &&& !any_where(watches, watches_key(key))
            }
            &&& operation == 2 ==> {
                &&& after.len() == watches.len() - 1
                &&& !after.contains(other) || other.descriptor.identity() != key
            }
            &&& operation == 3 ==> after.len() == watches.len()
            &&& operation == 1 || operation == 3 ==> exists|i: int|
                0 <= i < after.len() && (#[trigger] after[i]).descriptor.identity() == key
                    && after[i].events == event.events && after[i].data == event.data
                    && after[i].last_ready == 0 && !after[i].disabled
            &&& operation == 1 || operation == 2 || operation == 3
        }),
{
    let key = descriptor.identity();
    let after = controlled(watches, operation, descriptor, Some(event))->Ok_0;
    let at = first_where(watches, watches_key(key), 0);
    lemma_first_where(watches, watches_key(key), 0);
    lemma_first_where(watches, comes_after(key), 0);
    if operation == EPOLL_CTL_ADD {
        let place = first_where(watches, comes_after(key), 0);
        assert(after[place].descriptor == descriptor);
        if watches.contains(other) {
            let i = choose|i: int| 0 <= i < watches.len() && watches[i] == other;
            assert(after[if i < place { i } else { i + 1 }] == other);
        }
        if after.contains(other) && other.descriptor.identity() != key {
            let i = choose|i: int| 0 <= i < after.len() && after[i] == other;
            assert(watches[if i < place { i } else { i - 1 }] == other);
        }
    } else if operation == EPOLL_CTL_DEL {
        if watches.contains(other) && other.descriptor.identity() != key {
            let i = choose|i: int| 0 <= i < watches.len() && watches[i] == other;
            assert(after[if i < at { i } else { i - 1 }] == other);
        }
        if after.contains(other) {
            let i = choose|i: int| 0 <= i < after.len() && after[i] == other;
            let j = if i < at { i } else { i + 1 };
            assert(watches[j] == other);
            assert(watches[at].descriptor.identity() == key);
            if other.descriptor.identity() == key {
                assert(key_less(
                    watches[if j < at { j } else { at }].descriptor.identity(),
                    watches[if j < at { at } else { j }].descriptor.identity(),
                ));
            }
        }
    } else {
        assert(after[at].descriptor.identity() == key);
        if watches.contains(other) && other.descriptor.identity() != key {
            let i = choose|i: int| 0 <= i < watches.len() && watches[i] == other;
            assert(after[i] == other);
        }
        if after.contains(other) && other.descriptor.identity() != key {
            let i = choose|i: int| 0 <= i < after.len() && after[i] == other;
            assert(watches[i] == other);
        }
    }
}

/// A change is refused for a set of watches, for an operation that there is
/// not, without the event that it needs, for an event that is not supported,
/// for a second watch of one description and for a watch that is not there.
pub proof fn law_control_refuses(
    watches: Seq<Watch>,
    operation: i32,
    descriptor: Descriptor,
    event: Option<UserEpollEvent>,
)
    ensures
        ({
            let result = controlled(watches, operation, descriptor, event);
            let watched = any_where(watches, watches_key(descriptor.identity()));
            let sets = operation == 1 || operation == 3;
            &&& descriptor is Epoll ==> result == Err::<Seq<Watch>, Errno>(Errno::Invalid)
            &&& !(1 <= operation <= 3) ==> result == Err::<Seq<Watch>, Errno>(Errno::Invalid)
            &&& !(descriptor is Epoll) && sets && event.is_none() ==> result == Err::<
                Seq<Watch>,
                Errno,
            >(Errno::Fault)
            &&& !(descriptor is Epoll) && sets && event.is_some() && !events_ok(event->0.events)
                ==> result == Err::<Seq<Watch>, Errno>(Errno::Invalid)
            &&& !(descriptor is Epoll) && operation == 1 && event.is_some() && events_ok(
                event->0.events,
            ) ==> (if watched {
                result == Err::<Seq<Watch>, Errno>(Errno::Exists)
            } else {
                result.is_ok()
            })
            &&& !(descriptor is Epoll) && operation == 3 && event.is_some() && events_ok(
                event->0.events,
            ) ==> (if watched {
                result.is_ok()
            } else {
                result == Err::<Seq<Watch>, Errno>(Errno::NoEntry)
            })
            &&& !(descriptor is Epoll) && operation == 2 ==> (if watched {
                result.is_ok()
            } else {
                result == Err::<Seq<Watch>, Errno>(Errno::NoEntry)
            })
        }),
{
}

} // verus!
