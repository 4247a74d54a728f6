//! Waiting on words of user memory.

use vstd::prelude::*;
use crate::lists::{first_where, lemma_first_where};
use crate::mem::{MemoryModel, UserMemory};
use crate::sys::event::{
    all_claimed, all_targets, lemma_all_claimed, waiters_known, Event, EventModel, WaitGroup,
    WaitGroups,
};
use crate::sys::sync::WakeTarget;
use crate::syscall::{
    read_user_i32, read_user_timespec, timespec_of, Errno, Timespec,
};
use crate::bytes::u32_at;

verus! {

/// A word of user memory that threads can wait on.
#[derive(Copy, Clone, Debug, PartialEq, Eq, Structural)]
pub struct FutexKey {
    /// Address space.
    pub address_space: u64,
    /// Address of the word.
    pub address: u64,
}

/// A waiting thread as specifications see it.
#[verifier::ext_equal]
pub struct WaiterModel {
    /// Number of the wait.
    pub id: u64,
    /// Word it waits on.
    pub key: FutexKey,
    /// Whether wakers can find it.
    pub queued: bool,
    /// Whether a waker chose it.
    pub woken: bool,
    /// Its event.
    pub event: EventModel,
}

/// One thread that waits on a word.
///
/// Its own event keeps a wake that comes before it sleeps.
pub struct FutexWaiter {
    id: u64,
    key: FutexKey,
    queued: bool,
    woken: bool,
    event: Event,
}

impl View for FutexWaiter {
    type V = WaiterModel;

    closed spec fn view(&self) -> WaiterModel {
        WaiterModel {
            id: self.id,
            key: self.key,
            queued: self.queued,
            woken: self.woken,
            event: self.event@,
        }
    }
}

/// Why a wait stopped blocking.
#[derive(Copy, Clone, Debug, PartialEq, Eq, Structural)]
pub enum FutexOutcome {
    /// The event of the wait fired.
    Woken,
    /// A signal has to be delivered.
    Interrupted,
    /// The time is up.
    TimedOut,
    /// The word changed, or could not be read, before blocking began.
    Skipped,
}

/// All waits on words, oldest first.
pub struct FutexTable {
    next_id: u64,
    waiters: Vec<FutexWaiter>,
}

/// All waits as specifications see them.
#[verifier::ext_equal]
pub struct FutexModel {
    /// Number of the next wait.
    pub next_id: u64,
    /// Waits, oldest first.
    pub waiters: Seq<WaiterModel>,
}

/// The waits as specifications see them.
pub open spec fn waiter_views(waiters: Seq<FutexWaiter>) -> Seq<WaiterModel> {
    Seq::new(waiters.len(), |i: int| waiters[i]@)
}

impl View for FutexTable {
    type V = FutexModel;

    closed spec fn view(&self) -> FutexModel {
        FutexModel { next_id: self.next_id, waiters: waiter_views(self.waiters@) }
    }
}

/// Whether a wait has this number.
pub open spec fn has_id(id: u64) -> spec_fn(WaiterModel) -> bool {
    |w: WaiterModel| w.id == id
}

impl FutexModel {
    /// Numbers grow.
    pub open spec fn ok(self) -> bool {
        &&& forall|i: int, j: int|
            #![trigger self.waiters[i], self.waiters[j]]
            0 <= i < j < self.waiters.len() ==> self.waiters[i].id < self.waiters[j].id
        &&& forall|i: int|
            0 <= i < self.waiters.len() ==> (#[trigger] self.waiters[i]).id < self.next_id
    }

    /// Place of a wait.
    pub open spec fn place(self, id: u64) -> int {
        first_where(self.waiters, has_id(id), 0)
    }

    /// Whether there is a wait with this number.
    pub open spec fn has(self, id: u64) -> bool {
        self.place(id) < self.waiters.len()
    }

    /// The wait with this number.
    pub open spec fn waiter(self, id: u64) -> WaiterModel {
        self.waiters[self.place(id)]
    }

    /// Every waiter's thread has a wait.
    pub open spec fn known(self, groups: Seq<WaitGroup>) -> bool {
        forall|i: int|
            0 <= i < self.waiters.len() ==> waiters_known(
                (#[trigger] self.waiters[i]).event.waiters,
                groups,
            )
    }
}

/// A wait after a waker chose it.
pub open spec fn released(w: WaiterModel) -> WaiterModel {
    WaiterModel {
        queued: false,
        woken: true,
        event: EventModel { signaled: true, waiters: Seq::empty() },
        ..w
    }
}

/// What waking on a word leads to.
#[verifier::ext_equal]
pub struct Waking {
    /// The waits after it.
    pub waiters: Seq<WaiterModel>,
    /// How many were chosen.
    pub count: int,
    /// The event waits after it.
    pub groups: Seq<WaitGroup>,
    /// Threads to wake.
    pub targets: Seq<WakeTarget>,
}

/// What waking up to `maximum` of the oldest waits on `key` leads to.
pub open spec fn woken(
    waiters: Seq<WaiterModel>,
    key: FutexKey,
    maximum: int,
    groups: Seq<WaitGroup>,
) -> Waking
    decreases waiters.len(),
{
    if waiters.len() == 0 {
        Waking { waiters, count: 0, groups, targets: Seq::empty() }
    } else {
        let before = woken(waiters.drop_last(), key, maximum, groups);
        let w = waiters.last();
        if w.queued && w.key == key && before.count < maximum {
            Waking {
                waiters: before.waiters.push(released(w)),
                count: before.count + 1,
                groups: all_claimed(w.event.waiters, before.groups),
                targets: before.targets + all_targets(w.event.waiters, before.groups),
            }
        } else {
            Waking { waiters: before.waiters.push(w), ..before }
        }
    }
}

proof fn lemma_woken(
    waiters: Seq<WaiterModel>,
    key: FutexKey,
    maximum: int,
    groups: Seq<WaitGroup>,
)
    requires
        forall|i: int|
            0 <= i < waiters.len() ==> waiters_known(
                (#[trigger] waiters[i]).event.waiters,
                groups,
            ),
    ensures
        ({
            let after = woken(waiters, key, maximum, groups);
            &&& after.waiters.len() == waiters.len()
            &&& after.groups.len() == groups.len()
            &&& 0 <= after.count <= waiters.len()
            &&& forall|i: int|
                0 <= i < waiters.len() ==> (#[trigger] after.waiters[i]) == waiters[i]
                    || after.waiters[i] == released(waiters[i])
        }),
    decreases waiters.len(),
{
    if waiters.len() > 0 {
        lemma_woken(waiters.drop_last(), key, maximum, groups);
        let before = woken(waiters.drop_last(), key, maximum, groups);
        assert(waiters.last() == waiters[waiters.len() - 1]);
        lemma_all_claimed(waiters.last().event.waiters, before.groups);
    }
}

impl FutexTable {
    /// The waits are consistent.
    pub closed spec fn wf(self) -> bool {
        &&& self@.ok()
        &&& forall|i: int| 0 <= i < self.waiters@.len() ==> (#[trigger] self.waiters@[i]).event.wf()
    }

    /// A consistent table satisfies its invariant.
    pub proof fn lemma_wf(&self)
        requires
            self.wf(),
        ensures
            self@.ok(),
    {
    }

    /// No waits.
    pub fn new() -> (table: Self)
        ensures
            table.wf(),
            table@ == (FutexModel { next_id: 0, waiters: Seq::empty() }),
    {
        let table = FutexTable { next_id: 0, waiters: Vec::new() };
        assert(table@.waiters =~= Seq::empty());
        table
    }

    /// Starts a wait on `key` that wakers can find; returns its number.
    pub fn futex_enqueue(&mut self, key: FutexKey) -> (id: u64)
        requires
            old(self).wf(),
            old(self)@.next_id < u64::MAX,
        ensures
            final(self).wf(),
            id == old(self)@.next_id,
            final(self)@ == (FutexModel {
                next_id: (id + 1) as u64,
                waiters: old(self)@.waiters.push(
                    WaiterModel {
                        id,
                        key,
                        queued: true,
                        woken: false,
                        event: EventModel { signaled: false, waiters: Seq::empty() },
                    },
                ),
            }),
    {
        let id: u64 = self.next_id;
        self.next_id = id + 1;
        self.waiters.push(
            FutexWaiter { id, key, queued: true, woken: false, event: Event::new() },
        );
        assert(self@.waiters =~= old(self)@.waiters.push(
            WaiterModel {
                id,
                key,
                queued: true,
                woken: false,
                event: EventModel { signaled: false, waiters: Seq::empty() },
            },
        ));
        id
    }

    fn place(&self, id: u64) -> (at: usize)
        ensures
            at == self@.place(id),
            at <= self@.waiters.len(),
            self@.waiters.len() == self.waiters@.len(),
    {
        let ghost views = self@.waiters;
        let mut at: usize = 0;
        while at < self.waiters.len()
            invariant
                views == self@.waiters,
                views.len() == self.waiters@.len(),
                at <= views.len(),
                first_where(views, has_id(id), 0) == first_where(views, has_id(id), at as int),
            decreases views.len() - at,
        {
            if self.waiters[at].id == id {
                return at;
            }
            at = at + 1;
        }
        at
    }

    /// Gives access to the event of a wait.
    pub fn event_mut(&mut self, id: u64) -> (event: Option<&mut Event>)
        requires
            old(self).wf(),
        ensures
            event.is_some() == old(self)@.has(id),
            event matches Some(e) ==> {
                &&& e.wf()
                &&& e@ == old(self)@.waiter(id).event
                &&& final(e).wf() ==> final(self).wf()
                &&& final(self)@ == (FutexModel {
                    waiters: old(self)@.waiters.update(
                        old(self)@.place(id),
                        WaiterModel { event: final(e)@, ..old(self)@.waiter(id) },
                    ),
                    ..old(self)@
                })
            },
            event.is_none() ==> final(self).wf() && final(self)@ == old(self)@,
    {
        let at: usize = self.place(id);
        if at < self.waiters.len() {
            proof {
                lemma_first_where(self@.waiters, has_id(id), 0);
                lemma_event_update(*self, at as int);
            }
            Some(&mut self.waiters[at].event)
        } else {
            None
        }
    }

    /// Ends a wait; tells whether it was still queued and whether a waker
    /// chose it.
    pub fn futex_dequeue(&mut self, id: u64) -> (ended: (bool, bool))
        requires
            old(self).wf(),
            old(self)@.has(id),
        ensures
            final(self).wf(),
            ended == (old(self)@.waiter(id).queued, old(self)@.waiter(id).woken),
            final(self)@ == (FutexModel {
                waiters: old(self)@.waiters.remove(old(self)@.place(id)),
                ..old(self)@
            }),
    {
        let at: usize = self.place(id);
        let ghost m = self@;
        proof {
            lemma_first_where(m.waiters, has_id(id), 0);
        }
        let waiter = self.waiters.remove(at);
        proof {
            assert(self@.waiters =~= m.waiters.remove(at as int));
            let rest = self@.waiters;
            assert forall|i: int, j: int|
                #![trigger rest[i], rest[j]]
                0 <= i < j < rest.len() implies rest[i].id < rest[j].id by {
                let a = if i < at { i } else { i + 1 };
                let b = if j < at { j } else { j + 1 };
                assert(rest[i] == m.waiters[a] && rest[j] == m.waiters[b]);
            }
            assert forall|i: int| 0 <= i < rest.len() implies (#[trigger] rest[i]).id < m.next_id by {
                let a = if i < at { i } else { i + 1 };
                assert(rest[i] == m.waiters[a]);
            }
        }
        (waiter.queued, waiter.woken)
    }

    /// Wakes up to `maximum` of the oldest waits on `key`.
    ///
    /// Returns how many, and which threads to wake.
    pub fn wake(&mut self, key: FutexKey, maximum: u64, groups: &mut WaitGroups) -> (chosen: (
        u64,
        Vec<WakeTarget>,
    ))
        requires
            old(self).wf(),
            old(self)@.known(old(groups)@),
        ensures
            final(self).wf(),
            ({
                let after = woken(old(self)@.waiters, key, maximum as int, old(groups)@);
                &&& final(self)@ == (FutexModel { waiters: after.waiters, ..old(self)@ })
                &&& final(groups)@ == after.groups
                &&& chosen.0 == after.count
                &&& chosen.1@ == after.targets
            }),
    {
        let ghost m = self@;
        let ghost start = groups@;
        let mut count: u64 = 0;
        let mut targets: Vec<WakeTarget> = Vec::new();
        let mut at: usize = 0;
        while at < self.waiters.len()
            invariant
                m == old(self)@,
                start == old(groups)@,
                m.ok(),
                m.known(start),
                self.next_id == m.next_id,
                self.waiters@.len() == m.waiters.len(),
                at <= m.waiters.len(),
                count <= at,
                count == woken(m.waiters.take(at as int), key, maximum as int, start).count,
                groups@.len() == start.len(),
                groups@ == woken(m.waiters.take(at as int), key, maximum as int, start).groups,
                targets@ == woken(m.waiters.take(at as int), key, maximum as int, start).targets,
                woken(m.waiters.take(at as int), key, maximum as int, start).waiters.len() == at,
                forall|i: int|
                    0 <= i < m.waiters.len() ==> (#[trigger] self.waiters@[i]).event.wf(),
                forall|i: int|
                    0 <= i < at ==> (#[trigger] self.waiters@[i])@ == woken(
                        m.waiters.take(at as int),
                        key,
                        maximum as int,
                        start,
                    ).waiters[i],
                forall|i: int|
                    at <= i < m.waiters.len() ==> (#[trigger] self.waiters@[i])@ == m.waiters[i],
            decreases m.waiters.len() - at,
        {
            proof {
                let longer = m.waiters.take(at + 1);
                assert(longer.drop_last() =~= m.waiters.take(at as int));
                assert(longer.last() == m.waiters[at as int]);
                assert(self.waiters@[at as int]@ == m.waiters[at as int]);
                assert(waiters_known(m.waiters[at as int].event.waiters, start));
                lemma_all_claimed(m.waiters[at as int].event.waiters, groups@);
            }
            let hit = self.waiters[at].queued && self.waiters[at].key == key && count < maximum;
            if hit {
                self.waiters[at].queued = false;
                self.waiters[at].woken = true;
                let mut more = self.waiters[at].event.signal(groups);
                targets.append(&mut more);
                count = count + 1;
                assert(self.waiters@[at as int]@ =~= released(m.waiters[at as int]));
            }
            at = at + 1;
        }
        proof {
            assert(m.waiters.take(at as int) =~= m.waiters);
            lemma_woken(m.waiters, key, maximum as int, start);
            let after = woken(m.waiters, key, maximum as int, start);
            assert(self@.waiters =~= after.waiters);
            assert forall|i: int| 0 <= i < m.waiters.len() implies (
            #[trigger] self@.waiters[i]).id == m.waiters[i].id by {
                assert(after.waiters[i] == self@.waiters[i]);
            }
        }
        (count, targets)
    }
}

proof fn lemma_event_update(table: FutexTable, at: int)
    requires
        0 <= at < table.waiters@.len(),
    ensures
        forall|w: FutexWaiter| #[trigger]
            waiter_views(table.waiters@.update(at, w)) == table@.waiters.update(at, w@),
{
    assert forall|w: FutexWaiter| #[trigger]
        waiter_views(table.waiters@.update(at, w)) == table@.waiters.update(at, w@) by {
        assert(waiter_views(table.waiters@.update(at, w)) =~= table@.waiters.update(at, w@));
    }
}

/// The value of the word at `address`.
pub open spec fn word_at(memory: MemoryModel, address: u64) -> Result<i32, Errno> {
    if memory.covers(address as int, 4) {
        Ok(u32_at(memory.at(address as int, 4), 0) as i32)
    } else {
        Err(Errno::Fault)
    }
}

/// Why a wait is refused before it starts, if so.
pub open spec fn wait_error(memory: MemoryModel, address: u64, expected: i32, timeout: u64) -> Option<
    Errno,
> {
    if address % 4 != 0 {
        Some(Errno::Invalid)
    } else {
        match word_at(memory, address) {
            Err(error) => Some(error),
            Ok(value) => if value != expected {
                Some(Errno::TryAgain)
            } else if timeout == 0 {
                None
            } else if !memory.covers(timeout as int, 16) {
                Some(Errno::Fault)
            } else {
                match timespec_of(memory.at(timeout as int, 16)) {
                    Err(error) => Some(error),
                    Ok(_) => None,
                }
            },
        }
    }
}

/// Starts a wait on the word at `address` if it has the expected value.
///
/// Returns the number of the wait and how long it may last.
pub fn futex_wait_begin(
    table: &mut FutexTable,
    memory: &UserMemory,
    address_space: u64,
    address: u64,
    expected: i32,
    timeout: u64,
) -> (begun: Result<(u64, Option<Timespec>), Errno>)
    requires
        old(table).wf(),
        old(table)@.next_id < u64::MAX,
    ensures
        final(table).wf(),
        match wait_error(memory@, address, expected, timeout) {
            Some(error) => {
                &&& begun == Err::<(u64, Option<Timespec>), Errno>(error)
                &&& final(table)@ == old(table)@
            },
            None => {
                &&& begun == Ok::<(u64, Option<Timespec>), Errno>(
                    (
                        old(table)@.next_id,
                        if timeout == 0 {
                            None
                        } else {
                            Some(timespec_of(memory@.at(timeout as int, 16))->Ok_0)
                        },
                    ),
                )
                &&& final(table)@ == (FutexModel {
                    next_id: (old(table)@.next_id + 1) as u64,
                    waiters: old(table)@.waiters.push(
                        WaiterModel {
                            id: old(table)@.next_id,
                            key: FutexKey { address_space, address },
                            queued: true,
                            woken: false,
                            event: EventModel { signaled: false, waiters: Seq::empty() },
                        },
                    ),
                })
            },
        },
{
    if address % 4 != 0 {
        return Err(Errno::Invalid);
    }
    match read_user_i32(memory, address) {
        Err(error) => {
            return Err(error);
        },
        Ok(value) => {
            if value != expected {
                return Err(Errno::TryAgain);
            }
        },
    }
    let duration: Option<Timespec> = if timeout == 0 {
        None
    } else {
        match read_user_timespec(memory, timeout) {
            Ok(span) => Some(span),
            Err(error) => {
                return Err(error);
            },
        }
    };
    let id: u64 = table.futex_enqueue(FutexKey { address_space, address });
    Ok((id, duration))
}

/// Whether a wait blocks once wakers can find it: only if the word still has
/// the expected value.
pub fn futex_may_block(recheck: &Result<i32, Errno>, expected: i32) -> (block: bool)
    ensures
        block == (*recheck == Ok::<i32, Errno>(expected)),
{
    match recheck {
        Ok(value) => *value == expected,
        Err(_) => false,
    }
}

/// Place of the signal event among those that a wait blocks on, behind the
/// event of the wait itself.
pub const INTERRUPT_EVENT: usize = 1;

/// Why a wait that was to block stopped: a signal was pending before it began,
/// or one of its two events fired, or, without any, its time was up.
pub fn futex_outcome(interrupted: bool, won: Option<usize>) -> (outcome: FutexOutcome)
    ensures
        outcome == if interrupted {
            FutexOutcome::Interrupted
        } else {
            match won {
                None => FutexOutcome::TimedOut,
                Some(index) => if index == INTERRUPT_EVENT {
                    FutexOutcome::Interrupted
                } else {
                    FutexOutcome::Woken
                },
            }
        },
{
    if interrupted {
        return FutexOutcome::Interrupted;
    }
    match won {
        None => FutexOutcome::TimedOut,
        Some(index) => {
            if index == INTERRUPT_EVENT {
                FutexOutcome::Interrupted
            } else {
                FutexOutcome::Woken
            }
        },
    }
}

/// The result of a wait that ended.
pub open spec fn wait_result(
    woken: bool,
    outcome: FutexOutcome,
    recheck: Result<i32, Errno>,
    expected: i32,
) -> Result<u64, Errno> {
    if woken {
        Ok(0)
    } else {
        match outcome {
            FutexOutcome::Woken => Ok(0),
            FutexOutcome::Interrupted => Err(Errno::Interrupted),
            FutexOutcome::TimedOut => Err(Errno::TimedOut),
            FutexOutcome::Skipped => match recheck {
                Err(error) => Err(error),
                Ok(value) => if value != expected {
                    Err(Errno::TryAgain)
                } else {
                    Ok(0)
                },
            },
        }
    }
}

/// Ends a wait.
///
/// A wake that came together with a signal, a timeout or a change of the word
/// counts as a wake: it would be lost otherwise.
pub fn futex_wait_end(
    table: &mut FutexTable,
    id: u64,
    outcome: FutexOutcome,
    recheck: &Result<i32, Errno>,
    expected: i32,
) -> (result: Result<u64, Errno>)
    requires
        old(table).wf(),
        old(table)@.has(id),
    ensures
        final(table).wf(),
        result == wait_result(old(table)@.waiter(id).woken, outcome, *recheck, expected),
        final(table)@ == (FutexModel {
            waiters: old(table)@.waiters.remove(old(table)@.place(id)),
            ..old(table)@
        }),
{
    let (_, woken) = table.futex_dequeue(id);
    if woken {
        return Ok(0);
    }
    match outcome {
        FutexOutcome::Woken => Ok(0),
        FutexOutcome::Interrupted => Err(Errno::Interrupted),
        FutexOutcome::TimedOut => Err(Errno::TimedOut),
        FutexOutcome::Skipped => match recheck {
            Err(error) => Err(*error),
            Ok(value) => {
                if *value != expected {
                    Err(Errno::TryAgain)
                } else {
                    Ok(0)
                }
            },
        },
    }
}

/// Wakes up to `maximum` of the oldest waits on the word at `address`.
pub fn syscall_futex_wake(
    table: &mut FutexTable,
    address_space: u64,
    address: u64,
    maximum: u64,
    groups: &mut WaitGroups,
) -> (result: Result<(u64, Vec<WakeTarget>), Errno>)
    requires
        old(table).wf(),
        old(table)@.known(old(groups)@),
    ensures
        final(table).wf(),
        ({
            let key = FutexKey { address_space, address };
            let after = woken(old(table)@.waiters, key, maximum as int, old(groups)@);
            if maximum == 0 {
                &&& result matches Ok((n, targets)) && n == 0 && targets@.len() == 0
                &&& final(table)@ == old(table)@
                &&& final(groups)@ == old(groups)@
            } else if address % 4 != 0 {
                &&& result == Err::<(u64, Vec<WakeTarget>), Errno>(Errno::Invalid)
                &&& final(table)@ == old(table)@
                &&& final(groups)@ == old(groups)@
            } else {
                &&& result matches Ok((n, targets)) && n == after.count && targets@ == after.targets
                &&& final(table)@ == (FutexModel { waiters: after.waiters, ..old(table)@ })
                &&& final(groups)@ == after.groups
            }
        }),
{
    if maximum == 0 {
        return Ok((0, Vec::new()));
    }
    if address % 4 != 0 {
        return Err(Errno::Invalid);
    }
    Ok(table.wake(FutexKey { address_space, address }, maximum, groups))
}

/// A wake is never lost: a wait that a waker chose ends with success, whatever
/// else happened to it.
pub proof fn law_futex_wake_is_never_lost(
    outcome: FutexOutcome,
    recheck: Result<i32, Errno>,
    expected: i32,
)
    ensures
        wait_result(true, outcome, recheck, expected) == Ok::<u64, Errno>(0),
{
}

/// Waking chooses at most `maximum` waits, all of them on the word, and leaves
/// the others alone.
pub proof fn law_futex_wake_is_exact(
    waiters: Seq<WaiterModel>,
    key: FutexKey,
    maximum: int,
    groups: Seq<WaitGroup>,
    i: int,
)
    requires
        0 <= maximum,
        0 <= i < waiters.len(),
        forall|k: int|
            0 <= k < waiters.len() ==> waiters_known(
                (#[trigger] waiters[k]).event.waiters,
                groups,
            ),
    ensures
        woken(waiters, key, maximum, groups).count <= maximum,
        woken(waiters, key, maximum, groups).waiters[i] != waiters[i] ==> waiters[i].queued
            && waiters[i].key == key,
    decreases waiters.len(),
{
    lemma_woken(waiters, key, maximum, groups);
    lemma_woken(waiters.drop_last(), key, maximum, groups);
    if i < waiters.len() - 1 {
        assert(waiters.drop_last()[i] == waiters[i]);
        law_futex_wake_is_exact(waiters.drop_last(), key, maximum, groups, i);
    } else if waiters.len() > 1 {
        law_futex_wake_is_exact(waiters.drop_last(), key, maximum, groups, 0);
    }
}

/// How many of the waiters are queued for a word.
pub open spec fn queued_for(waiters: Seq<WaiterModel>, key: FutexKey) -> int
    decreases waiters.len(),
{
    if waiters.len() == 0 {
        0
    } else {
        queued_for(waiters.drop_last(), key) + if waiters.last().queued && waiters.last().key
            == key {
            1int
        } else {
            0
        }
    }
}

proof fn lemma_woken_count(
    waiters: Seq<WaiterModel>,
    key: FutexKey,
    maximum: int,
    groups: Seq<WaitGroup>,
)
    requires
        maximum >= 0,
    ensures
        woken(waiters, key, maximum, groups).waiters.len() == waiters.len(),
        woken(waiters, key, maximum, groups).count == if queued_for(waiters, key) < maximum {
            queued_for(waiters, key)
        } else {
            maximum
        },
        queued_for(waiters, key) >= 0,
    decreases waiters.len(),
{
    if waiters.len() > 0 {
        lemma_woken_count(waiters.drop_last(), key, maximum, groups);
    }
}

/// A wake-up releases the longest waiting of those that wait for the word, as
/// many as asked for or all there are, and no others; it says how many.
pub proof fn law_wake_releases_oldest(
    waiters: Seq<WaiterModel>,
    key: FutexKey,
    maximum: int,
    groups: Seq<WaitGroup>,
    i: int,
)
    requires
        maximum >= 0,
        0 <= i < waiters.len(),
    ensures
        ({
            let after = woken(waiters, key, maximum, groups);
            let waits = waiters[i].queued && waiters[i].key == key;
            let released_now = waits && queued_for(waiters.take(i), key) < maximum;
            &&& queued_for(waiters, key) <= maximum ==> after.count == queued_for(waiters, key)
            &&& queued_for(waiters, key) >= maximum ==> after.count == maximum
            &&& after.waiters.len() == waiters.len()
            &&& released_now ==> after.waiters[i].woken && !after.waiters[i].queued
                && after.waiters[i].event.signaled && after.waiters[i].id == waiters[i].id
            &&& !released_now ==> after.waiters[i] == waiters[i]
        }),
    decreases waiters.len(),
{
    lemma_woken_count(waiters, key, maximum, groups);
    let rest = waiters.drop_last();
    lemma_woken_count(rest, key, maximum, groups);
    if i < rest.len() {
        law_wake_releases_oldest(rest, key, maximum, groups, i);
        assert(rest.take(i) =~= waiters.take(i));
    } else {
        assert(waiters.take(i) =~= rest);
    }
}

/// A thread sleeps on a word only if the word is aligned, can be read and still
/// has the expected value, and the time limit, if there is one, can be read and
/// is a time.
pub proof fn law_wait_needs_expected_value(
    memory: MemoryModel,
    address: u64,
    expected: i32,
    timeout: u64,
)
    ensures
        ({
            let error = wait_error(memory, address, expected, timeout);
            &&& address % 4 != 0 ==> error == Some(Errno::Invalid)
            &&& address % 4 == 0 && !memory.covers(address as int, 4) ==> error == Some(
                Errno::Fault,
            )
            &&& address % 4 == 0 && memory.covers(address as int, 4) && u32_at(
                memory.at(address as int, 4),
                0,
            ) as i32 != expected ==> error == Some(Errno::TryAgain)
            &&& error.is_none() ==> address % 4 == 0 && memory.covers(address as int, 4) && u32_at(
                memory.at(address as int, 4),
                0,
            ) as i32 == expected && (timeout == 0 || memory.covers(timeout as int, 16))
            &&& address % 4 == 0 && memory.covers(address as int, 4) && u32_at(
                memory.at(address as int, 4),
                0,
            ) as i32 == expected && timeout == 0 ==> error.is_none()
        }),
{
}

/// A wait that nothing ended by a wake-up says why it ended: by a signal, by
/// the time limit, or because the word had changed already.
pub proof fn law_wait_says_why_it_ended(recheck: Result<i32, Errno>, expected: i32, value: i32)
    ensures
        wait_result(false, FutexOutcome::Interrupted, recheck, expected) == Err::<u64, Errno>(
            Errno::Interrupted,
        ),
        wait_result(false, FutexOutcome::TimedOut, recheck, expected) == Err::<u64, Errno>(
            Errno::TimedOut,
        ),
        wait_result(false, FutexOutcome::Woken, recheck, expected) == Ok::<u64, Errno>(0),
        value != expected ==> wait_result(
            false,
            FutexOutcome::Skipped,
            Ok::<i32, Errno>(value),
            expected,
        ) == Err::<u64, Errno>(Errno::TryAgain),
{
}

} // verus!
