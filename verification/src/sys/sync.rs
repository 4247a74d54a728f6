//! One-time initialization and sleeping mutexes.

use vstd::prelude::*;
use crate::sys::sched::model::SchedModel;
use crate::sys::sched::scheduler::{online_of, KickAction, Scheduler};
use crate::sys::sched::{boost_priority, kick_action, unboost_priority, wake, Site};
use crate::sys::smp::{count_turn, next_turn, Masking, SmpState};

verus! {

/// First busy-wait length under contention.
pub const SPIN_BACKOFF_MIN: u32 = 1;

/// Longest busy-wait under contention.
pub const SPIN_BACKOFF_MAX: u32 = 64;

/// Busy-waits before a contender queues up.
pub const ACTIVE_SPIN_ITERS: usize = 8;

/// How far a one-time initialization has come.
#[derive(Copy, Clone, Debug, PartialEq, Eq, Structural)]
pub enum OnceState {
    /// Nobody started it.
    Incomplete,
    /// Some CPU runs the initializer.
    Running,
    /// The value is there.
    Complete,
    /// The initializer failed.
    Poisoned,
}

/// What a caller of an initialization has to do.
#[derive(Copy, Clone, Debug, PartialEq, Eq, Structural)]
pub enum OnceStep {
    /// Run the initializer.
    Initialize,
    /// Use the value that is there.
    Ready,
    /// Wait for the CPU that runs the initializer.
    Wait,
    /// Give up: the initializer failed.
    Failed,
}

/// A value that is initialized at most once.
pub struct Once<T> {
    state: OnceState,
    value: Option<T>,
}

impl<T> Once<T> {
    /// How far the initialization has come.
    pub closed spec fn progress(self) -> OnceState {
        self.state
    }

    /// The value, once it is there.
    pub closed spec fn contents(self) -> Option<T> {
        self.value
    }

    /// The value is there exactly when the initialization is complete.
    pub closed spec fn wf(self) -> bool {
        self.value.is_some() == (self.state == OnceState::Complete)
    }

    /// A complete initialization has a value.
    pub proof fn lemma_wf(&self)
        requires
            self.wf(),
        ensures
            self.contents().is_some() == (self.progress() == OnceState::Complete),
    {
    }

    /// Creates empty one-time storage.
    pub fn new() -> (once: Self)
        ensures
            once.wf(),
            once.progress() == OnceState::Incomplete,
            once.contents().is_none(),
    {
        Once { state: OnceState::Incomplete, value: None }
    }

    /// Returns the value, if it is there.
    pub fn get(&self) -> (value: Option<&T>)
        requires
            self.wf(),
        ensures
            match value {
                Some(v) => self.contents() == Some(*v),
                None => self.contents().is_none(),
            },
    {
        self.value.as_ref()
    }

    /// Claims the initialization or tells why it cannot be claimed.
    pub fn begin(&mut self) -> (step: OnceStep)
        requires
            old(self).wf(),
        ensures
            final(self).wf(),
            final(self).contents() == old(self).contents(),
            step == match old(self).progress() {
                OnceState::Incomplete => OnceStep::Initialize,
                OnceState::Running => OnceStep::Wait,
                OnceState::Complete => OnceStep::Ready,
                OnceState::Poisoned => OnceStep::Failed,
            },
            final(self).progress() == if step == OnceStep::Initialize {
                OnceState::Running
            } else {
                old(self).progress()
            },
    {
        match self.state {
            OnceState::Incomplete => {
                self.state = OnceState::Running;
                OnceStep::Initialize
            },
            OnceState::Running => OnceStep::Wait,
            OnceState::Complete => OnceStep::Ready,
            OnceState::Poisoned => OnceStep::Failed,
        }
    }

    /// Publishes the value of a claimed initialization.
    pub fn finish(&mut self, value: T)
        requires
            old(self).wf(),
            old(self).progress() == OnceState::Running,
        ensures
            final(self).wf(),
            final(self).progress() == OnceState::Complete,
            final(self).contents() == Some(value),
    {
        self.value = Some(value);
        self.state = OnceState::Complete;
    }

    /// Gives up a claimed initialization for good.
    pub fn abandon(&mut self)
        requires
            old(self).wf(),
            old(self).progress() == OnceState::Running,
        ensures
            final(self).wf(),
            final(self).progress() == OnceState::Poisoned,
            final(self).contents().is_none(),
    {
        self.state = OnceState::Poisoned;
    }

    /// Initializes the value if needed and returns it.
    ///
    /// An initialization that another CPU runs is waited for by the caller,
    /// see [`Once::begin`]; a failed one cannot be repeated.
    pub fn call_once<F: FnOnce() -> T>(&mut self, initializer: F) -> (value: &T)
        requires
            old(self).wf(),
            old(self).progress() == OnceState::Incomplete || old(self).progress()
                == OnceState::Complete,
            old(self).progress() == OnceState::Incomplete ==> initializer.requires(()),
        ensures
            final(self).wf(),
            final(self).progress() == OnceState::Complete,
            final(self).contents() == Some(*value),
            old(self).progress() == OnceState::Complete ==> final(self).contents() == old(
                self,
            ).contents(),
            old(self).progress() == OnceState::Incomplete ==> initializer.ensures((), *value),
    {
        match self.begin() {
            OnceStep::Initialize => {
                let made = initializer();
                self.finish(made);
            },
            _ => {},
        }
        self.value.as_ref().unwrap()
    }
}

impl<T> Default for Once<T> {
    fn default() -> (once: Self)
        ensures
            once.wf(),
            once.progress() == OnceState::Incomplete,
    {
        Once::new()
    }
}

/// Bounded exponential busy-wait.
#[derive(Copy, Clone, Debug, PartialEq, Eq, Structural)]
pub struct SpinWait {
    /// Length of the next wait.
    pub step: u32,
}

impl SpinWait {
    /// The wait after this one.
    pub open spec fn longer(self) -> SpinWait {
        SpinWait {
            step: if 2 * self.step <= SPIN_BACKOFF_MAX {
                (2 * self.step) as u32
            } else {
                SPIN_BACKOFF_MAX
            },
        }
    }

    /// Starts with the shortest wait.
    pub fn new() -> (wait: Self)
        ensures
            wait.step == SPIN_BACKOFF_MIN,
    {
        SpinWait { step: SPIN_BACKOFF_MIN }
    }

    /// Returns how long to spin now and doubles the next wait up to a bound.
    pub fn spin(&mut self) -> (spins: u32)
        requires
            old(self).step <= SPIN_BACKOFF_MAX,
        ensures
            spins == old(self).step,
            *final(self) == old(self).longer(),
            final(self).step <= SPIN_BACKOFF_MAX,
    {
        let spins: u32 = self.step;
        let doubled: u32 = spins * 2;
        self.step =
        if doubled < SPIN_BACKOFF_MAX {
            doubled
        } else {
            SPIN_BACKOFF_MAX
        };
        spins
    }
}

/// One thread that sleeps until it gets the mutex.
#[derive(Copy, Clone, Debug, PartialEq, Eq, Structural)]
pub struct MutexWaiter {
    /// Sleeping thread.
    pub thread: usize,
    /// Number of its sleep.
    pub park_seq: u64,
    /// Priority it lends to the holder.
    pub priority: u8,
    /// Thread that it lends to.
    pub boosted: Option<usize>,
}

/// A thread to wake and the number of its sleep.
#[derive(Copy, Clone, Debug, PartialEq, Eq, Structural)]
pub struct WakeTarget {
    /// Sleeping thread.
    pub thread: usize,
    /// Number of its sleep.
    pub park_seq: u64,
}

/// Mutex without its value: who holds it and who waits.
#[verifier::ext_equal]
pub struct MutexModel {
    /// Whether the mutex is held.
    pub locked: bool,
    /// Thread that holds it, where known.
    pub owner: Option<usize>,
    /// Sleeping contenders, oldest first.
    pub waiters: Seq<MutexWaiter>,
    /// Contender that was handed the mutex and has not noticed yet.
    pub granted: Option<WakeTarget>,
    /// Number of the last acquisition.
    pub turn: u64,
}

/// Adaptive mutex with first-in first-out sleeping waiters.
///
/// Not for trap handlers.
pub struct Mutex<T> {
    locked: bool,
    queued: bool,
    owner: Option<usize>,
    waiters: Vec<MutexWaiter>,
    granted: Option<WakeTarget>,
    turn: u64,
    value: T,
}

/// Right to use the value of a locked [`Mutex`].
#[must_use]
pub struct MutexGuard {
    turn: u64,
}

impl MutexGuard {
    /// Number of the acquisition that made this guard.
    pub closed spec fn turn(self) -> u64 {
        self.turn
    }

    /// Whether a mutex is held by the acquisition that made this guard.
    pub open spec fn opens(self, mutex: MutexModel) -> bool {
        mutex.locked && mutex.granted.is_none() && mutex.turn == self.turn()
    }
}

/// What a contender has to do.
pub enum Contention {
    /// Go on: the mutex is free and now held.
    Acquired(MutexGuard),
    /// Busy-wait and try again.
    Spin,
    /// Queue up and sleep.
    Queue,
}

/// How far a thread has come in taking a contended mutex.
#[derive(Copy, Clone, Debug, PartialEq, Eq, Structural)]
pub struct LockAttempt {
    /// Looks at the mutex that are left before it queues up.
    pub looks: usize,
    /// Its busy-waits.
    pub wait: SpinWait,
}

impl LockAttempt {
    /// Starts an attempt.
    ///
    /// Looking again can only help where another CPU runs the holder.
    pub fn new(online_cpus: usize) -> (attempt: Self)
        ensures
            attempt.looks == if online_cpus > 1 {
                ACTIVE_SPIN_ITERS as int
            } else {
                0
            },
            attempt.wait.step == SPIN_BACKOFF_MIN,
    {
        LockAttempt {
            looks: if online_cpus > 1 {
                ACTIVE_SPIN_ITERS
            } else {
                0
            },
            wait: SpinWait::new(),
        }
    }

    /// The attempt after one more busy-wait.
    pub open spec fn waited(self) -> LockAttempt {
        LockAttempt { wait: self.wait.longer(), ..self }
    }
}

/// What a thread that takes a mutex does next.
pub enum LockStep {
    /// Go on: it holds the mutex.
    Acquired(MutexGuard),
    /// Spin for this long and step again.
    Spin(u32),
    /// Announce a sleep, queue up, and step again if it wakes without the mutex.
    Queue,
}

/// What queueing up ended in.
pub enum QueueStep {
    /// The holder left in the meantime and the mutex is now held.
    Acquired(MutexGuard),
    /// The thread has to sleep; its priority is lent to the holder.
    Sleep,
}

/// Waiters that all lend to `owner`.
pub open spec fn relent(waiters: Seq<MutexWaiter>, owner: Option<usize>) -> Seq<MutexWaiter> {
    waiters.map_values(|w: MutexWaiter| MutexWaiter { boosted: owner, ..w })
}

impl MutexModel {
    /// Waiters only queue up behind a holder, and each lends to that holder.
    pub open spec fn ok(self) -> bool {
        &&& self.waiters.len() > 0 ==> self.locked
        &&& !self.locked ==> self.owner.is_none() && self.granted.is_none()
        &&& forall|i: int|
            0 <= i < self.waiters.len() ==> (#[trigger] self.waiters[i]).boosted == self.owner
    }

    /// The mutex freshly taken by `owner`.
    pub open spec fn taken(self, owner: Option<usize>) -> MutexModel {
        MutexModel { locked: true, owner, turn: next_turn(self.turn), ..self }
    }

    /// The mutex handed to its oldest waiter.
    pub open spec fn handed_over(self) -> MutexModel {
        let first = self.waiters[0];
        MutexModel {
            owner: Some(first.thread),
            waiters: relent(self.waiters.remove(0), Some(first.thread)),
            granted: Some(WakeTarget { thread: first.thread, park_seq: first.park_seq }),
            turn: next_turn(self.turn),
            ..self
        }
    }

    /// The mutex after its holder released it.
    pub open spec fn unlocked(self) -> MutexModel {
        if self.waiters.len() == 0 {
            MutexModel { locked: false, owner: None, granted: None, ..self }
        } else {
            self.handed_over()
        }
    }

    /// Position of the waiter with the given thread and sleep.
    pub open spec fn position(self, thread: usize, seq: u64, at: int) -> Option<int>
        decreases self.waiters.len() - at,
    {
        if at >= self.waiters.len() {
            None
        } else if self.waiters[at].thread == thread && self.waiters[at].park_seq == seq {
            Some(at)
        } else {
            self.position(thread, seq, at + 1)
        }
    }
}

/// One priority lent to a thread, or taken back from it.
pub struct BoostOp {
    /// Thread concerned.
    pub thread: usize,
    /// Priority lent, or `None` to take one back.
    pub boost: Option<u8>,
}

/// The scheduler after a sequence of loans.
pub open spec fn boosts_applied(m: SchedModel, ops: Seq<BoostOp>) -> SchedModel
    decreases ops.len(),
{
    if ops.len() == 0 {
        m
    } else {
        boosts_applied(m, ops.drop_last()).boosted(ops.last().thread as int, ops.last().boost)
    }
}

/// Loans that move from the old holder to `owner` when the mutex is handed
/// over: each remaining waiter lends to the new holder before it takes its
/// old loan back.
pub open spec fn transfer_ops(waiters: Seq<MutexWaiter>, owner: usize) -> Seq<BoostOp>
    decreases waiters.len(),
{
    if waiters.len() == 0 {
        Seq::empty()
    } else {
        let w = waiters.last();
        let lent = transfer_ops(waiters.drop_last(), owner).push(
            BoostOp { thread: owner, boost: Some(w.priority) },
        );
        match w.boosted {
            Some(previous) => lent.push(BoostOp { thread: previous, boost: None }),
            None => lent,
        }
    }
}

/// Loans that change when the oldest waiter is handed the mutex.
pub open spec fn handover_ops(waiters: Seq<MutexWaiter>) -> Seq<BoostOp> {
    let first = waiters[0];
    let own = match first.boosted {
        Some(previous) => seq![BoostOp { thread: previous, boost: None }],
        None => Seq::empty(),
    };
    own + transfer_ops(waiters.remove(0), first.thread)
}

fn apply_boost(scheduler: &mut Scheduler, thread: usize, boost: Option<u8>)
    requires
        old(scheduler).wf(),
        old(scheduler)@.settled(),
        thread < old(scheduler)@.threads.len(),
    ensures
        final(scheduler).wf(),
        final(scheduler)@.settled(),
        final(scheduler)@ == old(scheduler)@.boosted(thread as int, boost),
        final(scheduler)@.threads.len() == old(scheduler)@.threads.len(),
        final(scheduler)@.cpus.len() == old(scheduler)@.cpus.len(),
{
    let ghost m = scheduler@;
    proof {
        scheduler.lemma_wf();
        assert(m.thread_ok(thread as int));
        assert(m.unplaced(thread as int).cpus.len() == m.cpus.len());
    }
    match boost {
        Some(priority) => boost_priority(scheduler, thread, priority),
        None => unboost_priority(scheduler, thread),
    }
}

impl<T> Mutex<T> {
    /// Who holds the mutex and who waits.
    pub closed spec fn model(self) -> MutexModel {
        MutexModel {
            locked: self.locked,
            owner: self.owner,
            waiters: self.waiters@,
            granted: self.granted,
            turn: self.turn,
        }
    }

    /// The protected value.
    pub closed spec fn contents(self) -> T {
        self.value
    }

    /// The queue flag is right and every waiter lends to the holder.
    pub closed spec fn wf(self) -> bool {
        &&& self.queued == (self.waiters@.len() > 0)
        &&& self.model().ok()
    }

    /// A consistent mutex has a consistent model.
    pub proof fn lemma_wf(&self)
        requires
            self.wf(),
        ensures
            self.model().ok(),
    {
    }

    /// Creates a mutex around `value`.
    pub fn new(value: T) -> (mutex: Self)
        ensures
            mutex.wf(),
            mutex.contents() == value,
            mutex.model() == (MutexModel {
                locked: false,
                owner: None,
                waiters: Seq::empty(),
                granted: None,
                turn: 0,
            }),
    {
        Mutex {
            locked: false,
            queued: false,
            owner: None,
            waiters: Vec::new(),
            granted: None,
            turn: 0,
            value,
        }
    }

    /// Returns the protected value and gives up the mutex.
    pub fn into_inner(self) -> (value: T)
        ensures
            value == self.contents(),
    {
        self.value
    }

    /// Gives access to the value of a mutex that nobody else can reach.
    pub fn get_mut(&mut self) -> (value: &mut T)
        ensures
            *value == old(self).contents(),
            final(self).contents() == *final(value),
            final(self).model() == old(self).model(),
            old(self).wf() ==> final(self).wf(),
    {
        &mut self.value
    }

    /// Gives access to the value to the holder of the mutex.
    pub fn value_mut(&mut self, guard: &MutexGuard) -> (value: &mut T)
        requires
            guard.opens(old(self).model()),
        ensures
            *value == old(self).contents(),
            final(self).contents() == *final(value),
            final(self).model() == old(self).model(),
            old(self).wf() ==> final(self).wf(),
    {
        let _ = guard;
        &mut self.value
    }

    /// Returns whether the mutex is held.
    pub fn is_locked(&self) -> (locked: bool)
        ensures
            locked == self.model().locked,
    {
        self.locked
    }

    fn take(&mut self, current: Option<usize>) -> (guard: Option<MutexGuard>)
        requires
            old(self).wf(),
        ensures
            final(self).wf(),
            final(self).contents() == old(self).contents(),
            guard.is_some() == !old(self).model().locked,
            guard matches Some(g) ==> g.opens(final(self).model()),
            final(self).model() == if old(self).model().locked {
                old(self).model()
            } else {
                old(self).model().taken(current)
            },
    {
        if self.locked {
            return None;
        }
        self.locked = true;
        self.owner = current;
        self.turn = count_turn(self.turn);
        Some(MutexGuard { turn: self.turn })
    }

    /// Takes the mutex if it is free.
    pub fn try_lock(&mut self, current: Option<usize>, cpu: &Masking) -> (guard: Option<MutexGuard>)
        requires
            old(self).wf(),
            !cpu.in_trap(),
        ensures
            final(self).wf(),
            final(self).contents() == old(self).contents(),
            guard.is_some() == !old(self).model().locked,
            guard matches Some(g) ==> g.opens(final(self).model()),
            final(self).model() == if old(self).model().locked {
                old(self).model()
            } else {
                old(self).model().taken(current)
            },
    {
        let _ = cpu;
        self.take(current)
    }

    /// Takes the mutex if it is free; a contender goes on with
    /// [`Mutex::lock_step`].
    pub fn lock(&mut self, current: Option<usize>, cpu: &Masking) -> (guard: Option<MutexGuard>)
        requires
            old(self).wf(),
            !cpu.in_trap(),
        ensures
            final(self).wf(),
            final(self).contents() == old(self).contents(),
            guard.is_some() == !old(self).model().locked,
            guard matches Some(g) ==> g.opens(final(self).model()),
            final(self).model() == if old(self).model().locked {
                old(self).model()
            } else {
                old(self).model().taken(current)
            },
    {
        self.try_lock(current, cpu)
    }

    /// One look at the mutex before queueing up.
    ///
    /// Looking again makes no sense once others are queued.
    pub fn lock_spin(&mut self, current: Option<usize>) -> (step: Contention)
        requires
            old(self).wf(),
        ensures
            final(self).wf(),
            final(self).contents() == old(self).contents(),
            final(self).model() == if old(self).model().locked {
                old(self).model()
            } else {
                old(self).model().taken(current)
            },
            (step is Acquired) == !old(self).model().locked,
            step matches Contention::Acquired(g) ==> g.opens(final(self).model()),
            (step is Queue) == (old(self).model().waiters.len() > 0),
    {
        match self.take(current) {
            Some(guard) => Contention::Acquired(guard),
            None => {
                if self.queued {
                    Contention::Queue
                } else {
                    Contention::Spin
                }
            },
        }
    }

    /// Decides what a contender does next.
    ///
    /// Sleeping needs a trap return to complete the switch, so a contender
    /// with masked interrupts, or one that is no thread yet, spins instead.
    pub fn lock_slow(&mut self, current: Option<usize>, irqs_enabled: bool) -> (step: Contention)
        requires
            old(self).wf(),
        ensures
            final(self).wf(),
            final(self).contents() == old(self).contents(),
            final(self).model() == if old(self).model().locked {
                old(self).model()
            } else {
                old(self).model().taken(current)
            },
            (step is Acquired) == !old(self).model().locked,
            step matches Contention::Acquired(g) ==> g.opens(final(self).model()),
            (step is Queue) == (old(self).model().locked && irqs_enabled && current.is_some()),
    {
        match self.take(current) {
            Some(guard) => Contention::Acquired(guard),
            None => {
                if !irqs_enabled || current.is_none() {
                    Contention::Spin
                } else {
                    Contention::Queue
                }
            },
        }
    }

    /// Takes the mutex or tells a contender what to do before it steps again.
    ///
    /// While looks are left it busy-waits between them, unless others are queued
    /// already. Then it sleeps in the queue, where sleeping is possible, and
    /// busy-waits where it is not.
    pub fn lock_step(
        &mut self,
        attempt: &mut LockAttempt,
        current: Option<usize>,
        cpu: &Masking,
    ) -> (step: LockStep)
        requires
            old(self).wf(),
            old(attempt).wait.step <= SPIN_BACKOFF_MAX,
            cpu.blockable(),
        ensures
            final(self).wf(),
            final(self).contents() == old(self).contents(),
            final(attempt).wait.step <= SPIN_BACKOFF_MAX,
            !old(self).model().locked ==> {
                &&& step matches LockStep::Acquired(g) && g.opens(final(self).model())
                &&& final(self).model() == old(self).model().taken(current)
                &&& *final(attempt) == *old(attempt)
            },
            old(self).model().locked ==> {
                let looking = old(attempt).looks > 0 && old(self).model().waiters.len() == 0;
                let before = LockAttempt {
                    looks: if looking {
                        (old(attempt).looks - 1) as usize
                    } else {
                        0
                    },
                    ..*old(attempt)
                };
                &&& final(self).model() == old(self).model()
                &&& if !looking && cpu.irqs && current.is_some() {
                    step is Queue && *final(attempt) == before
                } else {
                    step == LockStep::Spin(before.wait.step) && *final(attempt) == before.waited()
                }
            },
    {
        if attempt.looks > 0 {
            match self.lock_spin(current) {
                Contention::Acquired(guard) => {
                    return LockStep::Acquired(guard);
                },
                Contention::Spin => {
                    attempt.looks = attempt.looks - 1;
                    return LockStep::Spin(attempt.wait.spin());
                },
                Contention::Queue => {
                    attempt.looks = 0;
                },
            }
        }
        match self.lock_slow(current, cpu.irqs) {
            Contention::Acquired(guard) => LockStep::Acquired(guard),
            Contention::Spin => LockStep::Spin(attempt.wait.spin()),
            Contention::Queue => LockStep::Queue,
        }
    }

    /// Queues a thread that announced sleep `seq`, unless the holder left in
    /// the meantime, and lends its priority to the holder.
    ///
    /// A thread that gets the mutex instead withdraws its announcement by
    /// waking itself.
    pub fn queue_waiter(
        &mut self,
        thread: usize,
        seq: u64,
        priority: u8,
        scheduler: &mut Scheduler,
        site: &Site,
        smp: &SmpState,
    ) -> (step: QueueStep)
        requires
            old(self).wf(),
            old(scheduler).wf(),
            old(scheduler)@.settled(),
            thread < old(scheduler)@.threads.len(),
            site.on(old(scheduler)@),
            old(self).model().owner matches Some(t) ==> t < old(scheduler)@.threads.len(),
        ensures
            final(self).wf(),
            final(scheduler).wf(),
            final(scheduler)@.settled(),
            final(self).contents() == old(self).contents(),
            (step is Acquired) == !old(self).model().locked,
            step matches QueueStep::Acquired(g) ==> g.opens(final(self).model()),
            !old(self).model().locked ==> {
                &&& final(self).model() == old(self).model().taken(Some(thread))
                &&& final(scheduler)@ == old(scheduler)@.woken(
                    thread,
                    seq,
                    site.now_ns,
                    site.cpu,
                    online_of(*smp),
                ).0
            },
            old(self).model().locked ==> {
                &&& final(self).model() == (MutexModel {
                    waiters: old(self).model().waiters.push(
                        MutexWaiter {
                            thread,
                            park_seq: seq,
                            priority,
                            boosted: old(self).model().owner,
                        },
                    ),
                    ..old(self).model()
                })
                &&& final(scheduler)@ == match old(self).model().owner {
                    Some(owner) => old(scheduler)@.boosted(owner as int, Some(priority)),
                    None => old(scheduler)@,
                }
            },
    {
        if !self.locked {
            self.locked = true;
            self.owner = Some(thread);
            self.turn = count_turn(self.turn);
            let _ = wake(scheduler, thread, seq, site, smp);
            return QueueStep::Acquired(MutexGuard { turn: self.turn });
        }
        if let Some(owner) = self.owner {
            boost_priority(scheduler, owner, priority);
        }
        self.waiters.push(MutexWaiter { thread, park_seq: seq, priority, boosted: self.owner });
        self.queued = true;
        QueueStep::Sleep
    }

    /// Tells a thread that slept for the mutex whether it got it.
    ///
    /// A thread that woke up for another reason leaves the queue and takes its
    /// loan back.
    pub fn lock_resumed(&mut self, thread: usize, seq: u64, scheduler: &mut Scheduler) -> (guard:
        Option<MutexGuard>)
        requires
            old(self).wf(),
            old(scheduler).wf(),
            old(scheduler)@.settled(),
            old(self).model().owner matches Some(t) ==> t < old(scheduler)@.threads.len(),
        ensures
            final(self).wf(),
            final(scheduler).wf(),
            final(scheduler)@.settled(),
            final(self).contents() == old(self).contents(),
            guard.is_some() == (old(self).model().granted == Some(
                WakeTarget { thread, park_seq: seq },
            )),
            guard.is_some() ==> final(scheduler)@ == old(scheduler)@ && final(self).model() == (
            MutexModel { granted: None, ..old(self).model() }),
            guard matches Some(g) ==> g.opens(final(self).model()),
            guard.is_none() ==> match old(self).model().position(thread, seq, 0) {
                Some(at) => {
                    &&& final(self).model() == (MutexModel {
                        waiters: old(self).model().waiters.remove(at),
                        ..old(self).model()
                    })
                    &&& final(scheduler)@ == match old(self).model().owner {
                        Some(owner) => old(scheduler)@.boosted(owner as int, None),
                        None => old(scheduler)@,
                    }
                },
                None => final(self).model() == old(self).model() && final(scheduler)@ == old(
                    scheduler,
                )@,
            },
    {
        if let Some(target) = self.granted {
            if target.thread == thread && target.park_seq == seq {
                self.granted = None;
                return Some(MutexGuard { turn: self.turn });
            }
        }
        let mut at: usize = 0;
        while at < self.waiters.len()
            invariant
                *self == *old(self),
                *scheduler == *old(scheduler),
                self.wf(),
                scheduler.wf(),
                scheduler@.settled(),
                self.model().granted != Some(WakeTarget { thread, park_seq: seq }),
                self.model().owner matches Some(t) ==> t < scheduler@.threads.len(),
                at <= self.waiters@.len(),
                self.model().position(thread, seq, 0) == self.model().position(
                    thread,
                    seq,
                    at as int,
                ),
            decreases self.waiters@.len() - at,
        {
            if self.waiters[at].thread == thread && self.waiters[at].park_seq == seq {
                let waiter = self.waiters.remove(at);
                if self.waiters.len() == 0 {
                    self.queued = false;
                }
                if let Some(owner) = waiter.boosted {
                    unboost_priority(scheduler, owner);
                }
                return None;
            }
            at = at + 1;
        }
        None
    }

    /// Releases the mutex: to nobody, or directly to its oldest waiter, which
    /// is woken and to which the others lend from now on.
    ///
    /// Returns whom the mutex went to, whether that thread was still asleep
    /// for it, and how to kick its CPU.
    pub fn unlock(
        &mut self,
        guard: MutexGuard,
        cpu: &Masking,
        scheduler: &mut Scheduler,
        site: &Site,
        smp: &SmpState,
    ) -> (released: Option<(WakeTarget, bool, KickAction)>)
        requires
            old(self).wf(),
            guard.opens(old(self).model()),
            !cpu.in_trap(),
            old(scheduler).wf(),
            old(scheduler)@.settled(),
            site.on(old(scheduler)@),
            old(self).model().owner matches Some(t) ==> t < old(scheduler)@.threads.len(),
            forall|i: int|
                0 <= i < old(self).model().waiters.len() ==> (#[trigger] old(
                    self,
                ).model().waiters[i]).thread < old(scheduler)@.threads.len(),
        ensures
            final(self).wf(),
            final(scheduler).wf(),
            final(scheduler)@.settled(),
            final(self).contents() == old(self).contents(),
            final(self).model() == old(self).model().unlocked(),
            released.is_some() == (old(self).model().waiters.len() > 0),
            match released {
                None => final(scheduler)@ == old(scheduler)@,
                Some((target, woke, action)) => {
                    let first = old(self).model().waiters[0];
                    let lent = boosts_applied(
                        old(scheduler)@,
                        handover_ops(old(self).model().waiters),
                    );
                    let after = lent.woken(
                        first.thread,
                        first.park_seq,
                        site.now_ns,
                        site.cpu,
                        online_of(*smp),
                    );
                    &&& target == (WakeTarget { thread: first.thread, park_seq: first.park_seq })
                    &&& final(scheduler)@ == after.0
                    &&& woke == after.1
                    &&& action == kick_action(after.0, after.2, *site)
                },
            },
    {
        let _ = (guard, cpu);
        if !self.queued {
            self.locked = false;
            self.owner = None;
            return None;
        }
        let ghost all = self.waiters@;
        let waiter = self.waiters.remove(0);
        let target = WakeTarget { thread: waiter.thread, park_seq: waiter.park_seq };
        let ghost rest = all.remove(0);
        let ghost m = scheduler@;
        let ghost own = match waiter.boosted {
            Some(previous) => seq![BoostOp { thread: previous, boost: None }],
            None => Seq::empty(),
        };
        if let Some(previous) = waiter.boosted {
            apply_boost(scheduler, previous, None);
        }
        proof {
            assert(own.len() > 0 ==> own.drop_last() =~= Seq::empty());
            reveal_with_fuel(boosts_applied, 2);
            assert(scheduler@ == boosts_applied(m, own));
            assert(rest.take(0) =~= Seq::empty());
            assert(own + transfer_ops(rest.take(0), target.thread) =~= own);
        }
        let mut at: usize = 0;
        while at < self.waiters.len()
            invariant
                at <= self.waiters@.len() == rest.len(),
                scheduler.wf(),
                scheduler@.settled(),
                scheduler@.threads.len() == m.threads.len(),
                scheduler@.cpus.len() == m.cpus.len(),
                target.thread < m.threads.len(),
                forall|i: int|
                    0 <= i < rest.len() ==> ((#[trigger] rest[i]).boosted matches Some(t) ==> t
                        < m.threads.len()),
                forall|i: int|
                    0 <= i < at ==> #[trigger] self.waiters@[i] == (MutexWaiter {
                        boosted: Some(target.thread),
                        ..rest[i]
                    }),
                forall|i: int| at <= i < rest.len() ==> #[trigger] self.waiters@[i] == rest[i],
                self.contents() == old(self).contents(),
                *self == (Mutex { waiters: self.waiters, ..*old(self) }),
                scheduler@ == boosts_applied(
                    m,
                    own + transfer_ops(rest.take(at as int), target.thread),
                ),
            decreases self.waiters@.len() - at,
        {
            let mut w = self.waiters[at];
            let previous = w.boosted;
            let ghost before = own + transfer_ops(rest.take(at as int), target.thread);
            apply_boost(scheduler, target.thread, Some(w.priority));
            let ghost lent = before.push(
                BoostOp { thread: target.thread, boost: Some(w.priority) },
            );
            proof {
                assert(lent.drop_last() =~= before);
                assert(scheduler@ == boosts_applied(m, lent));
                assert(rest[at as int] == w);
            }
            if let Some(thread) = previous {
                apply_boost(scheduler, thread, None);
                proof {
                    let back = lent.push(BoostOp { thread, boost: None });
                    assert(back.drop_last() =~= lent);
                    assert(scheduler@ == boosts_applied(m, back));
                }
            }
            w.boosted = Some(target.thread);
            self.waiters[at] = w;
            proof {
                let longer = rest.take(at + 1);
                assert(longer.drop_last() =~= rest.take(at as int));
                assert(longer.last() == rest[at as int]);
                let goal = own + transfer_ops(longer, target.thread);
                match previous {
                    Some(thread) => {
                        assert(goal =~= lent.push(BoostOp { thread, boost: None }));
                    },
                    None => {
                        assert(goal =~= lent);
                    },
                }
            }
            at = at + 1;
        }
        assert(rest.take(at as int) =~= rest);
        self.owner = Some(target.thread);
        self.granted = Some(target);
        self.turn = count_turn(self.turn);
        self.queued = self.waiters.len() > 0;
        proof {
            assert(self.model() =~= old(self).model().unlocked()) by {
                assert(self.waiters@ =~= relent(rest, Some(target.thread)));
            }
        }
        let (woke, action) = wake(scheduler, target.thread, target.park_seq, site, smp);
        Some((target, woke, action))
    }
}

impl<T: Default> Default for Mutex<T> {
    fn default() -> (mutex: Self)
        ensures
            mutex.wf(),
            !mutex.model().locked,
    {
        Mutex::new(T::default())
    }
}

/// The mutex goes to its waiters in the order in which they queued up, without
/// being free in between.
pub proof fn law_mutex_is_fifo(m: MutexModel, i: int)
    requires
        m.ok(),
        m.locked,
        0 < i < m.waiters.len(),
    ensures
        m.unlocked().locked,
        m.unlocked().owner == Some(m.waiters[0].thread),
        m.unlocked().waiters.len() == m.waiters.len() - 1,
        m.unlocked().waiters[i - 1].thread == m.waiters[i].thread,
        m.unlocked().ok(),
{
}

/// At any time every waiter lends its priority to exactly the thread that
/// holds the mutex.
pub proof fn law_waiters_lend_to_holder(m: MutexModel, i: int)
    requires
        m.ok(),
        m.locked,
        0 <= i < m.unlocked().waiters.len(),
    ensures
        m.unlocked().waiters[i].boosted == m.unlocked().owner,
        m.unlocked().waiters[i].priority == m.waiters[i + 1].priority,
{
}

/// A mutex that is taken and released without contention is as it was, but for
/// the number of the acquisition.
pub proof fn law_uncontended_round_trip(m: MutexModel, owner: Option<usize>)
    requires
        m.ok(),
        !m.locked,
    ensures
        m.taken(owner).unlocked() == (MutexModel { turn: next_turn(m.turn), ..m }),
{
}

/// A guard opens its mutex no longer once the mutex was released, whether to
/// nobody or to a waiter.
pub proof fn law_released_guard_opens_nothing(m: MutexModel, guard: MutexGuard, owner: Option<usize>)
    requires
        m.ok(),
        guard.opens(m),
    ensures
        !guard.opens(m.unlocked()),
        m.waiters.len() == 0 ==> !guard.opens(m.unlocked().taken(owner)),
        m.waiters.len() > 0 ==> !guard.opens(MutexModel { granted: None, ..m.unlocked() }),
{
}

/// Spinning waits twice as long each time, up to a bound.
pub proof fn law_spin_backs_off(wait: SpinWait)
    requires
        0 < wait.step <= SPIN_BACKOFF_MAX,
    ensures
        wait.longer().step >= wait.step,
        2 * wait.step <= SPIN_BACKOFF_MAX ==> wait.longer().step == 2 * wait.step,
        2 * wait.step > SPIN_BACKOFF_MAX ==> wait.longer().step == SPIN_BACKOFF_MAX,
{
}

/// A mutex that is taken is locked by whoever took it; one that is given back
/// is free if nobody waits, and goes to the longest waiting thread otherwise,
/// for the wait that the thread is in.
pub proof fn law_mutex_changes_hands(m: MutexModel, owner: Option<usize>)
    ensures
        m.taken(owner).locked,
        m.taken(owner).owner == owner,
        m.taken(owner).waiters == m.waiters,
        m.taken(owner).turn != m.turn,
        m.waiters.len() == 0 ==> !m.unlocked().locked && m.unlocked().owner.is_none()
            && m.unlocked().granted.is_none(),
        m.waiters.len() > 0 ==> {
            &&& m.unlocked().locked == m.locked
            &&& m.unlocked().owner == Some(m.waiters[0].thread)
            &&& m.unlocked().granted == Some(
                WakeTarget { thread: m.waiters[0].thread, park_seq: m.waiters[0].park_seq },
            )
            &&& m.unlocked().waiters.len() == m.waiters.len() - 1
        },
{
}

/// When a mutex changes hands, everyone who still waits lends to the new holder
/// and takes back what was lent to the old one.
pub proof fn law_lending_follows_the_mutex(waiters: Seq<MutexWaiter>, owner: usize, i: int)
    requires
        0 <= i < waiters.len(),
    ensures
        transfer_ops(waiters, owner).contains(
            BoostOp { thread: owner, boost: Some(waiters[i].priority) },
        ),
        waiters[i].boosted matches Some(previous) ==> transfer_ops(waiters, owner).contains(
            BoostOp { thread: previous, boost: None },
        ),
    decreases waiters.len(),
{
    let rest = waiters.drop_last();
    let before = transfer_ops(rest, owner);
    let ops = transfer_ops(waiters, owner);
    let lend = BoostOp { thread: owner, boost: Some(waiters[i].priority) };
    if i < rest.len() {
        law_lending_follows_the_mutex(rest, owner, i);
        let j = choose|j: int| 0 <= j < before.len() && before[j] == lend;
        assert(ops[j] == lend);
        if let Some(previous) = waiters[i].boosted {
            let back = BoostOp { thread: previous, boost: None };
            let k = choose|k: int| 0 <= k < before.len() && before[k] == back;
            assert(ops[k] == back);
        }
    } else {
        assert(ops[before.len() as int] == lend);
        if let Some(previous) = waiters[i].boosted {
            assert(ops[before.len() as int + 1] == BoostOp { thread: previous, boost: None });
        }
    }
}

/// The new holder of a mutex no longer lends to the old one.
pub proof fn law_new_holder_stops_lending(waiters: Seq<MutexWaiter>)
    requires
        waiters.len() > 0,
    ensures
        waiters[0].boosted matches Some(previous) ==> handover_ops(waiters).len() > 0
            && handover_ops(waiters)[0] == (BoostOp { thread: previous, boost: None }),
        waiters.len() == 1 ==> handover_ops(waiters).len() <= 1,
{
}

/// A waiter is found by its thread and the number of its wait.
pub proof fn law_waiter_is_found(m: MutexModel, thread: usize, seq: u64, at: int)
    requires
        0 <= at <= m.waiters.len(),
    ensures
        match m.position(thread, seq, at) {
            Some(i) => at <= i < m.waiters.len() && m.waiters[i].thread == thread
                && m.waiters[i].park_seq == seq,
            None => forall|i: int|
                at <= i < m.waiters.len() ==> (#[trigger] m.waiters[i]).thread != thread
                    || m.waiters[i].park_seq != seq,
        },
    decreases m.waiters.len() - at,
{
    if at < m.waiters.len() {
        law_waiter_is_found(m, thread, seq, at + 1);
    }
}

} // verus!
