//! Kernel thread records and the park handshake.

use vstd::prelude::*;
use vstd::bytes::{spec_u64_from_le_bytes, spec_u64_to_le_bytes};

verus! {

/// Bytes in one page of memory.
pub const PAGE_SIZE: u64 = 4096;

/// Bytes in a kernel stack.
pub const KSTACK_SIZE: u64 = 32 * 4096;

/// Words at the low end of a kernel stack that hold the canary.
pub const STACK_CANARY_WORDS: usize = 8;

/// Value of every canary word.
pub const STACK_CANARY: u64 = 0xC0DE_CAFE_D15C_A11A;

/// Lowest nice value, granting the most CPU share.
pub const NICE_MIN: i8 = -20;

/// Highest nice value, granting the least CPU share.
pub const NICE_MAX: i8 = 20;

/// Scheduler class assigned to a kernel thread.
#[derive(Copy, Clone, Debug, PartialEq, Eq, Structural)]
pub enum ThreadClass {
    /// Interrupt handler thread with the highest scheduler priority.
    Ithread,
    /// Regular schedulable kernel work.
    Timeshare,
    /// Per-CPU idle loop.
    Idle,
}

/// Lifecycle state tracked by the scheduler.
#[derive(Copy, Clone, Debug, PartialEq, Eq, Structural)]
pub enum ThreadState {
    /// Runnable and queued on a CPU run queue.
    Ready,
    /// Currently executing on a CPU.
    Running,
    /// Sleeping until an external event wakes it.
    Blocked,
    /// An idle thread before its first activation.
    Idle,
    /// Permanently terminated and no longer schedulable.
    Exited,
}

/// Scheduler-visible flags describing thread behaviour.
#[derive(Copy, Clone, Debug, PartialEq, Eq, Structural)]
pub struct ThreadFlags {
    /// The thread is a per-CPU idle task.
    pub idle: bool,
    /// The thread is left out of scheduler load accounting.
    pub noload: bool,
    /// The thread consumed its time slice.
    pub sliceend: bool,
    /// The thread may not move to another CPU.
    pub no_migrate: bool,
}

impl ThreadFlags {
    /// No flag set.
    pub fn empty() -> (flags: Self)
        ensures
            flags == (ThreadFlags {
                idle: false,
                noload: false,
                sliceend: false,
                no_migrate: false,
            }),
    {
        ThreadFlags { idle: false, noload: false, sliceend: false, no_migrate: false }
    }
}

/// Stage of the handshake between a sleeper and its wakers.
#[derive(Copy, Clone, Debug, PartialEq, Eq, Structural)]
pub enum ParkState {
    /// No sleep attempt is in progress.
    Idle,
    /// The thread announced that it is about to sleep.
    Waiting,
    /// The thread sleeps until a wake with its sequence number arrives.
    Parked,
}

/// What a wake attempt found.
#[derive(Copy, Clone, Debug, PartialEq, Eq, Structural)]
pub enum WakeResult {
    /// The sequence number belongs to no current sleep attempt.
    Stale,
    /// The sleeper had not parked yet and will not.
    Pending,
    /// The sleeper was parked and has to be queued again.
    Parked,
}

/// Scheduler-owned thread record.
///
/// Threads are named by their index in the scheduler's thread table.
#[derive(Copy, Clone, Debug, PartialEq, Eq, Structural)]
pub struct Thread {
    /// Thread identifier assigned by the scheduler.
    pub id: usize,
    /// Whether the thread is linked into a run queue.
    pub linked: bool,
    /// Current lifecycle state.
    pub state: ThreadState,
    /// Scheduler class that determines queueing behaviour.
    pub class: ThreadClass,
    /// Scheduler flags.
    pub flags: ThreadFlags,
    /// Active priority used for run-queue placement.
    pub priority: u8,
    /// Baseline priority before temporary adjustments.
    pub base_priority: u8,
    /// Nominal interrupt-thread priority restored after voluntary sleep.
    pub ithread_base_priority: u8,
    /// Priority computed from interactivity and nice value.
    pub user_priority: u8,
    /// Best priority lent by blocked lock waiters, or `u8::MAX`.
    pub lent_priority: u8,
    /// Number of lock waiters that lend a priority.
    pub boost_count: u32,
    /// Nice value.
    pub nice: i8,
    /// CPU that owns the thread.
    pub cpu: usize,
    /// Run-queue bucket that holds or last held the thread.
    pub rqindex: u8,
    /// Nanoseconds consumed in the current slice.
    pub slice_ns: u64,
    /// Start of the current CPU-usage decay window.
    pub cpu_window_start_ns: u64,
    /// Last point where CPU-usage accounting was refreshed.
    pub cpu_last_update_ns: u64,
    /// Last point where running-time accounting was refreshed.
    pub last_run_ns: u64,
    /// Start of the current voluntary sleep, or zero while not blocked.
    pub sleep_start_ns: u64,
    /// Accumulated sleep time used by the interactivity score.
    pub slptime_ns: u64,
    /// Accumulated run time used by the interactivity score.
    pub runtime_ns: u64,
    /// Fixed-point CPU-usage estimate.
    pub cpu_estimate: u64,
    /// Address just above the kernel stack.
    pub stack_top: u64,
    /// Address of the saved trap frame.
    pub frame: u64,
    /// Stage of the park handshake.
    pub park_state: ParkState,
    /// Number of the latest sleep attempt.
    pub park_seq: u64,
    /// Number of holders that keep the thread on its CPU.
    pub migration_pins: usize,
    /// Process the thread belongs to, for user threads.
    pub process: Option<usize>,
    /// Page-table root activated while the thread runs.
    pub address_space: Option<u64>,
    /// User thread pointer restored on resume.
    pub thread_pointer: u64,
}

impl Thread {
    /// Whether the thread is a per-CPU idle task.
    pub open spec fn spec_is_idle(self) -> bool {
        self.flags.idle
    }

    /// Whether the thread contributes to scheduler load.
    pub open spec fn spec_counts(self) -> bool {
        !self.flags.noload
    }

    /// Whether the thread may move to another CPU.
    pub open spec fn spec_can_migrate(self) -> bool {
        !self.flags.no_migrate && self.migration_pins == 0
    }

    /// The better of the baseline and the lent priority.
    pub open spec fn spec_effective_priority(self) -> u8 {
        if self.lent_priority < self.base_priority {
            self.lent_priority
        } else {
            self.base_priority
        }
    }

    /// This thread queued in bucket `rqindex`.
    pub open spec fn ready_in(self, rqindex: u8) -> Thread {
        Thread { state: ThreadState::Ready, rqindex, linked: true, ..self }
    }

    /// This thread taken off its run queue.
    pub open spec fn unlinked(self) -> Thread {
        Thread { linked: false, ..self }
    }

    /// This thread running on `cpu` since `now_ns`.
    pub open spec fn running_on(self, cpu: usize, now_ns: u64) -> Thread {
        Thread { state: ThreadState::Running, cpu, last_run_ns: now_ns, ..self }
    }

    /// This thread asleep since `now_ns`.
    pub open spec fn blocked_at(self, now_ns: u64) -> Thread {
        Thread { state: ThreadState::Blocked, sleep_start_ns: now_ns, ..self }
    }

    /// This thread with its active priority recomputed.
    pub open spec fn refreshed(self) -> Thread {
        Thread { priority: self.spec_effective_priority(), ..self }
    }

    /// This thread with the park handshake at `stage`.
    pub open spec fn with_park_state(self, stage: ParkState) -> Thread {
        Thread { park_state: stage, ..self }
    }

    /// What a wake with `seq` finds on this thread.
    pub open spec fn spec_wake_result(self, seq: u64) -> WakeResult {
        if self.park_seq != seq || self.park_state == ParkState::Idle {
            WakeResult::Stale
        } else if self.park_state == ParkState::Waiting {
            WakeResult::Pending
        } else {
            WakeResult::Parked
        }
    }

    /// This thread after a wake with `seq`.
    pub open spec fn after_wake(self, seq: u64) -> Thread {
        if self.spec_wake_result(seq) == WakeResult::Stale {
            self
        } else {
            self.with_park_state(ParkState::Idle)
        }
    }

    /// Returns the last lifecycle state published for this thread.
    pub fn observed_state(&self) -> (state: ThreadState)
        ensures
            state == self.state,
    {
        self.state
    }

    /// Returns whether this thread is linked into a run queue.
    pub fn is_runq_linked(&self) -> (linked: bool)
        ensures
            linked == self.linked,
    {
        self.linked
    }

    /// Returns whether this thread is the per-CPU idle task.
    #[verifier::when_used_as_spec(spec_is_idle)]
    pub fn is_idle(self) -> (idle: bool)
        ensures
            idle == self.spec_is_idle(),
    {
        self.flags.idle
    }

    /// Returns whether this thread contributes to scheduler load.
    #[verifier::when_used_as_spec(spec_counts)]
    pub fn counts_towards_load(self) -> (counts: bool)
        ensures
            counts == self.spec_counts(),
    {
        !self.flags.noload
    }

    /// Returns whether the thread may move to another CPU.
    #[verifier::when_used_as_spec(spec_can_migrate)]
    pub fn can_migrate(self) -> (free: bool)
        ensures
            free == self.spec_can_migrate(),
    {
        !self.flags.no_migrate && self.migration_pins == 0
    }

    /// Returns the priority the thread competes with.
    #[verifier::when_used_as_spec(spec_effective_priority)]
    pub fn effective_priority(self) -> (priority: u8)
        ensures
            priority == self.spec_effective_priority(),
    {
        if self.lent_priority < self.base_priority {
            self.lent_priority
        } else {
            self.base_priority
        }
    }

    /// Recomputes the active priority from the baseline and lent priorities.
    pub fn refresh_priority(&mut self)
        ensures
            *final(self) == old(self).refreshed(),
    {
        self.priority = self.effective_priority();
    }

    /// Returns whether the thread belongs to process `pid`.
    pub fn belongs_to_process(&self, pid: usize) -> (belongs: bool)
        ensures
            belongs == (self.process == Some(pid)),
    {
        match self.process {
            Some(owner) => owner == pid,
            None => false,
        }
    }

    /// Returns the page-table root of the thread's address space.
    pub fn address_space_root(&self) -> (root: Option<u64>)
        ensures
            root == self.address_space,
    {
        self.address_space
    }

    /// Removes the thread's address space and returns its page-table root.
    pub fn take_address_space(&mut self) -> (root: Option<u64>)
        ensures
            root == old(self).address_space,
            *final(self) == (Thread { address_space: None, ..*old(self) }),
    {
        let root = self.address_space;
        self.address_space = None;
        root
    }

    /// Replaces the thread's address space and returns the previous root.
    pub fn replace_address_space(&mut self, space: Option<u64>) -> (root: Option<u64>)
        ensures
            root == old(self).address_space,
            *final(self) == (Thread { address_space: space, ..*old(self) }),
    {
        let root = self.address_space;
        self.address_space = space;
        root
    }

    /// Changes the user thread pointer restored on resume.
    pub fn set_thread_pointer(&mut self, pointer: u64)
        ensures
            *final(self) == (Thread { thread_pointer: pointer, ..*old(self) }),
    {
        self.thread_pointer = pointer;
    }

    /// Keeps the thread on its CPU until the matching unpin.
    pub fn pin_migration(&mut self)
        requires
            old(self).migration_pins < usize::MAX,
        ensures
            *final(self) == (Thread {
                migration_pins: (old(self).migration_pins + 1) as usize,
                ..*old(self)
            }),
    {
        self.migration_pins = self.migration_pins + 1;
    }

    /// Releases one migration pin.
    pub fn unpin_migration(&mut self)
        requires
            old(self).migration_pins > 0,
        ensures
            *final(self) == (Thread {
                migration_pins: (old(self).migration_pins - 1) as usize,
                ..*old(self)
            }),
    {
        self.migration_pins = self.migration_pins - 1;
    }

    /// Marks the thread runnable in run-queue bucket `rqindex`.
    pub fn mark_ready(&mut self, rqindex: u8)
        ensures
            *final(self) == (Thread { state: ThreadState::Ready, rqindex, ..*old(self) }),
    {
        self.state = ThreadState::Ready;
        self.rqindex = rqindex;
    }

    /// Marks the thread blocked until a wake arrives.
    pub fn mark_blocked(&mut self, now_ns: u64)
        ensures
            *final(self) == old(self).blocked_at(now_ns),
    {
        self.sleep_start_ns = now_ns;
        self.state = ThreadState::Blocked;
    }

    /// Marks the thread as permanently exited.
    pub fn mark_exited(&mut self)
        ensures
            *final(self) == (Thread { state: ThreadState::Exited, ..*old(self) }),
    {
        self.state = ThreadState::Exited;
    }

    /// Marks the thread as running on `cpu_id` at `now_ns`.
    pub fn mark_running(&mut self, cpu_id: usize, now_ns: u64)
        ensures
            *final(self) == old(self).running_on(cpu_id, now_ns),
    {
        self.state = ThreadState::Running;
        self.cpu = cpu_id;
        self.last_run_ns = now_ns;
    }

    /// Clears and returns the slice-end flag.
    pub fn take_slice_end(&mut self) -> (exhausted: bool)
        ensures
            exhausted == old(self).flags.sliceend,
            *final(self) == (Thread {
                flags: ThreadFlags { sliceend: false, ..old(self).flags },
                ..*old(self)
            }),
    {
        let exhausted = self.flags.sliceend;
        self.flags.sliceend = false;
        exhausted
    }

    /// Announces a sleep attempt and returns its sequence number.
    pub fn prepare_park(&mut self) -> (seq: u64)
        ensures
            seq == old(self).park_seq.wrapping_add(1),
            *final(self) == (Thread {
                park_seq: seq,
                park_state: ParkState::Waiting,
                ..*old(self)
            }),
    {
        let seq: u64 = self.park_seq.wrapping_add(1);
        self.park_seq = seq;
        self.park_state = ParkState::Waiting;
        seq
    }

    /// Completes the park handshake unless a wake came first.
    pub fn mark_parked(&mut self, seq: u64) -> (parked: bool)
        ensures
            parked == (old(self).park_seq == seq && old(self).park_state == ParkState::Waiting),
            parked ==> *final(self) == old(self).with_park_state(ParkState::Parked),
            !parked ==> *final(self) == *old(self),
    {
        if self.park_seq != seq {
            return false;
        }
        match self.park_state {
            ParkState::Waiting => {
                self.park_state = ParkState::Parked;
                true
            },
            _ => false,
        }
    }

    /// Wakes a sleeper and reports whether it must be queued again.
    pub fn wake(&mut self, seq: u64) -> (found: WakeResult)
        ensures
            found == old(self).spec_wake_result(seq),
            *final(self) == old(self).after_wake(seq),
    {
        match self.park_state {
            ParkState::Waiting => {
                if self.park_seq != seq {
                    return WakeResult::Stale;
                }
                self.park_state = ParkState::Idle;
                WakeResult::Pending
            },
            ParkState::Parked => {
                if self.park_seq != seq {
                    return WakeResult::Stale;
                }
                self.park_state = ParkState::Idle;
                WakeResult::Parked
            },
            ParkState::Idle => WakeResult::Stale,
        }
    }

    /// Returns whether the saved frame of `frame_size` bytes lies in the
    /// thread's kernel stack.
    pub fn has_valid_frame_ptr(&self, frame_size: u64) -> (valid: bool)
        requires
            self.frame + frame_size <= u64::MAX,
        ensures
            valid == (self.frame + KSTACK_SIZE >= self.stack_top && self.frame + frame_size
                <= self.stack_top),
    {
        let stack_base: u64 = self.stack_top.saturating_sub(KSTACK_SIZE);
        self.frame >= stack_base && self.frame + frame_size <= self.stack_top
    }
}

/// Builds a thread record around a kernel stack that starts at `stack_base`
/// and a trap frame of `frame_size` bytes at its top.
#[allow(clippy::too_many_arguments)]
pub fn allocate_thread_record(
    id: usize,
    cpu: usize,
    now_ns: u64,
    class: ThreadClass,
    priority: u8,
    flags: ThreadFlags,
    process: Option<usize>,
    address_space: Option<u64>,
    stack_base: u64,
    frame_size: u64,
) -> (thread: Thread)
    requires
        stack_base + KSTACK_SIZE <= u64::MAX,
        frame_size <= stack_base + KSTACK_SIZE,
    ensures
        thread == new_thread(
            id,
            cpu,
            now_ns,
            class,
            priority,
            flags,
            process,
            address_space,
            stack_base,
            frame_size,
        ),
{
    let stack_top: u64 = stack_base + KSTACK_SIZE;
    let state = if flags.idle {
        ThreadState::Idle
    } else {
        ThreadState::Ready
    };
    Thread {
        id,
        linked: false,
        state,
        class,
        flags,
        priority,
        base_priority: priority,
        ithread_base_priority: priority,
        user_priority: priority,
        lent_priority: u8::MAX,
        boost_count: 0,
        nice: 0,
        cpu,
        rqindex: priority,
        slice_ns: 0,
        cpu_window_start_ns: now_ns,
        cpu_last_update_ns: now_ns,
        last_run_ns: now_ns,
        sleep_start_ns: 0,
        slptime_ns: 0,
        runtime_ns: 0,
        cpu_estimate: 0,
        stack_top,
        frame: stack_top - frame_size,
        park_state: ParkState::Idle,
        park_seq: 0,
        migration_pins: 0,
        process,
        address_space,
        thread_pointer: 0,
    }
}

/// A fresh thread record: unqueued, never run, with an empty history.
pub open spec fn new_thread(
    id: usize,
    cpu: usize,
    now_ns: u64,
    class: ThreadClass,
    priority: u8,
    flags: ThreadFlags,
    process: Option<usize>,
    address_space: Option<u64>,
    stack_base: u64,
    frame_size: u64,
) -> Thread {
    Thread {
        id,
        linked: false,
        state: if flags.idle {
            ThreadState::Idle
        } else {
            ThreadState::Ready
        },
        class,
        flags,
        priority,
        base_priority: priority,
        ithread_base_priority: priority,
        user_priority: priority,
        lent_priority: u8::MAX,
        boost_count: 0,
        nice: 0,
        cpu,
        rqindex: priority,
        slice_ns: 0,
        cpu_window_start_ns: now_ns,
        cpu_last_update_ns: now_ns,
        last_run_ns: now_ns,
        sleep_start_ns: 0,
        slptime_ns: 0,
        runtime_ns: 0,
        cpu_estimate: 0,
        stack_top: (stack_base + KSTACK_SIZE) as u64,
        frame: (stack_base + KSTACK_SIZE - frame_size) as u64,
        park_state: ParkState::Idle,
        park_seq: 0,
        migration_pins: 0,
        process,
        address_space,
        thread_pointer: 0,
    }
}

/// Word number `index` of a stack, lowest byte first.
pub open spec fn stack_word(stack: Seq<u8>, index: int) -> u64 {
    spec_u64_from_le_bytes(stack.subrange(8 * index, 8 * index + 8))
}

/// Returns whether the canary at the low end of `stack` is intact.
///
/// A stack shorter than the canary is judged by the words it has.
pub fn has_valid_stack_canary(stack: &[u8]) -> (intact: bool)
    ensures
        intact == (forall|i: int|
            0 <= i < STACK_CANARY_WORDS && 8 * i + 8 <= stack@.len() ==> #[trigger] stack_word(
                stack@,
                i,
            ) == STACK_CANARY),
{
    let mut index: usize = 0;
    while index < STACK_CANARY_WORDS && stack.len() - 8 * index >= 8
        invariant
            index <= STACK_CANARY_WORDS,
            8 * index <= stack@.len(),
            forall|i: int| 0 <= i < index ==> #[trigger] stack_word(stack@, i) == STACK_CANARY,
        decreases STACK_CANARY_WORDS - index,
    {
        let bytes = vstd::slice::slice_subrange(stack, 8 * index, 8 * index + 8);
        let word: u64 = vstd::bytes::u64_from_le_bytes(bytes);
        assert(word == stack_word(stack@, index as int));
        if word != STACK_CANARY {
            return false;
        }
        index = index + 1;
    }
    true
}

/// How many words of a stack of `len` bytes the canary takes.
pub open spec fn canary_words(len: int) -> int {
    if len / 8 < STACK_CANARY_WORDS {
        len / 8
    } else {
        STACK_CANARY_WORDS as int
    }
}

/// A stack with the canary at its low end.
pub open spec fn guarded(stack: Seq<u8>) -> Seq<u8> {
    Seq::new(
        stack.len(),
        |i: int|
            if i < 8 * canary_words(stack.len() as int) {
                spec_u64_to_le_bytes(STACK_CANARY)[i % 8]
            } else {
                stack[i]
            },
    )
}

/// Writes the canary at the low end of a fresh stack.
pub fn write_stack_canary(stack: &mut Vec<u8>)
    ensures
        final(stack)@ == guarded(old(stack)@),
{
    let word: Vec<u8> = vstd::bytes::u64_to_le_bytes(STACK_CANARY);
    let ghost before = stack@;
    let length: usize = stack.len();
    let mut at: usize = 0;
    while at < 8 * STACK_CANARY_WORDS && at < length - length % 8
        invariant
            word@ == spec_u64_to_le_bytes(STACK_CANARY),
            word@.len() == 8,
            length == before.len(),
            stack@.len() == before.len(),
            at <= 8 * canary_words(before.len() as int),
            forall|i: int|
                0 <= i < before.len() ==> #[trigger] stack@[i] == if i < at {
                    word@[i % 8]
                } else {
                    before[i]
                },
        decreases length - at,
    {
        stack.set(at, word[at % 8]);
        at = at + 1;
    }
    assert(stack@ =~= guarded(before));
}

/// The canary of a fresh stack is intact.
pub proof fn law_fresh_canary_is_intact(stack: Seq<u8>, index: int)
    requires
        0 <= index < STACK_CANARY_WORDS,
        8 * index + 8 <= stack.len(),
    ensures
        guarded(stack).len() == stack.len(),
        stack_word(guarded(stack), index) == STACK_CANARY,
{
    vstd::bytes::lemma_auto_spec_u64_to_from_le_bytes();
    let word = spec_u64_to_le_bytes(STACK_CANARY);
    assert(index < canary_words(stack.len() as int));
    assert forall|k: int| 0 <= k < 8 implies #[trigger] guarded(stack)[8 * index + k] == word[k] by {
        assert((8 * index + k) % 8 == k);
    }
    assert(guarded(stack).subrange(8 * index, 8 * index + 8) =~= word);
}

/// A wake with the announced number that comes before the sleeper parks
/// keeps it from parking, and a later wake with the same number is stale.
pub proof fn law_early_wake_prevents_park(thread: Thread, seq: u64)
    requires
        thread.spec_wake_result(seq) == WakeResult::Pending,
    ensures
        thread.after_wake(seq).park_state != ParkState::Waiting,
        thread.after_wake(seq).spec_wake_result(seq) == WakeResult::Stale,
{
}

/// A parked sleeper is released by exactly one wake.
pub proof fn law_parked_thread_wakes_once(thread: Thread, seq: u64)
    requires
        thread.spec_wake_result(seq) == WakeResult::Parked,
    ensures
        thread.after_wake(seq) == thread.with_park_state(ParkState::Idle),
        thread.after_wake(seq).spec_wake_result(seq) == WakeResult::Stale,
{
}

/// The priority in force is the better one of the thread's own and the lent
/// one, and refreshing changes nothing else.
pub proof fn law_better_priority_is_in_force(thread: Thread)
    ensures
        thread.refreshed().priority <= thread.base_priority,
        thread.refreshed().priority <= thread.lent_priority,
        thread.refreshed().priority == thread.base_priority || thread.refreshed().priority
            == thread.lent_priority,
        thread.refreshed() == (Thread { priority: thread.refreshed().priority, ..thread }),
{
}

/// A wake-up is for one wait: another sequence number, or a thread that waits
/// for nothing, makes it stale and changes nothing. A thread that is about to
/// park or has parked is released by it, and nothing else of it changes.
pub proof fn law_wake_is_for_one_wait(thread: Thread, seq: u64)
    ensures
        thread.spec_wake_result(seq) == WakeResult::Stale <==> thread.park_seq != seq
            || thread.park_state == ParkState::Idle,
        thread.spec_wake_result(seq) == WakeResult::Pending <==> thread.park_seq == seq
            && thread.park_state == ParkState::Waiting,
        thread.spec_wake_result(seq) == WakeResult::Parked <==> thread.park_seq == seq
            && thread.park_state == ParkState::Parked,
        thread.park_seq != seq ==> thread.after_wake(seq) == thread,
        thread.park_seq == seq ==> thread.after_wake(seq) == (Thread {
            park_state: ParkState::Idle,
            ..thread
        }),
{
}

/// A new thread has its own stack, runs with the priority asked for, owes no
/// CPU time, has borrowed no priority and is free to move.
pub proof fn law_new_thread_is_fresh(
    id: usize,
    cpu: usize,
    now_ns: u64,
    class: ThreadClass,
    priority: u8,
    flags: ThreadFlags,
    process: Option<usize>,
    address_space: Option<u64>,
    stack_base: u64,
    frame_size: u64,
)
    requires
        frame_size <= KSTACK_SIZE,
        stack_base + KSTACK_SIZE <= u64::MAX,
    ensures
        ({
            let thread = new_thread(
                id,
                cpu,
                now_ns,
                class,
                priority,
                flags,
                process,
                address_space,
                stack_base,
                frame_size,
            );
            &&& thread.id == id && thread.cpu == cpu && thread.class == class
            &&& thread.flags == flags && !thread.linked
            &&& thread.process == process && thread.address_space == address_space
            &&& thread.priority == priority && thread.base_priority == priority
            &&& thread.user_priority == priority && thread.ithread_base_priority == priority
            &&& thread.refreshed().priority == priority
            &&& thread.boost_count == 0 && thread.nice == 0 && thread.migration_pins == 0
            &&& thread.runtime_ns == 0 && thread.slptime_ns == 0 && thread.cpu_estimate == 0
            &&& thread.slice_ns == 0 && thread.sleep_start_ns == 0
            &&& thread.cpu_window_start_ns == now_ns && thread.cpu_last_update_ns == now_ns
            &&& thread.last_run_ns == now_ns
            &&& thread.park_state == ParkState::Idle && thread.thread_pointer == 0
            &&& thread.state == ThreadState::Idle <==> flags.idle
            &&& !flags.idle ==> thread.state == ThreadState::Ready
            &&& thread.stack_top - stack_base == KSTACK_SIZE
            &&& thread.stack_top - thread.frame == frame_size
            &&& stack_base <= thread.frame <= thread.stack_top
        }),
{
}

/// Only a thread that is neither bound to its CPU nor pinned moves, and only a
/// thread that is not exempt counts as load.
pub proof fn law_pinned_thread_stays(thread: Thread)
    ensures
        thread.flags.no_migrate ==> !thread.spec_can_migrate(),
        thread.migration_pins > 0 ==> !thread.spec_can_migrate(),
        !thread.flags.no_migrate && thread.migration_pins == 0 ==> thread.spec_can_migrate(),
        thread.spec_counts() <==> !thread.flags.noload,
        thread.spec_is_idle() <==> thread.flags.idle,
{
}

/// Starting, stopping and queueing a thread changes what it says it changes.
pub proof fn law_state_changes_are_local(thread: Thread, cpu: usize, now_ns: u64, place: u8)
    ensures
        thread.running_on(cpu, now_ns).state == ThreadState::Running,
        thread.running_on(cpu, now_ns).cpu == cpu,
        thread.running_on(cpu, now_ns).last_run_ns == now_ns,
        thread.running_on(cpu, now_ns).priority == thread.priority,
        thread.blocked_at(now_ns).state == ThreadState::Blocked,
        thread.blocked_at(now_ns).sleep_start_ns == now_ns,
        thread.blocked_at(now_ns).cpu == thread.cpu,
        thread.ready_in(place).state == ThreadState::Ready,
        thread.ready_in(place).rqindex == place,
        thread.ready_in(place).linked,
        thread.ready_in(place).unlinked() == (Thread { linked: false, ..thread.ready_in(place) }),
        thread.unlinked().state == thread.state,
{
}

} // verus!
