//! Processor discovery, per-core state, interrupt-masking spinlocks and the
//! small inter-processor work queue.
//!
//! A caller submits a callback through [`send_ipi`]; its slot is marked
//! pending on the target CPU, the target is nudged, and [`drain_ipi_queue`]
//! hands the callbacks out on that CPU before it returns from its trap.

use vstd::prelude::*;
use vstd::std_specs::bits::axiom_u64_trailing_zeros;
use crate::sys::sched::runq::word_bit;

verus! {

/// Most distinct callbacks the kernel registers.
pub const IPI_MAX_CALLBACKS: usize = 64;

/// Longest busy-wait between two looks at a contended spinlock.
pub const IRQ_SPIN_BACKOFF_MAX: u32 = 64;

/// How long the boot processor waits for the others before giving up on them.
pub const AP_STARTUP_TIMEOUT_NS: u64 = 1_000_000_000;

/// Calibrated frequencies of one core.
#[derive(Copy, Clone, Debug, PartialEq, Eq, Structural)]
pub struct PlatformFields {
    /// Time-stamp counter frequency in Hz.
    pub tsc_hz: u64,
    /// Local timer frequency in Hz, or zero when unused.
    pub lapic_timer_hz: u64,
}

impl PlatformFields {
    /// Creates uncalibrated platform fields.
    pub fn new() -> (fields: Self)
        ensures
            fields == (PlatformFields { tsc_hz: 0, lapic_timer_hz: 0 }),
    {
        PlatformFields { tsc_hz: 0, lapic_timer_hz: 0 }
    }
}

impl Default for PlatformFields {
    fn default() -> (fields: Self)
        ensures
            fields == (PlatformFields { tsc_hz: 0, lapic_timer_hz: 0 }),
    {
        PlatformFields::new()
    }
}

/// Pending callbacks of one CPU, one bit per registered slot.
#[derive(Copy, Clone, Debug, PartialEq, Eq, Structural)]
pub struct PerCpuIpi {
    /// Bitmap of pending slots.
    pub pending: u64,
}

proof fn lemma_post(pending: u64, slot: u64, k: u64)
    by (bit_vector)
    requires
        slot < 64,
        k < 64,
    ensures
        word_bit(pending | (1u64 << slot), k) == (k == slot || word_bit(pending, k)),
        (pending & (1u64 << slot) == 0) == !word_bit(pending, slot),
{
}

proof fn lemma_no_bits(k: u64)
    by (bit_vector)
    requires
        k < 64,
    ensures
        !word_bit(0, k),
{
}

proof fn lemma_drop_lowest(pending: u64, lowest: u64, k: u64)
    by (bit_vector)
    requires
        lowest < 64,
        k < 64,
        pending != 0,
        (pending >> lowest) & 1u64 == 1u64,
        pending & (((1u64 << lowest) - 1) as u64) == 0,
    ensures
        word_bit(pending & ((pending - 1) as u64), k) == (k != lowest && word_bit(pending, k)),
{
}

proof fn lemma_below_lowest(pending: u64, lowest: u64)
    by (bit_vector)
    requires
        lowest < 64,
        lowest > 0 ==> pending << ((64 - lowest) as u64) == 0,
    ensures
        pending & (((1u64 << lowest) - 1) as u64) == 0,
{
}

proof fn lemma_drop_shrinks(pending: u64)
    by (bit_vector)
    requires
        pending != 0,
    ensures
        (pending & ((pending - 1) as u64)) < pending,
{
}

impl PerCpuIpi {
    /// Creates an empty set of pending callbacks.
    pub fn new() -> (ipi: Self)
        ensures
            ipi.pending == 0,
    {
        PerCpuIpi { pending: 0 }
    }

    /// Marks `slot` pending and returns whether it was not pending before.
    pub fn post(&mut self, slot: usize) -> (fresh: bool)
        requires
            slot < IPI_MAX_CALLBACKS,
        ensures
            fresh == !word_bit(old(self).pending, slot as u64),
            forall|k: u64|
                k < 64 ==> #[trigger] word_bit(final(self).pending, k) == (k == slot || word_bit(
                    old(self).pending,
                    k,
                )),
    {
        let bit: u64 = 1u64 << (slot as u64);
        let previous: u64 = self.pending;
        self.pending = previous | bit;
        proof {
            lemma_post(previous, slot as u64, slot as u64);
            assert forall|k: u64| k < 64 implies #[trigger] word_bit(self.pending, k) == (k == slot
                || word_bit(old(self).pending, k)) by {
                lemma_post(previous, slot as u64, k);
            }
        }
        previous & bit == 0
    }

    /// Takes all pending callbacks.
    pub fn take(&mut self) -> (pending: u64)
        ensures
            pending == old(self).pending,
            final(self).pending == 0,
    {
        let pending: u64 = self.pending;
        self.pending = 0;
        pending
    }
}

/// Kernel context of one core.
#[derive(Copy, Clone, Debug, PartialEq, Eq, Structural)]
pub struct CoreLocal {
    /// Stack used by the kernel on interrupts.
    pub kernel_stack: u64,
    /// User stack saved on interrupts.
    pub user_stack: u64,
    /// Number of this core.
    pub id: usize,
    /// Identifier of the running thread, or zero.
    pub current_thread: usize,
    /// Page-table root active on this core.
    pub active_address_root: u64,
    /// Nesting depth of trap handling on this core.
    pub interrupt_depth: usize,
    /// Number of spinlocks this core holds.
    pub spinlock_depth: usize,
    /// Callbacks queued for this core.
    pub ipi: PerCpuIpi,
    /// Platform specific context.
    pub platform: PlatformFields,
}

impl CoreLocal {
    /// The context of core `cid` before it runs anything.
    pub open spec fn fresh(cid: usize) -> CoreLocal {
        CoreLocal {
            kernel_stack: 0,
            user_stack: 0,
            id: cid,
            current_thread: 0,
            active_address_root: 0,
            interrupt_depth: 0,
            spinlock_depth: 0,
            ipi: PerCpuIpi { pending: 0 },
            platform: PlatformFields { tsc_hz: 0, lapic_timer_hz: 0 },
        }
    }

    /// The context with one more spinlock held.
    pub open spec fn locked(self) -> CoreLocal {
        CoreLocal { spinlock_depth: (self.spinlock_depth + 1) as usize, ..self }
    }

    /// The context with one spinlock less held.
    pub open spec fn unlocked(self) -> CoreLocal {
        CoreLocal { spinlock_depth: (self.spinlock_depth - 1) as usize, ..self }
    }

    /// Creates the context of core `cid`.
    pub fn new(cid: usize) -> (core: Self)
        ensures
            core == CoreLocal::fresh(cid),
    {
        CoreLocal {
            kernel_stack: 0,
            user_stack: 0,
            id: cid,
            current_thread: 0,
            active_address_root: 0,
            interrupt_depth: 0,
            spinlock_depth: 0,
            ipi: PerCpuIpi::new(),
            platform: PlatformFields::new(),
        }
    }
}

/// A core and whether its interrupts are enabled.
#[derive(Copy, Clone, Debug, PartialEq, Eq, Structural)]
pub struct Masking {
    /// The core's context.
    pub core: CoreLocal,
    /// Whether interrupts are enabled.
    pub irqs: bool,
}

impl Masking {
    /// After taking a spinlock: one more is held, and interrupts are masked.
    pub open spec fn acquired(self) -> Masking {
        Masking { core: self.core.locked(), irqs: false }
    }

    /// After releasing a spinlock whose guard tells whether to enable interrupts
    /// again.
    pub open spec fn released(self, restore: bool) -> Masking {
        Masking { core: self.core.unlocked(), irqs: restore || self.irqs }
    }

    /// Whether the core is handling a trap.
    pub open spec fn in_trap(self) -> bool {
        self.core.interrupt_depth != 0 && !self.irqs
    }

    /// Whether the caller may block: no trap is being handled and no spinlock is
    /// held.
    pub open spec fn blockable(self) -> bool {
        !self.in_trap() && self.core.spinlock_depth == 0
    }

    /// Whether the core runs a thread that may sleep: interrupts are enabled, so
    /// no trap is being handled, and no spinlock is held.
    pub open spec fn may_sleep(self) -> bool {
        self.irqs && self.core.spinlock_depth == 0
    }

    /// Returns whether the core runs a thread that may sleep.
    pub fn can_sleep(&self) -> (able: bool)
        ensures
            able == self.may_sleep(),
    {
        self.irqs && is_blockable(Some(&self.core), self.irqs)
    }

    /// After taking `n` spinlocks in turn.
    pub open spec fn nested(self, n: nat) -> Masking
        decreases n,
    {
        if n == 0 {
            self
        } else {
            self.nested((n - 1) as nat).acquired()
        }
    }

    /// What the guards of `n` spinlocks taken in turn tell to restore.
    pub open spec fn guards(self, n: nat) -> Seq<bool> {
        Seq::new(n, |i: int| self.nested(i as nat).irqs)
    }

    /// After releasing all spinlocks of these guards, the last first.
    pub open spec fn unwound(self, guards: Seq<bool>) -> Masking
        decreases guards.len(),
    {
        if guards.len() == 0 {
            self
        } else {
            self.released(guards.last()).unwound(guards.drop_last())
        }
    }
}

/// Spinlocks that are released in reverse order restore the state before the
/// first: depth, context and interrupts.
pub proof fn law_nested_locks_restore(start: Masking, n: nat)
    requires
        start.core.spinlock_depth + n <= usize::MAX,
    ensures
        start.nested(n).unwound(start.guards(n)) == start,
        start.nested(n).core == (CoreLocal {
            spinlock_depth: (start.core.spinlock_depth + n) as usize,
            ..start.core
        }),
        n > 0 ==> !start.nested(n).irqs,
    decreases n,
{
    if n > 0 {
        let less = (n - 1) as nat;
        law_nested_locks_restore(start, less);
        assert(start.guards(n).drop_last() =~= start.guards(less));
        assert(start.guards(n).last() == start.nested(less).irqs);
        assert(start.nested(n).released(start.nested(less).irqs) == start.nested(less));
    }
}

/// Proof that a core entered trap handling.
pub struct InterruptContextGuard {
    active: bool,
}

impl InterruptContextGuard {
    /// Whether leaving has to reset the core's nesting depth.
    pub closed spec fn is_active(self) -> bool {
        self.active
    }
}

/// Marks a core as inside trap handling.
///
/// Before per-core state exists there is nothing to mark.
pub fn enter_interrupt_context(core: Option<&mut CoreLocal>) -> (guard: InterruptContextGuard)
    requires
        core matches Some(c) ==> c.interrupt_depth == 0,
    ensures
        guard.is_active() == core.is_some(),
        core matches Some(c) ==> *final(c) == (CoreLocal { interrupt_depth: 1, ..*c }),
{
    match core {
        None => InterruptContextGuard { active: false },
        Some(cpu) => {
            cpu.interrupt_depth = 1;
            InterruptContextGuard { active: true }
        },
    }
}

/// Ends the trap handling that `guard` stands for.
pub fn leave_interrupt_context(guard: InterruptContextGuard, core: &mut CoreLocal)
    requires
        guard.is_active() ==> old(core).interrupt_depth == 1,
    ensures
        guard.is_active() ==> *final(core) == (CoreLocal { interrupt_depth: 0, ..*old(core) }),
        !guard.is_active() ==> *final(core) == *old(core),
{
    if guard.active {
        core.interrupt_depth = 0;
    }
}

/// Returns whether a core is handling a trap.
///
/// Trap handlers keep interrupts masked, so a core with interrupts enabled
/// counts as thread context even while its depth has not been reset yet.
pub fn in_interrupt_context(core: Option<&CoreLocal>, irqs_enabled: bool) -> (inside: bool)
    ensures
        inside == (core matches Some(c) && c.interrupt_depth != 0 && !irqs_enabled),
{
    match core {
        Some(cpu) => cpu.interrupt_depth != 0 && !irqs_enabled,
        None => false,
    }
}

/// Returns the number of spinlocks a core holds.
pub fn spinlock_depth(core: Option<&CoreLocal>) -> (depth: usize)
    ensures
        depth == match core {
            Some(c) => c.spinlock_depth,
            None => 0,
        },
{
    match core {
        Some(cpu) => cpu.spinlock_depth,
        None => 0,
    }
}

/// Returns whether the caller may block: no spinlock held and no trap being
/// handled.
pub fn is_blockable(core: Option<&CoreLocal>, irqs_enabled: bool) -> (blockable: bool)
    ensures
        blockable == (core matches Some(c) ==> c.spinlock_depth == 0 && (c.interrupt_depth == 0
            || irqs_enabled)),
{
    spinlock_depth(core) == 0 && !in_interrupt_context(core, irqs_enabled)
}

/// Number of the acquisition after the one numbered `turn`.
pub open spec fn next_turn(turn: u64) -> u64 {
    if turn == u64::MAX {
        0
    } else {
        (turn + 1) as u64
    }
}

/// Returns the number of the acquisition after the one numbered `turn`.
pub(crate) fn count_turn(turn: u64) -> (next: u64)
    ensures
        next == next_turn(turn),
{
    if turn == u64::MAX {
        0
    } else {
        turn + 1
    }
}

/// A guard opens its lock only until that is released and taken again.
pub proof fn law_old_guard_opens_nothing<T>(guard: IrqSpinLockGuard, old_lock: IrqSpinLock<T>, new_lock: IrqSpinLock<T>)
    requires
        guard.opens(old_lock),
        new_lock.turn() == next_turn(old_lock.turn()),
    ensures
        !guard.opens(new_lock),
{
}

/// Spinlock that masks local interrupts while held.
///
/// Every acquisition has a number, which its guard carries.
pub struct IrqSpinLock<T> {
    locked: bool,
    turn: u64,
    value: T,
}

/// Right to use the value of a locked [`IrqSpinLock`].
#[must_use]
pub struct IrqSpinLockGuard {
    restore_irqs: bool,
    turn: u64,
}

impl IrqSpinLockGuard {
    /// Whether interrupts were enabled before the lock was taken.
    pub closed spec fn restores_irqs(self) -> bool {
        self.restore_irqs
    }

    /// Number of the acquisition that made this guard.
    pub closed spec fn turn(self) -> u64 {
        self.turn
    }

    /// Whether `lock` is held by the acquisition that made this guard.
    pub open spec fn opens<T>(self, lock: IrqSpinLock<T>) -> bool {
        lock.spec_locked() && lock.turn() == self.turn()
    }

    /// Returns whether interrupts were enabled before the lock was taken.
    pub fn irqs_were_enabled(&self) -> (enabled: bool)
        ensures
            enabled == self.restores_irqs(),
    {
        self.restore_irqs
    }

    /// Releases the lock and enables interrupts again if they were enabled when
    /// it was taken.
    pub fn unlock<T>(self, lock: &mut IrqSpinLock<T>, cpu: &mut Masking)
        requires
            self.opens(*old(lock)),
            old(cpu).core.spinlock_depth > 0,
        ensures
            !final(lock).spec_locked(),
            final(lock)@ == old(lock)@,
            final(lock).turn() == old(lock).turn(),
            *final(cpu) == old(cpu).released(self.restores_irqs()),
    {
        let restore_irqs: bool = self.unlock_keep_irqs_disabled(lock, cpu);
        if restore_irqs {
            cpu.irqs = true;
        }
    }

    /// Releases the lock and leaves interrupts as they are.
    ///
    /// Returns whether the caller must eventually enable them again.
    pub fn unlock_keep_irqs_disabled<T>(
        self,
        lock: &mut IrqSpinLock<T>,
        cpu: &mut Masking,
    ) -> (restore_irqs: bool)
        requires
            self.opens(*old(lock)),
            old(cpu).core.spinlock_depth > 0,
        ensures
            restore_irqs == self.restores_irqs(),
            !final(lock).spec_locked(),
            final(lock)@ == old(lock)@,
            final(lock).turn() == old(lock).turn(),
            *final(cpu) == old(cpu).released(false),
    {
        lock.locked = false;
        cpu.core.spinlock_depth = cpu.core.spinlock_depth - 1;
        self.restore_irqs
    }
}

impl<T> View for IrqSpinLock<T> {
    type V = T;

    closed spec fn view(&self) -> T {
        self.value
    }
}

impl<T> IrqSpinLock<T> {
    /// Whether the lock is held.
    pub closed spec fn spec_locked(self) -> bool {
        self.locked
    }

    /// Number of the last acquisition.
    pub closed spec fn turn(self) -> u64 {
        self.turn
    }

    /// Creates an unlocked spinlock around `value`.
    pub fn new(value: T) -> (lock: Self)
        ensures
            !lock.spec_locked(),
            lock@ == value,
            lock.turn() == 0,
    {
        IrqSpinLock { locked: false, turn: 0, value }
    }

    /// Masks interrupts and takes the lock.
    ///
    /// A held lock is waited for by the caller, see [`spin_backoff`].
    pub fn lock(&mut self, cpu: &mut Masking) -> (guard: IrqSpinLockGuard)
        requires
            !old(self).spec_locked(),
            old(cpu).core.spinlock_depth < usize::MAX,
        ensures
            guard.opens(*final(self)),
            final(self)@ == old(self)@,
            final(self).turn() == next_turn(old(self).turn()),
            guard.restores_irqs() == old(cpu).irqs,
            *final(cpu) == old(cpu).acquired(),
    {
        let restore_irqs: bool = cpu.irqs;
        cpu.irqs = false;
        self.locked = true;
        self.turn = count_turn(self.turn);
        cpu.core.spinlock_depth = cpu.core.spinlock_depth + 1;
        IrqSpinLockGuard { restore_irqs, turn: self.turn }
    }

    /// Masks interrupts and takes the lock if it is free; otherwise leaves
    /// everything as it was.
    pub fn try_lock(&mut self, cpu: &mut Masking) -> (guard: Option<IrqSpinLockGuard>)
        requires
            old(cpu).core.spinlock_depth < usize::MAX,
        ensures
            guard.is_some() == !old(self).spec_locked(),
            final(self)@ == old(self)@,
            match guard {
                Some(g) => {
                    &&& g.opens(*final(self))
                    &&& final(self).turn() == next_turn(old(self).turn())
                    &&& g.restores_irqs() == old(cpu).irqs
                    &&& *final(cpu) == old(cpu).acquired()
                },
                None => *final(self) == *old(self) && *final(cpu) == *old(cpu),
            },
    {
        if self.locked {
            None
        } else {
            Some(self.lock(cpu))
        }
    }

    /// Returns whether the lock is held.
    pub fn is_locked(&self) -> (locked: bool)
        ensures
            locked == self.spec_locked(),
    {
        self.locked
    }

    /// Releases the lock without touching any core.
    ///
    /// For fatal recovery, when the holder will never run again.
    pub fn force_unlock(&mut self)
        ensures
            !final(self).spec_locked(),
            final(self)@ == old(self)@,
            final(self).turn() == old(self).turn(),
    {
        self.locked = false;
    }

    /// Gives access to the value to the holder of the lock.
    pub fn value_mut(&mut self, guard: &IrqSpinLockGuard) -> (value: &mut T)
        requires
            guard.opens(*old(self)),
        ensures
            *value == old(self)@,
            final(self)@ == *final(value),
            guard.opens(*final(self)),
    {
        let _ = guard;
        &mut self.value
    }
}

/// Returns the next busy-wait length of a contended spinlock.
pub fn spin_backoff(backoff: u32) -> (next: u32)
    requires
        backoff <= IRQ_SPIN_BACKOFF_MAX,
    ensures
        next == if 2 * backoff <= IRQ_SPIN_BACKOFF_MAX {
            2 * backoff
        } else {
            IRQ_SPIN_BACKOFF_MAX as int
        },
{
    let doubled: u32 = backoff * 2;
    if doubled < IRQ_SPIN_BACKOFF_MAX {
        doubled
    } else {
        IRQ_SPIN_BACKOFF_MAX
    }
}

/// Append-only list of distinct callbacks; the position of a callback is its
/// slot.
pub struct IpiRegistry {
    slots: Vec<usize>,
}

impl View for IpiRegistry {
    type V = Seq<usize>;

    closed spec fn view(&self) -> Seq<usize> {
        self.slots@
    }
}

impl IpiRegistry {
    /// No callback is registered twice and there are not too many.
    pub open spec fn wf(self) -> bool {
        self@.no_duplicates() && self@.len() <= IPI_MAX_CALLBACKS
    }

    /// Creates an empty registry.
    pub fn new() -> (registry: Self)
        ensures
            registry.wf(),
            registry@ == Seq::<usize>::empty(),
    {
        IpiRegistry { slots: Vec::new() }
    }

    /// Returns the slot of `callback` if it is registered.
    pub fn find(&self, callback: usize) -> (slot: Option<usize>)
        requires
            self.wf(),
        ensures
            match slot {
                Some(s) => s < self@.len() && self@[s as int] == callback,
                None => !self@.contains(callback),
            },
    {
        let mut slot: usize = 0;
        while slot < self.slots.len()
            invariant
                slot <= self.slots@.len(),
                forall|i: int| 0 <= i < slot ==> self.slots@[i] != callback,
            decreases self.slots@.len() - slot,
        {
            if self.slots[slot] == callback {
                return Some(slot);
            }
            slot = slot + 1;
        }
        None
    }

    /// Returns the slot of `callback`, registering it if needed.
    pub fn slot_for(&mut self, callback: usize) -> (slot: usize)
        requires
            old(self).wf(),
            old(self)@.contains(callback) || old(self)@.len() < IPI_MAX_CALLBACKS,
        ensures
            final(self).wf(),
            slot < final(self)@.len(),
            final(self)@[slot as int] == callback,
            final(self)@ == if old(self)@.contains(callback) {
                old(self)@
            } else {
                old(self)@.push(callback)
            },
    {
        if let Some(slot) = self.find(callback) {
            return slot;
        }
        let slot: usize = self.slots.len();
        self.slots.push(callback);
        slot
    }

    /// Returns the callback registered in `slot`.
    pub fn callback(&self, slot: usize) -> (callback: usize)
        requires
            slot < self@.len(),
        ensures
            callback == self@[slot as int],
    {
        self.slots[slot]
    }
}

/// Who receives a callback.
#[derive(Copy, Clone, Debug, PartialEq, Eq, Structural)]
pub enum IpiTarget {
    /// Every other online CPU.
    All,
    /// One CPU, which may be the current one.
    Single(usize),
}

/// What the hardware has to do after callbacks were queued.
#[derive(Copy, Clone, Debug, PartialEq, Eq, Structural)]
pub enum IpiAction {
    /// Nothing.
    Nothing,
    /// Interrupt every CPU but this one.
    SendAllExcludingSelf,
    /// Interrupt one CPU.
    Send(usize),
    /// Enter the scheduler on this CPU.
    Reschedule,
}

/// One known CPU.
#[derive(Copy, Clone, Debug, PartialEq, Eq, Structural)]
pub struct CpuRecord {
    /// Number of the CPU.
    pub logical_id: usize,
    /// Identifier the platform uses for the CPU.
    pub platform_id: u64,
    /// Whether the CPU completed bring-up.
    pub online: bool,
    /// Per-core state.
    pub core_local: CoreLocal,
}

/// Number of online CPUs among the first `n`.
pub open spec fn online_below(cpus: Seq<CpuRecord>, n: nat) -> nat
    decreases n,
{
    if n == 0 {
        0
    } else {
        online_below(cpus, (n - 1) as nat) + if cpus[n - 1].online {
            1nat
        } else {
            0nat
        }
    }
}

proof fn lemma_online_same(left: Seq<CpuRecord>, right: Seq<CpuRecord>, n: nat)
    requires
        n <= left.len(),
        n <= right.len(),
        forall|i: int| 0 <= i < n ==> (#[trigger] left[i]).online == right[i].online,
    ensures
        online_below(left, n) == online_below(right, n),
    decreases n,
{
    if n > 0 {
        lemma_online_same(left, right, (n - 1) as nat);
    }
}

proof fn lemma_online_marked(cpus: Seq<CpuRecord>, at: int, record: CpuRecord, n: nat)
    requires
        0 <= at < n <= cpus.len(),
        !cpus[at].online,
        record.online,
    ensures
        online_below(cpus.update(at, record), n) == online_below(cpus, n) + 1,
    decreases n,
{
    if at == n - 1 {
        lemma_online_same(cpus.update(at, record), cpus, (n - 1) as nat);
    } else {
        lemma_online_marked(cpus, at, record, (n - 1) as nat);
    }
}

proof fn lemma_online_bound(cpus: Seq<CpuRecord>, n: nat)
    requires
        n <= cpus.len(),
    ensures
        online_below(cpus, n) <= n,
    decreases n,
{
    if n > 0 {
        lemma_online_bound(cpus, (n - 1) as nat);
    }
}

/// All CPUs known to the kernel.
pub struct SmpState {
    cpus: Vec<CpuRecord>,
    online: usize,
    registry: IpiRegistry,
}

/// Platform identifiers other than the boot processor's, in the order given.
pub open spec fn others(ids: Seq<u64>, bsp: u64) -> Seq<u64>
    decreases ids.len(),
{
    if ids.len() == 0 {
        Seq::empty()
    } else if ids.last() == bsp {
        others(ids.drop_last(), bsp)
    } else {
        others(ids.drop_last(), bsp).push(ids.last())
    }
}

impl SmpState {
    /// Records of all CPUs by number.
    pub closed spec fn records(self) -> Seq<CpuRecord> {
        self.cpus@
    }

    /// Registered callbacks by slot.
    pub closed spec fn callbacks(self) -> Seq<usize> {
        self.registry@
    }

    /// Number of online CPUs that the kernel counts.
    pub closed spec fn spec_online_cpus(self) -> nat {
        self.online as nat
    }

    /// Whether CPU `cpu_id` is known and online.
    pub open spec fn spec_is_online(self, cpu_id: int) -> bool {
        0 <= cpu_id < self.records().len() && self.records()[cpu_id].online
    }

    /// Records are stored by number, only registered callbacks are pending,
    /// and the count of online CPUs is right.
    pub closed spec fn wf(self) -> bool {
        &&& self.registry.wf()
        &&& self.cpus@.len() >= 1
        &&& self.online == online_below(self.cpus@, self.cpus@.len())
        &&& forall|i: int|
            0 <= i < self.cpus@.len() ==> (#[trigger] self.cpus@[i]).logical_id == i
                && self.cpus@[i].core_local.id == i
        &&& forall|i: int, k: u64|
            #![trigger word_bit(self.cpus@[i].core_local.ipi.pending, k)]
            0 <= i < self.cpus@.len() && self.registry@.len() <= k < 64 ==> !word_bit(
                self.cpus@[i].core_local.ipi.pending,
                k,
            )
    }

    /// Every registered callback has one slot, and there are never more than fit
    /// into a pending set.
    pub proof fn law_callbacks_are_bounded(&self)
        requires
            self.wf(),
        ensures
            self.callbacks().len() <= IPI_MAX_CALLBACKS,
            self.callbacks().no_duplicates(),
    {
    }

    /// The count of online CPUs is the number of online records.
    pub proof fn law_online_count_is_exact(&self)
        requires
            self.wf(),
        ensures
            self.spec_online_cpus() == online_below(self.records(), self.records().len()),
            self.records().len() >= 1,
    {
    }
}

/// Builds the CPU table from the platform identifiers that the boot loader
/// reports; the boot processor becomes CPU 0 and is online.
pub fn discover(platform_ids: &[u64], bsp_platform_id: u64) -> (state: SmpState)
    requires
        platform_ids@.len() < usize::MAX,
    ensures
        state.wf(),
        state.records().len() == 1 + others(platform_ids@, bsp_platform_id).len(),
        state.records()[0].platform_id == bsp_platform_id,
        state.records()[0].online,
        forall|i: int|
            1 <= i < state.records().len() ==> (#[trigger] state.records()[i]).platform_id
                == others(platform_ids@, bsp_platform_id)[i - 1] && !state.records()[i].online,
        forall|i: int|
            0 <= i < state.records().len() ==> (#[trigger] state.records()[i]).logical_id == i
                && state.records()[i].core_local == CoreLocal::fresh(i as usize),
        state.spec_online_cpus() == 1,
        state.callbacks() == Seq::<usize>::empty(),
{
    let cpus = discover_cpus(platform_ids, bsp_platform_id);
    proof {
        lemma_only_first_online(cpus@, cpus@.len());
        assert forall|i: int, k: u64|
            #![trigger word_bit(cpus@[i].core_local.ipi.pending, k)]
            0 <= i < cpus@.len() && k < 64 implies !word_bit(cpus@[i].core_local.ipi.pending, k) by {
            lemma_no_bits(k);
        }
    }
    SmpState { cpus, online: 1, registry: IpiRegistry::new() }
}

proof fn lemma_only_first_online(cpus: Seq<CpuRecord>, n: nat)
    requires
        1 <= n <= cpus.len(),
        cpus[0].online,
        forall|i: int| 1 <= i < cpus.len() ==> !(#[trigger] cpus[i]).online,
    ensures
        online_below(cpus, n) == 1,
    decreases n,
{
    if n == 1 {
        assert(online_below(cpus, 0) == 0);
    } else {
        lemma_only_first_online(cpus, (n - 1) as nat);
    }
}

fn discover_cpus(platform_ids: &[u64], bsp_platform_id: u64) -> (cpus: Vec<CpuRecord>)
    requires
        platform_ids@.len() < usize::MAX,
    ensures
        cpus@.len() == 1 + others(platform_ids@, bsp_platform_id).len(),
        cpus@[0].platform_id == bsp_platform_id,
        cpus@[0].online,
        forall|i: int|
            1 <= i < cpus@.len() ==> (#[trigger] cpus@[i]).platform_id == others(
                platform_ids@,
                bsp_platform_id,
            )[i - 1] && !cpus@[i].online,
        forall|i: int|
            0 <= i < cpus@.len() ==> (#[trigger] cpus@[i]).logical_id == i
                && cpus@[i].core_local == CoreLocal::fresh(i as usize),
{
    let mut cpus: Vec<CpuRecord> = Vec::new();
    cpus.push(
        CpuRecord {
            logical_id: 0,
            platform_id: bsp_platform_id,
            online: true,
            core_local: CoreLocal::new(0),
        },
    );
    let mut index: usize = 0;
    while index < platform_ids.len()
        invariant
            index <= platform_ids@.len() < usize::MAX,
            cpus@.len() <= index + 1,
            cpus@.len() == 1 + others(platform_ids@.take(index as int), bsp_platform_id).len(),
            cpus@[0].platform_id == bsp_platform_id,
            cpus@[0].online,
            forall|i: int|
                1 <= i < cpus@.len() ==> (#[trigger] cpus@[i]).platform_id == others(
                    platform_ids@.take(index as int),
                    bsp_platform_id,
                )[i - 1] && !cpus@[i].online,
            forall|i: int|
                0 <= i < cpus@.len() ==> (#[trigger] cpus@[i]).logical_id == i
                    && cpus@[i].core_local == CoreLocal::fresh(i as usize),
        decreases platform_ids@.len() - index,
    {
        proof {
            let longer = platform_ids@.take(index + 1);
            assert(longer.drop_last() =~= platform_ids@.take(index as int));
            assert(longer.last() == platform_ids@[index as int]);
        }
        let platform_id: u64 = platform_ids[index];
        if platform_id != bsp_platform_id {
            let logical_id: usize = cpus.len();
            cpus.push(
                CpuRecord {
                    logical_id,
                    platform_id,
                    online: false,
                    core_local: CoreLocal::new(logical_id),
                },
            );
        }
        index = index + 1;
    }
    assert(platform_ids@.take(index as int) =~= platform_ids@);
    cpus
}

/// Returns the number of CPUs known to the kernel.
pub fn cpu_count(state: &SmpState) -> (count: usize)
    ensures
        count == state.records().len(),
{
    state.cpus.len()
}

/// Returns the number of CPUs that have completed bring-up.
pub fn online_cpus(state: &SmpState) -> (count: usize)
    ensures
        count == state.spec_online_cpus(),
{
    state.online
}

/// Returns the platform identifier of `cpu_id`.
pub fn platform_id(state: &SmpState, cpu_id: usize) -> (id: Option<u64>)
    ensures
        id == if cpu_id < state.records().len() {
            Some(state.records()[cpu_id as int].platform_id)
        } else {
            None
        },
{
    if cpu_id < state.cpus.len() {
        Some(state.cpus[cpu_id].platform_id)
    } else {
        None
    }
}

/// Returns the number of the CPU that the platform calls `platform_id`.
pub fn by_platform_id(state: &SmpState, platform_id: u64) -> (cpu_id: Option<usize>)
    ensures
        match cpu_id {
            Some(i) => i < state.records().len() && state.records()[i as int].platform_id
                == platform_id && forall|j: int|
                0 <= j < i ==> (#[trigger] state.records()[j]).platform_id != platform_id,
            None => forall|j: int|
                0 <= j < state.records().len() ==> (#[trigger] state.records()[j]).platform_id
                    != platform_id,
        },
{
    let mut index: usize = 0;
    while index < state.cpus.len()
        invariant
            index <= state.cpus@.len(),
            forall|j: int|
                0 <= j < index ==> (#[trigger] state.records()[j]).platform_id != platform_id,
        decreases state.cpus@.len() - index,
    {
        if state.cpus[index].platform_id == platform_id {
            return Some(index);
        }
        index = index + 1;
    }
    None
}

/// Returns the per-core state of `cpu_id`.
pub fn core_local(state: &SmpState, cpu_id: usize) -> (core: Option<CoreLocal>)
    ensures
        core == if cpu_id < state.records().len() {
            Some(state.records()[cpu_id as int].core_local)
        } else {
            None
        },
{
    if cpu_id < state.cpus.len() {
        Some(state.cpus[cpu_id].core_local)
    } else {
        None
    }
}

/// Returns whether `cpu_id` is online.
pub fn is_online(state: &SmpState, cpu_id: usize) -> (online: bool)
    ensures
        online == state.spec_is_online(cpu_id as int),
{
    if cpu_id < state.cpus.len() {
        state.cpus[cpu_id].online
    } else {
        false
    }
}

/// Publishes a secondary CPU after its scheduler set-up; CPU 0 is online from
/// the start.
///
/// A CPU is published once.
pub fn mark_current_online(state: &mut SmpState, cpu_id: usize)
    requires
        old(state).wf(),
        cpu_id < old(state).records().len(),
        cpu_id != 0 ==> !old(state).spec_is_online(cpu_id as int),
    ensures
        final(state).wf(),
        final(state).callbacks() == old(state).callbacks(),
        cpu_id == 0 ==> final(state).records() == old(state).records()
            && final(state).spec_online_cpus() == old(state).spec_online_cpus(),
        cpu_id != 0 ==> final(state).records() == old(state).records().update(
            cpu_id as int,
            CpuRecord { online: true, ..old(state).records()[cpu_id as int] },
        ) && final(state).spec_online_cpus() == old(state).spec_online_cpus() + 1,
{
    if cpu_id == 0 {
        return;
    }
    let mut record = state.cpus[cpu_id];
    record.online = true;
    proof {
        lemma_online_marked(state.cpus@, cpu_id as int, record, state.cpus@.len());
        lemma_online_bound(state.cpus@.update(cpu_id as int, record), state.cpus@.len());
        assert(state.cpus.len() <= usize::MAX);
    }
    state.cpus[cpu_id] = record;
    state.online = state.online + 1;
}

/// What the boot processor does while the others start.
#[derive(Copy, Clone, Debug, PartialEq, Eq, Structural)]
pub enum StartupStep {
    /// Keep waiting.
    Wait,
    /// Every CPU is online.
    AllOnline,
    /// Time is up; the rest stays offline.
    GiveUp,
}

/// Returns the numbers of the CPUs to start: all but the boot processor.
pub fn secondary_cpus(state: &SmpState) -> (numbers: Vec<usize>)
    requires
        state.wf(),
    ensures
        numbers@.len() == state.records().len() - 1,
        forall|i: int| 0 <= i < numbers@.len() ==> numbers@[i] == i + 1,
{
    let mut numbers: Vec<usize> = Vec::new();
    let mut cpu_id: usize = 1;
    while cpu_id < state.cpus.len()
        invariant
            1 <= cpu_id <= state.cpus@.len(),
            numbers@.len() == cpu_id - 1,
            forall|i: int| 0 <= i < numbers@.len() ==> numbers@[i] == i + 1,
        decreases state.cpus@.len() - cpu_id,
    {
        numbers.push(cpu_id);
        cpu_id = cpu_id + 1;
    }
    numbers
}

/// Decides whether the boot processor keeps waiting for the others.
///
/// CPUs that fail to report in are abandoned rather than treated as fatal.
pub fn startup_step(state: &SmpState, start_ns: u64, now_ns: u64) -> (step: StartupStep)
    ensures
        step == if state.spec_online_cpus() >= state.records().len() {
            StartupStep::AllOnline
        } else if now_ns >= start_ns + AP_STARTUP_TIMEOUT_NS || (now_ns == u64::MAX && start_ns
            + AP_STARTUP_TIMEOUT_NS > u64::MAX) {
            StartupStep::GiveUp
        } else {
            StartupStep::Wait
        },
{
    if state.online >= state.cpus.len() {
        return StartupStep::AllOnline;
    }
    let deadline: u64 = start_ns.saturating_add(AP_STARTUP_TIMEOUT_NS);
    if now_ns >= deadline {
        StartupStep::GiveUp
    } else {
        StartupStep::Wait
    }
}

/// Records with `slot` marked pending on `cpu_id`.
pub open spec fn posted(before: Seq<CpuRecord>, after: Seq<CpuRecord>, cpu_id: int, slot: int) -> bool {
    &&& after.len() == before.len()
    &&& forall|i: int|
        0 <= i < before.len() && i != cpu_id ==> #[trigger] after[i] == before[i]
    &&& forall|k: u64|
        k < 64 ==> #[trigger] word_bit(after[cpu_id].core_local.ipi.pending, k) == (k == slot
            || word_bit(before[cpu_id].core_local.ipi.pending, k))
    &&& after[cpu_id] == (CpuRecord {
        core_local: CoreLocal {
            ipi: after[cpu_id].core_local.ipi,
            ..before[cpu_id].core_local
        },
        ..before[cpu_id]
    })
}

/// Whether a callback in `slot` is newly queued on `cpu_id`.
pub open spec fn accepts(records: Seq<CpuRecord>, cpu_id: int, slot: int) -> bool {
    0 <= cpu_id < records.len() && records[cpu_id].online && !word_bit(
        records[cpu_id].core_local.ipi.pending,
        slot as u64,
    )
}

fn queue_ipi_job(state: &mut SmpState, cpu_id: usize, slot: usize) -> (fresh: bool)
    requires
        old(state).wf(),
        slot < old(state).callbacks().len(),
    ensures
        final(state).wf(),
        final(state).callbacks() == old(state).callbacks(),
        final(state).spec_online_cpus() == old(state).spec_online_cpus(),
        fresh == accepts(old(state).records(), cpu_id as int, slot as int),
        old(state).spec_is_online(cpu_id as int) ==> posted(
            old(state).records(),
            final(state).records(),
            cpu_id as int,
            slot as int,
        ),
        !old(state).spec_is_online(cpu_id as int) ==> final(state).records() == old(
            state,
        ).records(),
{
    if cpu_id >= state.cpus.len() || !state.cpus[cpu_id].online {
        return false;
    }
    let mut record = state.cpus[cpu_id];
    let fresh = record.core_local.ipi.post(slot);
    state.cpus[cpu_id] = record;
    proof {
        lemma_online_same(old(state).cpus@, state.cpus@, state.cpus@.len());
        assert forall|i: int, k: u64|
            #![trigger word_bit(state.cpus@[i].core_local.ipi.pending, k)]
            0 <= i < state.cpus@.len() && state.registry@.len() <= k < 64 implies !word_bit(
            state.cpus@[i].core_local.ipi.pending,
            k,
        ) by {
            assert(!word_bit(old(state).cpus@[i].core_local.ipi.pending, k));
        }
    }
    fresh
}

/// Number of CPUs below `n`, other than `this_cpu`, on which `slot` is newly
/// queued.
pub open spec fn accepting_below(
    records: Seq<CpuRecord>,
    this_cpu: Option<usize>,
    slot: int,
    n: nat,
) -> nat
    decreases n,
{
    if n == 0 {
        0
    } else {
        accepting_below(records, this_cpu, slot, (n - 1) as nat) + if this_cpu != Some(
            (n - 1) as usize,
        ) && accepts(records, n - 1, slot) {
            1nat
        } else {
            0nat
        }
    }
}

/// Whether a broadcast from `this_cpu` reaches CPU `i`.
pub open spec fn reached_by_all(records: Seq<CpuRecord>, this_cpu: Option<usize>, i: int) -> bool {
    this_cpu != Some(i as usize) && records[i].online
}

/// Whether `after` is `before` with `callback` registered and queued for
/// `target` by `this_cpu`, newly on `count` CPUs.
pub open spec fn queued(
    before: SmpState,
    after: SmpState,
    callback: usize,
    target: IpiTarget,
    this_cpu: Option<usize>,
    count: int,
) -> bool {
    let slot = after.callbacks().index_of(callback);
    &&& after.callbacks() == with_callback(before.callbacks(), callback)
    &&& after.records().len() == before.records().len()
    &&& 0 <= slot < after.callbacks().len()
    &&& after.callbacks()[slot] == callback
    &&& match target {
        IpiTarget::All => {
            &&& count == accepting_below(before.records(), this_cpu, slot, before.records().len())
            &&& forall|i: int|
                0 <= i < before.records().len() ==> if reached_by_all(
                    before.records(),
                    this_cpu,
                    i,
                ) {
                    posted_at(before.records()[i], #[trigger] after.records()[i], slot)
                } else {
                    after.records()[i] == before.records()[i]
                }
        },
        IpiTarget::Single(cpu_id) => {
            &&& count == if accepts(before.records(), cpu_id as int, slot) {
                1int
            } else {
                0
            }
            &&& if before.spec_is_online(cpu_id as int) {
                posted(before.records(), after.records(), cpu_id as int, slot)
            } else {
                after.records() == before.records()
            }
        },
    }
}

/// Queues `callback` for one or more CPUs and tells how to nudge them.
///
/// Returns the number of CPUs on which the callback was not pending already.
/// `irqs_enabled` and `in_interrupt` describe the calling CPU.
pub fn send_ipi(
    state: &mut SmpState,
    callback: usize,
    target: IpiTarget,
    this_cpu: Option<usize>,
    irqs_enabled: bool,
    in_interrupt: bool,
) -> (sent: (usize, IpiAction))
    requires
        old(state).wf(),
        old(state).callbacks().contains(callback) || old(state).callbacks().len()
            < IPI_MAX_CALLBACKS,
    ensures
        final(state).wf(),
        final(state).spec_online_cpus() == old(state).spec_online_cpus(),
        queued(*old(state), *final(state), callback, target, this_cpu, sent.0 as int),
        sent.1 == match target {
            IpiTarget::All => if sent.0 != 0 {
                IpiAction::SendAllExcludingSelf
            } else {
                IpiAction::Nothing
            },
            IpiTarget::Single(cpu_id) => if sent.0 == 0 {
                IpiAction::Nothing
            } else if this_cpu != Some(cpu_id) {
                IpiAction::Send(cpu_id)
            } else if irqs_enabled && !in_interrupt {
                IpiAction::Reschedule
            } else {
                IpiAction::Nothing
            },
        },
{
    let slot: usize = register_callback(state, callback);
    proof {
        let calls = state.callbacks();
        assert(calls.contains(callback)) by {
            assert(calls[slot as int] == callback);
        }
        assert(calls.index_of(callback) == slot);
    }
    match target {
        IpiTarget::All => {
            let mut queued: usize = 0;
            let mut cpu_id: usize = 0;
            let total: usize = state.cpus.len();
            let ghost start = state.records();
            while cpu_id < total
                invariant
                    state.wf(),
                    total == state.cpus@.len() == start.len(),
                    cpu_id <= total,
                    slot < state.callbacks().len(),
                    state.callbacks() == with_callback(old(state).callbacks(), callback),
                    state.spec_online_cpus() == old(state).spec_online_cpus(),
                    queued <= cpu_id,
                    queued == accepting_below(start, this_cpu, slot as int, cpu_id as nat),
                    forall|i: int|
                        cpu_id <= i < total ==> #[trigger] state.records()[i] == start[i],
                    forall|i: int|
                        0 <= i < cpu_id ==> if reached_by_all(start, this_cpu, i) {
                            posted_at(start[i], #[trigger] state.records()[i], slot as int)
                        } else {
                            state.records()[i] == start[i]
                        },
                decreases total - cpu_id,
            {
                let own = match this_cpu {
                    Some(id) => id == cpu_id,
                    None => false,
                };
                if !own && is_online(state, cpu_id) {
                    let ghost before = state.records();
                    if queue_ipi_job(state, cpu_id, slot) {
                        queued = queued + 1;
                    }
                    assert(state.records()[cpu_id as int] == state.records()[cpu_id as int]);
                    assert(posted_at(
                        before[cpu_id as int],
                        state.records()[cpu_id as int],
                        slot as int,
                    ));
                }
                cpu_id = cpu_id + 1;
            }
            if queued != 0 {
                (queued, IpiAction::SendAllExcludingSelf)
            } else {
                (0, IpiAction::Nothing)
            }
        },
        IpiTarget::Single(cpu_id) => {
            if queue_ipi_job(state, cpu_id, slot) {
                (1, kick_cpu(cpu_id, this_cpu, irqs_enabled, in_interrupt))
            } else {
                (0, IpiAction::Nothing)
            }
        },
    }
}

/// Registered callbacks once `callback` is among them.
pub open spec fn with_callback(calls: Seq<usize>, callback: usize) -> Seq<usize> {
    if calls.contains(callback) {
        calls
    } else {
        calls.push(callback)
    }
}

/// Whether `after` is `before` with `slot` marked pending.
pub open spec fn posted_at(before: CpuRecord, after: CpuRecord, slot: int) -> bool {
    &&& forall|k: u64|
        k < 64 ==> #[trigger] word_bit(after.core_local.ipi.pending, k) == (k == slot || word_bit(
            before.core_local.ipi.pending,
            k,
        ))
    &&& after == (CpuRecord {
        core_local: CoreLocal { ipi: after.core_local.ipi, ..before.core_local },
        ..before
    })
}

fn register_callback(state: &mut SmpState, callback: usize) -> (slot: usize)
    requires
        old(state).wf(),
        old(state).callbacks().contains(callback) || old(state).callbacks().len()
            < IPI_MAX_CALLBACKS,
    ensures
        final(state).wf(),
        final(state).records() == old(state).records(),
        final(state).spec_online_cpus() == old(state).spec_online_cpus(),
        final(state).callbacks() == with_callback(old(state).callbacks(), callback),
        slot < final(state).callbacks().len(),
        final(state).callbacks()[slot as int] == callback,
        final(state).callbacks().no_duplicates(),
{
    state.registry.slot_for(callback)
}

fn kick_cpu(cpu_id: usize, this_cpu: Option<usize>, irqs_enabled: bool, in_interrupt: bool) -> (
action: IpiAction)
    ensures
        action == if this_cpu != Some(cpu_id) {
            IpiAction::Send(cpu_id)
        } else if irqs_enabled && !in_interrupt {
            IpiAction::Reschedule
        } else {
            IpiAction::Nothing
        },
{
    match this_cpu {
        Some(id) if id == cpu_id => {
            if irqs_enabled && !in_interrupt {
                IpiAction::Reschedule
            } else {
                IpiAction::Nothing
            }
        },
        _ => IpiAction::Send(cpu_id),
    }
}

/// Pending slots at or after `from`, lowest first.
pub open spec fn pending_slots(pending: u64, from: int) -> Seq<int>
    decreases 64 - from,
{
    if from >= 64 {
        Seq::empty()
    } else if word_bit(pending, from as u64) {
        seq![from] + pending_slots(pending, from + 1)
    } else {
        pending_slots(pending, from + 1)
    }
}

proof fn lemma_pending_skip(pending: u64, from: int, until: int)
    requires
        0 <= from <= until <= 64,
        forall|k: u64| from <= k < until ==> !#[trigger] word_bit(pending, k),
    ensures
        pending_slots(pending, from) == pending_slots(pending, until),
    decreases until - from,
{
    if from < until {
        assert(!word_bit(pending, from as u64));
        lemma_pending_skip(pending, from + 1, until);
    }
}

proof fn lemma_pending_same(left: u64, right: u64, from: int)
    requires
        0 <= from <= 64,
        forall|k: u64| from <= k < 64 ==> #[trigger] word_bit(left, k) == word_bit(right, k),
    ensures
        pending_slots(left, from) == pending_slots(right, from),
    decreases 64 - from,
{
    if from < 64 {
        assert(word_bit(left, from as u64) == word_bit(right, from as u64));
        lemma_pending_same(left, right, from + 1);
    }
}

/// Takes the callbacks queued for `cpu_id`, in the order of their slots.
///
/// The CPU runs them before it decides which thread to resume.
pub fn drain_ipi_queue(state: &mut SmpState, cpu_id: usize) -> (callbacks: Vec<usize>)
    requires
        old(state).wf(),
        cpu_id < old(state).records().len(),
    ensures
        final(state).wf(),
        final(state).callbacks() == old(state).callbacks(),
        final(state).spec_online_cpus() == old(state).spec_online_cpus(),
        final(state).records() == old(state).records().update(
            cpu_id as int,
            CpuRecord {
                core_local: CoreLocal {
                    ipi: PerCpuIpi { pending: 0 },
                    ..old(state).records()[cpu_id as int].core_local
                },
                ..old(state).records()[cpu_id as int]
            },
        ),
        callbacks@ == pending_slots(
            old(state).records()[cpu_id as int].core_local.ipi.pending,
            0,
        ).map_values(|slot: int| old(state).callbacks()[slot]),
{
    let mut record = state.cpus[cpu_id];
    let mut pending: u64 = record.core_local.ipi.take();
    let ghost start = pending;
    state.cpus[cpu_id] = record;
    proof {
        lemma_online_same(old(state).cpus@, state.cpus@, state.cpus@.len());
        assert forall|i: int, k: u64|
            #![trigger word_bit(state.cpus@[i].core_local.ipi.pending, k)]
            0 <= i < state.cpus@.len() && state.registry@.len() <= k < 64 implies !word_bit(
            state.cpus@[i].core_local.ipi.pending,
            k,
        ) by {
            lemma_no_bits(k);
            assert(i == cpu_id || !word_bit(old(state).cpus@[i].core_local.ipi.pending, k));
        }
        assert forall|k: u64| state.registry@.len() <= k < 64 implies !#[trigger] word_bit(
            pending,
            k,
        ) by {
            assert(!word_bit(old(state).cpus@[cpu_id as int].core_local.ipi.pending, k));
        }
    }
    let mut callbacks: Vec<usize> = Vec::new();
    let ghost name = |slot: int| old(state).callbacks()[slot];
    while pending != 0
        invariant
            state.wf(),
            state.callbacks() == old(state).callbacks(),
            name == (|slot: int| old(state).callbacks()[slot]),
            forall|k: u64|
                state.registry@.len() <= k < 64 ==> !#[trigger] word_bit(pending, k),
            callbacks@ + pending_slots(pending, 0).map_values(name) == pending_slots(
                start,
                0,
            ).map_values(name),
        decreases pending,
    {
        let slot: usize = pending.trailing_zeros() as usize;
        let ghost before = pending;
        let ghost low = slot as u64;
        proof {
            axiom_u64_trailing_zeros(pending);
            lemma_below_lowest(pending, low);
            lemma_drop_shrinks(pending);
            assert(word_bit(pending, low));
            assert(low < state.registry@.len());
        }
        pending = pending & (pending - 1);
        proof {
            assert forall|k: u64| k < 64 implies #[trigger] word_bit(pending, k) == (k != low
                && word_bit(before, k)) by {
                lemma_drop_lowest(before, low, k);
            }
            assert forall|k: u64| 0 <= k < low implies !#[trigger] word_bit(before, k) by {
                assert((before >> k) & 1u64 == 0u64);
            }
            lemma_pending_skip(before, 0, low as int);
            lemma_pending_skip(pending, 0, low + 1);
            lemma_pending_same(before, pending, low + 1);
            assert(pending_slots(before, 0) == seq![low as int] + pending_slots(pending, 0));
            assert(pending_slots(before, 0).map_values(name) =~= seq![name(low as int)]
                + pending_slots(pending, 0).map_values(name));
        }
        let ghost done = callbacks@;
        callbacks.push(state.registry.callback(slot));
        assert(callbacks@ + pending_slots(pending, 0).map_values(name) =~= done + (seq![
            name(low as int),
        ] + pending_slots(pending, 0).map_values(name)));
    }
    proof {
        assert forall|k: u64| 0 <= k < 64 implies !#[trigger] word_bit(pending, k) by {
            lemma_no_bits(k);
        }
        lemma_pending_skip(pending, 0, 64);
        assert(callbacks@ + pending_slots(pending, 0).map_values(name) =~= callbacks@);
    }
    callbacks
}

/// A callback that is pending on a CPU is not queued there again until the
/// CPU drains its queue, and is queued again after that.
pub proof fn law_pending_callback_is_queued_once(
    before: Seq<CpuRecord>,
    after: Seq<CpuRecord>,
    cpu_id: int,
    slot: int,
)
    requires
        0 <= cpu_id < before.len(),
        0 <= slot < 64,
        before[cpu_id].online,
        posted(before, after, cpu_id, slot),
    ensures
        !accepts(after, cpu_id, slot),
        accepts(
            after.update(
                cpu_id,
                CpuRecord {
                    core_local: CoreLocal {
                        ipi: PerCpuIpi { pending: 0 },
                        ..after[cpu_id].core_local
                    },
                    ..after[cpu_id]
                },
            ),
            cpu_id,
            slot,
        ),
{
    assert(word_bit(after[cpu_id].core_local.ipi.pending, slot as u64));
    lemma_no_bits(slot as u64);
}

proof fn lemma_pending_found(pending: u64, from: int, slot: int)
    requires
        0 <= from <= slot < 64,
        word_bit(pending, slot as u64),
    ensures
        pending_slots(pending, from).contains(slot),
    decreases slot - from,
{
    let rest = pending_slots(pending, from + 1);
    if from == slot {
        assert((seq![from] + rest)[0] == slot);
    } else {
        lemma_pending_found(pending, from + 1, slot);
        let i = rest.index_of(slot);
        assert((seq![from] + rest)[i + 1] == slot);
    }
}

/// A callback that was queued for a CPU is among those that it drains next.
pub proof fn law_queued_callback_is_drained(
    before: Seq<CpuRecord>,
    after: Seq<CpuRecord>,
    cpu_id: int,
    slot: int,
    callbacks: Seq<usize>,
)
    requires
        0 <= cpu_id < before.len(),
        0 <= slot < 64,
        slot < callbacks.len(),
        posted(before, after, cpu_id, slot),
    ensures
        pending_slots(after[cpu_id].core_local.ipi.pending, 0).map_values(
            |s: int| callbacks[s],
        ).contains(callbacks[slot]),
{
    let pending = after[cpu_id].core_local.ipi.pending;
    assert(word_bit(pending, slot as u64));
    lemma_pending_found(pending, 0, slot);
    let slots = pending_slots(pending, 0);
    let i = slots.index_of(slot);
    assert(slots.map_values(|s: int| callbacks[s])[i] == callbacks[slot]);
}

proof fn lemma_none_accepts(records: Seq<CpuRecord>, this_cpu: Option<usize>, slot: int, n: nat)
    requires
        n <= records.len(),
        forall|i: int|
            0 <= i < records.len() && this_cpu != Some(i as usize) ==> !#[trigger] accepts(
                records,
                i,
                slot,
            ),
    ensures
        accepting_below(records, this_cpu, slot, n) == 0,
    decreases n,
{
    if n > 0 {
        lemma_none_accepts(records, this_cpu, slot, (n - 1) as nat);
        assert(this_cpu != Some((n - 1) as usize) ==> !accepts(records, n - 1, slot));
    }
}

/// Sending a callback to the same target again, before anything was drained,
/// queues it nowhere.
pub proof fn law_resent_callback_is_not_queued(
    before: SmpState,
    sent: SmpState,
    resent: SmpState,
    callback: usize,
    target: IpiTarget,
    this_cpu: Option<usize>,
    first: int,
    second: int,
)
    requires
        sent.wf(),
        queued(before, sent, callback, target, this_cpu, first),
        queued(sent, resent, callback, target, this_cpu, second),
    ensures
        second == 0,
        resent.callbacks() == sent.callbacks(),
{
    let slot = sent.callbacks().index_of(callback);
    assert(sent.callbacks().contains(callback));
    sent.law_callbacks_are_bounded();
    match target {
        IpiTarget::All => {
            assert forall|i: int|
                0 <= i < sent.records().len() && this_cpu != Some(i as usize) implies !#[trigger] accepts(
                sent.records(),
                i,
                slot,
            ) by {
                let after = sent.records()[i];
                if reached_by_all(before.records(), this_cpu, i) {
                    assert(word_bit(after.core_local.ipi.pending, slot as u64));
                }
            }
            lemma_none_accepts(sent.records(), this_cpu, slot, sent.records().len());
        },
        IpiTarget::Single(cpu_id) => {
            if before.spec_is_online(cpu_id as int) {
                assert(word_bit(
                    sent.records()[cpu_id as int].core_local.ipi.pending,
                    slot as u64,
                ));
            }
        },
    }
}

/// Taking a spinlock turns interrupts off and counts, giving it back counts
/// down and turns them on again only if they were on when it was taken.
pub proof fn law_lock_turns_interrupts_off(cpu: Masking)
    requires
        cpu.core.spinlock_depth < usize::MAX,
    ensures
        !cpu.acquired().irqs,
        cpu.acquired().core.spinlock_depth == cpu.core.spinlock_depth + 1,
        cpu.acquired().released(cpu.irqs) == cpu,
        !cpu.acquired().released(false).irqs,
        cpu.acquired().released(true).irqs,
        !cpu.acquired().may_sleep(),
{
}

/// A CPU sleeps only with interrupts on and no spinlock held; it blocks only
/// outside interrupts and without one.
pub proof fn law_sleep_needs_interrupts(cpu: Masking)
    ensures
        cpu.may_sleep() <==> cpu.irqs && cpu.core.spinlock_depth == 0,
        cpu.in_trap() <==> cpu.core.interrupt_depth > 0 && !cpu.irqs,
        cpu.blockable() <==> cpu.core.spinlock_depth == 0 && (cpu.core.interrupt_depth == 0
            || cpu.irqs),
        cpu.may_sleep() ==> cpu.blockable(),
{
}

/// A new CPU has its number, runs nothing and has nothing to do.
pub proof fn law_fresh_core_is_idle(cid: usize)
    ensures
        CoreLocal::fresh(cid).id == cid,
        CoreLocal::fresh(cid).spinlock_depth == 0,
        CoreLocal::fresh(cid).interrupt_depth == 0,
        CoreLocal::fresh(cid).ipi.pending == 0,
        CoreLocal::fresh(cid).current_thread == 0,
        CoreLocal::fresh(cid).active_address_root == 0,
{
}

/// A callback is sent to the other CPUs that are online and to them alone, or
/// to the one asked for, if it is online; each that did not have it pending yet
/// counts.
pub proof fn law_callback_reaches_online_cpus(
    before: SmpState,
    after: SmpState,
    callback: usize,
    target: IpiTarget,
    this_cpu: Option<usize>,
    count: int,
    i: int,
)
    requires
        queued(before, after, callback, target, this_cpu, count),
        0 <= i < before.records().len() <= usize::MAX,
        after.callbacks().len() <= 64,
    ensures
        ({
            let slot = after.callbacks().index_of(callback);
            let meant = match target {
                IpiTarget::All => this_cpu != Some(i as usize),
                IpiTarget::Single(cpu_id) => cpu_id == i,
            };
            let pending = word_bit(after.records()[i].core_local.ipi.pending, slot as u64);
            &&& after.callbacks().contains(callback)
            &&& meant && before.records()[i].online ==> pending
            &&& !meant || !before.records()[i].online ==> after.records()[i]
                == before.records()[i]
            &&& after.records()[i].online == before.records()[i].online
        }),
{
}

/// The number of CPUs that are online is at least one more when another comes
/// online, and counts exactly those that are.
pub proof fn law_online_cpus_are_counted(cpus: Seq<CpuRecord>, at: int, record: CpuRecord)
    requires
        0 <= at < cpus.len(),
        !cpus[at].online,
        record.online,
    ensures
        online_below(cpus.update(at, record), cpus.len()) == online_below(cpus, cpus.len()) + 1,
        online_below(cpus, cpus.len()) <= cpus.len(),
        online_below(cpus, 0) == 0,
{
    lemma_online_marked(cpus, at, record, cpus.len());
    lemma_online_bound(cpus, cpus.len());
}

/// The processors to start are all that were found but the one that boots, in
/// order.
pub proof fn law_boot_processor_is_not_started(ids: Seq<u64>, bsp: u64, id: u64)
    ensures
        others(ids, bsp).contains(id) <==> ids.contains(id) && id != bsp,
        others(ids, bsp).len() <= ids.len(),
    decreases ids.len(),
{
    if ids.len() > 0 {
        let rest = ids.drop_last();
        law_boot_processor_is_not_started(rest, bsp, id);
        let before = others(rest, bsp);
        let found = others(ids, bsp);
        if found.contains(id) {
            let i = choose|i: int| 0 <= i < found.len() && found[i] == id;
            if i < before.len() {
                assert(before[i] == id);
                let j = choose|j: int| 0 <= j < rest.len() && rest[j] == id;
                assert(ids[j] == id);
            } else {
                assert(ids[ids.len() - 1] == id);
            }
        }
        if ids.contains(id) && id != bsp {
            let j = choose|j: int| 0 <= j < ids.len() && ids[j] == id;
            if j < rest.len() {
                assert(rest[j] == id);
                let i = choose|i: int| 0 <= i < before.len() && before[i] == id;
                assert(found[i] == id);
            } else {
                assert(found[found.len() - 1] == id);
            }
        }
    }
}

/// What is pending is taken in the order of the slots, each once.
pub proof fn law_pending_callbacks_are_taken_in_order(pending: u64, from: int, slot: int)
    requires
        0 <= from <= 64,
        0 <= slot < 64,
    ensures
        pending_slots(pending, from).contains(slot) <==> from <= slot && word_bit(
            pending,
            slot as u64,
        ),
        forall|i: int, j: int|
            0 <= i < j < pending_slots(pending, from).len() ==> (#[trigger] pending_slots(
                pending,
                from,
            )[i]) < (#[trigger] pending_slots(pending, from)[j]),
        forall|i: int|
            0 <= i < pending_slots(pending, from).len() ==> from <= (#[trigger] pending_slots(
                pending,
                from,
            )[i]) < 64,
    decreases 64 - from,
{
    if from < 64 {
        law_pending_callbacks_are_taken_in_order(pending, from + 1, slot);
        let rest = pending_slots(pending, from + 1);
        let all = pending_slots(pending, from);
        if word_bit(pending, from as u64) {
            assert(all[0] == from);
            assert forall|i: int| 1 <= i < all.len() implies #[trigger] all[i] == rest[i - 1] by {}
            if rest.contains(slot) {
                let i = choose|i: int| 0 <= i < rest.len() && rest[i] == slot;
                assert(all[i + 1] == slot);
            }
            if all.contains(slot) {
                let i = choose|i: int| 0 <= i < all.len() && all[i] == slot;
                if i > 0 {
                    assert(rest[i - 1] == slot);
                }
            }
        }
    }
}

} // verus!
