//! POSIX signal state, delivery and signal file descriptors.

use vstd::prelude::*;
use crate::bytes::{
    copy_range, get_u64, lemma_u32_round_trip, lemma_u64_at, put_bytes, put_u32, put_u64, put_zeros,
    u32_at, u32_bytes, u64_at, u64_bytes, zeros,
};
use crate::lists::{any_where, first_where, lemma_finds, lemma_first_where};
use crate::fs::PollEvents;
use crate::mem::{MemoryModel, UserMemory, UserRange};
use crate::sys::event::{all_claimed, all_targets, waiters_known, Event, EventWaiter, WaitGroups};
use crate::sys::sync::WakeTarget;
use crate::syscall::Errno;
use crate::Arch;

verus! {

/// Highest signal number.
pub const SIGNAL_MAX: usize = 64;

/// Handler value: default action.
pub const SIG_DFL: u64 = 0;

/// Handler value: ignore.
pub const SIG_IGN: u64 = 1;

/// Terminal hung up.
pub const SIGHUP: u8 = 1;

/// Interrupt from the terminal.
pub const SIGINT: u8 = 2;

/// Quit from the terminal.
pub const SIGQUIT: u8 = 3;

/// Illegal instruction.
pub const SIGILL: u8 = 4;

/// Breakpoint.
pub const SIGTRAP: u8 = 5;

/// Bus error.
pub const SIGBUS: u8 = 7;

/// Arithmetic fault.
pub const SIGFPE: u8 = 8;

/// Kill; cannot be caught, blocked or ignored.
pub const SIGKILL: u8 = 9;

/// Invalid memory access.
pub const SIGSEGV: u8 = 11;

/// Write to a pipe without readers.
pub const SIGPIPE: u8 = 13;

/// A child exited.
pub const SIGCHLD: u8 = 17;

/// Continue.
pub const SIGCONT: u8 = 18;

/// Stop; cannot be caught, blocked or ignored.
pub const SIGSTOP: u8 = 19;

/// Stop from the terminal.
pub const SIGTSTP: u8 = 20;

/// Read from the terminal in the background.
pub const SIGTTIN: u8 = 21;

/// Write to the terminal in the background.
pub const SIGTTOU: u8 = 22;

/// Urgent data.
pub const SIGURG: u8 = 23;

/// The terminal changed its size.
pub const SIGWINCH: u8 = 28;

/// First signal that queues up instead of being pending once.
pub const SIGRTMIN: u8 = 35;

/// Mask change: block more.
pub const SIG_BLOCK: i32 = 0;

/// Mask change: block less.
pub const SIG_UNBLOCK: i32 = 1;

/// Mask change: replace.
pub const SIG_SETMASK: i32 = 2;

/// Action flag: run the handler on the alternate stack.
pub const SA_ONSTACK: u64 = 0x0800_0000;

/// Action flag: leave the signal unblocked in its handler.
pub const SA_NODEFER: u64 = 0x4000_0000;

/// Action flag: reset the action before its handler runs.
pub const SA_RESETHAND: u64 = 0x8000_0000;

/// All action flags that are understood.
pub const SUPPORTED_ACTION_FLAGS: u64 = 0xdc00_0007;

/// The signals that no mask blocks.
pub const UNBLOCKABLE: u64 = 0x4_0100;

/// Size of a signal information record.
pub const SIGNALFD_RECORD_SIZE: usize = 128;

/// Mark of a signal frame on the user stack.
pub const SIGNAL_FRAME_MAGIC: u64 = 0x524f_414e_5349_4746;

/// Signal sent by a process.
pub const SI_USER: i32 = 0;

/// Signal sent by the kernel.
pub const SI_KERNEL: i32 = 128;

/// What a process does on a signal.
#[derive(Copy, Clone, Debug, PartialEq, Eq, Structural)]
pub struct SignalAction {
    /// Address of the handler, or a special value.
    pub handler: u64,
    /// Flags.
    pub flags: u64,
    /// Where the handler returns to.
    pub restorer: u64,
    /// Signals blocked in the handler.
    pub mask: u64,
}

/// The action of every signal at first.
pub open spec fn default_action() -> SignalAction {
    SignalAction { handler: SIG_DFL, flags: 0, restorer: 0, mask: 0 }
}

impl SignalAction {
    /// Returns the action of every signal at first.
    pub fn initial() -> (action: Self)
        ensures
            action == default_action(),
    {
        SignalAction { handler: SIG_DFL, flags: 0, restorer: 0, mask: 0 }
    }
}

/// One pending signal.
#[derive(Copy, Clone, Debug, PartialEq, Eq, Structural)]
pub struct SignalInfo {
    /// Number.
    pub signal: u8,
    /// Where it came from.
    pub code: i32,
    /// Process that sent it.
    pub sender_pid: u32,
    /// User that sent it.
    pub sender_uid: u32,
    /// Whether the current instruction caused it.
    pub synchronous: bool,
}

/// What waiting for signals ended in.
#[derive(Copy, Clone, Debug, PartialEq, Eq, Structural)]
pub enum SignalWait {
    /// A signal that was waited for.
    Ready(SignalInfo),
    /// Another signal has to be delivered first.
    Interrupted,
    /// Nothing yet.
    Sleep,
}

/// Alternate signal stack.
#[derive(Copy, Clone, Debug, PartialEq, Eq, Structural)]
pub struct SignalStack {
    /// First byte.
    pub pointer: u64,
    /// Length.
    pub size: u64,
}

impl SignalStack {
    /// Whether `pointer` is on the stack.
    pub open spec fn has(self, pointer: u64) -> bool {
        self.pointer + self.size <= u64::MAX && self.pointer <= pointer < self.pointer + self.size
    }
}

/// Whether a stack contains an address.
pub fn stack_contains(stack: SignalStack, pointer: u64) -> (inside: bool)
    ensures
        inside == stack.has(pointer),
{
    match stack.pointer.checked_add(stack.size) {
        Some(end) => stack.pointer <= pointer && pointer < end,
        None => false,
    }
}

/// Whether a number is that of a signal.
pub open spec fn is_signal(signal: u8) -> bool {
    1 <= signal <= SIGNAL_MAX
}

/// The mask with one signal.
pub open spec fn bit_of(signal: u8) -> u64 {
    1u64 << ((signal - 1) as u64)
}

/// Whether `mask` holds `signal`.
pub open spec fn in_mask(mask: u64, signal: u8) -> bool {
    mask & bit_of(signal) != 0
}

/// Whether a signal stops the process by default.
pub open spec fn stops(signal: u8) -> bool {
    signal == SIGSTOP || signal == SIGTSTP || signal == SIGTTIN || signal == SIGTTOU
}

/// Whether a signal is ignored by default.
pub open spec fn ignored_by_default(signal: u8) -> bool {
    signal == SIGCHLD || signal == SIGCONT || signal == SIGURG || signal == SIGWINCH
}

/// The signals that do not stop the process.
pub open spec fn not_stopping() -> spec_fn(SignalInfo) -> bool {
    |p: SignalInfo| !stops(p.signal)
}

/// The signals with another number.
pub open spec fn other_than(signal: u8) -> spec_fn(SignalInfo) -> bool {
    |p: SignalInfo| p.signal != signal
}

/// The signals with this number.
pub open spec fn numbered(signal: u8) -> spec_fn(SignalInfo) -> bool {
    |p: SignalInfo| p.signal == signal
}

/// Whether no continue signal is pending together with a stop signal.
pub open spec fn at_peace(pending: Seq<SignalInfo>) -> bool {
    forall|i: int, j: int|
        #![trigger pending[i], pending[j]]
        0 <= i < pending.len() && 0 <= j < pending.len() && pending[i].signal == SIGCONT ==> !stops(
            pending[j].signal,
        )
}

/// Whether `info` is delivered while `mask` blocks signals.
pub open spec fn passes(mask: u64) -> spec_fn(SignalInfo) -> bool {
    |info: SignalInfo|
        info.synchronous || info.signal == SIGKILL || info.signal == SIGSTOP || !in_mask(
            mask,
            info.signal,
        )
}

/// Whether `info` is one of the signals in `mask`.
pub open spec fn matching(mask: u64) -> spec_fn(SignalInfo) -> bool {
    |info: SignalInfo| in_mask(mask, info.signal)
}

fn signal_bit(signal: u8) -> (bit: u64)
    requires
        is_signal(signal),
    ensures
        bit == bit_of(signal),
{
    1u64 << ((signal - 1) as u64)
}

fn default_ignored(signal: u8) -> (ignored: bool)
    ensures
        ignored == ignored_by_default(signal),
{
    signal == SIGCHLD || signal == SIGCONT || signal == SIGURG || signal == SIGWINCH
}

fn is_stop_signal(signal: u8) -> (stop: bool)
    ensures
        stop == stops(signal),
{
    signal == SIGSTOP || signal == SIGTSTP || signal == SIGTTIN || signal == SIGTTOU
}

fn is_deliverable(info: &SignalInfo, mask: u64) -> (deliverable: bool)
    requires
        is_signal(info.signal),
    ensures
        deliverable == passes(mask)(*info),
{
    info.synchronous || info.signal == SIGKILL || info.signal == SIGSTOP || mask & signal_bit(
        info.signal,
    ) == 0
}

proof fn lemma_unblockable(mask: u64)
    ensures
        !in_mask(mask & !UNBLOCKABLE, SIGKILL),
        !in_mask(mask & !UNBLOCKABLE, SIGSTOP),
{
    assert((mask & !0x4_0100u64) & (1u64 << 8u64) == 0 && (mask & !0x4_0100u64) & (1u64 << 18u64)
        == 0) by (bit_vector);
}

/// Signal state of a process.
#[verifier::ext_equal]
pub struct SignalModel {
    /// What the process does on each signal.
    pub actions: Seq<SignalAction>,
    /// Pending signals, oldest first.
    pub pending: Seq<SignalInfo>,
    /// Blocked signals.
    pub mask: u64,
    /// Alternate stack.
    pub alt_stack: Option<SignalStack>,
    /// Mask to restore after waiting for a signal.
    pub suspended: Option<u64>,
    /// Stopped thread and its sleep.
    pub stopped: Option<WakeTarget>,
    /// Whether waiters are told that signals are pending.
    pub ready: bool,
}

impl SignalModel {
    /// Every signal has an action, pending signals are signals, a standard
    /// signal is pending at most once, a continue signal never together with a
    /// stop signal, and kill and stop are never blocked.
    pub open spec fn ok(self) -> bool {
        &&& self.actions.len() == SIGNAL_MAX + 1
        &&& at_peace(self.pending)
        &&& forall|i: int|
            0 <= i < self.pending.len() ==> is_signal((#[trigger] self.pending[i]).signal)
        &&& forall|i: int, j: int|
            #![trigger self.pending[i], self.pending[j]]
            0 <= i < j < self.pending.len() && self.pending[i].signal == self.pending[j].signal
                ==> self.pending[i].signal >= SIGRTMIN
        &&& !in_mask(self.mask, SIGKILL)
        &&& !in_mask(self.mask, SIGSTOP)
    }

    /// The state after pending signal `i` was taken.
    pub open spec fn taken(self, i: int) -> SignalModel {
        SignalModel {
            pending: self.pending.remove(i),
            ready: self.ready && self.pending.len() > 1,
            ..self
        }
    }

    /// The state with another mask.
    pub open spec fn masked(self, mask: u64) -> SignalModel {
        SignalModel { mask: mask & !UNBLOCKABLE, ..self }
    }

    /// Whether `info` ends a wait for signals.
    pub open spec fn interrupted_by(self) -> spec_fn(SignalInfo) -> bool {
        |info: SignalInfo|
            passes(self.mask)(info) && {
                let handler = self.actions[info.signal as int].handler;
                handler != SIG_IGN && !(handler == SIG_DFL && ignored_by_default(info.signal))
            }
    }

    /// The state after `info` arrived.
    pub open spec fn enqueued(self, info: SignalInfo) -> SignalModel {
        let signal = info.signal;
        let resumes = signal == SIGCONT || signal == SIGKILL;
        let pending = if resumes {
            self.pending.filter(not_stopping())
        } else if stops(signal) {
            self.pending.filter(other_than(SIGCONT))
        } else {
            self.pending
        };
        let ignored = self.actions[signal as int].handler == SIG_IGN && signal != SIGKILL && signal
            != SIGSTOP;
        let duplicate = signal < SIGRTMIN && any_where(pending, numbered(signal));
        SignalModel {
            pending: if !ignored && !duplicate {
                pending.push(info)
            } else {
                pending
            },
            stopped: if resumes {
                None
            } else {
                self.stopped
            },
            ready: self.ready || (!ignored && !duplicate),
            ..self
        }
    }
}

/// Signal dispositions, pending queue and wait event of a process.
pub struct SignalManager {
    actions: Vec<SignalAction>,
    pending: Vec<SignalInfo>,
    mask: u64,
    alt_stack: Option<SignalStack>,
    suspended: Option<u64>,
    stopped: Option<WakeTarget>,
    event: Event,
}

impl View for SignalManager {
    type V = SignalModel;

    closed spec fn view(&self) -> SignalModel {
        SignalModel {
            actions: self.actions@,
            pending: self.pending@,
            mask: self.mask,
            alt_stack: self.alt_stack,
            suspended: self.suspended,
            stopped: self.stopped,
            ready: self.event@.signaled,
        }
    }
}

impl SignalManager {
    /// The state and its event are consistent.
    pub closed spec fn wf(self) -> bool {
        &&& self@.ok()
        &&& self.event.wf()
    }

    /// Threads that wait for signals.
    pub closed spec fn waiters(self) -> Seq<EventWaiter> {
        self.event@.waiters
    }

    /// A consistent state satisfies its invariant.
    pub proof fn lemma_wf(&self)
        requires
            self.wf(),
        ensures
            self@.ok(),
    {
    }

    /// No signals, no handlers.
    pub fn new() -> (manager: Self)
        ensures
            manager.wf(),
            manager@.actions == Seq::new(65, |i: int| default_action()),
            manager@.pending.len() == 0,
            manager@.mask == 0,
            manager@.alt_stack.is_none(),
            manager@.suspended.is_none(),
            manager@.stopped.is_none(),
            !manager@.ready,
            manager.waiters().len() == 0,
    {
        let mut actions: Vec<SignalAction> = Vec::new();
        while actions.len() < SIGNAL_MAX + 1
            invariant
                actions@.len() <= 65,
                actions@ =~= Seq::new(actions@.len(), |i: int| default_action()),
            decreases 65 - actions@.len(),
        {
            actions.push(SignalAction::initial());
        }
        proof {
            assert(0u64 & !0x4_0100u64 == 0) by (bit_vector);
            lemma_unblockable(0);
        }
        SignalManager {
            actions,
            pending: Vec::new(),
            mask: 0,
            alt_stack: None,
            suspended: None,
            stopped: None,
            event: Event::new(),
        }
    }

    /// The signal state of a forked process: the parent's without its pending
    /// signals.
    pub fn fork_from(parent: &Self) -> (manager: Self)
        requires
            parent.wf(),
        ensures
            manager.wf(),
            manager@ == (SignalModel {
                pending: Seq::empty(),
                suspended: None,
                stopped: None,
                ready: false,
                ..parent@
            }),
            manager.waiters().len() == 0,
    {
        let mut actions: Vec<SignalAction> = Vec::new();
        let mut at: usize = 0;
        while at < parent.actions.len()
            invariant
                at <= parent.actions@.len(),
                actions@ =~= parent.actions@.take(at as int),
            decreases parent.actions@.len() - at,
        {
            actions.push(parent.actions[at]);
            at = at + 1;
        }
        assert(parent.actions@.take(at as int) =~= parent.actions@);
        SignalManager {
            actions,
            pending: Vec::new(),
            mask: parent.mask,
            alt_stack: parent.alt_stack,
            suspended: None,
            stopped: None,
            event: Event::new(),
        }
    }

    /// Forgets handlers, but not what is ignored, when a program is replaced.
    pub fn reset_for_exec(&mut self)
        requires
            old(self).wf(),
        ensures
            final(self).wf(),
            final(self).waiters() == old(self).waiters(),
            final(self)@ == (SignalModel {
                actions: Seq::new(
                    65,
                    |i: int|
                        if i > 0 && old(self)@.actions[i].handler != SIG_IGN {
                            default_action()
                        } else {
                            old(self)@.actions[i]
                        },
                ),
                alt_stack: None,
                suspended: None,
                stopped: None,
                ..old(self)@
            }),
    {
        let mut at: usize = 1;
        while at < self.actions.len()
            invariant
                1 <= at <= 65,
                self.actions@.len() == 65,
                old(self).actions@.len() == 65,
                *self == (SignalManager { actions: self.actions, ..*old(self) }),
                forall|i: int|
                    0 <= i < 65 ==> #[trigger] self.actions@[i] == if 0 < i < at && old(
                        self,
                    ).actions@[i].handler != SIG_IGN {
                        default_action()
                    } else {
                        old(self).actions@[i]
                    },
            decreases 65 - at,
        {
            if self.actions[at].handler != SIG_IGN {
                self.actions.set(at, SignalAction::initial());
            }
            at = at + 1;
        }
        self.alt_stack = None;
        self.suspended = None;
        self.stopped = None;
    }

    /// Returns the action of a signal.
    pub fn action(&self, signal: u8) -> (action: SignalAction)
        requires
            self.wf(),
            is_signal(signal),
        ensures
            action == self@.actions[signal as int],
    {
        self.actions[signal as usize]
    }

    fn retain_others(&mut self, drop_stops: bool, signal: u8)
        requires
            old(self).wf(),
        ensures
            final(self).wf(),
            final(self).waiters() == old(self).waiters(),
            final(self)@ == (SignalModel {
                pending: old(self)@.pending.filter(
                    if drop_stops {
                        not_stopping()
                    } else {
                        other_than(signal)
                    },
                ),
                ..old(self)@
            }),
    {
        let ghost keep = if drop_stops {
            not_stopping()
        } else {
            other_than(signal)
        };
        let ghost before = self.pending@;
        let mut kept: Vec<SignalInfo> = Vec::new();
        let mut at: usize = 0;
        while at < self.pending.len()
            invariant
                *self == *old(self),
                before == self.pending@,
                keep == if drop_stops {
                    not_stopping()
                } else {
                    other_than(signal)
                },
                at <= before.len(),
                kept@ == before.take(at as int).filter(keep),
            decreases before.len() - at,
        {
            let info = self.pending[at];
            proof {
                reveal(Seq::filter);
                let longer = before.take(at + 1);
                assert(longer.drop_last() =~= before.take(at as int));
                assert(longer.last() == info);
            }
            let hit = if drop_stops {
                is_stop_signal(info.signal)
            } else {
                info.signal == signal
            };
            if !hit {
                kept.push(info);
            }
            at = at + 1;
        }
        proof {
            assert(before.take(at as int) =~= before);
            lemma_filter_ok(before, keep);
        }
        self.pending = kept;
    }

    /// Changes the action of a signal and returns the old one; a signal that
    /// is ignored from now on is no longer pending.
    pub fn set_action(&mut self, signal: u8, action: SignalAction) -> (previous: SignalAction)
        requires
            old(self).wf(),
            is_signal(signal),
        ensures
            final(self).wf(),
            final(self).waiters() == old(self).waiters(),
            previous == old(self)@.actions[signal as int],
            final(self)@ == (SignalModel {
                actions: old(self)@.actions.update(signal as int, action),
                pending: if action.handler == SIG_IGN {
                    old(self)@.pending.filter(other_than(signal))
                } else {
                    old(self)@.pending
                },
                ..old(self)@
            }),
    {
        let previous = self.actions[signal as usize];
        self.actions.set(signal as usize, action);
        if action.handler == SIG_IGN {
            self.retain_others(false, signal);
        }
        previous
    }

    /// Returns the blocked signals.
    pub fn mask(&self) -> (mask: u64)
        ensures
            mask == self@.mask,
    {
        self.mask
    }

    /// Changes the blocked signals and returns the old ones.
    pub fn update_mask(&mut self, how: i32, mask: u64) -> (previous: Result<u64, Errno>)
        requires
            old(self).wf(),
        ensures
            final(self).wf(),
            final(self).waiters() == old(self).waiters(),
            previous == if how == SIG_BLOCK || how == SIG_UNBLOCK || how == SIG_SETMASK {
                Ok::<u64, Errno>(old(self)@.mask)
            } else {
                Err(Errno::Invalid)
            },
            final(self)@ == if how == SIG_BLOCK {
                old(self)@.masked(old(self)@.mask | mask)
            } else if how == SIG_UNBLOCK {
                old(self)@.masked(old(self)@.mask & !mask)
            } else if how == SIG_SETMASK {
                old(self)@.masked(mask)
            } else {
                old(self)@
            },
            forall|s: u8|
                1 <= s <= 64 && s != 9 && s != 19 ==> (#[trigger] in_mask(final(self)@.mask, s)
                    <==> if how == 0 {
                    in_mask(old(self)@.mask, s) || in_mask(mask, s)
                } else if how == 1 {
                    in_mask(old(self)@.mask, s) && !in_mask(mask, s)
                } else if how == 2 {
                    in_mask(mask, s)
                } else {
                    in_mask(old(self)@.mask, s)
                }),
    {
        let previous: u64 = self.mask;
        let next: u64 = if how == SIG_BLOCK {
            previous | mask
        } else if how == SIG_UNBLOCK {
            previous & !mask
        } else if how == SIG_SETMASK {
            mask
        } else {
            return Err(Errno::Invalid);
        };
        self.restore_mask(next);
        proof {
            assert forall|s: u8| 1 <= s <= 64 && s != 9 && s != 19 implies (#[trigger] in_mask(
                self@.mask,
                s,
            ) <==> if how == 0 {
                in_mask(previous, s) || in_mask(mask, s)
            } else if how == 1 {
                in_mask(previous, s) && !in_mask(mask, s)
            } else {
                in_mask(mask, s)
            }) by {
                let place = (s - 1) as u64;
                lemma_mask_union(previous, mask, place);
                lemma_plain_mask(mask, place);
                lemma_plain_mask(previous & !mask, place);
                lemma_mask_minus(previous, mask, place);
            }
        }
        Ok(previous)
    }

    /// Blocks exactly the signals in `mask` that can be blocked.
    pub fn restore_mask(&mut self, mask: u64)
        requires
            old(self).wf(),
        ensures
            final(self).wf(),
            final(self).waiters() == old(self).waiters(),
            final(self)@ == old(self)@.masked(mask),
    {
        proof {
            lemma_unblockable(mask);
        }
        self.mask = mask & !UNBLOCKABLE;
    }

    /// Returns the mask of the pending signals.
    pub fn pending_mask(&self) -> (mask: u64)
        requires
            self.wf(),
        ensures
            mask == mask_of(self@.pending),
    {
        let mut mask: u64 = 0;
        let mut at: usize = 0;
        while at < self.pending.len()
            invariant
                self.wf(),
                at <= self.pending@.len(),
                mask == mask_of(self.pending@.take(at as int)),
            decreases self.pending@.len() - at,
        {
            proof {
                let longer = self.pending@.take(at + 1);
                assert(longer.drop_last() =~= self.pending@.take(at as int));
                assert(is_signal(self@.pending[at as int].signal));
            }
            mask = mask | signal_bit(self.pending[at].signal);
            at = at + 1;
        }
        assert(self.pending@.take(at as int) =~= self.pending@);
        mask
    }

    /// Returns the alternate stack.
    pub fn alt_stack(&self) -> (stack: Option<SignalStack>)
        ensures
            stack == self@.alt_stack,
    {
        self.alt_stack
    }

    /// Changes the alternate stack.
    pub fn replace_alt_stack(&mut self, stack: Option<SignalStack>)
        requires
            old(self).wf(),
        ensures
            final(self).wf(),
            final(self).waiters() == old(self).waiters(),
            final(self)@ == (SignalModel { alt_stack: stack, ..old(self)@ }),
    {
        self.alt_stack = stack;
    }

    /// Blocks `mask` until a signal was delivered, and remembers what was
    /// blocked before.
    pub fn begin_suspend(&mut self, mask: u64)
        requires
            old(self).wf(),
        ensures
            final(self).wf(),
            final(self).waiters() == old(self).waiters(),
            final(self)@ == (SignalModel {
                suspended: Some(
                    match old(self)@.suspended {
                        Some(m) => m,
                        None => old(self)@.mask,
                    },
                ),
                ..old(self)@.masked(mask)
            }),
    {
        if self.suspended.is_none() {
            self.suspended = Some(self.mask);
        }
        self.restore_mask(mask);
    }

    /// Takes the mask that was remembered by [`SignalManager::begin_suspend`].
    pub fn take_suspend_restore_mask(&mut self) -> (mask: Option<u64>)
        requires
            old(self).wf(),
        ensures
            final(self).wf(),
            final(self).waiters() == old(self).waiters(),
            mask == old(self)@.suspended,
            final(self)@ == (SignalModel { suspended: None, ..old(self)@ }),
    {
        let mask = self.suspended;
        self.suspended = None;
        mask
    }

    fn position_of(&self, mask: u64, deliverable: bool) -> (at: usize)
        requires
            self.wf(),
        ensures
            at == first_where(
                self@.pending,
                if deliverable {
                    passes(mask)
                } else {
                    matching(mask)
                },
                0,
            ),
            at <= self@.pending.len(),
    {
        let ghost wanted = if deliverable {
            passes(mask)
        } else {
            matching(mask)
        };
        let mut at: usize = 0;
        while at < self.pending.len()
            invariant
                self.wf(),
                at <= self.pending@.len(),
                wanted == if deliverable {
                    passes(mask)
                } else {
                    matching(mask)
                },
                first_where(self@.pending, wanted, 0) == first_where(
                    self@.pending,
                    wanted,
                    at as int,
                ),
            decreases self.pending@.len() - at,
        {
            let info = self.pending[at];
            assert(is_signal(self@.pending[at as int].signal));
            let hit = if deliverable {
                is_deliverable(&info, mask)
            } else {
                mask & signal_bit(info.signal) != 0
            };
            if hit {
                return at;
            }
            at = at + 1;
        }
        at
    }

    fn take_at(&mut self, at: usize) -> (info: SignalInfo)
        requires
            old(self).wf(),
            at < old(self)@.pending.len(),
        ensures
            final(self).wf(),
            final(self).waiters() == old(self).waiters(),
            info == old(self)@.pending[at as int],
            final(self)@ == old(self)@.taken(at as int),
    {
        let info = self.pending.remove(at);
        if self.pending.len() == 0 {
            let _ = self.event.reset();
        }
        info
    }

    /// Prepares a wait that signals interrupt; tells whether one has to be
    /// delivered at once.
    pub fn prepare_interrupt_wait(&mut self) -> (interrupted: bool)
        requires
            old(self).wf(),
        ensures
            final(self).wf(),
            final(self).waiters() == old(self).waiters(),
            interrupted == any_where(old(self)@.pending, old(self)@.interrupted_by()),
            final(self)@ == if interrupted {
                old(self)@
            } else {
                SignalModel { ready: false, ..old(self)@ }
            },
    {
        let mut at: usize = 0;
        let ghost ends = self@.interrupted_by();
        while at < self.pending.len()
            invariant
                *self == *old(self),
                self.wf(),
                ends == self@.interrupted_by(),
                at <= self.pending@.len(),
                first_where(self@.pending, ends, 0) == first_where(self@.pending, ends, at as int),
            decreases self.pending@.len() - at,
        {
            let info = self.pending[at];
            assert(is_signal(self@.pending[at as int].signal));
            if is_deliverable(&info, self.mask) {
                let handler: u64 = self.actions[info.signal as usize].handler;
                if handler != SIG_IGN && !(handler == SIG_DFL && default_ignored(info.signal)) {
                    return true;
                }
            }
            at = at + 1;
        }
        let _ = self.event.reset();
        false
    }

    /// Prepares a wait for the signals in `waited`.
    pub fn prepare_signal_wait(&mut self, waited: u64) -> (wait: SignalWait)
        requires
            old(self).wf(),
        ensures
            final(self).wf(),
            final(self).waiters() == old(self).waiters(),
            ({
                let before = old(self)@;
                let at = first_where(before.pending, matching(waited), 0);
                if at < before.pending.len() {
                    &&& wait == SignalWait::Ready(before.pending[at])
                    &&& final(self)@ == before.taken(at)
                } else if any_where(before.pending, passes(before.mask)) {
                    &&& wait == SignalWait::Interrupted
                    &&& final(self)@ == before
                } else {
                    &&& wait == SignalWait::Sleep
                    &&& final(self)@ == (SignalModel { ready: false, ..before })
                }
            }),
    {
        let at: usize = self.position_of(waited, false);
        if at < self.pending.len() {
            return SignalWait::Ready(self.take_at(at));
        }
        if self.position_of(self.mask, true) < self.pending.len() {
            return SignalWait::Interrupted;
        }
        let _ = self.event.reset();
        SignalWait::Sleep
    }

    /// Takes the oldest signal that is not blocked.
    pub fn take_deliverable(&mut self) -> (info: Option<SignalInfo>)
        requires
            old(self).wf(),
        ensures
            final(self).wf(),
            final(self).waiters() == old(self).waiters(),
            ({
                let before = old(self)@;
                let at = first_where(before.pending, passes(before.mask), 0);
                if at < before.pending.len() {
                    info == Some(before.pending[at]) && final(self)@ == before.taken(at)
                } else {
                    info.is_none() && final(self)@ == before
                }
            }),
    {
        let at: usize = self.position_of(self.mask, true);
        if at < self.pending.len() {
            Some(self.take_at(at))
        } else {
            None
        }
    }

    /// Takes the oldest signal in `mask`.
    pub fn take_matching(&mut self, mask: u64) -> (info: Option<SignalInfo>)
        requires
            old(self).wf(),
        ensures
            final(self).wf(),
            final(self).waiters() == old(self).waiters(),
            ({
                let before = old(self)@;
                let at = first_where(before.pending, matching(mask), 0);
                if at < before.pending.len() {
                    info == Some(before.pending[at]) && final(self)@ == before.taken(at)
                } else {
                    info.is_none() && final(self)@ == before
                }
            }),
    {
        let at: usize = self.position_of(mask, false);
        if at < self.pending.len() {
            Some(self.take_at(at))
        } else {
            None
        }
    }

    /// Returns whether a signal in `mask` is pending.
    pub fn has_matching(&self, mask: u64) -> (found: bool)
        requires
            self.wf(),
        ensures
            found == any_where(self@.pending, matching(mask)),
    {
        self.position_of(mask, false) < self.pending.len()
    }

    /// Prepares a wait for the signals in `mask`; tells whether one is pending.
    pub fn prepare_matching_wait(&mut self, mask: u64) -> (found: bool)
        requires
            old(self).wf(),
        ensures
            final(self).wf(),
            final(self).waiters() == old(self).waiters(),
            found == any_where(old(self)@.pending, matching(mask)),
            final(self)@ == if found {
                old(self)@
            } else {
                SignalModel { ready: false, ..old(self)@ }
            },
    {
        if self.has_matching(mask) {
            return true;
        }
        let _ = self.event.reset();
        false
    }

    /// Records the thread that a stop signal put to sleep.
    pub fn mark_stopped(&mut self, target: WakeTarget)
        requires
            old(self).wf(),
        ensures
            final(self).wf(),
            final(self).waiters() == old(self).waiters(),
            final(self)@ == (SignalModel { stopped: Some(target), ..old(self)@ }),
    {
        self.stopped = Some(target);
    }

    /// Adds a signal, unless it is ignored or pending already.
    ///
    /// A continue or kill signal cancels pending stops and resumes a stopped
    /// process; a stop signal cancels a pending continue. Returns whom to wake:
    /// the threads that wait for signals, and the stopped thread.
    pub fn enqueue(&mut self, info: SignalInfo, groups: &mut WaitGroups) -> (wake: (
        Vec<WakeTarget>,
        Option<WakeTarget>,
    ))
        requires
            old(self).wf(),
            is_signal(info.signal),
            waiters_known(old(self).waiters(), old(groups)@),
        ensures
            final(self).wf(),
            final(self)@ == old(self)@.enqueued(info),
            wake.1 == if info.signal == SIGCONT || info.signal == SIGKILL {
                old(self)@.stopped
            } else {
                None
            },
            old(self)@.accepted(info) ==> {
                &&& final(self).waiters().len() == 0
                &&& final(groups)@ == all_claimed(old(self).waiters(), old(groups)@)
                &&& wake.0@ == all_targets(old(self).waiters(), old(groups)@)
            },
            !old(self)@.accepted(info) ==> {
                &&& final(self).waiters() == old(self).waiters()
                &&& final(groups)@ == old(groups)@
                &&& wake.0@.len() == 0
            },
    {
        let signal: u8 = info.signal;
        let ghost before = self@;
        let mut resumed: Option<WakeTarget> = None;
        if signal == SIGCONT || signal == SIGKILL {
            self.retain_others(true, 0);
            resumed = self.stopped;
            let ghost kept = self@;
            self.stopped = None;
            assert(self@.pending == kept.pending && self@.actions == kept.actions && self@.mask
                == kept.mask);
            assert(self@.ok());
        } else if is_stop_signal(signal) {
            self.retain_others(false, SIGCONT);
        }
        let ignored = self.actions[signal as usize].handler == SIG_IGN && signal != SIGKILL
            && signal != SIGSTOP;
        let duplicate = signal < SIGRTMIN && self.is_pending(signal);
        if ignored || duplicate {
            assert(self@ =~= before.enqueued(info));
            return (Vec::new(), resumed);
        }
        proof {
            if signal < SIGRTMIN {
                assert forall|i: int| 0 <= i < self.pending@.len() implies (
                #[trigger] self.pending@[i]).signal != signal by {
                    if self.pending@[i].signal == signal {
                        lemma_finds(self.pending@, numbered(signal), i);
                    }
                }
            }
        }
        let ghost quiet = self@;
        self.pending.push(info);
        let targets = self.event.signal(groups);
        proof {
            assert(self@.pending == quiet.pending.push(info));
            assert forall|i: int, j: int|
                #![trigger self@.pending[i], self@.pending[j]]
                0 <= i < j < self@.pending.len() && self@.pending[i].signal
                    == self@.pending[j].signal implies self@.pending[i].signal >= SIGRTMIN by {
                assert(self@.pending[i] == quiet.pending[i]);
                if j < quiet.pending.len() {
                    assert(self@.pending[j] == quiet.pending[j]);
                }
            }
            if signal == SIGCONT {
                lemma_filtered(before.pending, not_stopping());
            } else if stops(signal) {
                lemma_filtered(before.pending, other_than(SIGCONT));
            }
            assert(at_peace(self@.pending)) by {
                let all = self@.pending;
                let n = quiet.pending.len() as int;
                assert forall|i: int, j: int|
                    #![trigger all[i], all[j]]
                    0 <= i < all.len() && 0 <= j < all.len() && all[i].signal == SIGCONT implies !stops(
                    all[j].signal,
                ) by {
                    if i < n {
                        assert(all[i] == quiet.pending[i]);
                    }
                    if j < n {
                        assert(all[j] == quiet.pending[j]);
                    }
                }
            }
            assert(self@.ok());
        }
        assert(self@ =~= before.enqueued(info));
        (targets, resumed)
    }

    fn is_pending(&self, signal: u8) -> (found: bool)
        ensures
            found == any_where(self@.pending, numbered(signal)),
    {
        let ghost same = numbered(signal);
        let mut at: usize = 0;
        while at < self.pending.len()
            invariant
                at <= self.pending@.len(),
                same == numbered(signal),
                first_where(self@.pending, same, 0) == first_where(self@.pending, same, at as int),
            decreases self.pending@.len() - at,
        {
            if self.pending[at].signal == signal {
                return true;
            }
            at = at + 1;
        }
        false
    }
}

/// The mask of several signals.
pub open spec fn mask_of(pending: Seq<SignalInfo>) -> u64
    decreases pending.len(),
{
    if pending.len() == 0 {
        0
    } else {
        mask_of(pending.drop_last()) | bit_of(pending.last().signal)
    }
}

impl SignalModel {
    /// Whether `info` becomes pending: it is neither ignored nor pending
    /// already.
    pub open spec fn accepted(self, info: SignalInfo) -> bool {
        let signal = info.signal;
        let pending = if signal == SIGCONT || signal == SIGKILL {
            self.pending.filter(not_stopping())
        } else if stops(signal) {
            self.pending.filter(other_than(SIGCONT))
        } else {
            self.pending
        };
        let ignored = self.actions[signal as int].handler == SIG_IGN && signal != SIGKILL && signal
            != SIGSTOP;
        !ignored && !(signal < SIGRTMIN && any_where(pending, numbered(signal)))
    }
}

/// Dropping pending signals keeps standard ones unique.
proof fn lemma_filter_ok(s: Seq<SignalInfo>, p: spec_fn(SignalInfo) -> bool)
    requires
        forall|i: int| 0 <= i < s.len() ==> is_signal((#[trigger] s[i]).signal),
        forall|i: int, j: int|
            #![trigger s[i], s[j]]
            0 <= i < j < s.len() && s[i].signal == s[j].signal ==> s[i].signal >= SIGRTMIN,
    ensures
        forall|i: int| 0 <= i < s.filter(p).len() ==> s.contains(#[trigger] s.filter(p)[i]),
        forall|i: int|
            0 <= i < s.filter(p).len() ==> is_signal((#[trigger] s.filter(p)[i]).signal),
        forall|i: int, j: int|
            #![trigger s.filter(p)[i], s.filter(p)[j]]
            0 <= i < j < s.filter(p).len() && s.filter(p)[i].signal == s.filter(p)[j].signal
                ==> s.filter(p)[i].signal >= SIGRTMIN,
        at_peace(s) ==> at_peace(s.filter(p)),
    decreases s.len(),
{
    reveal(Seq::filter);
    if s.len() > 0 {
        let rest = s.drop_last();
        lemma_filter_ok(rest, p);
        let kept = rest.filter(p);
        let f = s.filter(p);
        assert forall|i: int| 0 <= i < f.len() implies s.contains(#[trigger] f[i]) by {
            if i < kept.len() {
                assert(f[i] == kept[i]);
                assert(rest.contains(kept[i]));
                let k = choose|k: int| 0 <= k < rest.len() && rest[k] == kept[i];
                assert(s[k] == f[i]);
            } else {
                assert(f[i] == s[s.len() - 1]);
            }
        }
        assert forall|i: int, j: int|
            #![trigger f[i], f[j]]
            0 <= i < j < f.len() && f[i].signal == f[j].signal implies f[i].signal >= SIGRTMIN by {
            if j < kept.len() {
                assert(f[i] == kept[i] && f[j] == kept[j]);
            } else {
                assert(rest.contains(kept[i]));
                let k = choose|k: int| 0 <= k < rest.len() && rest[k] == kept[i];
                assert(s[k] == f[i] && s[s.len() - 1] == f[j]);
            }
        }
        if at_peace(s) {
            assert forall|i: int, j: int|
                #![trigger f[i], f[j]]
                0 <= i < f.len() && 0 <= j < f.len() && f[i].signal == SIGCONT implies !stops(
                f[j].signal,
            ) by {
                assert(s.contains(f[i]) && s.contains(f[j]));
                let a = choose|k: int| 0 <= k < s.len() && s[k] == f[i];
                let b = choose|k: int| 0 <= k < s.len() && s[k] == f[j];
                assert(!stops(s[b].signal) || s[a].signal != SIGCONT);
            }
        }
    }
}

/// The record that a handler gets for a signal.
pub open spec fn siginfo_of(info: SignalInfo) -> Seq<u8> {
    u32_bytes(info.signal as u32) + zeros(4) + u32_bytes(info.code as u32) + zeros(4) + u32_bytes(
        info.sender_pid,
    ) + u32_bytes(info.sender_uid) + zeros(104)
}

/// The record that a signal descriptor hands out for a signal.
#[verifier::opaque]
pub open spec fn signalfd_record(info: SignalInfo) -> Seq<u8> {
    u32_bytes(info.signal as u32) + zeros(4) + u32_bytes(info.code as u32) + u32_bytes(
        info.sender_pid,
    ) + u32_bytes(info.sender_uid) + zeros(108)
}

/// Encodes the record that a handler gets for a signal.
pub fn siginfo(info: &SignalInfo) -> (record: Vec<u8>)
    ensures
        record@ == siginfo_of(*info),
        record@.len() == SIGNALFD_RECORD_SIZE,
{
    let mut record: Vec<u8> = Vec::new();
    put_u32(&mut record, info.signal as u32);
    put_zeros(&mut record, 4);
    put_u32(&mut record, #[verifier::truncate] (info.code as u32));
    put_zeros(&mut record, 4);
    put_u32(&mut record, info.sender_pid);
    put_u32(&mut record, info.sender_uid);
    put_zeros(&mut record, 104);
    assert(record@ =~= siginfo_of(*info));
    record
}

/// Encodes the record that a signal descriptor hands out for a signal.
pub fn encode_signalfd_info(record: &mut Vec<u8>, info: &SignalInfo)
    ensures
        final(record)@ == old(record)@ + signalfd_record(*info),
        signalfd_record(*info).len() == SIGNALFD_RECORD_SIZE,
{
    put_u32(record, info.signal as u32);
    put_zeros(record, 4);
    put_u32(record, #[verifier::truncate] (info.code as u32));
    put_u32(record, info.sender_pid);
    put_u32(record, info.sender_uid);
    put_zeros(record, 108);
    proof {
        reveal(signalfd_record);
        assert(record@ =~= old(record)@ + signalfd_record(*info));
    }
}

/// What is saved on the user stack while a handler runs.
#[verifier::ext_equal]
pub struct FrameModel {
    /// Mask to restore.
    pub old_mask: u64,
    /// Registers to restore.
    pub saved: Seq<u8>,
    /// Record of the signal.
    pub info: Seq<u8>,
}

/// The bytes on the user stack: mark, mask, registers, record.
pub open spec fn frame_bytes(frame: FrameModel) -> Seq<u8> {
    u64_bytes(SIGNAL_FRAME_MAGIC) + u64_bytes(frame.old_mask) + frame.saved + frame.info
}

/// Where a handler and its frame go: frame, handler stack, place of the
/// return address.
pub open spec fn frame_places(arch: Arch, range: UserRange, stack: u64, size: int) -> Option<
    (u64, u64, Option<u64>),
> {
    let below = match arch {
        Arch::X86_64 => stack - 128 - size - 15,
        Arch::Riscv64 => stack - size - 15,
    };
    let frame = below - below % 16;
    if below < 0 {
        None
    } else {
        match arch {
            Arch::X86_64 => if frame >= 8 && frame - 8 >= range.min {
                Some((frame as u64, (frame - 8) as u64, Some((frame - 8) as u64)))
            } else {
                None
            },
            Arch::Riscv64 => if frame >= range.min {
                Some((frame as u64, frame as u64, None))
            } else {
                None
            },
        }
    }
}

/// Finds room for a frame of `frame_size` bytes below `stack`.
///
/// On x86-64 the red zone below the stack pointer stays untouched and a word
/// for the return address follows the frame.
pub fn signal_frame_addresses(arch: Arch, range: &UserRange, stack: u64, frame_size: u64) -> (places:
    Option<(u64, u64, Option<u64>)>)
    ensures
        places == frame_places(arch, *range, stack, frame_size as int),
{
    let room: u64 = match arch {
        Arch::X86_64 => match stack.checked_sub(128) {
            Some(room) => room,
            None => {
                return None;
            },
        },
        Arch::Riscv64 => stack,
    };
    let below: u64 = match room.checked_sub(frame_size) {
        Some(unaligned) => match unaligned.checked_sub(15) {
            Some(below) => below,
            None => {
                return None;
            },
        },
        None => {
            return None;
        },
    };
    let frame: u64 = below - below % 16;
    match arch {
        Arch::X86_64 => match frame.checked_sub(8) {
            Some(slot) => {
                if slot >= range.min {
                    Some((frame, slot, Some(slot)))
                } else {
                    None
                }
            },
            None => None,
        },
        Arch::Riscv64 => {
            if frame >= range.min {
                Some((frame, frame, None))
            } else {
                None
            }
        },
    }
}

/// The thread that is about to return to userspace.
pub struct UserContext {
    /// Instruction set.
    pub arch: Arch,
    /// Addresses of userspace.
    pub range: UserRange,
    /// Its stack pointer.
    pub stack: u64,
    /// Its registers.
    pub registers: Vec<u8>,
}

/// How a handler is entered.
#[verifier::ext_equal]
pub struct EntryModel {
    /// Address of the frame.
    pub frame_address: u64,
    /// The frame.
    pub frame: Seq<u8>,
    /// Where the return address is written.
    pub return_slot: Option<u64>,
    /// Stack pointer of the handler.
    pub handler_stack: u64,
    /// First instruction of the handler.
    pub handler: u64,
    /// Where the handler returns to.
    pub restorer: u64,
    /// Signal number.
    pub signal: u8,
    /// Address of the record of the signal.
    pub info_address: u64,
    /// Address of the saved registers.
    pub context_address: u64,
}

/// What happens to a thread that returns to userspace.
pub enum DeliveryModel {
    /// It goes on.
    Idle,
    /// The process ends by this signal.
    Exit(u8),
    /// It sleeps until the process is continued.
    Stop,
    /// It enters a handler.
    Enter(EntryModel),
}

/// How a handler is entered.
pub struct HandlerEntry {
    /// Address of the frame.
    pub frame_address: u64,
    /// The frame.
    pub frame: Vec<u8>,
    /// Where the return address is written.
    pub return_slot: Option<u64>,
    /// Stack pointer of the handler.
    pub handler_stack: u64,
    /// First instruction of the handler.
    pub handler: u64,
    /// Where the handler returns to.
    pub restorer: u64,
    /// Signal number.
    pub signal: u8,
    /// Address of the record of the signal.
    pub info_address: u64,
    /// Address of the saved registers.
    pub context_address: u64,
}

/// What happens to a thread that returns to userspace.
pub enum Delivery {
    /// It goes on.
    Idle,
    /// The process ends by this signal.
    Exit(u8),
    /// It sleeps until the process is continued; the sleep is recorded with
    /// [`SignalManager::mark_stopped`], and delivery is asked again after it.
    Stop,
    /// It enters a handler once the frame and the return address are written;
    /// if they cannot be, the process ends by [`SIGSEGV`].
    Enter(HandlerEntry),
}

impl View for HandlerEntry {
    type V = EntryModel;

    open spec fn view(&self) -> EntryModel {
        EntryModel {
            frame_address: self.frame_address,
            frame: self.frame@,
            return_slot: self.return_slot,
            handler_stack: self.handler_stack,
            handler: self.handler,
            restorer: self.restorer,
            signal: self.signal,
            info_address: self.info_address,
            context_address: self.context_address,
        }
    }
}

impl View for Delivery {
    type V = DeliveryModel;

    open spec fn view(&self) -> DeliveryModel {
        match self {
            Delivery::Idle => DeliveryModel::Idle,
            Delivery::Exit(signal) => DeliveryModel::Exit(*signal),
            Delivery::Stop => DeliveryModel::Stop,
            Delivery::Enter(entry) => DeliveryModel::Enter(entry@),
        }
    }
}

/// The stack on which a handler with `flags` runs.
pub open spec fn handler_stack_base(m: SignalModel, flags: u64, stack: u64) -> u64 {
    match m.alt_stack {
        Some(alt) => if flags & SA_ONSTACK != 0 && !alt.has(stack) && alt.pointer + alt.size
            <= u64::MAX {
            (alt.pointer + alt.size) as u64
        } else {
            stack
        },
        None => stack,
    }
}

impl SignalModel {
    /// The state while the handler of `signal` runs.
    pub open spec fn entered(self, signal: u8) -> SignalModel {
        let action = self.actions[signal as int];
        let more = self.mask | action.mask;
        let next = if action.flags & SA_NODEFER == 0 {
            more | bit_of(signal)
        } else {
            more
        };
        SignalModel {
            mask: next & !UNBLOCKABLE,
            suspended: None,
            actions: if action.flags & SA_RESETHAND != 0 {
                self.actions.update(signal as int, default_action())
            } else {
                self.actions
            },
            ..self
        }
    }

    /// How the handler of `info` is entered.
    pub open spec fn entry(self, info: SignalInfo, context: UserContext) -> DeliveryModel {
        let action = self.actions[info.signal as int];
        let frame = frame_bytes(
            FrameModel {
                old_mask: match self.suspended {
                    Some(mask) => mask,
                    None => self.mask,
                },
                saved: context.registers@,
                info: siginfo_of(info),
            },
        );
        let base = handler_stack_base(self, action.flags, context.stack);
        match frame_places(context.arch, context.range, base, frame.len() as int) {
            None => DeliveryModel::Exit(SIGSEGV),
            Some((frame_address, handler_stack, return_slot)) => DeliveryModel::Enter(
                EntryModel {
                    frame_address,
                    frame,
                    return_slot,
                    handler_stack,
                    handler: action.handler,
                    restorer: action.restorer,
                    signal: info.signal,
                    info_address: (frame_address + 16 + context.registers@.len()) as u64,
                    context_address: (frame_address + 16) as u64,
                },
            ),
        }
    }

    /// What happens to a thread that returns to userspace, and the state
    /// after it.
    pub open spec fn delivered(self, context: UserContext) -> (SignalModel, DeliveryModel)
        decreases self.pending.len(),
    {
        let at = first_where(self.pending, passes(self.mask), 0);
        if at < 0 || at >= self.pending.len() {
            (
                match self.suspended {
                    Some(mask) => SignalModel { suspended: None, ..self.masked(mask) },
                    None => self,
                },
                DeliveryModel::Idle,
            )
        } else {
            let info = self.pending[at];
            let signal = info.signal;
            let handler = self.actions[signal as int].handler;
            let rest = self.taken(at);
            if signal == SIGKILL {
                (rest, DeliveryModel::Exit(signal))
            } else if signal == SIGSTOP || (handler == SIG_DFL && stops(signal)) {
                (rest, DeliveryModel::Stop)
            } else if handler == SIG_IGN || (handler == SIG_DFL && ignored_by_default(signal)) {
                rest.delivered(context)
            } else if handler == SIG_DFL {
                (rest, DeliveryModel::Exit(signal))
            } else {
                (rest.entered(signal), rest.entry(info, context))
            }
        }
    }
}

impl SignalManager {
    /// Enters the handler of a signal that was just taken.
    fn enter_handler(&mut self, info: SignalInfo, context: &UserContext) -> (delivery: Delivery)
        requires
            old(self).wf(),
            is_signal(info.signal),
            context.registers@.len() <= 0x1_0000,
        ensures
            final(self).wf(),
            final(self).waiters() == old(self).waiters(),
            final(self)@ == old(self)@.entered(info.signal),
            delivery@ == old(self)@.entry(info, *context),
    {
        let signal: u8 = info.signal;
        let action = self.action(signal);
        let active_mask: u64 = self.mask;
        let restore_mask: u64 = match self.take_suspend_restore_mask() {
            Some(mask) => mask,
            None => active_mask,
        };
        let mut next_mask: u64 = active_mask | action.mask;
        if action.flags & SA_NODEFER == 0 {
            next_mask = next_mask | signal_bit(signal);
        }
        self.restore_mask(next_mask);
        if action.flags & SA_RESETHAND != 0 {
            let _ = self.set_action(signal, SignalAction::initial());
        }
        assert(self@ =~= old(self)@.entered(signal));
        let stack: u64 = match self.alt_stack {
            Some(alt) => {
                if action.flags & SA_ONSTACK != 0 && !stack_contains(alt, context.stack) {
                    match alt.pointer.checked_add(alt.size) {
                        Some(end) => end,
                        None => context.stack,
                    }
                } else {
                    context.stack
                }
            },
            None => context.stack,
        };
        let mut frame: Vec<u8> = Vec::new();
        put_u64(&mut frame, SIGNAL_FRAME_MAGIC);
        put_u64(&mut frame, restore_mask);
        put_bytes(&mut frame, &context.registers);
        put_bytes(&mut frame, &siginfo(&info));
        let ghost model = FrameModel {
            old_mask: restore_mask,
            saved: context.registers@,
            info: siginfo_of(info),
        };
        assert(frame@ =~= frame_bytes(model));
        match signal_frame_addresses(context.arch, &context.range, stack, frame.len() as u64) {
            None => Delivery::Exit(SIGSEGV),
            Some((frame_address, handler_stack, return_slot)) => {
                let context_address: u64 = frame_address + 16;
                Delivery::Enter(
                    HandlerEntry {
                        frame_address,
                        frame,
                        return_slot,
                        handler_stack,
                        handler: action.handler,
                        restorer: action.restorer,
                        signal,
                        info_address: context_address + context.registers.len() as u64,
                        context_address,
                    },
                )
            },
        }
    }

    /// Delivers one pending signal before a thread returns to userspace.
    ///
    /// Signals that are ignored are dropped on the way. Without a signal to
    /// deliver the mask from before a suspension is restored.
    pub fn deliver_pending(&mut self, context: &UserContext) -> (delivery: Delivery)
        requires
            old(self).wf(),
            context.registers@.len() <= 0x1_0000,
        ensures
            final(self).wf(),
            final(self).waiters() == old(self).waiters(),
            final(self)@ == old(self)@.delivered(*context).0,
            delivery@ == old(self)@.delivered(*context).1,
    {
        loop
            invariant
                self.wf(),
                self.waiters() == old(self).waiters(),
                context.registers@.len() <= 0x1_0000,
                self@.delivered(*context) == old(self)@.delivered(*context),
            decreases self@.pending.len(),
        {
            proof {
                self.lemma_wf();
                lemma_first_where(self@.pending, passes(self@.mask), 0);
            }
            let ghost before = self@;
            let info = match self.take_deliverable() {
                Some(info) => info,
                None => {
                    if let Some(mask) = self.take_suspend_restore_mask() {
                        self.restore_mask(mask);
                    }
                    assert(self@ =~= before.delivered(*context).0);
                    return Delivery::Idle;
                },
            };
            assert(is_signal(info.signal));
            let signal: u8 = info.signal;
            let handler: u64 = self.action(signal).handler;
            if signal == SIGKILL {
                return Delivery::Exit(signal);
            }
            if signal == SIGSTOP || (handler == SIG_DFL && is_stop_signal(signal)) {
                return Delivery::Stop;
            }
            if handler == SIG_IGN || (handler == SIG_DFL && default_ignored(signal)) {
                continue ;
            }
            if handler == SIG_DFL {
                return Delivery::Exit(signal);
            }
            return self.enter_handler(info, context);
        }
    }
}

impl EntryModel {
    /// Memory with the handler's frame and return address, and whether both
    /// could be written.
    pub open spec fn placed(self, memory: MemoryModel) -> (MemoryModel, bool) {
        if !memory.covers(self.frame_address as int, self.frame.len() as int) {
            (memory, false)
        } else {
            let framed = memory.written(self.frame_address as int, self.frame);
            match self.return_slot {
                None => (framed, true),
                Some(slot) => if framed.covers(slot as int, 8) {
                    (framed.written(slot as int, u64_bytes(self.restorer)), true)
                } else {
                    (framed, false)
                },
            }
        }
    }
}

impl HandlerEntry {
    /// Writes the handler's frame and return address to the user stack; tells
    /// whether that worked.
    pub fn place(&self, memory: &mut UserMemory) -> (done: bool)
        ensures
            (final(memory)@, done) == self@.placed(old(memory)@),
    {
        if memory.write_user(self.frame_address, &self.frame).is_err() {
            return false;
        }
        match self.return_slot {
            None => true,
            Some(slot) => {
                let mut bytes: Vec<u8> = Vec::new();
                put_u64(&mut bytes, self.restorer);
                assert(bytes@ =~= u64_bytes(self.restorer));
                memory.write_user(slot, &bytes).is_ok()
            },
        }
    }
}

impl SignalModel {
    /// The state, the memory and what happens where a thread returns from a
    /// trap.
    pub open spec fn returned(self, from_user: bool, context: UserContext, memory: MemoryModel) -> (
        SignalModel,
        MemoryModel,
        DeliveryModel,
    ) {
        if !from_user {
            (self, memory, DeliveryModel::Idle)
        } else {
            let (after, delivery) = self.delivered(context);
            match delivery {
                DeliveryModel::Enter(entry) => (
                    after,
                    entry.placed(memory).0,
                    if entry.placed(memory).1 {
                        delivery
                    } else {
                        DeliveryModel::Exit(SIGSEGV)
                    },
                ),
                _ => (after, memory, delivery),
            }
        }
    }
}

impl SignalManager {
    /// Delivers one pending signal where a thread returns from a trap, and
    /// prepares the user stack for its handler.
    ///
    /// A trap from kernel mode delivers nothing. Where the frame or the return
    /// address cannot be written, the process ends by [`SIGSEGV`].
    pub fn deliver_on_return(
        &mut self,
        from_user: bool,
        context: &UserContext,
        memory: &mut UserMemory,
    ) -> (delivery: Delivery)
        requires
            old(self).wf(),
            context.registers@.len() <= 0x1_0000,
        ensures
            final(self).wf(),
            final(self).waiters() == old(self).waiters(),
            (final(self)@, final(memory)@, delivery@) == old(self)@.returned(
                from_user,
                *context,
                old(memory)@,
            ),
    {
        if !from_user {
            return Delivery::Idle;
        }
        match self.deliver_pending(context) {
            Delivery::Enter(entry) => {
                if entry.place(memory) {
                    Delivery::Enter(entry)
                } else {
                    Delivery::Exit(SIGSEGV)
                }
            },
            other => other,
        }
    }
}

/// A handler is entered only once its frame is on the user stack: the frame is
/// there to be read back, unless the return address was written over it.
pub proof fn law_entered_handler_has_frame(entry: EntryModel, memory: MemoryModel)
    requires
        entry.placed(memory).1,
        entry.return_slot matches Some(slot) ==> slot + 8 <= entry.frame_address
            || entry.frame_address + entry.frame.len() <= slot,
    ensures
        entry.placed(memory).0.covers(entry.frame_address as int, entry.frame.len() as int),
        entry.placed(memory).0.at(entry.frame_address as int, entry.frame.len() as int)
            == entry.frame,
{
    let after = entry.placed(memory).0;
    assert(after.at(entry.frame_address as int, entry.frame.len() as int) =~= entry.frame);
}

/// A frame as it was read back from the user stack.
pub struct SignalFrame {
    /// Mask to restore.
    pub old_mask: u64,
    /// Registers to restore.
    pub saved: Vec<u8>,
}

/// Reads a frame back that a handler left on the user stack.
pub fn read_signal_frame(bytes: &[u8], registers: usize) -> (frame: Result<SignalFrame, Errno>)
    requires
        bytes@.len() == 16 + registers + SIGNALFD_RECORD_SIZE,
    ensures
        frame.is_ok() == (u64_at(bytes@, 0) == SIGNAL_FRAME_MAGIC),
        frame matches Err(e) ==> e == Errno::Fault,
        frame matches Ok(f) ==> f.old_mask == u64_at(bytes@, 8) && f.saved@ == bytes@.subrange(
            16,
            16 + registers,
        ),
{
    if get_u64(bytes, 0) != SIGNAL_FRAME_MAGIC {
        return Err(Errno::Fault);
    }
    assert(bytes@.len() == bytes.len());
    Ok(SignalFrame { old_mask: get_u64(bytes, 8), saved: copy_range(bytes, 16, 16 + registers) })
}

impl SignalManager {
    /// Ends a handler: blocks what was blocked before it.
    ///
    /// `frame` is what the handler left on the stack, and `restorable` tells
    /// whether its registers may be loaded. Returns the registers to load.
    pub fn restore_signal_frame(&mut self, frame: SignalFrame, restorable: bool) -> (saved: Result<
        Vec<u8>,
        Errno,
    >)
        requires
            old(self).wf(),
        ensures
            final(self).wf(),
            final(self).waiters() == old(self).waiters(),
            saved == if restorable {
                Ok::<Vec<u8>, Errno>(frame.saved)
            } else {
                Err(Errno::Fault)
            },
            final(self)@ == if restorable {
                old(self)@.masked(frame.old_mask)
            } else {
                old(self)@
            },
    {
        if !restorable {
            return Err(Errno::Fault);
        }
        self.restore_mask(frame.old_mask);
        Ok(frame.saved)
    }
}

/// What a handler's frame saves is what its end restores: mask and registers.
pub proof fn law_handler_return_restores(frame: FrameModel)
    requires
        frame.info.len() == SIGNALFD_RECORD_SIZE,
    ensures
        ({
            let bytes = frame_bytes(frame);
            &&& bytes.len() == 16 + frame.saved.len() + SIGNALFD_RECORD_SIZE
            &&& u64_at(bytes, 0) == SIGNAL_FRAME_MAGIC
            &&& u64_at(bytes, 8) == frame.old_mask
            &&& bytes.subrange(16, 16 + frame.saved.len() as int) == frame.saved
        }),
{
    let bytes = frame_bytes(frame);
    assert(bytes.subrange(0, 8) =~= u64_bytes(SIGNAL_FRAME_MAGIC));
    assert(bytes.subrange(8, 16) =~= u64_bytes(frame.old_mask));
    lemma_u64_at(bytes, 0, SIGNAL_FRAME_MAGIC);
    lemma_u64_at(bytes, 8, frame.old_mask);
    assert(bytes.subrange(16, 16 + frame.saved.len() as int) =~= frame.saved);
}

/// Kill and stop signals always get through: no mask blocks them.
pub proof fn law_kill_is_never_blocked(m: SignalModel, i: int)
    requires
        m.ok(),
        0 <= i < m.pending.len(),
        m.pending[i].signal == SIGKILL || m.pending[i].signal == SIGSTOP,
    ensures
        any_where(m.pending, passes(m.mask)),
        first_where(m.pending, passes(m.mask), 0) <= i,
{
    lemma_finds(m.pending, passes(m.mask), i);
}

/// A blocked signal waits: where every pending signal is blocked, nothing is
/// delivered and all stay pending.
pub proof fn law_blocked_signals_wait(m: SignalModel, context: UserContext)
    requires
        !any_where(m.pending, passes(m.mask)),
    ensures
        m.delivered(context).1 == DeliveryModel::Idle,
        m.delivered(context).0.pending == m.pending,
{
    lemma_first_where(m.pending, passes(m.mask), 0);
}

/// A process cannot ignore or catch a kill signal: if it is the first signal to
/// deliver, the process ends, whatever action is set.
pub proof fn law_kill_ends_process(m: SignalModel, context: UserContext)
    requires
        m.ok(),
        any_where(m.pending, passes(m.mask)),
        m.pending[first_where(m.pending, passes(m.mask), 0)].signal == SIGKILL,
    ensures
        m.delivered(context).1 == DeliveryModel::Exit(SIGKILL),
{
    lemma_first_where(m.pending, passes(m.mask), 0);
}

/// A standard signal is pending at most once, however often it is sent.
pub proof fn law_standard_signal_coalesces(m: SignalModel, info: SignalInfo, i: int)
    requires
        m.ok(),
        is_signal(info.signal),
        info.signal < SIGRTMIN,
        info.signal != SIGCONT,
        info.signal != SIGKILL,
        !stops(info.signal),
        0 <= i < m.pending.len(),
        m.pending[i].signal == info.signal,
    ensures
        m.enqueued(info).pending == m.pending,
{
    lemma_finds(m.pending, numbered(info.signal), i);
}

/// At any time no standard signal is pending twice, and a continue signal never
/// together with a stop signal.
pub proof fn law_pending_signals_agree(m: SignalModel, i: int, j: int)
    requires
        m.ok(),
        0 <= i < j < m.pending.len(),
    ensures
        m.pending[i].signal < SIGRTMIN ==> m.pending[i].signal != m.pending[j].signal,
        m.pending[i].signal == SIGCONT ==> !stops(m.pending[j].signal),
        m.pending[j].signal == SIGCONT ==> !stops(m.pending[i].signal),
{
}

/// After a continue signal no stop is pending, and the process runs again.
pub proof fn law_continue_cancels_stops(m: SignalModel, info: SignalInfo, i: int)
    requires
        m.ok(),
        info.signal == SIGCONT,
        0 <= i < m.enqueued(info).pending.len(),
    ensures
        !stops(m.enqueued(info).pending[i].signal),
        m.enqueued(info).stopped.is_none(),
{
    lemma_filtered(m.pending, not_stopping());
}

/// After a stop signal no continue is pending.
pub proof fn law_stop_cancels_continue(m: SignalModel, info: SignalInfo, i: int)
    requires
        m.ok(),
        stops(info.signal),
        0 <= i < m.enqueued(info).pending.len(),
    ensures
        m.enqueued(info).pending[i].signal != SIGCONT,
{
    lemma_filtered(m.pending, other_than(SIGCONT));
}

proof fn lemma_filtered(s: Seq<SignalInfo>, p: spec_fn(SignalInfo) -> bool)
    ensures
        forall|i: int| 0 <= i < s.filter(p).len() ==> p(#[trigger] s.filter(p)[i]),
    decreases s.len(),
{
    reveal(Seq::filter);
    if s.len() > 0 {
        lemma_filtered(s.drop_last(), p);
    }
}

/// Descriptor that hands out pending signals.
#[derive(Copy, Clone, Debug, PartialEq, Eq, Structural)]
pub struct SignalFd {
    /// Signals it hands out.
    pub mask: u64,
    /// Whether reading never waits.
    pub nonblocking: bool,
}

/// What reading a signal descriptor ended in.
pub enum SignalRead {
    /// Records.
    Data(Vec<u8>),
    /// Nothing yet.
    Sleep,
}

/// The state after up to `records` signals in `mask` were taken, and those
/// signals.
pub open spec fn drained(m: SignalModel, mask: u64, records: nat) -> (SignalModel, Seq<SignalInfo>)
    decreases records,
{
    let at = first_where(m.pending, matching(mask), 0);
    if records == 0 || at >= m.pending.len() {
        (m, Seq::empty())
    } else {
        let rest = drained(m.taken(at), mask, (records - 1) as nat);
        (rest.0, seq![m.pending[at]] + rest.1)
    }
}

/// The records of several signals.
pub open spec fn signalfd_records(infos: Seq<SignalInfo>) -> Seq<u8>
    decreases infos.len(),
{
    if infos.len() == 0 {
        Seq::empty()
    } else {
        signalfd_records(infos.drop_last()) + signalfd_record(infos.last())
    }
}

proof fn lemma_records_len(infos: Seq<SignalInfo>)
    ensures
        signalfd_records(infos).len() == SIGNALFD_RECORD_SIZE * infos.len(),
    decreases infos.len(),
{
    if infos.len() > 0 {
        lemma_records_len(infos.drop_last());
        reveal(signalfd_record);
    }
}

impl SignalManager {
    /// Takes up to `records` signals in `mask` and encodes them.
    fn drain(&mut self, mask: u64, records: usize) -> (data: Vec<u8>)
        requires
            old(self).wf(),
        ensures
            final(self).wf(),
            final(self).waiters() == old(self).waiters(),
            final(self)@ == drained(old(self)@, mask, records as nat).0,
            data@ == signalfd_records(drained(old(self)@, mask, records as nat).1),
            data@.len() == SIGNALFD_RECORD_SIZE * drained(
                old(self)@,
                mask,
                records as nat,
            ).1.len(),
            data@.len() == 0 ==> final(self)@ == old(self)@,
    {
        let mut data: Vec<u8> = Vec::new();
        let mut left: usize = records;
        let ghost start = self@;
        let ghost waiting = self.waiters();
        let ghost mut taken: Seq<SignalInfo> = Seq::empty();
        let ghost whole = drained(start, mask, records as nat);
        assert(taken + whole.1 =~= whole.1);
        while left > 0
            invariant
                self.wf(),
                self.waiters() == waiting,
                data@ == signalfd_records(taken),
                taken.len() == 0 ==> self@ == start,
                whole.1 == taken + drained(self@, mask, left as nat).1,
                whole.0 == drained(self@, mask, left as nat).0,
                waiting == old(self).waiters(),
                start == old(self)@,
                whole == drained(start, mask, records as nat),
            decreases left,
        {
            proof {
                lemma_first_where(self@.pending, matching(mask), 0);
            }
            let ghost before = self@;
            match self.take_matching(mask) {
                None => {
                    proof {
                        assert(whole.1 =~= taken);
                        lemma_records_len(taken);
                    }
                    return data;
                },
                Some(info) => {
                    encode_signalfd_info(&mut data, &info);
                    proof {
                        let rest = drained(self@, mask, (left - 1) as nat);
                        assert(drained(before, mask, left as nat).1 == seq![info] + rest.1);
                        assert(taken + (seq![info] + rest.1) =~= taken.push(info) + rest.1);
                        assert(taken.push(info).drop_last() =~= taken);
                        taken = taken.push(info);
                    }
                },
            }
            left = left - 1;
        }
        proof {
            assert(whole.1 =~= taken);
            lemma_records_len(taken);
        }
        data
    }
}

impl SignalFd {
    /// Creates a descriptor for the signals in `mask` that can be blocked.
    pub fn new(mask: u64, nonblocking: bool) -> (fd: Self)
        ensures
            fd == (SignalFd { mask: mask & !UNBLOCKABLE, nonblocking }),
    {
        SignalFd { mask: mask & !UNBLOCKABLE, nonblocking }
    }

    /// Changes what the descriptor hands out.
    pub fn update(&mut self, mask: u64, nonblocking: bool)
        ensures
            *final(self) == (SignalFd { mask: mask & !UNBLOCKABLE, nonblocking }),
    {
        self.mask = mask & !UNBLOCKABLE;
        self.nonblocking = nonblocking;
    }

    /// Takes as many signals as fit in `capacity` bytes.
    ///
    /// `manager` is absent once the process is gone.
    pub fn read(&self, manager: Option<&mut SignalManager>, capacity: usize) -> (read: Result<
        SignalRead,
        Errno,
    >)
        requires
            manager matches Some(m) ==> m.wf(),
        ensures
            capacity < SIGNALFD_RECORD_SIZE ==> read == Err::<SignalRead, Errno>(Errno::Invalid),
            capacity >= SIGNALFD_RECORD_SIZE && manager.is_none() ==> read == Err::<
                SignalRead,
                Errno,
            >(Errno::BadFileDescriptor),
            manager matches Some(m) ==> {
                let records = (capacity / SIGNALFD_RECORD_SIZE) as nat;
                let after = drained(m@, self.mask, records);
                &&& final(m).wf()
                &&& final(m).waiters() == m.waiters()
                &&& records == 0 ==> final(m)@ == m@
                &&& records > 0 && after.1.len() > 0 ==> {
                    &&& final(m)@ == after.0
                    &&& read matches Ok(SignalRead::Data(d)) && d@ == signalfd_records(after.1)
                }
                &&& records > 0 && after.1.len() == 0 && self.nonblocking ==> {
                    &&& final(m)@ == m@
                    &&& read == Err::<SignalRead, Errno>(Errno::TryAgain)
                }
                &&& records > 0 && after.1.len() == 0 && !self.nonblocking ==> {
                    &&& final(m)@ == (SignalModel { ready: false, ..m@ })
                    &&& read matches Ok(SignalRead::Sleep)
                }
            },
    {
        let records: usize = capacity / SIGNALFD_RECORD_SIZE;
        if records == 0 {
            return Err(Errno::Invalid);
        }
        let signals = match manager {
            Some(signals) => signals,
            None => {
                return Err(Errno::BadFileDescriptor);
            },
        };
        let data = signals.drain(self.mask, records);
        if data.len() != 0 {
            return Ok(SignalRead::Data(data));
        }
        if self.nonblocking {
            return Err(Errno::TryAgain);
        }
        let _ = signals.prepare_matching_wait(self.mask);
        Ok(SignalRead::Sleep)
    }

    /// Returns what the descriptor is ready for.
    pub fn poll(&self, manager: Option<&SignalManager>, requested: &PollEvents) -> (ready:
        PollEvents)
        requires
            manager matches Some(m) ==> m.wf(),
        ensures
            ready == match manager {
                None => PollEvents { hangup: true, ..PollEvents::nothing() },
                Some(m) => PollEvents {
                    readable: requested.readable && any_where(m@.pending, matching(self.mask)),
                    ..PollEvents::nothing()
                },
            },
    {
        let mut ready = PollEvents::empty();
        match manager {
            None => {
                ready.hangup = true;
            },
            Some(signals) => {
                ready.readable = requested.readable && signals.has_matching(self.mask);
            },
        }
        ready
    }

    /// Returns whether reading never waits.
    pub fn is_nonblocking(&self) -> (nonblocking: bool)
        ensures
            nonblocking == self.nonblocking,
    {
        self.nonblocking
    }

    /// Changes whether reading never waits.
    pub fn set_nonblocking(&mut self, nonblocking: bool)
        ensures
            *final(self) == (SignalFd { nonblocking, ..*old(self) }),
    {
        self.nonblocking = nonblocking;
    }
}

/// Whether a mask holds back a pending signal: its bit is set, it is not one
/// of the two that nothing holds back, and no instruction caused it.
pub open spec fn held_back(mask: u64, info: SignalInfo) -> bool {
    &&& (mask >> ((info.signal - 1) as u64)) & 1 == 1
    &&& info.signal != 9
    &&& info.signal != 19
    &&& !info.synchronous
}

proof fn lemma_mask_bit(mask: u64, place: u64)
    by (bit_vector)
    requires
        place < 64,
    ensures
        mask & (1u64 << place) != 0 <==> (mask >> place) & 1 == 1,
{
}

proof fn lemma_passes(mask: u64, info: SignalInfo)
    requires
        is_signal(info.signal),
    ensures
        passes(mask)(info) <==> !held_back(mask, info),
{
    let place = (info.signal - 1) as u64;
    lemma_mask_bit(mask, place);
}

proof fn lemma_next_delivered(m: SignalModel, at: int)
    requires
        m.ok(),
        0 <= at < m.pending.len(),
        !held_back(m.mask, m.pending[at]),
        forall|i: int| 0 <= i < at ==> held_back(m.mask, #[trigger] m.pending[i]),
    ensures
        first_where(m.pending, passes(m.mask), 0) == at,
{
    lemma_first_where(m.pending, passes(m.mask), 0);
    lemma_passes(m.mask, m.pending[at]);
    let found = first_where(m.pending, passes(m.mask), 0);
    if found < at {
        lemma_passes(m.mask, m.pending[found]);
    }
}

/// A signal is in a mask exactly if the bit of its number is set, the bit of
/// the first signal being the lowest one.
pub proof fn law_signal_has_its_bit(mask: u64, signal: u8)
    requires
        1 <= signal <= 64,
    ensures
        in_mask(mask, signal) <==> (mask >> ((signal - 1) as u64)) & 1 == 1,
        is_signal(signal),
        !is_signal(0),
        !is_signal(65),
{
    let place = (signal - 1) as u64;
    lemma_mask_bit(mask, place);
}

/// What the default action does: child, continue, urgent-data and window-size
/// signals are dropped and the next signal is looked at; the four stop signals
/// stop the process; every other signal ends it with its own number. The
/// signal that was delivered is the oldest one that the mask does not hold
/// back, and it alone is no longer pending.
pub proof fn law_default_effects(m: SignalModel, context: UserContext, at: int)
    requires
        m.ok(),
        0 <= at < m.pending.len(),
        !held_back(m.mask, m.pending[at]),
        forall|i: int| 0 <= i < at ==> held_back(m.mask, #[trigger] m.pending[i]),
        m.actions[m.pending[at].signal as int].handler == 0,
    ensures
        ({
            let signal = m.pending[at].signal;
            let (after, effect) = m.delivered(context);
            let rest = SignalModel {
                pending: m.pending.remove(at),
                ready: m.ready && m.pending.len() > 1,
                ..m
            };
            if signal == 17 || signal == 18 || signal == 23 || signal == 28 {
                m.delivered(context) == rest.delivered(context)
            } else if 19 <= signal <= 22 {
                effect == DeliveryModel::Stop && after == rest
            } else {
                effect == DeliveryModel::Exit(signal) && after == rest
            }
        }),
{
    lemma_next_delivered(m, at);
}

/// Delivering a lone signal that nothing holds back leaves nothing pending. By
/// default a continued process, like one told of a child, of urgent data or of
/// a new window size, goes on; one told to stop stops; any other signal ends
/// the process with its number.
pub proof fn law_lone_signal_by_default(m: SignalModel, context: UserContext)
    requires
        m.ok(),
        m.pending.len() == 1,
        !held_back(m.mask, m.pending[0]),
        m.actions[m.pending[0].signal as int].handler == 0,
    ensures
        ({
            let signal = m.pending[0].signal;
            let (after, effect) = m.delivered(context);
            &&& after.pending.len() == 0
            &&& effect == DeliveryModel::Idle <==> signal == 17 || signal == 18 || signal == 23
                || signal == 28
            &&& effect == DeliveryModel::Stop <==> signal == 19 || signal == 20 || signal == 21
                || signal == 22
            &&& effect != DeliveryModel::Idle && effect != DeliveryModel::Stop ==> effect
                == DeliveryModel::Exit(signal)
        }),
{
    law_default_effects(m, context, 0);
    let rest = m.taken(0);
    assert(rest.pending.len() == 0);
    lemma_first_where(rest.pending, passes(rest.mask), 0);
}

/// The kill signal ends a process and the stop signal stops it, whatever
/// actions it set and whatever it blocks.
pub proof fn law_kill_and_stop_are_final(m: SignalModel, context: UserContext, at: int)
    requires
        m.ok(),
        0 <= at < m.pending.len(),
        m.pending[at].signal == 9 || m.pending[at].signal == 19,
        forall|i: int| 0 <= i < at ==> held_back(m.mask, #[trigger] m.pending[i]),
    ensures
        m.pending[at].signal == 9 ==> m.delivered(context).1 == DeliveryModel::Exit(9),
        m.pending[at].signal == 19 ==> m.delivered(context).1 == DeliveryModel::Stop,
        m.delivered(context).0.pending == m.pending.remove(at),
{
    lemma_next_delivered(m, at);
}

/// An ignored signal is dropped and the next one is looked at.
pub proof fn law_ignored_signal_does_nothing(m: SignalModel, context: UserContext, at: int)
    requires
        m.ok(),
        0 <= at < m.pending.len(),
        !held_back(m.mask, m.pending[at]),
        forall|i: int| 0 <= i < at ==> held_back(m.mask, #[trigger] m.pending[i]),
        m.actions[m.pending[at].signal as int].handler == 1,
        m.pending[at].signal != 9,
        m.pending[at].signal != 19,
    ensures
        m.delivered(context) == (SignalModel {
            pending: m.pending.remove(at),
            ready: m.ready && m.pending.len() > 1,
            ..m
        }).delivered(context),
{
    lemma_next_delivered(m, at);
}

/// With everything held back nothing is delivered and everything stays pending;
/// a mask that was replaced for a wait is put back.
pub proof fn law_held_signals_stay(m: SignalModel, context: UserContext)
    requires
        m.ok(),
        forall|i: int| 0 <= i < m.pending.len() ==> held_back(m.mask, #[trigger] m.pending[i]),
    ensures
        m.delivered(context).1 == DeliveryModel::Idle,
        m.delivered(context).0.pending == m.pending,
        m.delivered(context).0.actions == m.actions,
        m.suspended.is_none() ==> m.delivered(context).0 == m,
        m.delivered(context).0.suspended.is_none(),
        m.suspended matches Some(mask) ==> m.delivered(context).0.mask == mask & !0x4_0100u64,
{
    lemma_first_where(m.pending, passes(m.mask), 0);
    let found = first_where(m.pending, passes(m.mask), 0);
    if found < m.pending.len() {
        lemma_passes(m.mask, m.pending[found]);
    }
}

proof fn lemma_mask_union(mask: u64, more: u64, place: u64)
    by (bit_vector)
    requires
        place < 64,
    ensures
        ((mask | more) & !0x4_0100u64) & (1u64 << place) != 0 <==> (mask & (1u64 << place) != 0
            || more & (1u64 << place) != 0) && place != 8 && place != 18,
{
}

proof fn lemma_mask_minus(mask: u64, less: u64, place: u64)
    by (bit_vector)
    requires
        place < 64,
    ensures
        (mask & !less) & (1u64 << place) != 0 <==> mask & (1u64 << place) != 0 && less & (1u64
            << place) == 0,
{
}

proof fn lemma_one_bit(place: u64, other: u64)
    by (bit_vector)
    requires
        place < 64,
        other < 64,
    ensures
        (1u64 << place) & (1u64 << other) != 0 <==> place == other,
{
}

/// While a handler runs, exactly these signals are blocked: those blocked
/// before, those that its action names and, unless the action asks to leave it
/// open, the signal itself; never the kill and stop signals. The action is the
/// default one again if it asked for that, and stays otherwise; the actions of
/// other signals stay.
pub proof fn law_handler_runs_masked(m: SignalModel, signal: u8, other: u8)
    requires
        m.ok(),
        1 <= signal <= 64,
        1 <= other <= 64,
    ensures
        ({
            let action = m.actions[signal as int];
            let after = m.entered(signal);
            &&& in_mask(after.mask, other) <==> other != 9 && other != 19 && (in_mask(
                m.mask,
                other,
            ) || in_mask(action.mask, other) || (other == signal && action.flags & 0x4000_0000
                == 0))
            &&& action.flags & 0x8000_0000 != 0 ==> after.actions[signal as int].handler == 0
            &&& action.flags & 0x8000_0000 == 0 ==> after.actions == m.actions
            &&& other != signal ==> after.actions[other as int] == m.actions[other as int]
            &&& after.suspended.is_none()
            &&& after.pending == m.pending
        }),
{
    let action = m.actions[signal as int];
    let place = (other - 1) as u64;
    let own = (signal - 1) as u64;
    let more = m.mask | action.mask;
    let mask = m.mask;
    let asked = action.mask;
    lemma_mask_union(mask, asked, place);
    lemma_one_bit(own, place);
    lemma_mask_union(more, 1u64 << own, place);
    lemma_or_bits(mask, asked, place);
    lemma_plain_mask(more, place);
}

proof fn lemma_or_bits(mask: u64, more: u64, place: u64)
    by (bit_vector)
    requires
        place < 64,
    ensures
        (mask | more) & (1u64 << place) != 0 <==> mask & (1u64 << place) != 0 || more & (1u64
            << place) != 0,
{
}

proof fn lemma_plain_mask(mask: u64, place: u64)
    by (bit_vector)
    requires
        place < 64,
    ensures
        (mask & !0x4_0100u64) & (1u64 << place) != 0 <==> mask & (1u64 << place) != 0 && place != 8
            && place != 18,
{
}

/// Setting a mask blocks exactly its signals but the kill and stop signals, and
/// changes nothing else.
pub proof fn law_mask_blocks_its_signals(m: SignalModel, mask: u64, signal: u8)
    requires
        1 <= signal <= 64,
    ensures
        in_mask(m.masked(mask).mask, signal) <==> in_mask(mask, signal) && signal != 9 && signal
            != 19,
        m.masked(mask) == (SignalModel { mask: m.masked(mask).mask, ..m }),
{
    let place = (signal - 1) as u64;
    lemma_plain_mask(mask, place);
}

/// A signal with a handler enters it: at the handler's address, with its
/// number, returning to the action's restorer, with a frame that holds the
/// registers, the mask to put back and the signal's record. Without room for
/// the frame the process ends on a memory fault.
pub proof fn law_handler_is_entered(m: SignalModel, context: UserContext, at: int)
    requires
        m.ok(),
        context.registers@.len() <= 0x1_0000,
        0 <= at < m.pending.len(),
        !held_back(m.mask, m.pending[at]),
        forall|i: int| 0 <= i < at ==> held_back(m.mask, #[trigger] m.pending[i]),
        m.actions[m.pending[at].signal as int].handler > 1,
        m.pending[at].signal != 9,
        m.pending[at].signal != 19,
    ensures
        ({
            let info = m.pending[at];
            let action = m.actions[info.signal as int];
            let (after, effect) = m.delivered(context);
            &&& after.pending == m.pending.remove(at)
            &&& after == m.taken(at).entered(info.signal)
            &&& match effect {
                DeliveryModel::Enter(entry) => {
                    &&& entry.handler == action.handler
                    &&& entry.restorer == action.restorer
                    &&& entry.signal == info.signal
                    &&& entry.frame.len() == 16 + context.registers@.len() + 128
                    &&& u64_at(entry.frame, 8) == match m.suspended {
                        Some(mask) => mask,
                        None => m.mask,
                    }
                    &&& entry.frame.subrange(16, 16 + context.registers@.len() as int)
                        == context.registers@
                    &&& entry.frame.subrange(
                        16 + context.registers@.len() as int,
                        entry.frame.len() as int,
                    ) == siginfo_of(info)
                    &&& entry.context_address == entry.frame_address + 16
                    &&& entry.info_address == entry.context_address + context.registers@.len()
                },
                _ => effect == DeliveryModel::Exit(11),
            }
        }),
{
    lemma_next_delivered(m, at);
    let info = m.pending[at];
    let frame = FrameModel {
        old_mask: match m.suspended {
            Some(mask) => mask,
            None => m.mask,
        },
        saved: context.registers@,
        info: siginfo_of(info),
    };
    law_handler_return_restores(frame);
    let bytes = frame_bytes(frame);
    assert(bytes.subrange(16 + context.registers@.len() as int, bytes.len() as int) =~= frame.info);
    let base = handler_stack_base(m, m.actions[info.signal as int].flags, context.stack);
    if let Some((address, _, _)) = frame_places(
        context.arch,
        context.range,
        base,
        bytes.len() as int,
    ) {
        assert(address + bytes.len() <= base);
    }
}

/// A signal frame lies below the stack that it is put on, beyond the 128 bytes
/// that x86 code may use there, aligned to sixteen bytes; on x86 the return
/// address lies right below it, and the handler starts with it on top. Frames
/// stay inside the user range.
pub proof fn law_frame_lies_below_stack(arch: Arch, range: UserRange, stack: u64, size: int)
    requires
        0 <= size <= 0x2_0000,
    ensures
        match frame_places(arch, range, stack, size) {
            Some((frame, handler_stack, slot)) => {
                &&& frame % 16 == 0
                &&& arch == Arch::X86_64 ==> frame + size + 128 <= stack && stack <= frame + size
                    + 128 + 31 && slot == Some(handler_stack) && handler_stack + 8 == frame
                &&& arch == Arch::Riscv64 ==> frame + size <= stack && stack <= frame + size + 31
                    && slot.is_none() && handler_stack == frame
                &&& handler_stack >= range.min
            },
            None => stack < range.min + size + 0x100,
        },
{
}

/// A handler that asked for the alternate stack runs at its end, unless the
/// process already runs on it; any other handler runs on the current stack.
pub proof fn law_alternate_stack_is_used(m: SignalModel, flags: u64, stack: u64)
    ensures
        flags & 0x0800_0000 == 0 ==> handler_stack_base(m, flags, stack) == stack,
        m.alt_stack.is_none() ==> handler_stack_base(m, flags, stack) == stack,
        m.alt_stack matches Some(alt) ==> (alt.pointer + alt.size <= u64::MAX && flags
            & 0x0800_0000 != 0 ==> handler_stack_base(m, flags, stack) == if alt.pointer <= stack
            < alt.pointer + alt.size {
            stack as int
        } else {
            alt.pointer + alt.size
        }),
{
}

/// A signal that is sent becomes pending behind the others, unless the process
/// ignores it or it is already pending and does not queue up. The kill and
/// stop signals are never ignored. Nothing but pending signals, readiness and
/// a stop that ends is changed.
pub proof fn law_sent_signal_is_pending(m: SignalModel, info: SignalInfo)
    requires
        m.ok(),
        1 <= info.signal <= 64,
    ensures
        ({
            let after = m.enqueued(info);
            let ignored = m.actions[info.signal as int].handler == 1 && info.signal != 9
                && info.signal != 19;
            let there = exists|i: int|
                0 <= i < m.pending.len() && (#[trigger] m.pending[i]).signal == info.signal;
            let adds = !ignored && (info.signal >= 35 || !there);
            &&& adds ==> after.pending.len() > 0 && after.pending.last() == info && after.ready
            &&& adds == m.accepted(info)
            &&& !adds ==> after.ready == m.ready
            &&& info.signal != 9 && !(18 <= info.signal <= 22) ==> after.pending == if adds {
                m.pending.push(info)
            } else {
                m.pending
            }
            &&& after.stopped == if info.signal == 18 || info.signal == 9 {
                None
            } else {
                m.stopped
            }
            &&& after == (SignalModel {
                pending: after.pending,
                ready: after.ready,
                stopped: after.stopped,
                ..m
            })
        }),
{
    let signal = info.signal;
    let after = m.enqueued(info);
    let kept = if signal == SIGCONT || signal == SIGKILL {
        m.pending.filter(not_stopping())
    } else if stops(signal) {
        m.pending.filter(other_than(SIGCONT))
    } else {
        m.pending
    };
    lemma_first_where(kept, numbered(signal), 0);
    let there = exists|i: int|
        0 <= i < m.pending.len() && (#[trigger] m.pending[i]).signal == info.signal;
    if any_where(kept, numbered(signal)) {
        let j = first_where(kept, numbered(signal), 0);
        lemma_filter_members(m.pending, not_stopping());
        lemma_filter_members(m.pending, other_than(SIGCONT));
        assert(m.pending.contains(kept[j]));
        let i = choose|i: int| 0 <= i < m.pending.len() && m.pending[i] == kept[j];
        assert(m.pending[i].signal == signal);
    }
    if there {
        let i = choose|i: int|
            0 <= i < m.pending.len() && (#[trigger] m.pending[i]).signal == signal;
        lemma_filter_members(m.pending, not_stopping());
        lemma_filter_members(m.pending, other_than(SIGCONT));
        assert(kept.contains(m.pending[i]));
        let j = choose|j: int| 0 <= j < kept.len() && kept[j] == m.pending[i];
        lemma_finds(kept, numbered(signal), j);
    }
}

proof fn lemma_filter_members(s: Seq<SignalInfo>, p: spec_fn(SignalInfo) -> bool)
    ensures
        forall|i: int| 0 <= i < s.filter(p).len() ==> s.contains(#[trigger] s.filter(p)[i]),
        forall|i: int| 0 <= i < s.len() && p(s[i]) ==> s.filter(p).contains(#[trigger] s[i]),
        forall|i: int| 0 <= i < s.filter(p).len() ==> p(#[trigger] s.filter(p)[i]),
    decreases s.len(),
{
    reveal(Seq::filter);
    if s.len() > 0 {
        let rest = s.drop_last();
        lemma_filter_members(rest, p);
        let kept = rest.filter(p);
        assert forall|i: int| 0 <= i < s.filter(p).len() implies s.contains(
            #[trigger] s.filter(p)[i],
        ) by {
            if i < kept.len() {
                assert(rest.contains(kept[i]));
                let j = choose|j: int| 0 <= j < rest.len() && rest[j] == kept[i];
                assert(s[j] == s.filter(p)[i]);
            } else {
                assert(s[s.len() - 1] == s.filter(p)[i]);
            }
        }
        assert forall|i: int| 0 <= i < s.len() && p(s[i]) implies s.filter(p).contains(
            #[trigger] s[i],
        ) by {
            if i < rest.len() {
                assert(rest[i] == s[i]);
                let j = choose|j: int| 0 <= j < kept.len() && kept[j] == s[i];
                assert(s.filter(p)[j] == s[i]);
            } else {
                assert(s.filter(p)[s.filter(p).len() - 1] == s[i]);
            }
        }
        assert forall|i: int| 0 <= i < s.filter(p).len() implies p(#[trigger] s.filter(p)[i]) by {
            if i < kept.len() {
                assert(kept[i] == s.filter(p)[i]);
            }
        }
    }
}

/// Sending a continue or kill signal drops the pending stop signals, sending a
/// stop signal drops a pending continue signal, and no other pending signal is
/// lost by sending one.
pub proof fn law_sending_loses_only_the_opposite(m: SignalModel, info: SignalInfo, i: int)
    requires
        m.ok(),
        1 <= info.signal <= 64,
        0 <= i < m.pending.len(),
    ensures
        ({
            let old_one = m.pending[i];
            let dropped = ((info.signal == 18 || info.signal == 9) && 19 <= old_one.signal <= 22)
                || (19 <= info.signal <= 22 && old_one.signal == 18);
            &&& !dropped ==> m.enqueued(info).pending.contains(old_one)
            &&& dropped && old_one != info ==> !m.enqueued(info).pending.contains(old_one)
        }),
{
    let signal = info.signal;
    let after = m.enqueued(info).pending;
    let kept = if signal == SIGCONT || signal == SIGKILL {
        m.pending.filter(not_stopping())
    } else if stops(signal) {
        m.pending.filter(other_than(SIGCONT))
    } else {
        m.pending
    };
    lemma_filter_members(m.pending, not_stopping());
    lemma_filter_members(m.pending, other_than(SIGCONT));
    if kept.contains(m.pending[i]) {
        let j = choose|j: int| 0 <= j < kept.len() && kept[j] == m.pending[i];
        assert(after[j] == m.pending[i]);
    }
    if after.contains(m.pending[i]) && m.pending[i] != info {
        let j = choose|j: int| 0 <= j < after.len() && after[j] == m.pending[i];
        assert(kept[j] == m.pending[i]);
    }
}

/// A wait is interrupted exactly by a pending signal that is not held back and
/// has an effect: not by one that is ignored, nor by one whose default is to do
/// nothing.
pub proof fn law_effective_signal_interrupts(m: SignalModel, info: SignalInfo)
    requires
        m.ok(),
        1 <= info.signal <= 64,
    ensures
        m.interrupted_by()(info) <==> !held_back(m.mask, info) && m.actions[info.signal as int].handler
            != 1 && !(m.actions[info.signal as int].handler == 0 && (info.signal == 17
            || info.signal == 18 || info.signal == 23 || info.signal == 28)),
{
    lemma_passes(m.mask, info);
}

/// The set of pending signals has exactly the bits of the pending signals.
pub proof fn law_pending_set_is_exact(pending: Seq<SignalInfo>, signal: u8)
    requires
        1 <= signal <= 64,
        forall|i: int| 0 <= i < pending.len() ==> is_signal((#[trigger] pending[i]).signal),
    ensures
        in_mask(mask_of(pending), signal) <==> exists|i: int|
            0 <= i < pending.len() && (#[trigger] pending[i]).signal == signal,
    decreases pending.len(),
{
    let place = (signal - 1) as u64;
    if pending.len() == 0 {
        lemma_or_bits(0, 0, place);
        lemma_no_bit(place);
    } else {
        let rest = pending.drop_last();
        assert forall|i: int| 0 <= i < rest.len() implies is_signal((#[trigger] rest[i]).signal) by {
            assert(rest[i] == pending[i]);
        }
        law_pending_set_is_exact(rest, signal);
        let last = pending.last();
        assert(pending[pending.len() - 1] == last);
        let own = (last.signal - 1) as u64;
        let before = mask_of(rest);
        lemma_or_bits(before, 1u64 << own, place);
        lemma_one_bit(own, place);
        if in_mask(before, signal) {
            let i = choose|i: int| 0 <= i < rest.len() && (#[trigger] rest[i]).signal == signal;
            assert(pending[i].signal == signal);
        }
        if exists|i: int| 0 <= i < pending.len() && (#[trigger] pending[i]).signal == signal {
            let i = choose|i: int|
                0 <= i < pending.len() && (#[trigger] pending[i]).signal == signal;
            if i < rest.len() {
                assert(rest[i].signal == signal);
            }
        }
    }
}

proof fn lemma_no_bit(place: u64)
    by (bit_vector)
    requires
        place < 64,
    ensures
        0u64 & (1u64 << place) == 0,
{
}

/// The records of a signal give its number, where it came from and who sent it.
pub proof fn law_record_names_sender(info: SignalInfo)
    ensures
        siginfo_of(info).len() == 128,
        u32_at(siginfo_of(info), 0) == info.signal,
        u32_at(siginfo_of(info), 8) == info.code as u32,
        u32_at(siginfo_of(info), 16) == info.sender_pid,
        u32_at(siginfo_of(info), 20) == info.sender_uid,
        signalfd_record(info).len() == 128,
        u32_at(signalfd_record(info), 0) == info.signal,
        u32_at(signalfd_record(info), 8) == info.code as u32,
        u32_at(signalfd_record(info), 12) == info.sender_pid,
        u32_at(signalfd_record(info), 16) == info.sender_uid,
{
    let signal = u32_bytes(info.signal as u32);
    let code = u32_bytes(info.code as u32);
    let pid = u32_bytes(info.sender_pid);
    let uid = u32_bytes(info.sender_uid);
    assert(signal.len() == 4 && code.len() == 4 && pid.len() == 4 && uid.len() == 4);
    let a = siginfo_of(info);
    let b = signalfd_record(info);
    reveal(signalfd_record);
    assert(a.len() == 128);
    assert(b.len() == 128);
    assert(a.subrange(0, 4) =~= signal);
    assert(a.subrange(8, 12) =~= code);
    assert(a.subrange(16, 20) =~= pid);
    assert(a.subrange(20, 24) =~= uid);
    assert(b.subrange(0, 4) =~= signal);
    assert(b.subrange(8, 12) =~= code);
    assert(b.subrange(12, 16) =~= pid);
    assert(b.subrange(16, 20) =~= uid);
    lemma_u32_part(a, 0, info.signal as u32);
    lemma_u32_part(a, 8, info.code as u32);
    lemma_u32_part(a, 16, info.sender_pid);
    lemma_u32_part(a, 20, info.sender_uid);
    lemma_u32_part(b, 0, info.signal as u32);
    lemma_u32_part(b, 8, info.code as u32);
    lemma_u32_part(b, 12, info.sender_pid);
    lemma_u32_part(b, 16, info.sender_uid);
}

proof fn lemma_u32_part(bytes: Seq<u8>, at: int, value: u32)
    requires
        0 <= at,
        at + 4 <= bytes.len(),
        bytes.subrange(at, at + 4) == u32_bytes(value),
    ensures
        u32_at(bytes, at) == value,
{
    lemma_u32_round_trip(value);
    let part = u32_bytes(value);
    assert(bytes.subrange(at, at + 4)[0] == bytes[at]);
    assert(bytes.subrange(at, at + 4)[1] == bytes[at + 1]);
    assert(bytes.subrange(at, at + 4)[2] == bytes[at + 2]);
    assert(bytes.subrange(at, at + 4)[3] == bytes[at + 3]);
}

/// Reading signals from a descriptor takes the oldest ones of its mask, in
/// order, as many as there is room for.
pub proof fn law_oldest_matching_signal_is_read(m: SignalModel, mask: u64, records: nat)
    ensures
        records == 0 ==> drained(m, mask, records).1.len() == 0,
        drained(m, mask, records).1.len() <= records,
        records > 0 ==> ({
            let at = first_where(m.pending, matching(mask), 0);
            &&& at >= m.pending.len() ==> drained(m, mask, records).1.len() == 0
                && drained(m, mask, records).0 == m
            &&& at < m.pending.len() ==> {
                &&& drained(m, mask, records).1.len() > 0
                &&& drained(m, mask, records).1[0] == m.pending[at]
                &&& in_mask(mask, m.pending[at].signal)
                &&& forall|i: int| 0 <= i < at ==> !in_mask(mask, (#[trigger] m.pending[i]).signal)
            }
        }),
        drained(m, mask, records).0.pending.len() + drained(m, mask, records).1.len()
            == m.pending.len(),
    decreases records,
{
    lemma_first_where(m.pending, matching(mask), 0);
    let at = first_where(m.pending, matching(mask), 0);
    if records > 0 && at < m.pending.len() {
        law_oldest_matching_signal_is_read(m.taken(at), mask, (records - 1) as nat);
    }
}

} // verus!
