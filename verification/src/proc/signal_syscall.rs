//! Syscalls on signals.

use vstd::prelude::*;
use crate::bytes::{get_u32, get_u64, put_u32, put_u64, put_zeros, u32_at, u32_bytes, u64_at, u64_bytes, zeros};
use crate::lists::any_where;
use crate::mem::{MemoryModel, UserMemory, UserRange};
use crate::proc::signal::{
    in_mask, mask_of, other_than, siginfo, siginfo_of, stack_contains, SignalAction, SignalInfo,
    SignalManager, SignalModel, SignalStack, SignalWait, SIGKILL, SIGNAL_MAX, SIGSTOP,
    SIG_BLOCK, SIG_IGN, SIG_SETMASK, SIG_UNBLOCK, SUPPORTED_ACTION_FLAGS, UNBLOCKABLE,
};
use crate::proc::Error;
use crate::syscall::{map_memory_error, Errno};

verus! {

/// Size of a signal mask in user memory.
pub const USER_SIGSET_SIZE: usize = 128;

/// Size of a signal action in user memory.
pub const USER_SIGACTION_SIZE: usize = 152;

/// Size of a stack description in user memory.
pub const USER_STACK_SIZE: usize = 24;

/// Stack flag: the thread runs on the alternate stack.
pub const SS_ONSTACK: u32 = 1;

/// Stack flag: there is no alternate stack.
pub const SS_DISABLE: u32 = 2;

/// Smallest alternate stack.
pub const MINSIGSTKSZ: u64 = 2048;

/// Checks a signal number.
pub fn validate_signal(signal: i32) -> (number: Result<u8, Errno>)
    ensures
        number == if 1 <= signal <= SIGNAL_MAX {
            Ok::<u8, Errno>(signal as u8)
        } else {
            Err(Errno::Invalid)
        },
{
    if signal < 1 || signal > 64 {
        return Err(Errno::Invalid);
    }
    Ok(signal as u8)
}

/// Checks a signal number where none stands for testing only.
pub fn validate_optional_signal(signal: i32) -> (number: Result<Option<u8>, Error>)
    ensures
        number == if signal == 0 {
            Ok::<Option<u8>, Error>(None)
        } else if 1 <= signal <= SIGNAL_MAX {
            Ok(Some(signal as u8))
        } else {
            Err(Error::InvalidArgument)
        },
{
    if signal == 0 {
        return Ok(None);
    }
    if signal < 0 || signal > 64 {
        return Err(Error::InvalidArgument);
    }
    Ok(Some(signal as u8))
}

/// A signal mask in user memory.
pub open spec fn mask_bytes(mask: u64) -> Seq<u8> {
    u64_bytes(mask) + zeros(120)
}

/// A signal action in user memory.
pub open spec fn action_bytes(action: SignalAction) -> Seq<u8> {
    u64_bytes(action.handler) + u64_bytes(action.flags) + u64_bytes(action.restorer) + u64_bytes(
        action.mask,
    ) + zeros(120)
}

/// The signal action that stands in user memory.
pub open spec fn action_at(bytes: Seq<u8>) -> SignalAction {
    SignalAction {
        handler: u64_at(bytes, 0),
        flags: u64_at(bytes, 8),
        restorer: u64_at(bytes, 16),
        mask: u64_at(bytes, 24) & !UNBLOCKABLE,
    }
}

/// A stack description in user memory.
pub open spec fn stack_bytes(stack: Option<SignalStack>, on_stack: bool) -> Seq<u8> {
    match stack {
        Some(stack) => u64_bytes(stack.pointer) + u32_bytes(
            if on_stack {
                SS_ONSTACK
            } else {
                0
            },
        ) + zeros(4) + u64_bytes(stack.size),
        None => u64_bytes(0) + u32_bytes(SS_DISABLE) + zeros(4) + u64_bytes(0),
    }
}

fn encode_mask(mask: u64) -> (bytes: Vec<u8>)
    ensures
        bytes@ == mask_bytes(mask),
        bytes@.len() == USER_SIGSET_SIZE,
{
    let mut bytes: Vec<u8> = Vec::new();
    put_u64(&mut bytes, mask);
    put_zeros(&mut bytes, 120);
    bytes
}

fn encode_action(action: &SignalAction) -> (bytes: Vec<u8>)
    ensures
        bytes@ == action_bytes(*action),
        bytes@.len() == USER_SIGACTION_SIZE,
{
    let mut bytes: Vec<u8> = Vec::new();
    put_u64(&mut bytes, action.handler);
    put_u64(&mut bytes, action.flags);
    put_u64(&mut bytes, action.restorer);
    put_u64(&mut bytes, action.mask);
    put_zeros(&mut bytes, 120);
    bytes
}

fn encode_stack(stack: Option<SignalStack>, on_stack: bool) -> (bytes: Vec<u8>)
    ensures
        bytes@ == stack_bytes(stack, on_stack),
        bytes@.len() == USER_STACK_SIZE,
{
    let mut bytes: Vec<u8> = Vec::new();
    match stack {
        Some(stack) => {
            put_u64(&mut bytes, stack.pointer);
            put_u32(&mut bytes, if on_stack {
                SS_ONSTACK
            } else {
                0
            });
            put_zeros(&mut bytes, 4);
            put_u64(&mut bytes, stack.size);
        },
        None => {
            put_u64(&mut bytes, 0);
            put_u32(&mut bytes, SS_DISABLE);
            put_zeros(&mut bytes, 4);
            put_u64(&mut bytes, 0);
        },
    }
    bytes
}

/// The memory after an optional result of `data` was written at `address`.
pub open spec fn reported(memory: MemoryModel, address: u64, data: Seq<u8>) -> Result<
    MemoryModel,
    Errno,
> {
    if address == 0 {
        Ok(memory)
    } else if memory.covers(address as int, data.len() as int) {
        Ok(memory.written(address as int, data))
    } else {
        Err(Errno::Fault)
    }
}

/// Writes a result unless it is not asked for.
fn report(memory: &mut UserMemory, address: u64, data: &Vec<u8>) -> (result: Result<(), Errno>)
    ensures
        match result {
            Ok(_) => reported(old(memory)@, address, data@) == Ok::<MemoryModel, Errno>(
                final(memory)@,
            ),
            Err(e) => reported(old(memory)@, address, data@) == Err::<MemoryModel, Errno>(e)
                && final(memory)@ == old(memory)@,
        },
{
    if address == 0 {
        return Ok(());
    }
    match memory.write_user(address, data) {
        Ok(_) => Ok(()),
        Err(error) => Err(map_memory_error(error)),
    }
}

/// Whether a process may set this action.
pub open spec fn action_allowed(action: SignalAction, range: UserRange) -> bool {
    &&& action.flags & !SUPPORTED_ACTION_FLAGS == 0
    &&& action.handler > SIG_IGN ==> range.has(action.handler) && range.has(action.restorer)
}

/// Whether `signal` gets the action at `address`, or why not.
pub open spec fn new_action(memory: MemoryModel, signal: u8, address: u64, range: UserRange) -> Result<
    SignalAction,
    Errno,
> {
    if signal == SIGKILL || signal == SIGSTOP {
        Err(Errno::Invalid)
    } else if !memory.covers(address as int, USER_SIGACTION_SIZE as int) {
        Err(Errno::Fault)
    } else if !action_allowed(action_at(memory.at(address as int, 152)), range) {
        Err(Errno::Invalid)
    } else {
        Ok(action_at(memory.at(address as int, 152)))
    }
}

fn read_user_action(memory: &UserMemory, address: u64) -> (action: Result<SignalAction, Errno>)
    ensures
        action == if memory@.covers(address as int, USER_SIGACTION_SIZE as int) {
            Ok::<SignalAction, Errno>(action_at(memory@.at(address as int, 152)))
        } else {
            Err(Errno::Fault)
        },
{
    match memory.read_user(address, USER_SIGACTION_SIZE) {
        Err(error) => Err(map_memory_error(error)),
        Ok(bytes) => Ok(
            SignalAction {
                handler: get_u64(&bytes, 0),
                flags: get_u64(&bytes, 8),
                restorer: get_u64(&bytes, 16),
                mask: get_u64(&bytes, 24) & !UNBLOCKABLE,
            },
        ),
    }
}

/// The mask at `address`.
pub open spec fn user_mask(memory: MemoryModel, address: u64) -> Result<u64, Errno> {
    if memory.covers(address as int, USER_SIGSET_SIZE as int) {
        Ok(u64_at(memory.at(address as int, 128), 0))
    } else {
        Err(Errno::Fault)
    }
}

/// Reads a signal mask.
pub fn read_user_mask(memory: &UserMemory, address: u64) -> (mask: Result<u64, Errno>)
    ensures
        mask == user_mask(memory@, address),
{
    match memory.read_user(address, USER_SIGSET_SIZE) {
        Err(error) => Err(map_memory_error(error)),
        Ok(bytes) => Ok(get_u64(&bytes, 0)),
    }
}

/// Reports the action of a signal and changes it; zero addresses skip either
/// part.
pub fn syscall_signal_action(
    manager: &mut SignalManager,
    memory: &mut UserMemory,
    signal: i32,
    new_address: u64,
    old_address: u64,
    range: &UserRange,
) -> (result: Result<u64, Errno>)
    requires
        old(manager).wf(),
    ensures
        final(manager).wf(),
        final(manager).waiters() == old(manager).waiters(),
        ({
            let m = old(manager)@;
            let valid = 1 <= signal <= SIGNAL_MAX;
            let told = reported(old(memory)@, old_address, action_bytes(m.actions[signal as int]));
            if !valid {
                &&& result == Err::<u64, Errno>(Errno::Invalid)
                &&& final(manager)@ == m
                &&& final(memory)@ == old(memory)@
            } else if told.is_err() {
                &&& result == Err::<u64, Errno>(told->Err_0)
                &&& final(manager)@ == m
                &&& final(memory)@ == old(memory)@
            } else {
                &&& final(memory)@ == told->Ok_0
                &&& if new_address == 0 {
                    result == Ok::<u64, Errno>(0) && final(manager)@ == m
                } else {
                    match new_action(told->Ok_0, signal as u8, new_address, *range) {
                        Err(error) => result == Err::<u64, Errno>(error) && final(manager)@ == m,
                        Ok(action) => {
                            &&& result == Ok::<u64, Errno>(0)
                            &&& final(manager)@ == (SignalModel {
                                actions: m.actions.update(signal as int, action),
                                pending: if action.handler == SIG_IGN {
                                    m.pending.filter(other_than(signal as u8))
                                } else {
                                    m.pending
                                },
                                ..m
                            })
                        },
                    }
                }
            }
        }),
{
    let number: u8 = match validate_signal(signal) {
        Ok(number) => number,
        Err(error) => {
            return Err(error);
        },
    };
    let current = manager.action(number);
    match report(memory, old_address, &encode_action(&current)) {
        Ok(_) => {},
        Err(error) => {
            return Err(error);
        },
    }
    if new_address == 0 {
        return Ok(0);
    }
    if number == SIGKILL || number == SIGSTOP {
        return Err(Errno::Invalid);
    }
    let action = match read_user_action(memory, new_address) {
        Ok(action) => action,
        Err(error) => {
            return Err(error);
        },
    };
    let custom_handler = action.handler > SIG_IGN;
    if action.flags & !SUPPORTED_ACTION_FLAGS != 0 || (custom_handler && !range.contains(
        action.handler,
    )) || (custom_handler && !range.contains(action.restorer)) {
        return Err(Errno::Invalid);
    }
    let _ = manager.set_action(number, action);
    Ok(0)
}

/// The state after a mask change, or why there is none.
pub open spec fn mask_changed(m: SignalModel, how: i32, mask: u64) -> Result<SignalModel, Errno> {
    if how == SIG_BLOCK {
        Ok(m.masked(m.mask | mask))
    } else if how == SIG_UNBLOCK {
        Ok(m.masked(m.mask & !mask))
    } else if how == SIG_SETMASK {
        Ok(m.masked(mask))
    } else {
        Err(Errno::Invalid)
    }
}

/// Reports the blocked signals and changes them; zero addresses skip either
/// part.
pub fn syscall_signal_mask(
    manager: &mut SignalManager,
    memory: &mut UserMemory,
    how: i32,
    new_address: u64,
    old_address: u64,
) -> (result: Result<u64, Errno>)
    requires
        old(manager).wf(),
    ensures
        final(manager).wf(),
        final(manager).waiters() == old(manager).waiters(),
        ({
            let m = old(manager)@;
            let told = reported(old(memory)@, old_address, mask_bytes(m.mask));
            let change = if told.is_err() {
                Err(told->Err_0)
            } else if new_address == 0 {
                Ok(m)
            } else {
                match user_mask(told->Ok_0, new_address) {
                    Ok(mask) => mask_changed(m, how, mask),
                    Err(error) => Err(error),
                }
            };
            &&& final(memory)@ == if told.is_ok() {
                told->Ok_0
            } else {
                old(memory)@
            }
            &&& match change {
                Ok(after) => result == Ok::<u64, Errno>(0) && final(manager)@ == after,
                Err(error) => result == Err::<u64, Errno>(error) && final(manager)@ == m,
            }
        }),
{
    let current: u64 = manager.mask();
    match report(memory, old_address, &encode_mask(current)) {
        Ok(_) => {},
        Err(error) => {
            return Err(error);
        },
    }
    if new_address == 0 {
        return Ok(0);
    }
    let mask: u64 = match read_user_mask(memory, new_address) {
        Ok(mask) => mask,
        Err(error) => {
            return Err(error);
        },
    };
    match manager.update_mask(how, mask) {
        Ok(_) => Ok(0),
        Err(error) => Err(error),
    }
}

/// The alternate stack described at `address`, or why it is refused.
pub open spec fn new_stack(memory: MemoryModel, address: u64, range: UserRange) -> Result<
    Option<SignalStack>,
    Errno,
> {
    let bytes = memory.at(address as int, 24);
    let pointer = u64_at(bytes, 0);
    let flags = u32_at(bytes, 8);
    let size = u64_at(bytes, 16);
    if !memory.covers(address as int, USER_STACK_SIZE as int) {
        Err(Errno::Fault)
    } else if flags == SS_DISABLE {
        Ok(None)
    } else if flags != 0 {
        Err(Errno::Invalid)
    } else if pointer + size > u64::MAX || pointer < range.min || pointer + size > range.max || size
        < MINSIGSTKSZ {
        Err(Errno::OutOfMemory)
    } else {
        Ok(Some(SignalStack { pointer, size }))
    }
}

fn read_user_stack(memory: &UserMemory, address: u64, range: &UserRange) -> (stack: Result<
    Option<SignalStack>,
    Errno,
>)
    ensures
        stack == new_stack(memory@, address, *range),
{
    let bytes = match memory.read_user(address, USER_STACK_SIZE) {
        Ok(bytes) => bytes,
        Err(error) => {
            return Err(map_memory_error(error));
        },
    };
    let pointer: u64 = get_u64(&bytes, 0);
    let flags: u32 = get_u32(&bytes, 8);
    let size: u64 = get_u64(&bytes, 16);
    if flags == SS_DISABLE {
        return Ok(None);
    }
    if flags != 0 {
        return Err(Errno::Invalid);
    }
    match pointer.checked_add(size) {
        None => Err(Errno::OutOfMemory),
        Some(end) => {
            if pointer < range.min || end > range.max || size < MINSIGSTKSZ {
                return Err(Errno::OutOfMemory);
            }
            Ok(Some(SignalStack { pointer, size }))
        },
    }
}

/// Reports the alternate stack and changes it, but not while the thread runs
/// on it; zero addresses skip either part.
pub fn syscall_signal_altstack(
    manager: &mut SignalManager,
    memory: &mut UserMemory,
    stack_pointer: u64,
    new_address: u64,
    old_address: u64,
    range: &UserRange,
) -> (result: Result<u64, Errno>)
    requires
        old(manager).wf(),
    ensures
        final(manager).wf(),
        final(manager).waiters() == old(manager).waiters(),
        ({
            let m = old(manager)@;
            let on_stack = match m.alt_stack {
                Some(stack) => stack.has(stack_pointer),
                None => false,
            };
            let told = reported(old(memory)@, old_address, stack_bytes(m.alt_stack, on_stack));
            let change = if told.is_err() {
                Err(told->Err_0)
            } else if new_address == 0 {
                Ok(m.alt_stack)
            } else if on_stack {
                Err(Errno::Permission)
            } else {
                new_stack(told->Ok_0, new_address, *range)
            };
            &&& final(memory)@ == if told.is_ok() {
                told->Ok_0
            } else {
                old(memory)@
            }
            &&& match change {
                Ok(stack) => result == Ok::<u64, Errno>(0) && final(manager)@ == (SignalModel {
                    alt_stack: stack,
                    ..m
                }),
                Err(error) => result == Err::<u64, Errno>(error) && final(manager)@ == m,
            }
        }),
{
    let current = manager.alt_stack();
    let on_stack = match current {
        Some(stack) => stack_contains(stack, stack_pointer),
        None => false,
    };
    match report(memory, old_address, &encode_stack(current, on_stack)) {
        Ok(_) => {},
        Err(error) => {
            return Err(error);
        },
    }
    if new_address == 0 {
        return Ok(0);
    }
    if on_stack {
        return Err(Errno::Permission);
    }
    match read_user_stack(memory, new_address, range) {
        Ok(stack) => {
            manager.replace_alt_stack(stack);
            Ok(0)
        },
        Err(error) => Err(error),
    }
}

/// Reports the pending signals.
pub fn syscall_signal_pending(manager: &SignalManager, memory: &mut UserMemory, output: u64) -> (result:
    Result<u64, Errno>)
    requires
        manager.wf(),
    ensures
        ({
            let data = mask_bytes(mask_of(manager@.pending));
            if old(memory)@.covers(output as int, USER_SIGSET_SIZE as int) {
                &&& result == Ok::<u64, Errno>(0)
                &&& final(memory)@ == old(memory)@.written(output as int, data)
            } else {
                &&& result == Err::<u64, Errno>(Errno::Fault)
                &&& final(memory)@ == old(memory)@
            }
        }),
{
    match memory.write_user(output, &encode_mask(manager.pending_mask())) {
        Ok(_) => Ok(0),
        Err(error) => Err(map_memory_error(error)),
    }
}

/// Starts waiting for signals with the mask at `address`.
pub fn syscall_signal_suspend(manager: &mut SignalManager, memory: &UserMemory, address: u64) -> (result:
    Result<(), Errno>)
    requires
        old(manager).wf(),
    ensures
        final(manager).wf(),
        final(manager).waiters() == old(manager).waiters(),
        match user_mask(memory@, address) {
            Err(error) => result == Err::<(), Errno>(error) && final(manager)@ == old(manager)@,
            Ok(mask) => {
                &&& result.is_ok()
                &&& final(manager)@ == (SignalModel {
                    suspended: Some(
                        match old(manager)@.suspended {
                            Some(before) => before,
                            None => old(manager)@.mask,
                        },
                    ),
                    ..old(manager)@.masked(mask)
                })
            },
        },
{
    match read_user_mask(memory, address) {
        Ok(mask) => {
            manager.begin_suspend(mask);
            Ok(())
        },
        Err(error) => Err(error),
    }
}

/// What a wait for signals does next.
#[derive(Copy, Clone, Debug, PartialEq, Eq, Structural)]
pub enum WaitStep {
    /// The wait is over.
    Ready(SignalInfo),
    /// Sleep until a signal comes.
    Sleep,
    /// Sleep until a signal comes, but at most this long.
    SleepFor(u64),
}

/// One pass of a wait for the signals in `mask` that ends at `deadline`.
pub fn wait_for_matching_signal(
    manager: &mut SignalManager,
    mask: u64,
    deadline: Option<u64>,
    now_ns: u64,
) -> (step: Result<WaitStep, Errno>)
    requires
        old(manager).wf(),
    ensures
        final(manager).wf(),
        final(manager).waiters() == old(manager).waiters(),
        ({
            let m = old(manager)@;
            let at = crate::lists::first_where(
                m.pending,
                crate::proc::signal::matching(mask),
                0,
            );
            if at < m.pending.len() {
                &&& step == Ok::<WaitStep, Errno>(WaitStep::Ready(m.pending[at]))
                &&& final(manager)@ == m.taken(at)
            } else if any_where(m.pending, crate::proc::signal::passes(m.mask)) {
                &&& step == Err::<WaitStep, Errno>(Errno::Interrupted)
                &&& final(manager)@ == m
            } else {
                &&& final(manager)@ == (SignalModel { ready: false, ..m })
                &&& step == match deadline {
                    None => Ok::<WaitStep, Errno>(WaitStep::Sleep),
                    Some(end) => if end <= now_ns {
                        Err(Errno::TryAgain)
                    } else {
                        Ok(WaitStep::SleepFor((end - now_ns) as u64))
                    },
                }
            }
        }),
{
    match manager.prepare_signal_wait(mask) {
        SignalWait::Ready(info) => {
            return Ok(WaitStep::Ready(info));
        },
        SignalWait::Interrupted => {
            return Err(Errno::Interrupted);
        },
        SignalWait::Sleep => {},
    }
    match deadline {
        None => Ok(WaitStep::Sleep),
        Some(end) => {
            let remaining: u64 = end.saturating_sub(now_ns);
            if remaining == 0 {
                return Err(Errno::TryAgain);
            }
            Ok(WaitStep::SleepFor(remaining))
        },
    }
}

/// Reports the signal that a wait ended with.
pub fn write_user_signal_info(memory: &mut UserMemory, address: u64, info: &SignalInfo) -> (result:
    Result<u64, Errno>)
    ensures
        match reported(old(memory)@, address, siginfo_of(*info)) {
            Ok(after) => result == Ok::<u64, Errno>(info.signal as u64) && final(memory)@ == after,
            Err(error) => result == Err::<u64, Errno>(error) && final(memory)@ == old(memory)@,
        },
{
    match report(memory, address, &siginfo(info)) {
        Ok(_) => Ok(info.signal as u64),
        Err(error) => Err(error),
    }
}

/// The signals that a timed wait at `address` is for.
pub fn timed_wait_mask(memory: &UserMemory, address: u64) -> (mask: Result<u64, Errno>)
    ensures
        mask == match user_mask(memory@, address) {
            Err(error) => Err::<u64, Errno>(error),
            Ok(mask) => if mask & !UNBLOCKABLE == 0 {
                Err(Errno::Invalid)
            } else {
                Ok(mask & !UNBLOCKABLE)
            },
        },
{
    match read_user_mask(memory, address) {
        Err(error) => Err(error),
        Ok(mask) => {
            let waited: u64 = mask & !UNBLOCKABLE;
            if waited == 0 {
                Err(Errno::Invalid)
            } else {
                Ok(waited)
            }
        },
    }
}

/// An action reads back as it was reported, but for signals that cannot be
/// blocked.
pub proof fn law_action_round_trip(action: SignalAction)
    ensures
        action_at(action_bytes(action)) == (SignalAction {
            mask: action.mask & !UNBLOCKABLE,
            ..action
        }),
{
    let bytes = action_bytes(action);
    assert(bytes.subrange(0, 8) =~= u64_bytes(action.handler));
    assert(bytes.subrange(8, 16) =~= u64_bytes(action.flags));
    assert(bytes.subrange(16, 24) =~= u64_bytes(action.restorer));
    assert(bytes.subrange(24, 32) =~= u64_bytes(action.mask));
    crate::bytes::lemma_u64_at(bytes, 0, action.handler);
    crate::bytes::lemma_u64_at(bytes, 8, action.flags);
    crate::bytes::lemma_u64_at(bytes, 16, action.restorer);
    crate::bytes::lemma_u64_at(bytes, 24, action.mask);
}

/// A process cannot change what kill and stop signals do to it.
pub proof fn law_kill_action_is_fixed(memory: MemoryModel, address: u64, range: UserRange)
    ensures
        new_action(memory, SIGKILL, address, range) == Err::<SignalAction, Errno>(Errno::Invalid),
        new_action(memory, SIGSTOP, address, range) == Err::<SignalAction, Errno>(Errno::Invalid),
{
}

/// Changing the mask blocks more signals, fewer signals or exactly the given
/// ones, as asked; the kill and stop signals stay open.
pub proof fn law_mask_changes_as_asked(m: SignalModel, how: i32, mask: u64, signal: u8)
    requires
        m.ok(),
        1 <= signal <= 64,
    ensures
        ({
            let result = mask_changed(m, how, mask);
            let was = in_mask(m.mask, signal);
            let named = in_mask(mask, signal);
            let open = signal == 9 || signal == 19;
            &&& result.is_ok() <==> 0 <= how <= 2
            &&& result matches Ok(after) ==> {
                &&& how == 0 ==> (in_mask(after.mask, signal) <==> (was || named) && !open)
                &&& how == 1 ==> (in_mask(after.mask, signal) <==> was && !named && !open)
                &&& how == 2 ==> (in_mask(after.mask, signal) <==> named && !open)
                &&& after == (SignalModel { mask: after.mask, ..m })
            }
            &&& result matches Err(error) ==> error == Errno::Invalid
        }),
{
    let place = (signal - 1) as u64;
    let before = m.mask;
    lemma_changed_bits(before, mask, place);
}

proof fn lemma_changed_bits(before: u64, mask: u64, place: u64)
    by (bit_vector)
    requires
        place < 64,
    ensures
        ((before | mask) & !0x4_0100u64) & (1u64 << place) != 0 <==> (before & (1u64 << place) != 0
            || mask & (1u64 << place) != 0) && place != 8 && place != 18,
        ((before & !mask) & !0x4_0100u64) & (1u64 << place) != 0 <==> before & (1u64 << place) != 0
            && mask & (1u64 << place) == 0 && place != 8 && place != 18,
        (mask & !0x4_0100u64) & (1u64 << place) != 0 <==> mask & (1u64 << place) != 0 && place != 8
            && place != 18,
{
}

/// An action is set only for a signal whose action is not fixed, with known
/// flags and with a handler and a return address of the program.
pub proof fn law_action_is_checked(memory: MemoryModel, signal: u8, address: u64, range: UserRange)
    ensures
        new_action(memory, signal, address, range) matches Ok(action) ==> {
            let bytes = memory.at(address as int, 152);
            &&& signal != 9 && signal != 19
            &&& memory.covers(address as int, 152)
            &&& action.handler == u64_at(bytes, 0)
            &&& action.flags == u64_at(bytes, 8)
            &&& action.restorer == u64_at(bytes, 16)
            &&& action.mask == u64_at(bytes, 24) & !0x4_0100u64
            &&& action.flags & !0xdc00_0007u64 == 0
            &&& action.handler > 1 ==> range.min <= action.handler < range.max && range.min
                <= action.restorer < range.max
        },
        signal != 9 && signal != 19 && memory.covers(address as int, 152) && u64_at(
            memory.at(address as int, 152),
            0,
        ) <= 1 && u64_at(memory.at(address as int, 152), 8) == 0 ==> new_action(
            memory,
            signal,
            address,
            range,
        ).is_ok(),
{
    assert(0u64 & !0xdc00_0007u64 == 0) by (bit_vector);
}

/// An alternate stack lies inside the user range and is large enough for a
/// handler; a stack that is switched off needs neither.
pub proof fn law_alternate_stack_is_checked(memory: MemoryModel, address: u64, range: UserRange)
    ensures
        new_stack(memory, address, range) matches Ok(Some(stack)) ==> {
            let bytes = memory.at(address as int, 24);
            &&& stack.pointer == u64_at(bytes, 0)
            &&& stack.size == u64_at(bytes, 16)
            &&& u32_at(bytes, 8) == 0
            &&& range.min <= stack.pointer
            &&& stack.pointer + stack.size <= range.max
            &&& stack.size >= 2048
        },
        new_stack(memory, address, range) matches Ok(None) ==> u32_at(
            memory.at(address as int, 24),
            8,
        ) == 2,
        memory.covers(address as int, 24) && u32_at(memory.at(address as int, 24), 8) == 2
            ==> new_stack(memory, address, range) == Ok::<Option<SignalStack>, Errno>(None),
        !memory.covers(address as int, 24) ==> new_stack(memory, address, range) == Err::<
            Option<SignalStack>,
            Errno,
        >(Errno::Fault),
{
}

/// What a program asks for is written where it says, or nowhere if it does not
/// ask.
pub proof fn law_answer_is_written_where_asked(memory: MemoryModel, address: u64, data: Seq<u8>)
    ensures
        address == 0 ==> reported(memory, address, data) == Ok::<MemoryModel, Errno>(memory),
        address != 0 && memory.covers(address as int, data.len() as int) ==> reported(
            memory,
            address,
            data,
        ).is_ok() && reported(memory, address, data)->Ok_0.at(address as int, data.len() as int)
            == data,
        address != 0 && !memory.covers(address as int, data.len() as int) ==> reported(
            memory,
            address,
            data,
        ) == Err::<MemoryModel, Errno>(Errno::Fault),
{
    if address != 0 && memory.covers(address as int, data.len() as int) {
        let after = memory.written(address as int, data);
        assert(after.at(address as int, data.len() as int) =~= data);
    }
}

} // verus!
