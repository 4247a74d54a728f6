//! Process and thread syscalls.

use vstd::prelude::*;
use crate::bytes::{put_bytes, put_u32, u32_bytes};
use crate::mem::UserMemory;
use crate::proc::files::{entry_of, Descriptor, DescriptorEntry};
use crate::proc::process::{Process, ProcessModel};
use crate::proc::signal::{SignalFd, UNBLOCKABLE};
use crate::proc::signal_syscall::{read_user_mask, user_mask};
use crate::proc::table::{waited, ProcessTable, WaitOutcome};
use crate::proc::Error;
use crate::syscall::{map_memory_error, map_process_error, process_errno, Errno};

verus! {

/// Do not wait for a child that has not exited.
pub const WNOHANG: u64 = 1;

/// All wait flags that are understood.
pub const WAIT_FLAGS: u64 = 11;

/// Signal descriptor flag: reading never waits.
pub const SFD_NONBLOCK: u64 = 0o4000;

/// Signal descriptor flag: closed when the program is replaced.
pub const SFD_CLOEXEC: u64 = 0o2000000;

/// What a syscall that may have to wait ended in.
#[derive(Copy, Clone, Debug, PartialEq, Eq, Structural)]
pub enum CallStep {
    /// It is done.
    Done(u64),
    /// Wait for the child event, then try again.
    Sleep,
}

/// Waits for a child once; its status is written to `status` unless that is
/// zero.
pub fn syscall_process_wait(
    table: &mut ProcessTable,
    memory: &mut UserMemory,
    current: usize,
    selector: i64,
    status: u64,
    flags: u64,
) -> (step: Result<CallStep, Errno>)
    requires
        old(table).wf(),
    ensures
        final(table).wf(),
        ({
            let m = old(table)@;
            let outcome = waited(m, current, selector, flags & WNOHANG != 0);
            if flags & !WAIT_FLAGS != 0 {
                &&& step == Err::<CallStep, Errno>(Errno::Invalid)
                &&& final(table)@ == m
                &&& final(memory)@ == old(memory)@
            } else {
                match outcome {
                    Err(error) => {
                        &&& step == Err::<CallStep, Errno>(process_errno(error))
                        &&& final(table)@ == m
                        &&& final(memory)@ == old(memory)@
                    },
                    Ok((after, WaitOutcome::Nothing)) => {
                        &&& step == Ok::<CallStep, Errno>(CallStep::Done(0))
                        &&& final(table)@ == after
                        &&& final(memory)@ == old(memory)@
                    },
                    Ok((after, WaitOutcome::Sleep)) => {
                        &&& step == Ok::<CallStep, Errno>(CallStep::Sleep)
                        &&& final(table)@ == after
                        &&& final(memory)@ == old(memory)@
                    },
                    Ok((after, WaitOutcome::Reaped(pid, code))) => {
                        &&& final(table)@ == after
                        &&& if status == 0 {
                            &&& step == Ok::<CallStep, Errno>(CallStep::Done(pid as u64))
                            &&& final(memory)@ == old(memory)@
                        } else if old(memory)@.covers(status as int, 4) {
                            &&& step == Ok::<CallStep, Errno>(CallStep::Done(pid as u64))
                            &&& final(memory)@ == old(memory)@.written(
                                status as int,
                                u32_bytes(code as u32),
                            )
                        } else {
                            &&& step == Err::<CallStep, Errno>(Errno::Fault)
                            &&& final(memory)@ == old(memory)@
                        }
                    },
                }
            }
        }),
{
    if flags & !WAIT_FLAGS != 0 {
        return Err(Errno::Invalid);
    }
    match table.wait_current(current, selector, flags & WNOHANG != 0) {
        Err(error) => Err(map_process_error(error)),
        Ok(WaitOutcome::Nothing) => Ok(CallStep::Done(0)),
        Ok(WaitOutcome::Sleep) => Ok(CallStep::Sleep),
        Ok(WaitOutcome::Reaped(pid, code)) => {
            if status != 0 {
                let mut bytes: Vec<u8> = Vec::new();
                put_u32(&mut bytes, #[verifier::truncate] (code as u32));
                assert(bytes@ =~= u32_bytes(code as u32));
                match memory.write_user(status, &bytes) {
                    Ok(_) => {},
                    Err(error) => {
                        return Err(map_memory_error(error));
                    },
                }
            }
            Ok(CallStep::Done(pid as u64))
        },
    }
}

/// Turns the result of a process operation into that of a syscall.
pub fn process_result(result: Result<usize, Error>) -> (value: Result<u64, Errno>)
    ensures
        value == match result {
            Ok(v) => Ok::<u64, Errno>(v as u64),
            Err(error) => Err(process_errno(error)),
        },
{
    match result {
        Ok(value) => Ok(value as u64),
        Err(error) => Err(map_process_error(error)),
    }
}

/// Returns the group of a process.
pub fn syscall_process_getpgid(table: &ProcessTable, current: Option<usize>, pid: usize) -> (value:
    Result<u64, Errno>)
    requires
        table.wf(),
    ensures
        value == match table@.chosen(current, pid) {
            Ok(p) => Ok::<u64, Errno>(p.group as u64),
            Err(error) => Err(process_errno(error)),
        },
{
    process_result(table.get_process_group(current, pid))
}

/// Returns the session of a process.
pub fn syscall_process_getsid(table: &ProcessTable, current: Option<usize>, pid: usize) -> (value:
    Result<u64, Errno>)
    requires
        table.wf(),
    ensures
        value == match table@.chosen(current, pid) {
            Ok(p) => Ok::<u64, Errno>(p.session as u64),
            Err(error) => Err(process_errno(error)),
        },
{
    process_result(table.get_session(current, pid))
}

/// Makes a process the leader of a new session.
pub fn syscall_process_setsid(process: &mut Process) -> (value: Result<u64, Errno>)
    requires
        old(process).wf(),
    ensures
        final(process).wf(),
        if old(process)@.group == old(process)@.pid {
            &&& value == Err::<u64, Errno>(Errno::Permission)
            &&& final(process)@ == old(process)@
        } else {
            &&& value == Ok::<u64, Errno>(old(process)@.pid as u64)
            &&& final(process)@ == (ProcessModel {
                session: old(process)@.pid,
                group: old(process)@.pid,
                tty: None,
                ..old(process)@
            })
        },
{
    process_result(process.create_session())
}

/// Creates a signal descriptor, or changes an existing one.
///
/// A new descriptor stands for object `fresh`; `existing` is the object of an
/// old one. Returns the descriptor number and the descriptor's new state.
pub fn syscall_signal_fd(
    process: &mut Process,
    memory: &UserMemory,
    fd: i32,
    mask: u64,
    flags: u64,
    fresh: usize,
) -> (result: Result<(i32, SignalFd), Errno>)
    requires
        old(process).wf(),
    ensures
        final(process).wf(),
        ({
            let nonblocking = flags & SFD_NONBLOCK != 0;
            let wanted = user_mask(memory@, mask);
            let entry = DescriptorEntry {
                descriptor: Descriptor::SignalFd(fresh),
                close_on_exec: flags & SFD_CLOEXEC != 0,
            };
            let installed = crate::proc::files::installed(old(process)@.files, entry, 0);
            let opened = entry_of(old(process)@.files, fd as int);
            if mask == 0 || flags & !(SFD_NONBLOCK | SFD_CLOEXEC) != 0 {
                &&& result == Err::<(i32, SignalFd), Errno>(Errno::Invalid)
                &&& final(process)@ == old(process)@
            } else if wanted.is_err() {
                &&& result == Err::<(i32, SignalFd), Errno>(wanted->Err_0)
                &&& final(process)@ == old(process)@
            } else {
                let object = SignalFd { mask: wanted->Ok_0 & !UNBLOCKABLE, nonblocking };
                if fd == -1 {
                    match installed {
                        Ok((files, number)) => {
                            &&& result == Ok::<(i32, SignalFd), Errno>((number, object))
                            &&& final(process)@ == (ProcessModel { files, ..old(process)@ })
                        },
                        Err(error) => {
                            &&& result == Err::<(i32, SignalFd), Errno>(process_errno(error))
                            &&& final(process)@ == old(process)@
                        },
                    }
                } else {
                    &&& final(process)@ == old(process)@
                    &&& result == match opened {
                        None => Err::<(i32, SignalFd), Errno>(Errno::BadFileDescriptor),
                        Some(e) => if e.descriptor is SignalFd {
                            Ok((fd, object))
                        } else {
                            Err(Errno::Invalid)
                        },
                    }
                }
            }
        }),
{
    if mask == 0 || flags & !(SFD_NONBLOCK | SFD_CLOEXEC) != 0 {
        return Err(Errno::Invalid);
    }
    let wanted: u64 = match read_user_mask(memory, mask) {
        Ok(wanted) => wanted,
        Err(error) => {
            return Err(error);
        },
    };
    let object = SignalFd::new(wanted, flags & SFD_NONBLOCK != 0);
    if fd == -1 {
        match process.install_descriptor_value(
            Descriptor::SignalFd(fresh),
            flags & SFD_CLOEXEC != 0,
        ) {
            Ok(number) => Ok((number, object)),
            Err(error) => Err(map_process_error(error)),
        }
    } else {
        match process.descriptor(fd) {
            None => Err(Errno::BadFileDescriptor),
            Some(Descriptor::SignalFd(_)) => Ok((fd, object)),
            Some(_) => Err(Errno::Invalid),
        }
    }
}

/// Checks a new thread name of at most `capacity` bytes.
///
/// A name that is too long is refused, not cut.
pub fn check_thread_name(name: &Result<Vec<u8>, Errno>, capacity: usize) -> (result: Result<
    (),
    Errno,
>)
    ensures
        result == match *name {
            Ok(bytes) => if bytes@.len() > capacity {
                Err::<(), Errno>(Errno::Range)
            } else {
                Ok(())
            },
            Err(_) => Err(Errno::Range),
        },
{
    match name {
        Ok(bytes) => {
            if bytes.len() > capacity {
                return Err(Errno::Range);
            }
            Ok(())
        },
        Err(_) => Err(Errno::Range),
    }
}

/// Reports a thread name with its terminating zero in a buffer of `length`
/// bytes.
pub fn report_thread_name(memory: &mut UserMemory, name: &[u8], buffer: u64, length: u64) -> (result:
    Result<u64, Errno>)
    ensures
        if length <= name@.len() {
            &&& result == Err::<u64, Errno>(Errno::Range)
            &&& final(memory)@ == old(memory)@
        } else if old(memory)@.covers(buffer as int, name@.len() as int + 1) {
            &&& result == Ok::<u64, Errno>(0)
            &&& final(memory)@ == old(memory)@.written(buffer as int, name@.push(0))
        } else {
            &&& result == Err::<u64, Errno>(Errno::Fault)
            &&& final(memory)@ == old(memory)@
        },
{
    if length <= name.len() as u64 {
        return Err(Errno::Range);
    }
    let mut record: Vec<u8> = Vec::new();
    put_bytes(&mut record, name);
    record.push(0);
    assert(record@ =~= name@.push(0));
    match memory.write_user(buffer, &record) {
        Ok(_) => Ok(0),
        Err(error) => Err(map_memory_error(error)),
    }
}

} // verus!
