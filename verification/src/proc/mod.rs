//! Process ownership and executable startup.

pub mod elf;
pub mod epoll;
pub mod files;
pub mod futex;
pub mod inotify;
pub mod path;
pub mod pipe;
pub mod process;
pub mod signal;
pub mod signal_syscall;
pub mod syscall;
pub mod table;
pub mod timerfd;

use vstd::prelude::*;
use crate::lists::lemma_first_where;
use crate::mem::UserRange;
use crate::proc::elf::{completes, load, LoadInput, LoadedElf, LoadedProgram};
use crate::proc::process::{forked_process, new_process, ProcessModel};
use crate::proc::table::{has_pid, ExitActions, ProcessTable, TableModel};
use crate::sys::event::WaitGroups;
use crate::sys::sched::scheduler::{KickAction, Scheduler, StackSlot};
use crate::sys::sched::{kick_action, run_user_thread, spawned, user_task, Site};
use crate::sys::thread::Thread;
use crate::{fs, mem};

verus! {

/// Process creation or executable loading failure.
#[derive(Copy, Clone, Debug)]
pub enum Error {
    /// A filesystem operation failed.
    Filesystem(fs::Error),
    /// A virtual memory operation failed.
    Memory(mem::Error),
    /// An ELF structure failed validation.
    InvalidElf(&'static str),
    /// The executable uses an unsupported ELF feature.
    UnsupportedElf,
    /// A required process argument was invalid.
    InvalidArgument,
    /// The process descriptor table is full.
    TooManyFiles,
    /// A descriptor number does not name an open descriptor.
    BadFileDescriptor,
    /// The selected process does not exist.
    NoSuchProcess,
    /// The caller has no matching child process.
    NoChild,
    /// The requested process operation is not permitted.
    PermissionDenied,
}

/// The table after one more thread of `pid` was started.
pub open spec fn thread_added(m: TableModel, pid: usize) -> TableModel {
    m.with(pid, ProcessModel { threads: (m.process(pid).threads + 1) as usize, ..m.process(pid) })
}

/// Starts a thread of process `pid`.
fn start_thread(
    table: &mut ProcessTable,
    pid: usize,
    thread_pointer: u64,
    scheduler: &mut Scheduler,
    site: &Site,
    stack: &StackSlot,
) -> (started: (usize, KickAction))
    requires
        old(table).wf(),
        old(table)@.has(pid),
        old(table)@.process(pid).threads < usize::MAX,
        old(scheduler).wf(),
        old(scheduler)@.settled(),
        site.on(old(scheduler)@),
        old(scheduler)@.threads.len() + 1 < usize::MAX,
        stack.fits(),
    ensures
        final(table).wf(),
        final(table)@ == thread_added(old(table)@, pid),
        final(scheduler).wf(),
        final(scheduler)@.settled(),
        started.0 == old(scheduler)@.threads.len() + 1,
        ({
            let p = old(table)@.process(pid);
            let after = spawned(
                old(scheduler)@,
                user_task(pid, p.nice, p.space, thread_pointer),
                *site,
                *stack,
            );
            &&& final(scheduler)@ == after.0
            &&& started.1 == kick_action(final(scheduler)@, after.1, *site)
        }),
{
    proof {
        lemma_first_where(table@.processes, has_pid(pid), 0);
    }
    let (nice, space) = match table.find_mut(pid) {
        Some(process) => {
            proof {
                process.lemma_wf();
            }
            process.register_thread();
            (process.nice(), process.address_space())
        },
        None => (0, 0),
    };
    run_user_thread(scheduler, pid, nice, space, thread_pointer, site, stack)
}

/// Whether this is what the first program is loaded from: `/sbin/init`, with
/// itself as its only argument, and the environment `PATH=/usr/bin:/bin` and
/// `HOME=/`.
pub open spec fn is_init(input: LoadInput, random: [u8; 16]) -> bool {
    &&& input.path@ == seq![0x2fu8, 0x73, 0x62, 0x69, 0x6e, 0x2f, 0x69, 0x6e, 0x69, 0x74]
    &&& input.arguments@.len() == 1
    &&& input.arguments@[0]@ == input.path@
    &&& input.environment@.len() == 2
    &&& input.environment@[0]@ == seq![
        0x50u8,
        0x41,
        0x54,
        0x48,
        0x3d,
        0x2f,
        0x75,
        0x73,
        0x72,
        0x2f,
        0x62,
        0x69,
        0x6e,
        0x3a,
        0x2f,
        0x62,
        0x69,
        0x6e,
    ]
    &&& input.environment@[1]@ == seq![0x48u8, 0x4f, 0x4d, 0x45, 0x3d, 0x2f]
    &&& input.random == random
}

/// Returns what the first program is loaded from.
pub fn init_input(random: [u8; 16]) -> (input: LoadInput)
    ensures
        is_init(input, random),
{
    let path: Vec<u8> = vec![0x2fu8, 0x73, 0x62, 0x69, 0x6e, 0x2f, 0x69, 0x6e, 0x69, 0x74];
    let argument: Vec<u8> = vec![0x2fu8, 0x73, 0x62, 0x69, 0x6e, 0x2f, 0x69, 0x6e, 0x69, 0x74];
    let search: Vec<u8> = vec![
        0x50u8,
        0x41,
        0x54,
        0x48,
        0x3d,
        0x2f,
        0x75,
        0x73,
        0x72,
        0x2f,
        0x62,
        0x69,
        0x6e,
        0x3a,
        0x2f,
        0x62,
        0x69,
        0x6e,
    ];
    let home: Vec<u8> = vec![0x48u8, 0x4f, 0x4d, 0x45, 0x3d, 0x2f];
    LoadInput { path, arguments: vec![argument], environment: vec![search, home], random }
}

/// Where a thread starts in user mode.
#[derive(Copy, Clone, Debug, PartialEq, Eq, Structural)]
pub struct UserStart {
    /// First instruction.
    pub entry: u64,
    /// Stack pointer.
    pub stack: u64,
}

/// The mapped image of the first program.
#[derive(Copy, Clone)]
pub struct InitImage {
    /// The program.
    pub main: LoadedElf,
    /// Its interpreter, if it has one.
    pub interpreter: Option<LoadedElf>,
}

/// The first process, as it was started.
pub struct InitProcess {
    /// Its number.
    pub pid: usize,
    /// Number of its thread.
    pub thread: usize,
    /// Where the thread starts.
    pub start: UserStart,
    /// The program, whose stack has to be mapped before the thread runs.
    pub program: LoadedProgram,
    /// How to kick a CPU for the thread.
    pub action: KickAction,
}

/// The program of the first process, or why there is none.
pub open spec fn program_of(started: Result<InitProcess, Error>) -> Result<LoadedProgram, Error> {
    match started {
        Ok(init) => Ok(init.program),
        Err(error) => Err(error),
    }
}

/// Creates and schedules the first process.
///
/// `image` is what was mapped of its program in `address_space`, or why
/// nothing was. Where the program cannot be loaded, nothing is created.
pub fn spawn_init(
    table: &mut ProcessTable,
    image: &Result<InitImage, Error>,
    random: [u8; 16],
    range: &UserRange,
    address_space: u64,
    scheduler: &mut Scheduler,
    site: &Site,
    stack: &StackSlot,
) -> (started: Result<InitProcess, Error>)
    requires
        old(table).wf(),
        old(table)@.next_pid < usize::MAX,
        range.wf(),
        old(scheduler).wf(),
        old(scheduler)@.settled(),
        site.on(old(scheduler)@),
        old(scheduler)@.threads.len() + 1 < usize::MAX,
        stack.fits(),
    ensures
        final(table).wf(),
        final(scheduler).wf(),
        final(scheduler)@.settled(),
        match *image {
            Err(error) => started == Err::<InitProcess, Error>(error),
            Ok(mapped) => exists|input: LoadInput|
                {
                    &&& #[trigger] is_init(input, random)
                    &&& completes(
                        program_of(started),
                        input,
                        mapped.main,
                        mapped.interpreter,
                        *range,
                    )
                },
        },
        match started {
            Err(_) => {
                &&& final(table)@ == old(table)@
                &&& final(scheduler)@ == old(scheduler)@
            },
            Ok(init) => {
                let pid = old(table)@.next_pid;
                let added = TableModel {
                    next_pid: (pid + 1) as usize,
                    init: Some(pid),
                    processes: old(table)@.processes.push(new_process(pid, address_space)),
                    ..old(table)@
                };
                let after = spawned(
                    old(scheduler)@,
                    user_task(pid, 0, address_space, 0),
                    *site,
                    *stack,
                );
                &&& final(table)@ == thread_added(added, pid)
                &&& final(scheduler)@ == after.0
                &&& init.pid == pid
                &&& init.thread == old(scheduler)@.threads.len() + 1
                &&& init.start == (UserStart {
                    entry: init.program.entry,
                    stack: init.program.stack.pointer,
                })
                &&& init.action == kick_action(after.0, after.1, *site)
            },
        },
{
    let mapped: InitImage = match image {
        Err(error) => {
            return Err(*error);
        },
        Ok(mapped) => *mapped,
    };
    let input = init_input(random);
    let ghost asked = input;
    let interpreter: Option<&LoadedElf> = match &mapped.interpreter {
        Some(interpreter) => Some(interpreter),
        None => None,
    };
    let program = match load(input, &mapped.main, interpreter, range) {
        Err(error) => {
            assert(completes(
                Err::<LoadedProgram, Error>(error),
                asked,
                mapped.main,
                mapped.interpreter,
                *range,
            ));
            return Err(error);
        },
        Ok(program) => program,
    };
    assert(completes(
        Ok::<LoadedProgram, Error>(program),
        asked,
        mapped.main,
        mapped.interpreter,
        *range,
    ));
    let start = UserStart { entry: program.entry, stack: program.stack.pointer };
    let pid: usize = table.new_root(address_space);
    proof {
        lemma_newest(*table);
    }
    let (thread, action) = start_thread(table, pid, 0, scheduler, site, stack);
    Ok(InitProcess { pid, thread, start, program, action })
}

proof fn lemma_newest(table: ProcessTable)
    requires
        table.wf(),
        table@.processes.len() > 0,
    ensures
        table@.has(table@.processes.last().pid),
        table@.process(table@.processes.last().pid) == table@.processes.last(),
{
    table.lemma_wf();
    let last = table@.processes.len() - 1;
    crate::lists::lemma_finds(table@.processes, has_pid(table@.processes[last].pid), last);
    crate::proc::table::law_pid_is_unique(table@, last);
}

/// Changes the thread pointer of the current thread.
pub fn set_current_thread_pointer(thread: Option<&mut Thread>, pointer: u64, range: &UserRange) -> (result:
    Result<(), Error>)
    ensures
        result == if pointer >= range.max || thread.is_none() {
            Err::<(), Error>(Error::InvalidArgument)
        } else {
            Ok(())
        },
        thread matches Some(t) ==> *final(t) == if result.is_ok() {
            Thread { thread_pointer: pointer, ..*t }
        } else {
            *t
        },
{
    if pointer >= range.max {
        return Err(Error::InvalidArgument);
    }
    match thread {
        Some(thread) => {
            thread.thread_pointer = pointer;
            Ok(())
        },
        None => Err(Error::InvalidArgument),
    }
}

/// Forks the current process into address space `child_space`, which is a copy
/// of its own or why there is none.
///
/// Returns the child's number and how to kick a CPU for its thread.
pub fn fork_current(
    table: &mut ProcessTable,
    current: Option<usize>,
    child_space: &Result<u64, mem::Error>,
    thread_pointer: u64,
    scheduler: &mut Scheduler,
    site: &Site,
    stack: &StackSlot,
) -> (child: Result<(usize, KickAction), Error>)
    requires
        old(table).wf(),
        old(table)@.next_pid < usize::MAX,
        old(scheduler).wf(),
        old(scheduler)@.settled(),
        site.on(old(scheduler)@),
        old(scheduler)@.threads.len() + 1 < usize::MAX,
        stack.fits(),
    ensures
        final(table).wf(),
        final(scheduler).wf(),
        final(scheduler)@.settled(),
        ({
            let m = old(table)@;
            let known = match current {
                Some(pid) => m.has(pid),
                None => false,
            };
            if !known {
                &&& child == Err::<(usize, KickAction), Error>(Error::InvalidArgument)
                &&& final(table)@ == m
                &&& final(scheduler)@ == old(scheduler)@
            } else {
                match *child_space {
                    Err(error) => {
                        &&& child == Err::<(usize, KickAction), Error>(Error::Memory(error))
                        &&& final(table)@ == m
                        &&& final(scheduler)@ == old(scheduler)@
                    },
                    Ok(space) => {
                        let pid = m.next_pid;
                        let parent = m.process(current->0);
                        let added = TableModel {
                            next_pid: (pid + 1) as usize,
                            processes: m.processes.push(forked_process(parent, pid, space)),
                            ..m
                        };
                        let after = spawned(
                            old(scheduler)@,
                            user_task(pid, parent.nice, space, thread_pointer),
                            *site,
                            *stack,
                        );
                        &&& final(table)@ == thread_added(added, pid)
                        &&& final(scheduler)@ == after.0
                        &&& child matches Ok((p, action)) && p == pid && action == kick_action(
                            after.0,
                            after.1,
                            *site,
                        )
                    },
                }
            }
        }),
{
    let parent: usize = match current {
        Some(pid) => pid,
        None => {
            return Err(Error::InvalidArgument);
        },
    };
    if table.find(parent).is_none() {
        return Err(Error::InvalidArgument);
    }
    let space: u64 = match child_space {
        Ok(space) => *space,
        Err(error) => {
            return Err(Error::Memory(*error));
        },
    };
    match table.fork_from(parent, space) {
        Some(pid) => {
            proof {
                lemma_newest(*table);
            }
            let (_, action) = start_thread(table, pid, thread_pointer, scheduler, site, stack);
            Ok((pid, action))
        },
        None => Err(Error::InvalidArgument),
    }
}

/// Starts another thread of the current process.
///
/// Returns the thread's number, where it starts, and how to kick a CPU for it.
pub fn create_thread(
    table: &mut ProcessTable,
    current: Option<usize>,
    entry: u64,
    user_stack: u64,
    thread_pointer: u64,
    range: &UserRange,
    scheduler: &mut Scheduler,
    site: &Site,
    stack: &StackSlot,
) -> (thread: Result<(usize, UserStart, KickAction), Error>)
    requires
        old(table).wf(),
        current matches Some(pid) ==> (old(table)@.has(pid) ==> old(table)@.process(pid).threads
            < usize::MAX),
        old(scheduler).wf(),
        old(scheduler)@.settled(),
        site.on(old(scheduler)@),
        old(scheduler)@.threads.len() + 1 < usize::MAX,
        stack.fits(),
    ensures
        final(table).wf(),
        final(scheduler).wf(),
        final(scheduler)@.settled(),
        ({
            let m = old(table)@;
            let allowed = range.has(entry) && range.has(user_stack) && thread_pointer < range.max
                && current.is_some() && m.has(current->0) && !m.process(current->0).exited;
            if !allowed {
                &&& thread == Err::<(usize, UserStart, KickAction), Error>(Error::InvalidArgument)
                &&& final(table)@ == m
                &&& final(scheduler)@ == old(scheduler)@
            } else {
                let p = m.process(current->0);
                let after = spawned(
                    old(scheduler)@,
                    user_task(current->0, p.nice, p.space, thread_pointer),
                    *site,
                    *stack,
                );
                &&& final(table)@ == thread_added(m, current->0)
                &&& final(scheduler)@ == after.0
                &&& thread matches Ok((t, start, action)) && t == old(scheduler)@.threads.len() + 1
                    && start == (UserStart { entry, stack: user_stack }) && action == kick_action(after.0, after.1, *site)
            }
        }),
{
    if !range.contains(entry) || !range.contains(user_stack) || thread_pointer >= range.max {
        return Err(Error::InvalidArgument);
    }
    let pid: usize = match current {
        Some(pid) => pid,
        None => {
            return Err(Error::InvalidArgument);
        },
    };
    match table.find(pid) {
        Some(process) => {
            if process.is_exited() {
                return Err(Error::InvalidArgument);
            }
        },
        None => {
            return Err(Error::InvalidArgument);
        },
    }
    let (thread, action) = start_thread(table, pid, thread_pointer, scheduler, site, stack);
    Ok((thread, UserStart { entry, stack: user_stack }, action))
}

/// The exit status of a process that ended by itself.
pub open spec fn exit_code(status: i32) -> i32 {
    (status as u32 % 0x100 * 0x100) as i32
}

/// Encodes the exit status of a process that ended by itself.
pub fn encode_exit(status: i32) -> (encoded: i32)
    ensures
        encoded == exit_code(status),
        0 <= encoded <= 0xff00,
{
    let low: u32 = (#[verifier::truncate] (status as u32)) % 0x100;
    (low * 0x100) as i32
}

/// Ends the current process with `status`; its thread leaves with
/// [`exit_current_thread_if_process_exited`].
pub fn exit_current(table: &mut ProcessTable, pid: usize, status: i32, groups: &mut WaitGroups) -> (actions:
    ExitActions)
    requires
        old(table).wf(),
        old(table)@.known(old(groups)@),
        old(table)@.has(pid),
    ensures
        final(table).wf(),
        final(table)@ == old(table)@.exited(pid, exit_code(status)).swept(),
        actions.follow(old(table)@, pid, exit_code(status), old(groups)@, final(groups)@),
{
    let actions = table.mark_exited(pid, encode_exit(status), groups);
    table.sweep();
    actions
}

/// Ends the current process because of a signal; its thread leaves with
/// [`exit_current_thread_if_process_exited`].
pub fn exit_current_signal(table: &mut ProcessTable, pid: usize, signal: u8, groups: &mut WaitGroups) -> (actions:
    ExitActions)
    requires
        old(table).wf(),
        old(table)@.known(old(groups)@),
        old(table)@.has(pid),
    ensures
        final(table).wf(),
        final(table)@ == old(table)@.exited(pid, (signal % 0x80) as i32).swept(),
        actions.follow(old(table)@, pid, (signal % 0x80) as i32, old(groups)@, final(groups)@),
{
    let actions = table.mark_exited(pid, (signal % 0x80) as i32, groups);
    table.sweep();
    actions
}

/// The table after one thread of `pid` ended.
pub open spec fn thread_removed(m: TableModel, pid: usize) -> TableModel {
    if m.has(pid) {
        m.with(
            pid,
            ProcessModel { threads: (m.process(pid).threads - 1) as usize, ..m.process(pid) },
        )
    } else {
        m.left(pid)
    }
}

/// Ends the current thread; the last thread ends its process, which disappears
/// where no parent waits for it.
pub fn exit_current_thread(table: &mut ProcessTable, pid: usize, groups: &mut WaitGroups) -> (actions:
    Option<ExitActions>)
    requires
        old(table).wf(),
        old(table)@.known(old(groups)@),
        old(table)@.owned(pid),
        old(table)@.own(pid).threads > 0,
    ensures
        final(table).wf(),
        actions.is_some() == (old(table)@.own(pid).threads == 1 && !old(table)@.own(pid).exited),
        final(table)@ == (if actions.is_some() {
            thread_removed(old(table)@, pid).exited(pid, 0)
        } else {
            thread_removed(old(table)@, pid)
        }).swept(),
        match actions {
            Some(done) => done.follow(
                thread_removed(old(table)@, pid),
                pid,
                0,
                old(groups)@,
                final(groups)@,
            ),
            None => final(groups)@ == old(groups)@,
        },
{
    let ghost m = table@;
    proof {
        table.lemma_wf();
        lemma_first_where(m.processes, has_pid(pid), 0);
        lemma_first_where(m.leftover, has_pid(pid), 0);
        if m.has(pid) {
            lemma_thread_removed(m, pid, groups@);
        }
    }
    if table.find(pid).is_none() {
        table.retire_leftover(pid);
        table.sweep();
        return None;
    }
    let last = match table.find_mut(pid) {
        Some(process) => process.unregister_thread() && !process.is_exited(),
        None => false,
    };
    let actions = if last {
        Some(table.mark_exited(pid, 0, groups))
    } else {
        None
    };
    table.sweep();
    actions
}

proof fn lemma_thread_removed(
    m: TableModel,
    pid: usize,
    groups: Seq<crate::sys::event::WaitGroup>,
)
    requires
        m.ok(),
        m.has(pid),
        m.known(groups),
    ensures
        thread_removed(m, pid).has(pid),
        thread_removed(m, pid).known(groups),
{
    let after = thread_removed(m, pid);
    let place = crate::proc::table::place_of(m.processes, pid);
    lemma_first_where(m.processes, has_pid(pid), 0);
    crate::lists::lemma_finds(after.processes, has_pid(pid), place);
    assert forall|i: int| 0 <= i < after.processes.len() implies (
    #[trigger] after.processes[i]).known(groups) by {
        assert(m.processes[i].known(groups));
    }
}

/// Retires the current thread if another thread ended the process; tells
/// whether it did.
pub fn exit_current_thread_if_process_exited(table: &mut ProcessTable, pid: usize) -> (retired: bool)
    requires
        old(table).wf(),
        old(table)@.owned(pid),
        old(table)@.own(pid).threads > 0,
    ensures
        final(table).wf(),
        retired == old(table)@.own(pid).exited,
        final(table)@ == if retired {
            thread_removed(old(table)@, pid).swept()
        } else {
            old(table)@
        },
{
    let exited = match table.find_own(pid) {
        Some(process) => process.is_exited(),
        None => false,
    };
    proof {
        table.lemma_wf();
        lemma_first_where(table@.processes, has_pid(pid), 0);
        lemma_first_where(table@.leftover, has_pid(pid), 0);
    }
    if !exited {
        return false;
    }
    if table.find(pid).is_none() {
        table.retire_leftover(pid);
        table.sweep();
        return true;
    }
    if let Some(process) = table.find_mut(pid) {
        let _ = process.unregister_thread();
    }
    table.sweep();
    true
}

/// Checks whether the current process may replace its program: it has to have
/// one thread only.
pub fn may_exec(table: &ProcessTable, current: Option<usize>) -> (result: Result<usize, Error>)
    requires
        table.wf(),
    ensures
        result == match current {
            Some(pid) => if table@.has(pid) && table@.process(pid).threads == 1 {
                Ok::<usize, Error>(pid)
            } else {
                Err(Error::InvalidArgument)
            },
            None => Err(Error::InvalidArgument),
        },
{
    match current {
        Some(pid) => match table.find(pid) {
            Some(process) => {
                if process.thread_count() != 1 {
                    return Err(Error::InvalidArgument);
                }
                Ok(pid)
            },
            None => Err(Error::InvalidArgument),
        },
        None => Err(Error::InvalidArgument),
    }
}

/// Replaces the program of process `pid`, which [`may_exec`] allowed, by one
/// that `address_space` holds.
///
/// Returns the old address space, and where the thread goes on.
pub fn exec_current(
    table: &mut ProcessTable,
    pid: usize,
    program: &LoadedProgram,
    address_space: u64,
    thread: &mut Thread,
) -> (replaced: (u64, UserStart))
    requires
        old(table).wf(),
        old(table)@.has(pid),
    ensures
        final(table).wf(),
        replaced.0 == old(table)@.process(pid).space,
        replaced.1 == (UserStart { entry: program.entry, stack: program.stack.pointer }),
        *final(thread) == (Thread { thread_pointer: 0, ..*old(thread) }),
        final(table)@ == old(table)@.with(
            pid,
            ProcessModel { space: address_space, ..old(table)@.process(pid).exec_reset() },
        ),
{
    let ghost m = table@;
    proof {
        lemma_first_where(m.processes, has_pid(pid), 0);
    }
    thread.thread_pointer = 0;
    let mut previous: u64 = 0;
    if let Some(process) = table.find_mut(pid) {
        previous = process.replace_address_space(address_space);
        process.reset_for_exec();
    }
    (previous, UserStart { entry: program.entry, stack: program.stack.pointer })
}

/// The status of a process that exits has the low byte of what it exited with
/// in its second byte and nothing in the first.
pub proof fn law_exit_status_is_shifted(status: i32)
    ensures
        exit_code(status) == (status & 0xff) * 0x100,
        0 <= exit_code(status) <= 0xff00,
{
    assert((status as u32 % 0x100 * 0x100) as i32 == (status & 0xff) * 0x100 && 0 <= (status
        as u32 % 0x100 * 0x100) as i32 <= 0xff00) by (bit_vector);
}

/// A thread that is added or removed counts once in its process and in no
/// other one.
pub proof fn law_threads_are_counted(m: TableModel, pid: usize)
    requires
        m.ok(),
        m.has(pid),
        0 < m.process(pid).threads < usize::MAX,
    ensures
        ({
            let place = crate::proc::table::place_of(m.processes, pid);
            &&& thread_added(m, pid).processes[place].threads == m.process(pid).threads + 1
            &&& thread_removed(m, pid).processes[place].threads == m.process(pid).threads - 1
            &&& thread_added(m, pid).processes[place] == (ProcessModel {
                threads: (m.process(pid).threads + 1) as usize,
                ..m.process(pid)
            })
            &&& forall|i: int|
                0 <= i < m.processes.len() && i != place ==> #[trigger] thread_added(
                    m,
                    pid,
                ).processes[i] == m.processes[i] && thread_removed(m, pid).processes[i]
                    == m.processes[i]
            &&& thread_added(m, pid).next_pid == m.next_pid
        }),
{
    lemma_first_where(m.processes, has_pid(pid), 0);
}

/// The first program is `/sbin/init`, which gets its own path as its only
/// argument, and the usual search path and the root as its home.
pub proof fn law_first_program_is_init(input: LoadInput, random: [u8; 16])
    requires
        is_init(input, random),
    ensures
        input.path@.len() == 10,
        input.path@[0] == 0x2f && input.path@[1] == 0x73 && input.path@[2] == 0x62 && input.path@[3]
            == 0x69 && input.path@[4] == 0x6e && input.path@[5] == 0x2f && input.path@[6] == 0x69
            && input.path@[7] == 0x6e && input.path@[8] == 0x69 && input.path@[9] == 0x74,
        input.arguments@.len() == 1 && input.arguments@[0]@ == input.path@,
        input.environment@.len() == 2,
        input.environment@[0]@.len() == 18,
        input.environment@[1]@ == seq![0x48u8, 0x4f, 0x4d, 0x45, 0x3d, 0x2f],
        input.random == random,
{
}

} // verus!
