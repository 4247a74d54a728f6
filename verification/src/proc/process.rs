//! Processes: identity, resources, sessions and their table.

use vstd::prelude::*;
use crate::bytes::copy_all;
use crate::lists::any_where;
use crate::proc::files::{
    entry_of, exec_closed, installed, Descriptor, DescriptorEntry, FileTable,
};
use crate::proc::path::resolved;
use crate::proc::signal::{
    is_signal, SignalInfo, SignalManager, SignalModel, SIGCONT, SIGKILL, SI_KERNEL,
};
use crate::proc::Error;
use crate::sys::event::{
    all_claimed, all_targets, waiters_known, Event, EventModel, EventWaiter, WaitGroup, WaitGroups,
};
use crate::sys::sched::policy::nice_in_range;
use crate::sys::sync::WakeTarget;

verus! {

/// Permission bits cleared from new files at first.
pub const DEFAULT_UMASK: u16 = 0o022;

/// A process as specifications see it.
#[verifier::ext_equal]
pub struct ProcessModel {
    /// Number.
    pub pid: usize,
    /// Process that waits for it.
    pub parent: Option<usize>,
    /// Session.
    pub session: usize,
    /// Process group.
    pub group: usize,
    /// Controlling terminal.
    pub tty: Option<u64>,
    /// Permission bits cleared from new files.
    pub umask: u16,
    /// Nice value.
    pub nice: i8,
    /// Running threads.
    pub threads: usize,
    /// Whether it exited.
    pub exited: bool,
    /// How it exited.
    pub status: i32,
    /// Working directory.
    pub cwd: Seq<u8>,
    /// Descriptors.
    pub files: Seq<Option<DescriptorEntry>>,
    /// Signal state.
    pub signals: SignalModel,
    /// Threads that wait for signals.
    pub signal_waiters: Seq<EventWaiter>,
    /// Whether a child may have exited.
    pub child_ready: bool,
    /// Threads that wait for children.
    pub child_waiters: Seq<EventWaiter>,
    /// Address space.
    pub space: u64,
}

impl ProcessModel {
    /// The process after a child exited.
    pub open spec fn notified(self) -> ProcessModel {
        ProcessModel { child_ready: true, child_waiters: Seq::empty(), ..self }
    }

    /// The process after a signal arrived.
    pub open spec fn signaled(self, info: SignalInfo) -> ProcessModel {
        ProcessModel {
            signals: self.signals.enqueued(info),
            signal_waiters: if self.signals.accepted(info) {
                Seq::empty()
            } else {
                self.signal_waiters
            },
            ..self
        }
    }

    /// Whether a wait for `selector` by a member of `caller_group` is for this
    /// process.
    pub open spec fn waited_by(self, selector: i64, caller_group: usize) -> bool {
        if selector > 0 {
            self.pid == selector
        } else if selector == -1 {
            true
        } else if selector == 0 {
            self.group == caller_group
        } else {
            self.group == -selector
        }
    }

    /// Waiters are known, the nice value is in range.
    pub open spec fn known(self, groups: Seq<WaitGroup>) -> bool {
        waiters_known(self.signal_waiters, groups) && waiters_known(self.child_waiters, groups)
    }
}

/// The signal that the kernel sends.
pub open spec fn kernel_info(signal: u8) -> SignalInfo {
    SignalInfo { signal, code: SI_KERNEL, sender_pid: 0, sender_uid: 0, synchronous: false }
}

/// Shared resources of one userspace process.
pub struct Process {
    pid: usize,
    parent: Option<usize>,
    session: usize,
    process_group: usize,
    tty: Option<u64>,
    umask: u16,
    nice: i8,
    active_threads: usize,
    exited: bool,
    exit_status: i32,
    cwd: Vec<u8>,
    files: FileTable,
    signals: SignalManager,
    child_event: Event,
    address_space: u64,
}

impl View for Process {
    type V = ProcessModel;

    closed spec fn view(&self) -> ProcessModel {
        ProcessModel {
            pid: self.pid,
            parent: self.parent,
            session: self.session,
            group: self.process_group,
            tty: self.tty,
            umask: self.umask,
            nice: self.nice,
            threads: self.active_threads,
            exited: self.exited,
            status: self.exit_status,
            cwd: self.cwd@,
            files: self.files@,
            signals: self.signals@,
            signal_waiters: self.signals.waiters(),
            child_ready: self.child_event@.signaled,
            child_waiters: self.child_event@.waiters,
            space: self.address_space,
        }
    }
}

/// A process right after its creation.
pub open spec fn new_process(pid: usize, space: u64) -> ProcessModel {
    ProcessModel {
        pid,
        parent: None,
        session: pid,
        group: pid,
        tty: None,
        umask: DEFAULT_UMASK,
        nice: 0,
        threads: 0,
        exited: false,
        status: 0,
        cwd: seq![0x2fu8],
        files: Seq::empty(),
        signals: SignalModel {
            actions: Seq::new(65, |i: int| crate::proc::signal::default_action()),
            pending: Seq::empty(),
            mask: 0,
            alt_stack: None,
            suspended: None,
            stopped: None,
            ready: false,
        },
        signal_waiters: Seq::empty(),
        child_ready: false,
        child_waiters: Seq::empty(),
        space,
    }
}

/// A process right after it was forked from `parent`.
pub open spec fn forked_process(parent: ProcessModel, pid: usize, space: u64) -> ProcessModel {
    ProcessModel {
        pid,
        parent: Some(parent.pid),
        threads: 0,
        exited: false,
        status: 0,
        signals: SignalModel {
            pending: Seq::empty(),
            suspended: None,
            stopped: None,
            ready: false,
            ..parent.signals
        },
        signal_waiters: Seq::empty(),
        child_ready: false,
        child_waiters: Seq::empty(),
        space,
        ..parent
    }
}

impl ProcessModel {
    /// The process after its program was replaced.
    pub open spec fn exec_reset(self) -> ProcessModel {
        ProcessModel {
            files: exec_closed(self.files),
            signals: SignalModel {
                actions: Seq::new(
                    65,
                    |i: int|
                        if i > 0 && self.signals.actions[i].handler
                            != crate::proc::signal::SIG_IGN {
                            crate::proc::signal::default_action()
                        } else {
                            self.signals.actions[i]
                        },
                ),
                alt_stack: None,
                suspended: None,
                stopped: None,
                ..self.signals
            },
            ..self
        }
    }
}

impl Process {
    /// The parts of the process are consistent.
    pub closed spec fn wf(self) -> bool {
        &&& self.files.wf()
        &&& self.signals.wf()
        &&& self.child_event.wf()
        &&& nice_in_range(self.nice)
    }

    /// A process's nice value is in range and its signal state is consistent.
    pub proof fn lemma_wf(&self)
        requires
            self.wf(),
        ensures
            nice_in_range(self@.nice),
            self@.signals.ok(),
    {
        self.signals.lemma_wf();
    }

    /// Creates a process without a parent.
    pub fn new_root(pid: usize, address_space: u64) -> (process: Self)
        ensures
            process.wf(),
            process@ == new_process(pid, address_space),
    {
        let mut cwd: Vec<u8> = Vec::new();
        cwd.push(0x2f);
        let process = Process {
            pid,
            parent: None,
            session: pid,
            process_group: pid,
            tty: None,
            umask: DEFAULT_UMASK,
            nice: 0,
            active_threads: 0,
            exited: false,
            exit_status: 0,
            cwd,
            files: FileTable::new(),
            signals: SignalManager::new(),
            child_event: Event::new(),
            address_space,
        };
        assert(process@ =~= new_process(pid, address_space));
        process
    }

    /// Creates a child of `parent`: it has the parent's descriptors,
    /// directory, terminal, groups and signal actions.
    pub fn fork_from(parent: &Self, pid: usize, address_space: u64) -> (process: Self)
        requires
            parent.wf(),
        ensures
            process.wf(),
            process@ == forked_process(parent@, pid, address_space),
    {
        let process = Process {
            pid,
            parent: Some(parent.pid),
            session: parent.session,
            process_group: parent.process_group,
            tty: parent.tty,
            umask: parent.umask,
            nice: parent.nice,
            active_threads: 0,
            exited: false,
            exit_status: 0,
            cwd: copy_all(&parent.cwd),
            files: parent.files.duplicate(),
            signals: SignalManager::fork_from(&parent.signals),
            child_event: Event::new(),
            address_space,
        };
        assert(process@ =~= forked_process(parent@, pid, address_space));
        process
    }

    /// Returns the nice value.
    pub fn nice(&self) -> (nice: i8)
        ensures
            nice == self@.nice,
    {
        self.nice
    }

    /// Changes the nice value.
    pub fn set_nice(&mut self, nice: i8)
        requires
            old(self).wf(),
            nice_in_range(nice),
        ensures
            final(self).wf(),
            final(self)@ == (ProcessModel { nice, ..old(self)@ }),
    {
        self.nice = nice;
    }

    /// Returns the process number.
    pub fn pid(&self) -> (pid: usize)
        ensures
            pid == self@.pid,
    {
        self.pid
    }

    /// Returns the address space.
    pub fn address_space(&self) -> (space: u64)
        ensures
            space == self@.space,
    {
        self.address_space
    }

    /// Changes the address space and returns the old one.
    pub fn replace_address_space(&mut self, space: u64) -> (previous: u64)
        requires
            old(self).wf(),
        ensures
            final(self).wf(),
            previous == old(self)@.space,
            final(self)@ == (ProcessModel { space, ..old(self)@ }),
    {
        let previous: u64 = self.address_space;
        self.address_space = space;
        previous
    }

    /// Resolves a process-relative path into the global namespace.
    pub fn resolve_path(&self, path: &[u8]) -> (result: Vec<u8>)
        ensures
            result@ == resolved(self@.cwd, path@),
    {
        crate::proc::path::resolve_path(&self.cwd, path)
    }

    /// Changes the working directory; `found` tells what `path` leads to.
    pub fn set_cwd(&mut self, path: &[u8], found: &Result<bool, crate::fs::Error>) -> (result: Result<
        (),
        Error,
    >)
        requires
            old(self).wf(),
        ensures
            final(self).wf(),
            match *found {
                Err(error) => result == Err::<(), Error>(Error::Filesystem(error)) && final(self)@
                    == old(self)@,
                Ok(is_directory) => if is_directory {
                    result.is_ok() && final(self)@ == (ProcessModel {
                        cwd: resolved(old(self)@.cwd, path@),
                        ..old(self)@
                    })
                } else {
                    result == Err::<(), Error>(
                        Error::Filesystem(crate::fs::Error::NotDirectory),
                    ) && final(self)@ == old(self)@
                },
            },
    {
        match found {
            Err(error) => Err(Error::Filesystem(*error)),
            Ok(is_directory) => {
                if !*is_directory {
                    return Err(Error::Filesystem(crate::fs::Error::NotDirectory));
                }
                self.cwd = self.resolve_path(path);
                assert(self@ =~= (ProcessModel {
                    cwd: resolved(old(self)@.cwd, path@),
                    ..old(self)@
                }));
                Ok(())
            },
        }
    }

    /// Returns the working directory.
    pub fn cwd(&self) -> (path: Vec<u8>)
        ensures
            path@ == self@.cwd,
    {
        copy_all(&self.cwd)
    }

    /// Returns the permission bits cleared from new files.
    pub fn umask(&self) -> (mask: u16)
        ensures
            mask == self@.umask,
    {
        self.umask
    }

    /// Changes the permission bits cleared from new files and returns the old
    /// ones.
    pub fn set_umask(&mut self, mask: u16) -> (previous: u16)
        requires
            old(self).wf(),
        ensures
            final(self).wf(),
            previous == old(self)@.umask,
            final(self)@ == (ProcessModel { umask: mask & 0o777, ..old(self)@ }),
    {
        let previous: u16 = self.umask;
        self.umask = mask & 0o777;
        previous
    }

    /// Clears the masked permission bits of a new file.
    pub fn apply_umask(&self, mode: u16) -> (applied: u16)
        ensures
            applied == mode & 0o7777 & !self@.umask,
            applied & self@.umask == 0,
            applied & 0o7777 == applied,
            mode & 0o7777 & self@.umask == 0 ==> applied == mode & 0o7777,
    {
        proof {
            let mask = self.umask;
            assert((mode & 0o7777u16 & !mask) & mask == 0 && (mode & 0o7777u16 & !mask) & 0o7777u16
                == mode & 0o7777u16 & !mask && (mode & 0o7777u16 & mask == 0 ==> mode & 0o7777u16
                & !mask == mode & 0o7777u16)) by (bit_vector);
        }
        mode & 0o7777 & !self.umask
    }

    /// Prepares a wait that signals interrupt; tells whether one has to be
    /// delivered at once.
    pub fn prepare_interrupt_wait(&mut self) -> (interrupted: bool)
        requires
            old(self).wf(),
        ensures
            final(self).wf(),
            interrupted == any_where(
                old(self)@.signals.pending,
                old(self)@.signals.interrupted_by(),
            ),
            final(self)@ == (ProcessModel {
                signals: if interrupted {
                    old(self)@.signals
                } else {
                    SignalModel { ready: false, ..old(self)@.signals }
                },
                ..old(self)@
            }),
    {
        let interrupted = self.signals.prepare_interrupt_wait();
        assert(self@ =~= (ProcessModel {
            signals: if interrupted {
                old(self)@.signals
            } else {
                SignalModel { ready: false, ..old(self)@.signals }
            },
            ..old(self)@
        }));
        interrupted
    }

    /// Gives access to the descriptors.
    pub fn files(&self) -> (files: &FileTable)
        requires
            self.wf(),
        ensures
            files.wf(),
            files@ == self@.files,
    {
        &self.files
    }

    /// Gives access to the descriptors.
    pub fn files_mut(&mut self) -> (files: &mut FileTable)
        requires
            old(self).wf(),
        ensures
            files.wf(),
            files@ == old(self)@.files,
            final(files).wf() ==> final(self).wf(),
            final(self)@ == (ProcessModel { files: final(files)@, ..old(self)@ }),
    {
        &mut self.files
    }

    /// Gives access to the signal state.
    pub fn signals(&self) -> (signals: &SignalManager)
        requires
            self.wf(),
        ensures
            signals.wf(),
            signals@ == self@.signals,
            signals.waiters() == self@.signal_waiters,
    {
        &self.signals
    }

    /// Gives access to the signal state.
    pub fn signals_mut(&mut self) -> (signals: &mut SignalManager)
        requires
            old(self).wf(),
        ensures
            signals.wf(),
            signals@ == old(self)@.signals,
            signals.waiters() == old(self)@.signal_waiters,
            final(signals).wf() ==> final(self).wf(),
            final(self)@ == (ProcessModel {
                signals: final(signals)@,
                signal_waiters: final(signals).waiters(),
                ..old(self)@
            }),
    {
        &mut self.signals
    }

    /// Gives access to the event that tells of exited children.
    pub fn child_event_mut(&mut self) -> (event: &mut Event)
        requires
            old(self).wf(),
        ensures
            event.wf(),
            event@ == (EventModel {
                signaled: old(self)@.child_ready,
                waiters: old(self)@.child_waiters,
            }),
            final(event).wf() ==> final(self).wf(),
            final(self)@ == (ProcessModel {
                child_ready: final(event)@.signaled,
                child_waiters: final(event)@.waiters,
                ..old(self)@
            }),
    {
        &mut self.child_event
    }

    /// Installs an open file at the lowest free descriptor number.
    pub fn install_file(&mut self, file: usize, close_on_exec: bool) -> (fd: Result<i32, Error>)
        requires
            old(self).wf(),
        ensures
            final(self).wf(),
            ({
                let entry = DescriptorEntry { descriptor: Descriptor::File(file), close_on_exec };
                match fd {
                    Ok(number) => installed(old(self)@.files, entry, 0) == Ok::<
                        (Seq<Option<DescriptorEntry>>, i32),
                        Error,
                    >((final(self)@.files, number)),
                    Err(e) => installed(old(self)@.files, entry, 0) == Err::<
                        (Seq<Option<DescriptorEntry>>, i32),
                        Error,
                    >(e) && final(self)@.files == old(self)@.files,
                }
            }),
            final(self)@ == (ProcessModel { files: final(self)@.files, ..old(self)@ }),
    {
        self.install_descriptor_value(Descriptor::File(file), close_on_exec)
    }

    /// Installs a descriptor at the lowest free number.
    pub fn install_descriptor_value(&mut self, descriptor: Descriptor, close_on_exec: bool) -> (fd:
        Result<i32, Error>)
        requires
            old(self).wf(),
        ensures
            final(self).wf(),
            ({
                let entry = DescriptorEntry { descriptor, close_on_exec };
                match fd {
                    Ok(number) => installed(old(self)@.files, entry, 0) == Ok::<
                        (Seq<Option<DescriptorEntry>>, i32),
                        Error,
                    >((final(self)@.files, number)),
                    Err(e) => installed(old(self)@.files, entry, 0) == Err::<
                        (Seq<Option<DescriptorEntry>>, i32),
                        Error,
                    >(e) && final(self)@.files == old(self)@.files,
                }
            }),
            final(self)@ == (ProcessModel { files: final(self)@.files, ..old(self)@ }),
    {
        let fd = self.files.install_descriptor(DescriptorEntry { descriptor, close_on_exec }, 0);
        assert(self@ =~= (ProcessModel { files: self@.files, ..old(self)@ }));
        fd
    }

    /// Returns what a descriptor stands for.
    pub fn descriptor(&self, fd: i32) -> (descriptor: Option<Descriptor>)
        ensures
            descriptor == match entry_of(self@.files, fd as int) {
                Some(entry) => Some(entry.descriptor),
                None => None,
            },
    {
        self.files.descriptor(fd)
    }

    /// Returns the session.
    pub fn session(&self) -> (session: usize)
        ensures
            session == self@.session,
    {
        self.session
    }

    /// Returns the process group.
    pub fn process_group(&self) -> (group: usize)
        ensures
            group == self@.group,
    {
        self.process_group
    }

    /// Returns whether the process has a controlling terminal.
    pub fn has_controlling_tty(&self) -> (has: bool)
        ensures
            has == self@.tty.is_some(),
    {
        self.tty.is_some()
    }

    /// Returns the controlling terminal.
    pub fn controlling_tty_key(&self) -> (key: Option<u64>)
        ensures
            key == self@.tty,
    {
        self.tty
    }

    /// Sets the controlling terminal.
    pub fn set_controlling_tty(&mut self, key: u64)
        requires
            old(self).wf(),
        ensures
            final(self).wf(),
            final(self)@ == (ProcessModel { tty: Some(key), ..old(self)@ }),
    {
        self.tty = Some(key);
    }

    /// Gives up the controlling terminal if it is this one.
    pub fn clear_controlling_tty(&mut self, key: u64)
        requires
            old(self).wf(),
        ensures
            final(self).wf(),
            final(self)@ == (ProcessModel {
                tty: if old(self)@.tty == Some(key) {
                    None
                } else {
                    old(self)@.tty
                },
                ..old(self)@
            }),
    {
        if let Some(own) = self.tty {
            if own == key {
                self.tty = None;
            }
        }
    }

    /// Makes the process the leader of a new session, unless it leads a group.
    pub fn create_session(&mut self) -> (session: Result<usize, Error>)
        requires
            old(self).wf(),
        ensures
            final(self).wf(),
            if old(self)@.group == old(self)@.pid {
                &&& session == Err::<usize, Error>(Error::PermissionDenied)
                &&& final(self)@ == old(self)@
            } else {
                &&& session == Ok::<usize, Error>(old(self)@.pid)
                &&& final(self)@ == (ProcessModel {
                    session: old(self)@.pid,
                    group: old(self)@.pid,
                    tty: None,
                    ..old(self)@
                })
            },
            session.is_ok() <==> old(self)@.group != old(self)@.pid,
            session matches Ok(number) ==> number == final(self)@.pid && final(self)@.session
                == number && final(self)@.group == number && final(self)@.tty.is_none(),
            final(self)@.pid == old(self)@.pid && final(self)@.parent == old(self)@.parent,
    {
        if self.process_group == self.pid {
            return Err(Error::PermissionDenied);
        }
        self.session = self.pid;
        self.process_group = self.pid;
        self.tty = None;
        Ok(self.pid)
    }

    /// Returns whether the process exited.
    pub fn is_exited(&self) -> (exited: bool)
        ensures
            exited == self@.exited,
    {
        self.exited
    }

    /// Counts one more thread.
    pub fn register_thread(&mut self)
        requires
            old(self).wf(),
            old(self)@.threads < usize::MAX,
        ensures
            final(self).wf(),
            final(self)@ == (ProcessModel {
                threads: (old(self)@.threads + 1) as usize,
                ..old(self)@
            }),
    {
        self.active_threads = self.active_threads + 1;
    }

    /// Counts one thread less; tells whether it was the last one.
    pub fn unregister_thread(&mut self) -> (last: bool)
        requires
            old(self).wf(),
            old(self)@.threads > 0,
        ensures
            final(self).wf(),
            last == (old(self)@.threads == 1),
            final(self)@ == (ProcessModel {
                threads: (old(self)@.threads - 1) as usize,
                ..old(self)@
            }),
    {
        self.active_threads = self.active_threads - 1;
        self.active_threads == 0
    }

    /// Returns the number of threads.
    pub fn thread_count(&self) -> (count: usize)
        ensures
            count == self@.threads,
    {
        self.active_threads
    }

    /// Returns how the process exited.
    pub fn encoded_exit_status(&self) -> (status: i32)
        ensures
            status == self@.status,
    {
        self.exit_status
    }

    /// Returns whether a wait for `selector` by a member of `caller_group` is
    /// for this process.
    pub fn matches_wait(&self, selector: i64, caller_group: usize) -> (matches: bool)
        requires
            selector > i64::MIN,
        ensures
            matches == self@.waited_by(selector, caller_group),
    {
        if selector > 0 {
            self.pid as u64 == selector as u64
        } else if selector == -1 {
            true
        } else if selector == 0 {
            self.process_group == caller_group
        } else {
            self.process_group as u64 == (-selector) as u64
        }
    }

    /// Prepares the process for another program: descriptors and signal
    /// handlers that do not survive are dropped.
    pub fn reset_for_exec(&mut self)
        requires
            old(self).wf(),
        ensures
            final(self).wf(),
            final(self)@ == old(self)@.exec_reset(),
    {
        self.files.close_exec_descriptors();
        self.signals.reset_for_exec();
        assert(self@.signals.actions =~= old(self)@.exec_reset().signals.actions);
    }

    /// Changes who waits for the process.
    pub(crate) fn adopt(&mut self, parent: Option<usize>)
        requires
            old(self).wf(),
        ensures
            final(self).wf(),
            final(self)@ == (ProcessModel { parent, ..old(self)@ }),
    {
        self.parent = parent;
    }

    /// Returns who waits for the process.
    pub fn parent(&self) -> (parent: Option<usize>)
        ensures
            parent == self@.parent,
    {
        self.parent
    }

    /// Moves the process to another group.
    pub fn set_process_group(&mut self, group: usize)
        requires
            old(self).wf(),
        ensures
            final(self).wf(),
            final(self)@ == (ProcessModel { group, ..old(self)@ }),
    {
        self.process_group = group;
    }

    /// Gives up all descriptors and records how the process exited.
    pub(crate) fn finish(&mut self, status: i32)
        requires
            old(self).wf(),
        ensures
            final(self).wf(),
            final(self)@ == (ProcessModel {
                files: Seq::empty(),
                status,
                exited: true,
                ..old(self)@
            }),
    {
        self.files.clear();
        self.exit_status = status;
        self.exited = true;
        assert(self@ =~= (ProcessModel { files: Seq::empty(), status, exited: true, ..old(self)@ }));
    }

    pub(crate) fn tell_child_exited(&mut self, groups: &mut WaitGroups, woken: &mut Vec<WakeTarget>)
        requires
            old(self).wf(),
            old(self)@.known(old(groups)@),
        ensures
            final(self).wf(),
            final(self)@ == old(self)@.notified(),
            final(groups)@ == all_claimed(old(self)@.child_waiters, old(groups)@),
            final(woken)@ == old(woken)@ + all_targets(old(self)@.child_waiters, old(groups)@),
    {
        let mut targets = self.child_event.signal(groups);
        woken.append(&mut targets);
        assert(self@ =~= old(self)@.notified());
    }

    /// Queues a signal; returns the stopped thread that it resumes.
    pub fn send(&mut self, info: SignalInfo, groups: &mut WaitGroups, woken: &mut Vec<WakeTarget>) -> (resumed:
        Option<WakeTarget>)
        requires
            old(self).wf(),
            is_signal(info.signal),
            old(self)@.known(old(groups)@),
        ensures
            final(self).wf(),
            final(self)@ == old(self)@.signaled(info),
            final(groups)@ == if old(self)@.signals.accepted(info) {
                all_claimed(old(self)@.signal_waiters, old(groups)@)
            } else {
                old(groups)@
            },
            final(woken)@ == if old(self)@.signals.accepted(info) {
                old(woken)@ + all_targets(old(self)@.signal_waiters, old(groups)@)
            } else {
                old(woken)@
            },
            resumed == if info.signal == SIGCONT || info.signal == SIGKILL {
                old(self)@.signals.stopped
            } else {
                None
            },
    {
        let (mut targets, resumed) = self.signals.enqueue(info, groups);
        woken.append(&mut targets);
        assert(self@ =~= old(self)@.signaled(info));
        assert(old(woken)@ + Seq::<WakeTarget>::empty() =~= old(woken)@);
        resumed
    }
}

/// A forked process inherits what its parent works with: its directory, so
/// that every path means the same to both, its open files, file mask, nice
/// value, session, group and terminal, and its signal actions, mask and
/// alternate stack.
pub proof fn law_child_inherits(parent: ProcessModel, pid: usize, space: u64, path: Seq<u8>)
    ensures
        ({
            let child = forked_process(parent, pid, space);
            &&& child.cwd == parent.cwd
            &&& resolved(child.cwd, path) == resolved(parent.cwd, path)
            &&& child.files == parent.files
            &&& child.umask == parent.umask
            &&& child.nice == parent.nice
            &&& child.session == parent.session
            &&& child.group == parent.group
            &&& child.tty == parent.tty
            &&& child.signals.actions == parent.signals.actions
            &&& child.signals.mask == parent.signals.mask
            &&& child.signals.alt_stack == parent.signals.alt_stack
        }),
{
}

/// A forked process is a new one: it has its own number and address space,
/// knows its parent, has no threads yet and has not exited, and no signal is
/// pending for it and nobody waits for it.
pub proof fn law_child_starts_anew(parent: ProcessModel, pid: usize, space: u64)
    ensures
        ({
            let child = forked_process(parent, pid, space);
            &&& child.pid == pid
            &&& child.parent == Some(parent.pid)
            &&& child.space == space
            &&& child.threads == 0
            &&& !child.exited
            &&& child.status == 0
            &&& child.signals.pending.len() == 0
            &&& !child.signals.ready
            &&& child.signals.suspended.is_none()
            &&& child.signals.stopped.is_none()
            &&& child.signal_waiters.len() == 0
            &&& child.child_waiters.len() == 0
            &&& !child.child_ready
        }),
{
}

/// A process without a parent leads its own session and group, works in the
/// root directory without terminal or files, lets others read but not write
/// its files, and meets every signal with the default action.
pub proof fn law_first_process_stands_alone(pid: usize, space: u64, signal: int)
    requires
        0 <= signal <= 64,
    ensures
        ({
            let p = new_process(pid, space);
            &&& p.pid == pid && p.space == space && p.parent.is_none()
            &&& p.session == pid && p.group == pid && p.tty.is_none()
            &&& p.cwd == seq![0x2fu8]
            &&& p.files.len() == 0
            &&& p.umask == 0o022
            &&& p.nice == 0 && p.threads == 0 && !p.exited && p.status == 0
            &&& p.signals.ok()
            &&& p.signals.actions[signal].handler == 0
            &&& p.signals.mask == 0
            &&& p.signals.pending.len() == 0
            &&& !p.child_ready
        }),
{
    assert(0u64 & (1u64 << 8u64) == 0 && 0u64 & (1u64 << 18u64) == 0) by (bit_vector);
}

/// Replacing the program closes the descriptors marked for it, forgets the
/// handlers but not what is ignored, and gives up the alternate stack; pending
/// and blocked signals, the directory, the file mask and all that relates the
/// process to others stay.
pub proof fn law_new_program_forgets_handlers(p: ProcessModel, signal: int, fd: int)
    requires
        1 <= signal <= 64,
    ensures
        ({
            let after = p.exec_reset();
            &&& p.signals.actions[signal].handler == 1 ==> after.signals.actions[signal]
                == p.signals.actions[signal]
            &&& p.signals.actions[signal].handler != 1 ==> after.signals.actions[signal].handler
                == 0 && after.signals.actions[signal].flags == 0
                && after.signals.actions[signal].mask == 0
            &&& after.signals.alt_stack.is_none()
            &&& after.signals.suspended.is_none()
            &&& after.signals.pending == p.signals.pending
            &&& after.signals.mask == p.signals.mask
            &&& entry_of(after.files, fd) == match entry_of(p.files, fd) {
                Some(entry) => if entry.close_on_exec {
                    None
                } else {
                    Some(entry)
                },
                None => None,
            }
            &&& after.cwd == p.cwd && after.umask == p.umask && after.nice == p.nice
            &&& after.pid == p.pid && after.parent == p.parent && after.session == p.session
            &&& after.group == p.group && after.tty == p.tty && after.threads == p.threads
            &&& after.exited == p.exited && after.status == p.status
        }),
{
    crate::proc::files::law_exec_closes_marked(p.files, fd);
}

/// A wait for a positive number is for that process, for minus one for any
/// child, for zero for the caller's group and for any other negative number for
/// the group of that number.
pub proof fn law_wait_selects(p: ProcessModel, selector: i64, caller_group: usize)
    requires
        selector > i64::MIN,
    ensures
        selector > 0 ==> (p.waited_by(selector, caller_group) <==> p.pid == selector),
        selector == -1 ==> p.waited_by(selector, caller_group),
        selector == 0 ==> (p.waited_by(selector, caller_group) <==> p.group == caller_group),
        selector < -1 ==> (p.waited_by(selector, caller_group) <==> p.group + selector == 0),
{
}

/// A process that is told of a child, or sent a signal, is changed in nothing
/// else, and its waiters are let go exactly if there is something new.
pub proof fn law_telling_changes_little(p: ProcessModel, info: SignalInfo)
    ensures
        p.notified().child_ready,
        p.notified().child_waiters.len() == 0,
        p.notified() == (ProcessModel { child_ready: true, child_waiters: Seq::empty(), ..p }),
        p.signaled(info).signals == p.signals.enqueued(info),
        p.signals.accepted(info) ==> p.signaled(info).signal_waiters.len() == 0,
        !p.signals.accepted(info) ==> p.signaled(info).signal_waiters == p.signal_waiters,
        p.signaled(info) == (ProcessModel {
            signals: p.signaled(info).signals,
            signal_waiters: p.signaled(info).signal_waiters,
            ..p
        }),
{
}

/// A signal of the kernel says that it comes from there and from nobody.
pub proof fn law_kernel_signal_has_no_sender(signal: u8)
    ensures
        kernel_info(signal).signal == signal,
        kernel_info(signal).code == 128,
        kernel_info(signal).sender_pid == 0,
        kernel_info(signal).sender_uid == 0,
        !kernel_info(signal).synchronous,
{
}

} // verus!
