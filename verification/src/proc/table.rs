//! The table of all processes and what relates them: parents, sessions,
//! groups, signals and priorities.

use vstd::prelude::*;
use crate::lists::{any_where, first_where, lemma_finds, lemma_first_where};
use crate::proc::process::{forked_process, kernel_info, new_process, Process, ProcessModel};
use crate::proc::signal::{is_signal, SignalInfo, SIGCHLD, SIGCONT, SIGKILL, SIGNAL_MAX, SI_KERNEL, SI_USER};
use crate::proc::signal_syscall::validate_optional_signal;
use crate::proc::Error;
use crate::sys::event::{all_claimed, all_targets, lemma_all_claimed, WaitGroup, WaitGroups};
use crate::sys::sched::model::SchedModel;
use crate::sys::sched::policy::nice_in_range;
use crate::sys::sched::scheduler::{clamped_nice, first_nice, Scheduler};
use crate::sys::sync::WakeTarget;
use crate::sys::thread::{NICE_MAX, NICE_MIN};

verus! {

/// The table as specifications see it.
#[verifier::ext_equal]
pub struct TableModel {
    /// Number of the next process.
    pub next_pid: usize,
    /// First process, which adopts orphans.
    pub init: Option<usize>,
    /// All processes that were not reaped, oldest first.
    pub processes: Seq<ProcessModel>,
    /// Reaped processes in which threads still run; only these threads know of
    /// them.
    pub leftover: Seq<ProcessModel>,
}

/// Whether a process has this number.
pub open spec fn has_pid(pid: usize) -> spec_fn(ProcessModel) -> bool {
    |p: ProcessModel| p.pid == pid
}

/// Place of a process, or the number of processes.
pub open spec fn place_of(processes: Seq<ProcessModel>, pid: usize) -> int {
    first_where(processes, has_pid(pid), 0)
}

impl TableModel {
    /// Numbers grow and are never reused.
    pub open spec fn ok(self) -> bool {
        &&& forall|i: int, j: int|
            #![trigger self.processes[i], self.processes[j]]
            0 <= i < j < self.processes.len() ==> self.processes[i].pid < self.processes[j].pid
        &&& forall|i: int|
            0 <= i < self.processes.len() ==> (#[trigger] self.processes[i]).pid < self.next_pid
        &&& forall|i: int|
            0 <= i < self.leftover.len() ==> (#[trigger] self.leftover[i]).exited
                && self.leftover[i].threads > 0
    }

    /// Whether a thread can run in the process with this number: it was not
    /// reaped, or not all of its threads ended.
    pub open spec fn owned(self, pid: usize) -> bool {
        self.has(pid) || any_where(self.leftover, has_pid(pid))
    }

    /// The process with this number as its own threads see it.
    pub open spec fn own(self, pid: usize) -> ProcessModel {
        if self.has(pid) {
            self.process(pid)
        } else {
            self.leftover[place_of(self.leftover, pid)]
        }
    }

    /// The table after a process that its own thread runs in changed.
    pub open spec fn with_own(self, pid: usize, process: ProcessModel) -> TableModel {
        if self.has(pid) {
            self.with(pid, process)
        } else {
            TableModel {
                leftover: self.leftover.update(place_of(self.leftover, pid), process),
                ..self
            }
        }
    }

    /// The table after one thread of a reaped process ended; the process is gone
    /// with its last thread.
    pub open spec fn left(self, pid: usize) -> TableModel {
        let at = place_of(self.leftover, pid);
        let p = self.leftover[at];
        TableModel {
            leftover: if p.threads == 1 {
                self.leftover.remove(at)
            } else {
                self.leftover.update(at, ProcessModel { threads: (p.threads - 1) as usize, ..p })
            },
            ..self
        }
    }

    /// Whether there is a process with this number.
    pub open spec fn has(self, pid: usize) -> bool {
        any_where(self.processes, has_pid(pid))
    }

    /// The process with this number.
    pub open spec fn process(self, pid: usize) -> ProcessModel {
        self.processes[place_of(self.processes, pid)]
    }

    /// The table after a process changed.
    pub open spec fn with(self, pid: usize, process: ProcessModel) -> TableModel {
        TableModel {
            processes: self.processes.update(place_of(self.processes, pid), process),
            ..self
        }
    }

    /// Every waiter of every process is known.
    pub open spec fn known(self, groups: Seq<WaitGroup>) -> bool {
        forall|i: int|
            0 <= i < self.processes.len() ==> (#[trigger] self.processes[i]).known(groups)
    }
}

/// The table of all processes.
pub struct ProcessTable {
    next_pid: usize,
    init: Option<usize>,
    processes: Vec<Process>,
    leftover: Vec<Process>,
}

/// The processes as specifications see them.
pub open spec fn process_views(processes: Seq<Process>) -> Seq<ProcessModel> {
    Seq::new(processes.len(), |i: int| processes[i]@)
}

impl View for ProcessTable {
    type V = TableModel;

    closed spec fn view(&self) -> TableModel {
        TableModel {
            next_pid: self.next_pid,
            init: self.init,
            processes: process_views(self.processes@),
            leftover: process_views(self.leftover@),
        }
    }
}

fn place_in(processes: &Vec<Process>, pid: usize) -> (place: usize)
    ensures
        place == place_of(process_views(processes@), pid),
        place <= processes@.len(),
{
    let ghost views = process_views(processes@);
    let mut at: usize = 0;
    while at < processes.len()
        invariant
            views == process_views(processes@),
            at <= views.len(),
            place_of(views, pid) == first_where(views, has_pid(pid), at as int),
        decreases views.len() - at,
    {
        if processes[at].pid() == pid {
            return at;
        }
        at = at + 1;
    }
    at
}

impl ProcessTable {
    /// All processes are consistent and their numbers grow.
    pub closed spec fn wf(self) -> bool {
        &&& forall|i: int| 0 <= i < self.processes@.len() ==> (#[trigger] self.processes@[i]).wf()
        &&& forall|i: int| 0 <= i < self.leftover@.len() ==> (#[trigger] self.leftover@[i]).wf()
        &&& self@.ok()
    }

    /// A consistent table satisfies its invariant.
    pub proof fn lemma_wf(&self)
        requires
            self.wf(),
        ensures
            self@.ok(),
    {
    }

    /// No processes; the first gets number one.
    pub fn new() -> (table: Self)
        ensures
            table.wf(),
            table@ == (TableModel {
                next_pid: 1,
                init: None,
                processes: Seq::empty(),
                leftover: Seq::empty(),
            }),
    {
        let table = ProcessTable {
            next_pid: 1,
            init: None,
            processes: Vec::new(),
            leftover: Vec::new(),
        };
        assert(table@ =~= (TableModel {
            next_pid: 1,
            init: None,
            processes: Seq::empty(),
            leftover: Seq::empty(),
        }));
        table
    }

    fn place(&self, pid: usize) -> (place: usize)
        ensures
            place == place_of(self@.processes, pid),
            place <= self@.processes.len(),
            self@.processes.len() == self.processes@.len(),
    {
        place_in(&self.processes, pid)
    }

    /// Finds one live or zombie process by number.
    pub fn find(&self, pid: usize) -> (process: Option<&Process>)
        requires
            self.wf(),
        ensures
            process.is_some() == self@.has(pid),
            process matches Some(p) ==> p.wf() && p@ == self@.process(pid),
    {
        let place: usize = self.place(pid);
        if place < self.processes.len() {
            Some(&self.processes[place])
        } else {
            None
        }
    }

    /// Finds one live or zombie process by number, to change it without
    /// changing its number.
    pub fn find_mut(&mut self, pid: usize) -> (process: Option<&mut Process>)
        requires
            old(self).wf(),
        ensures
            process.is_some() == old(self)@.has(pid),
            process matches Some(p) ==> {
                &&& p.wf()
                &&& p@ == old(self)@.process(pid)
                &&& final(p).wf() && final(p)@.pid == p@.pid ==> final(self).wf()
                &&& final(self)@ == old(self)@.with(pid, final(p)@)
            },
            process.is_none() ==> final(self).wf() && final(self)@ == old(self)@,
    {
        let place: usize = self.place(pid);
        if place < self.processes.len() {
            proof {
                lemma_first_where(self@.processes, has_pid(pid), 0);
                lemma_update(*self, place as int);
            }
            Some(&mut self.processes[place])
        } else {
            None
        }
    }

    /// Finds the process that a thread runs in, reaped or not.
    pub fn find_own(&self, pid: usize) -> (process: Option<&Process>)
        requires
            self.wf(),
        ensures
            process.is_some() == self@.owned(pid),
            process matches Some(p) ==> p.wf() && p@ == self@.own(pid),
    {
        let place: usize = self.place(pid);
        if place < self.processes.len() {
            return Some(&self.processes[place]);
        }
        let left: usize = place_in(&self.leftover, pid);
        if left < self.leftover.len() {
            Some(&self.leftover[left])
        } else {
            None
        }
    }

    /// Retires a thread of a reaped process.
    pub fn retire_leftover(&mut self, pid: usize)
        requires
            old(self).wf(),
            !old(self)@.has(pid),
            old(self)@.owned(pid),
        ensures
            final(self).wf(),
            final(self)@ == old(self)@.left(pid),
    {
        let place: usize = place_in(&self.leftover, pid);
        let ghost m = self@;
        assert(m.leftover[place as int].threads > 0);
        assert(self.leftover@[place as int].wf());
        if self.leftover[place].thread_count() == 1 {
            let _ = self.leftover.remove(place);
            assert(self@.leftover =~= m.leftover.remove(place as int));
        } else {
            let _ = self.leftover[place].unregister_thread();
            assert(self@.leftover =~= m.left(pid).leftover);
        }
        assert(self@ =~= m.left(pid));
    }

    /// Adds the first process.
    pub fn new_root(&mut self, address_space: u64) -> (pid: usize)
        requires
            old(self).wf(),
            old(self)@.next_pid < usize::MAX,
        ensures
            final(self).wf(),
            pid == old(self)@.next_pid,
            final(self)@ == (TableModel {
                next_pid: (pid + 1) as usize,
                init: Some(pid),
                processes: old(self)@.processes.push(new_process(pid, address_space)),
                ..old(self)@
            }),
    {
        let pid: usize = self.next_pid;
        self.next_pid = pid + 1;
        self.init = Some(pid);
        self.processes.push(Process::new_root(pid, address_space));
        assert(self@.processes =~= old(self)@.processes.push(new_process(pid, address_space)));
        pid
    }

    /// Adds a child of `parent`.
    pub fn fork_from(&mut self, parent: usize, address_space: u64) -> (pid: Option<usize>)
        requires
            old(self).wf(),
            old(self)@.next_pid < usize::MAX,
        ensures
            final(self).wf(),
            pid == if old(self)@.has(parent) {
                Some(old(self)@.next_pid)
            } else {
                None
            },
            pid.is_none() ==> final(self)@ == old(self)@,
            pid matches Some(child) ==> final(self)@ == (TableModel {
                next_pid: (child + 1) as usize,
                processes: old(self)@.processes.push(
                    forked_process(old(self)@.process(parent), child, address_space),
                ),
                ..old(self)@
            }),
    {
        let place: usize = self.place(parent);
        if place >= self.processes.len() {
            return None;
        }
        let pid: usize = self.next_pid;
        let child = Process::fork_from(&self.processes[place], pid, address_space);
        self.next_pid = pid + 1;
        self.processes.push(child);
        assert(self@.processes =~= old(self)@.processes.push(
            forked_process(old(self)@.process(parent), pid, address_space),
        ));
        Some(pid)
    }
}

proof fn lemma_update(table: ProcessTable, place: int)
    requires
        table.wf(),
        0 <= place < table.processes@.len(),
    ensures
        forall|p: Process| #[trigger]
            process_views(table.processes@.update(place, p)) == table@.processes.update(
                place,
                p@,
            ),
{
    assert forall|p: Process| #[trigger]
        process_views(table.processes@.update(place, p)) == table@.processes.update(
            place,
            p@,
        ) by {
        assert(process_views(table.processes@.update(place, p)) =~= table@.processes.update(
            place,
            p@,
        ));
    }
}

/// A process number names one process.
pub proof fn law_pid_is_unique(m: TableModel, i: int)
    requires
        m.ok(),
        0 <= i < m.processes.len(),
    ensures
        place_of(m.processes, m.processes[i].pid) == i,
        m.process(m.processes[i].pid) == m.processes[i],
{
    lemma_finds(m.processes, has_pid(m.processes[i].pid), i);
    lemma_first_where(m.processes, has_pid(m.processes[i].pid), 0);
}

/// What waiting for a child ended in.
#[derive(Copy, Clone, Debug, PartialEq, Eq, Structural)]
pub enum WaitOutcome {
    /// This child exited with this status and is gone.
    Reaped(usize, i32),
    /// No matching child exited yet, and the caller does not want to wait.
    Nothing,
    /// No matching child exited yet; wait for the child event.
    Sleep,
}

/// Whether a process is a child of `parent` that the wait is for.
pub open spec fn awaited(parent: ProcessModel, selector: i64) -> spec_fn(ProcessModel) -> bool {
    |p: ProcessModel| p.parent == Some(parent.pid) && p.waited_by(selector, parent.group)
}

/// Whether a process is such a child and exited.
pub open spec fn reapable(parent: ProcessModel, selector: i64) -> spec_fn(ProcessModel) -> bool {
    |p: ProcessModel| awaited(parent, selector)(p) && p.exited
}

/// Whether a process is an exited child of `parent`.
pub open spec fn zombie_of(parent: usize) -> spec_fn(ProcessModel) -> bool {
    |p: ProcessModel| p.parent == Some(parent) && p.exited
}

impl TableModel {
    /// The table after the process at a place was reaped; it is hidden while
    /// threads still run in it.
    pub open spec fn reaped(self, at: int) -> TableModel {
        TableModel {
            processes: self.processes.remove(at),
            leftover: if self.processes[at].threads > 0 {
                self.leftover.push(self.processes[at])
            } else {
                self.leftover
            },
            ..self
        }
    }
}

/// The table after `parent` waited for `selector` once, and the outcome; a reaped
/// process has no children, since they were adopted when it exited.
pub open spec fn waited(m: TableModel, parent: usize, selector: i64, nohang: bool) -> Result<
    (TableModel, WaitOutcome),
    Error,
> {
    let me = m.process(parent);
    let quiet = ProcessModel { child_ready: false, ..me };
    let at = first_where(m.processes, reapable(me, selector), 0);
    if selector == i64::MIN || !m.owned(parent) {
        Err(Error::InvalidArgument)
    } else if !m.has(parent) {
        Err(Error::NoChild)
    } else if !any_where(m.processes, awaited(me, selector)) {
        Err(Error::NoChild)
    } else if at < m.processes.len() {
        let child = m.processes[at];
        let rest = m.reaped(at);
        Ok(
            (
                if !any_where(rest.processes, zombie_of(parent)) && child.pid != parent {
                    rest.with(parent, quiet)
                } else {
                    rest
                },
                WaitOutcome::Reaped(child.pid, child.status),
            ),
        )
    } else if nohang {
        Ok((m, WaitOutcome::Nothing))
    } else {
        Ok((m.with(parent, quiet), WaitOutcome::Sleep))
    }
}

impl ProcessTable {
    fn first_child(
        &self,
        parent: usize,
        group: usize,
        selector: i64,
        exited_only: bool,
        Ghost(me): Ghost<ProcessModel>,
    ) -> (place: usize)
        requires
            self.wf(),
            selector > i64::MIN,
            me.pid == parent,
            me.group == group,
        ensures
            place == first_where(
                self@.processes,
                if exited_only {
                    reapable(me, selector)
                } else {
                    awaited(me, selector)
                },
                0,
            ),
            place <= self@.processes.len(),
            self@.processes.len() == self.processes@.len(),
    {
        let ghost views = self@.processes;
        let ghost wanted = if exited_only {
            reapable(me, selector)
        } else {
            awaited(me, selector)
        };
        let mut at: usize = 0;
        while at < self.processes.len()
            invariant
                selector > i64::MIN,
                me.pid == parent,
                me.group == group,
                views == self@.processes,
                views.len() == self.processes@.len(),
                wanted == if exited_only {
                    reapable(me, selector)
                } else {
                    awaited(me, selector)
                },
                at <= views.len(),
                first_where(views, wanted, 0) == first_where(views, wanted, at as int),
            decreases views.len() - at,
        {
            let p = &self.processes[at];
            assert(p@ == views[at as int]);
            if p.parent() == Some(parent) && p.matches_wait(selector, group) && (!exited_only
                || p.is_exited()) {
                return at;
            }
            at = at + 1;
        }
        at
    }

    fn has_zombie(&self, parent: usize) -> (found: bool)
        ensures
            found == any_where(self@.processes, zombie_of(parent)),
    {
        let ghost views = self@.processes;
        let mut at: usize = 0;
        while at < self.processes.len()
            invariant
                views == self@.processes,
                views.len() == self.processes@.len(),
                at <= views.len(),
                first_where(views, zombie_of(parent), 0) == first_where(
                    views,
                    zombie_of(parent),
                    at as int,
                ),
            decreases views.len() - at,
        {
            let p = &self.processes[at];
            assert(p@ == views[at as int]);
            if p.parent() == Some(parent) && p.is_exited() {
                return true;
            }
            at = at + 1;
        }
        false
    }

    fn quiet_children(&mut self, parent: usize)
        requires
            old(self).wf(),
        ensures
            final(self).wf(),
            final(self)@ == if old(self)@.has(parent) {
                old(self)@.with(
                    parent,
                    ProcessModel { child_ready: false, ..old(self)@.process(parent) },
                )
            } else {
                old(self)@
            },
    {
        match self.find_mut(parent) {
            Some(process) => {
                let _ = process.child_event_mut().reset();
            },
            None => {},
        }
    }

    /// Reaps the oldest exited child that `selector` stands for, or prepares
    /// to wait for one.
    pub fn wait_current(&mut self, parent: usize, selector: i64, nohang: bool) -> (outcome: Result<
        WaitOutcome,
        Error,
    >)
        requires
            old(self).wf(),
        ensures
            final(self).wf(),
            match waited(old(self)@, parent, selector, nohang) {
                Ok((after, expected)) => outcome == Ok::<WaitOutcome, Error>(expected) && final(self)@ == after,
                Err(error) => outcome == Err::<WaitOutcome, Error>(error) && final(self)@ == old(self)@,
            },
    {
        if selector == i64::MIN {
            return Err(Error::InvalidArgument);
        }
        let ghost m = self@;
        let ghost me = m.process(parent);
        let place: usize = self.place(parent);
        if place >= self.processes.len() {
            return if self.find_own(parent).is_some() {
                Err(Error::NoChild)
            } else {
                Err(Error::InvalidArgument)
            };
        }
        proof {
            lemma_first_where(m.processes, has_pid(parent), 0);
        }
        let group: usize = self.processes[place].process_group();
        if self.first_child(parent, group, selector, false, Ghost(me)) >= self.processes.len() {
            return Err(Error::NoChild);
        }
        let at: usize = self.first_child(parent, group, selector, true, Ghost(me));
        if at < self.processes.len() {
            proof {
                lemma_first_where(m.processes, reapable(me, selector), 0);
            }
            let child = self.processes.remove(at);
            let pid: usize = child.pid();
            let status: i32 = child.encoded_exit_status();
            let ghost rest = m.reaped(at as int);
            if child.thread_count() > 0 {
                self.leftover.push(child);
            }
            assert(self@.processes =~= rest.processes);
            assert(self@.leftover =~= rest.leftover);
            assert(self@ =~= rest);
            proof {
                lemma_removed(m, at as int, parent);
            }
            if !self.has_zombie(parent) {
                self.quiet_children(parent);
            }
            return Ok(WaitOutcome::Reaped(pid, status));
        }
        if nohang {
            return Ok(WaitOutcome::Nothing);
        }
        self.quiet_children(parent);
        Ok(WaitOutcome::Sleep)
    }
}

proof fn lemma_removed(m: TableModel, at: int, pid: usize)
    requires
        m.ok(),
        0 <= at < m.processes.len(),
        m.has(pid),
    ensures
        m.processes[at].exited ==> m.reaped(at).ok(),
        ({
            let rest = TableModel { processes: m.processes.remove(at), ..m };
            &&& rest.ok()
            &&& m.reaped(at).processes == rest.processes
            &&& m.processes[at].pid != pid ==> rest.has(pid) && rest.process(pid) == m.process(pid)
            &&& m.processes[at].pid == pid ==> !rest.has(pid)
        }),
{
    let rest = m.processes.remove(at);
    lemma_first_where(m.processes, has_pid(pid), 0);
    lemma_first_where(rest, has_pid(pid), 0);
    let place = place_of(m.processes, pid);
    assert forall|i: int, j: int|
        #![trigger rest[i], rest[j]]
        0 <= i < j < rest.len() implies rest[i].pid < rest[j].pid by {
        let a = if i < at { i } else { i + 1 };
        let b = if j < at { j } else { j + 1 };
        assert(rest[i] == m.processes[a] && rest[j] == m.processes[b]);
    }
    assert forall|i: int| 0 <= i < rest.len() implies (#[trigger] rest[i]).pid < m.next_pid by {
        let a = if i < at { i } else { i + 1 };
        assert(rest[i] == m.processes[a]);
    }
    if m.processes[at].pid != pid {
        let moved = if place < at { place } else { place - 1 };
        assert(rest[moved] == m.processes[place]);
        lemma_finds(rest, has_pid(pid), moved);
        let found = place_of(rest, pid);
        if found < moved {
            assert(rest[found].pid < rest[moved].pid);
        }
    } else if any_where(rest, has_pid(pid)) {
        let found = place_of(rest, pid);
        let back = if found < at { found } else { found + 1 };
        assert(rest[found] == m.processes[back]);
        if back < at {
            assert(m.processes[back].pid < m.processes[at].pid);
        } else {
            assert(m.processes[at].pid < m.processes[back].pid);
        }
    }
}

/// A child is reaped only once, and only after it exited; its number then finds
/// it no longer, but its own threads still do until the last of them ended.
pub proof fn law_child_is_reaped_once(m: TableModel, parent: usize, selector: i64, nohang: bool)
    requires
        m.ok(),
    ensures
        waited(m, parent, selector, nohang) matches Ok((after, WaitOutcome::Reaped(pid, status)))
            ==> m.has(pid) && m.process(pid).exited && m.process(pid).status == status && m.process(
            pid,
        ).parent == Some(parent) && !after.has(pid) && (m.process(pid).threads > 0
            ==> after.owned(pid)),
{
    let me = m.process(parent);
    let at = first_where(m.processes, reapable(me, selector), 0);
    lemma_first_where(m.processes, has_pid(parent), 0);
    lemma_first_where(m.processes, reapable(me, selector), 0);
    if m.has(parent) && at < m.processes.len() {
        let pid = m.processes[at].pid;
        law_pid_is_unique(m, at);
        lemma_finds(m.processes, has_pid(pid), at);
        lemma_removed(m, at, pid);
        lemma_removed(m, at, parent);
        let rest = m.reaped(at);
        if pid != parent {
            lemma_with(rest, parent, ProcessModel { child_ready: false, ..me }, pid);
        }
        if m.processes[at].threads > 0 {
            lemma_finds(rest.leftover, has_pid(pid), m.leftover.len() as int);
        }
    }
}

/// Changing a process without its number keeps who is there.
proof fn lemma_with(m: TableModel, pid: usize, process: ProcessModel, other: usize)
    requires
        m.ok(),
        m.has(pid),
        process.pid == pid,
    ensures
        m.with(pid, process).ok(),
        m.with(pid, process).has(other) == m.has(other),
        m.with(pid, process).has(other) ==> m.with(pid, process).process(other) == if other == pid {
            process
        } else {
            m.process(other)
        },
        place_of(m.with(pid, process).processes, other) == place_of(m.processes, other),
{
    let after = m.with(pid, process).processes;
    let place = place_of(m.processes, pid);
    lemma_first_where(m.processes, has_pid(pid), 0);
    lemma_first_where(m.processes, has_pid(other), 0);
    lemma_first_where(after, has_pid(other), 0);
    assert(forall|i: int| 0 <= i < after.len() ==> (#[trigger] after[i]).pid == m.processes[i].pid);
    let found = place_of(after, other);
    let before = place_of(m.processes, other);
    if found < before {
        assert(has_pid(other)(m.processes[found]));
    }
    if before < found {
        assert(has_pid(other)(after[before]));
    }
}

impl ProcessModel {
    /// The process after terminal `key` was taken from `session`.
    pub open spec fn without_tty(self, session: usize, key: u64) -> ProcessModel {
        ProcessModel {
            tty: if self.session == session && self.tty == Some(key) {
                None
            } else {
                self.tty
            },
            ..self
        }
    }

    /// The process after its parent `gone` exited and `guardian` adopted it.
    pub open spec fn orphaned(self, gone: usize, guardian: Option<usize>) -> ProcessModel {
        ProcessModel {
            parent: if self.parent == Some(gone) {
                guardian
            } else {
                self.parent
            },
            ..self
        }
    }
}

impl TableModel {
    /// The table after terminal `key` was taken from `session`.
    pub open spec fn without_tty(self, session: usize, key: u64) -> TableModel {
        TableModel {
            processes: self.processes.map_values(|p: ProcessModel| p.without_tty(session, key)),
            ..self
        }
    }

    /// Who adopts the children of `pid`.
    pub open spec fn guardian(self, pid: usize) -> Option<usize> {
        match self.init {
            Some(init) => if init != pid && self.has(init) {
                Some(init)
            } else {
                None
            },
            None => None,
        }
    }

    /// The table after the children of `pid` were adopted.
    pub open spec fn orphaned(self, pid: usize) -> TableModel {
        let guardian = self.guardian(pid);
        let moved = TableModel {
            processes: self.processes.map_values(|p: ProcessModel| p.orphaned(pid, guardian)),
            ..self
        };
        match guardian {
            Some(init) => if any_where(self.processes, zombie_of(pid)) {
                moved.with(init, moved.process(init).notified())
            } else {
                moved
            },
            None => moved,
        }
    }

    /// Whom adopting the children of `pid` wakes: those who wait for children
    /// of the adopter, if one of them exited.
    pub open spec fn adoption_waiters(self, pid: usize) -> Seq<crate::sys::event::EventWaiter> {
        match self.guardian(pid) {
            Some(init) => if any_where(self.processes, zombie_of(pid)) {
                self.process(init).child_waiters
            } else {
                Seq::empty()
            },
            None => Seq::empty(),
        }
    }

    /// The table after the leader of a session gave up its terminal.
    pub open spec fn detached(self, pid: usize) -> TableModel {
        let me = self.process(pid);
        if me.session == pid && me.tty.is_some() {
            self.without_tty(me.session, me.tty->0)
        } else {
            self
        }
    }

    /// The table after the parent of `pid` was told that its child exited.
    pub open spec fn parent_told(self, pid: usize) -> TableModel {
        match self.process(pid).parent {
            Some(parent) => if self.has(parent) {
                self.with(
                    parent,
                    self.process(parent).signaled(kernel_info(SIGCHLD)).notified(),
                )
            } else {
                self
            },
            None => self,
        }
    }

    /// The table after `pid` exited, before its parent was told.
    pub open spec fn finished(self, pid: usize, status: i32) -> TableModel {
        let alone = self.detached(pid).orphaned(pid);
        alone.with(
            pid,
            ProcessModel {
                files: Seq::empty(),
                status,
                exited: true,
                ..alone.process(pid)
            },
        )
    }

    /// The table after `pid` exited.
    pub open spec fn exited(self, pid: usize, status: i32) -> TableModel {
        self.finished(pid, status).parent_told(pid)
    }
}

/// Whether anything still holds a process: a parent that has to wait for it, a
/// thread that runs in it, or that it has not exited.
pub open spec fn held() -> spec_fn(ProcessModel) -> bool {
    |p: ProcessModel| !p.exited || p.threads > 0 || p.parent.is_some()
}

impl TableModel {
    /// The table without the processes that nothing holds any more.
    pub open spec fn swept(self) -> TableModel {
        TableModel { processes: self.processes.filter(held()), ..self }
    }
}

proof fn lemma_filtered(all: Seq<ProcessModel>)
    ensures
        forall|i: int|
            0 <= i < all.filter(held()).len() ==> held()(#[trigger] all.filter(held())[i])
                && all.contains(all.filter(held())[i]),
        forall|i: int|
            0 <= i < all.len() && held()(#[trigger] all[i]) ==> all.filter(held()).contains(
                all[i],
            ),
    decreases all.len(),
{
    reveal(Seq::filter);
    let kept = all.filter(held());
    if all.len() > 0 {
        let less = all.drop_last();
        let before = less.filter(held());
        lemma_filtered(less);
        assert forall|i: int| 0 <= i < kept.len() implies held()(#[trigger] kept[i])
            && all.contains(kept[i]) by {
            if i < before.len() {
                assert(kept[i] == before[i]);
                let back = choose|k: int| 0 <= k < less.len() && less[k] == before[i];
                assert(all[back] == kept[i]);
            } else {
                assert(kept[i] == all[all.len() - 1]);
            }
        }
        assert forall|i: int| 0 <= i < all.len() && held()(#[trigger] all[i]) implies kept.contains(
            all[i],
        ) by {
            if i < less.len() {
                assert(less[i] == all[i]);
                let at = choose|k: int| 0 <= k < before.len() && before[k] == less[i];
                assert(kept[at] == all[i]);
            } else {
                assert(kept[kept.len() - 1] == all[i]);
            }
        }
    }
}

/// An exited process that no parent waits for disappears with its last thread;
/// every other process stays as it is.
pub proof fn law_unheld_process_disappears(m: TableModel, pid: usize)
    requires
        m.ok(),
        m.has(pid),
        m.swept().ok(),
    ensures
        m.swept().has(pid) == held()(m.process(pid)),
        m.swept().has(pid) ==> m.swept().process(pid) == m.process(pid),
{
    let after = m.swept();
    let place = place_of(m.processes, pid);
    lemma_filtered(m.processes);
    lemma_first_where(m.processes, has_pid(pid), 0);
    lemma_first_where(after.processes, has_pid(pid), 0);
    if held()(m.process(pid)) {
        assert(after.processes.contains(m.processes[place]));
        let at = choose|i: int|
            0 <= i < after.processes.len() && after.processes[i] == m.processes[place];
        lemma_finds(after.processes, has_pid(pid), at);
    }
    if after.has(pid) {
        let at = place_of(after.processes, pid);
        assert(m.processes.contains(after.processes[at]));
        let back = choose|i: int|
            0 <= i < m.processes.len() && m.processes[i] == after.processes[at];
        law_pid_is_unique(m, back);
    }
}

/// Without a first process that is left to adopt them, the children of a
/// process have no parent once it exited.
pub proof fn law_orphans_without_adopter(m: TableModel, pid: usize, i: int)
    requires
        m.guardian(pid).is_none(),
        0 <= i < m.processes.len(),
        m.processes[i].parent == Some(pid),
    ensures
        m.orphaned(pid).processes[i].parent.is_none(),
{
}

/// A change of all processes that keeps their numbers.
spec fn keeps_pids(f: spec_fn(ProcessModel) -> ProcessModel) -> bool {
    forall|p: ProcessModel| (#[trigger] f(p)).pid == p.pid
}

proof fn lemma_mapped(m: TableModel, f: spec_fn(ProcessModel) -> ProcessModel, pid: usize)
    requires
        m.ok(),
        keeps_pids(f),
    ensures
        ({
            let after = TableModel { processes: m.processes.map_values(f), ..m };
            &&& after.ok()
            &&& place_of(after.processes, pid) == place_of(m.processes, pid)
            &&& after.has(pid) == m.has(pid)
            &&& m.has(pid) ==> after.process(pid) == f(m.process(pid))
        }),
{
    let after = m.processes.map_values(f);
    lemma_first_where(m.processes, has_pid(pid), 0);
    lemma_first_where(after, has_pid(pid), 0);
    assert forall|i: int| 0 <= i < after.len() implies (#[trigger] after[i]).pid
        == m.processes[i].pid by {
        assert(after[i] == f(m.processes[i]));
    }
    let found = place_of(after, pid);
    let before = place_of(m.processes, pid);
    if found < before {
        assert(has_pid(pid)(m.processes[found]));
    }
    if before < found {
        assert(has_pid(pid)(after[before]));
    }
}

/// What has to be done when a process exits.
pub struct ExitActions {
    /// Terminal that the session gave up.
    pub terminal: Option<u64>,
    /// Threads to wake.
    pub woken: Vec<WakeTarget>,
    /// Stopped thread to resume.
    pub resumed: Option<WakeTarget>,
}

impl ExitActions {
    /// What the exit of `pid` leads to: the waits of those who wait for
    /// children of the adopter, for signals of the parent and for its children
    /// end in this order.
    pub open spec fn follow(
        self,
        m: TableModel,
        pid: usize,
        status: i32,
        groups: Seq<WaitGroup>,
        groups_after: Seq<WaitGroup>,
    ) -> bool {
        let adopted = m.detached(pid).adoption_waiters(pid);
        let groups1 = all_claimed(adopted, groups);
        let woken1 = all_targets(adopted, groups);
        let ended = m.finished(pid, status);
        &&& self.terminal == if m.process(pid).session == pid {
            m.process(pid).tty
        } else {
            None
        }
        &&& self.resumed.is_none()
        &&& match ended.process(pid).parent {
            Some(parent) if ended.has(parent) => {
                let told = ended.process(parent);
                let accepted = told.signals.accepted(kernel_info(SIGCHLD));
                let groups2 = if accepted {
                    all_claimed(told.signal_waiters, groups1)
                } else {
                    groups1
                };
                let woken2 = if accepted {
                    woken1 + all_targets(told.signal_waiters, groups1)
                } else {
                    woken1
                };
                &&& groups_after == all_claimed(told.child_waiters, groups2)
                &&& self.woken@ == woken2 + all_targets(told.child_waiters, groups2)
            },
            _ => groups_after == groups1 && self.woken@ == woken1,
        }
    }
}

impl ProcessTable {
    /// Takes a controlling terminal from every process of a session.
    pub fn clear_session_controlling_tty(&mut self, session: usize, key: u64)
        requires
            old(self).wf(),
        ensures
            final(self).wf(),
            final(self)@ == old(self)@.without_tty(session, key),
    {
        let ghost m = self@;
        let ghost f = |p: ProcessModel| p.without_tty(session, key);
        let mut at: usize = 0;
        while at < self.processes.len()
            invariant
                m == old(self)@,
                m.ok(),
                f == (|p: ProcessModel| p.without_tty(session, key)),
                self.processes@.len() == m.processes.len(),
                at <= m.processes.len(),
                self.next_pid == m.next_pid,
                self.init == m.init,
                self.leftover == old(self).leftover,
                process_views(self.leftover@) == m.leftover,
                forall|i: int| 0 <= i < self.leftover@.len() ==> (#[trigger] self.leftover@[i]).wf(),
                forall|i: int|
                    0 <= i < m.processes.len() ==> (#[trigger] self.processes@[i]).wf()
                        && self.processes@[i]@ == if i < at {
                        f(m.processes[i])
                    } else {
                        m.processes[i]
                    },
            decreases m.processes.len() - at,
        {
            if self.processes[at].session() == session {
                self.processes[at].clear_controlling_tty(key);
            }
            at = at + 1;
        }
        proof {
            assert(self@ =~= m.without_tty(session, key));
            lemma_mapped(m, f, 0);
        }
    }

    fn reparent_children(&mut self, pid: usize, groups: &mut WaitGroups, woken: &mut Vec<WakeTarget>)
        requires
            old(self).wf(),
            old(self)@.known(old(groups)@),
        ensures
            final(self).wf(),
            final(self)@ == old(self)@.orphaned(pid),
            final(groups)@ == all_claimed(old(self)@.adoption_waiters(pid), old(groups)@),
            final(woken)@ == old(woken)@ + all_targets(
                old(self)@.adoption_waiters(pid),
                old(groups)@,
            ),
    {
        let ghost m = self@;
        let guardian: Option<usize> = match self.init {
            Some(init) => {
                if init != pid && self.place(init) < self.processes.len() {
                    Some(init)
                } else {
                    None
                }
            },
            None => None,
        };
        assert(guardian == m.guardian(pid));
        let exited_child = self.has_zombie(pid);
        let ghost f = |p: ProcessModel| p.orphaned(pid, guardian);
        let mut at: usize = 0;
        while at < self.processes.len()
            invariant
                m == old(self)@,
                m.ok(),
                f == (|p: ProcessModel| p.orphaned(pid, guardian)),
                self.processes@.len() == m.processes.len(),
                at <= m.processes.len(),
                self.next_pid == m.next_pid,
                self.init == m.init,
                self.leftover == old(self).leftover,
                process_views(self.leftover@) == m.leftover,
                forall|i: int| 0 <= i < self.leftover@.len() ==> (#[trigger] self.leftover@[i]).wf(),
                forall|i: int|
                    0 <= i < m.processes.len() ==> (#[trigger] self.processes@[i]).wf()
                        && self.processes@[i]@ == if i < at {
                        f(m.processes[i])
                    } else {
                        m.processes[i]
                    },
            decreases m.processes.len() - at,
        {
            if self.processes[at].parent() == Some(pid) {
                self.processes[at].adopt(guardian);
            }
            at = at + 1;
        }
        let ghost moved = TableModel { processes: m.processes.map_values(f), ..m };
        proof {
            assert(self@ =~= moved);
            lemma_mapped(m, f, 0);
        }
        assert(old(woken)@ + Seq::<WakeTarget>::empty() =~= old(woken)@);
        if exited_child {
            if let Some(init) = guardian {
                proof {
                    lemma_mapped(m, f, init);
                    lemma_first_where(m.processes, has_pid(init), 0);
                    lemma_first_where(moved.processes, has_pid(init), 0);
                }
                match self.find_mut(init) {
                    Some(process) => {
                        process.tell_child_exited(groups, woken);
                    },
                    None => {},
                }
            }
        }
    }

    /// Drops the processes that nothing holds any more.
    pub fn sweep(&mut self)
        requires
            old(self).wf(),
        ensures
            final(self).wf(),
            final(self)@ == old(self)@.swept(),
    {
        let ghost m = self@;
        let ghost mut n: int = 0;
        let mut at: usize = 0;
        assert(m.processes.take(0).filter(held()) =~= Seq::empty()) by {
            reveal(Seq::filter);
        }
        assert(m.processes.skip(0) =~= m.processes);
        assert(self@.processes =~= m.processes.take(0).filter(held()) + m.processes.skip(0));
        while at < self.processes.len()
            invariant
                self.wf(),
                0 <= n <= m.processes.len(),
                self@ == (TableModel { processes: self@.processes, ..m }),
                self@.processes.len() == self.processes@.len(),
                at == m.processes.take(n).filter(held()).len(),
                self@.processes == m.processes.take(n).filter(held()) + m.processes.skip(n),
            decreases m.processes.len() - n,
        {
            let ghost kept = m.processes.take(n).filter(held());
            let ghost now = self@;
            let process = &self.processes[at];
            let dropped = process.is_exited() && process.thread_count() == 0
                && process.parent().is_none();
            proof {
                assert(n < m.processes.len());
                assert(now.processes[at as int] == m.processes[n]);
                let longer = m.processes.take(n + 1);
                assert(longer.drop_last() =~= m.processes.take(n));
                assert(longer.last() == m.processes[n]);
                reveal(Seq::filter);
                assert(longer.filter(held()) == if held()(m.processes[n]) {
                    kept.push(m.processes[n])
                } else {
                    kept
                });
            }
            if dropped {
                proof {
                    lemma_finds(now.processes, has_pid(now.processes[at as int].pid), at as int);
                    lemma_removed(now, at as int, now.processes[at as int].pid);
                }
                let ghost before = self.processes@;
                let _ = self.processes.remove(at);
                assert(self@.processes =~= now.processes.remove(at as int));
                assert(self@.processes =~= kept + m.processes.skip(n + 1));
            } else {
                assert(self@.processes =~= kept.push(m.processes[n]) + m.processes.skip(n + 1));
                at = at + 1;
            }
            proof {
                n = n + 1;
            }
        }
        assert(n == m.processes.len());
        assert(m.processes.take(n) =~= m.processes);
        assert(self@.processes =~= m.processes.filter(held()));
    }

    /// Ends a process: a session leader gives up its terminal, children are
    /// adopted, descriptors are closed and the parent is told.
    pub fn mark_exited(&mut self, pid: usize, status: i32, groups: &mut WaitGroups) -> (actions:
        ExitActions)
        requires
            old(self).wf(),
            old(self)@.known(old(groups)@),
            old(self)@.has(pid),
        ensures
            final(self).wf(),
            final(self)@ == old(self)@.exited(pid, status),
            actions.follow(old(self)@, pid, status, old(groups)@, final(groups)@),
    {
        let mut woken: Vec<WakeTarget> = Vec::new();
        let ghost m = self@;
        let ghost groups0 = groups@;
        let place: usize = self.place(pid);
        proof {
            lemma_first_where(m.processes, has_pid(pid), 0);
        }
        let session: usize = self.processes[place].session();
        let terminal: Option<u64> = if session == pid {
            self.processes[place].controlling_tty_key()
        } else {
            None
        };
        if let Some(key) = terminal {
            self.clear_session_controlling_tty(session, key);
        }
        let ghost apart = self@;
        proof {
            assert(apart == m.detached(pid));
            lemma_detached(m, pid, groups0);
            lemma_orphaned(apart, pid, groups0);
        }
        self.reparent_children(pid, groups, &mut woken);
        let ghost alone = self@;
        assert(Seq::<WakeTarget>::empty() + woken@ =~= woken@);
        match self.find_mut(pid) {
            Some(process) => {
                process.finish(status);
            },
            None => {},
        }
        let ghost ended = self@;
        assert(ended == m.finished(pid, status));
        proof {
            lemma_with(
                alone,
                pid,
                ProcessModel { files: Seq::empty(), status, exited: true, ..alone.process(pid) },
                pid,
            );
            lemma_finished_known(alone, pid, status, groups0);
            lemma_adoption_known(apart, pid, groups0);
        }
        let parent: Option<usize> = match self.find(pid) {
            Some(process) => process.parent(),
            None => None,
        };
        let mut resumed: Option<WakeTarget> = None;
        if let Some(parent) = parent {
            proof {
                lemma_first_where(ended.processes, has_pid(parent), 0);
                if ended.has(parent) {
                    assert(ended.process(parent).known(groups@));
                    lemma_all_claimed(ended.process(parent).signal_waiters, groups@);
                }
            }
            if let Some(process) = self.find_mut(parent) {
                resumed =
                process.send(
                    SignalInfo {
                        signal: SIGCHLD,
                        code: SI_KERNEL,
                        sender_pid: 0,
                        sender_uid: 0,
                        synchronous: false,
                    },
                    groups,
                    &mut woken,
                );
                process.tell_child_exited(groups, &mut woken);
            }
        }
        ExitActions { terminal, woken, resumed }
    }
}

proof fn lemma_detached(m: TableModel, pid: usize, groups: Seq<WaitGroup>)
    requires
        m.ok(),
        m.has(pid),
        m.known(groups),
    ensures
        m.detached(pid).ok(),
        m.detached(pid).has(pid),
        m.detached(pid).known(groups),
{
    let me = m.process(pid);
    if me.session == pid && me.tty.is_some() {
        let f = |p: ProcessModel| p.without_tty(me.session, me.tty->0);
        lemma_mapped(m, f, pid);
        let after = m.detached(pid);
        assert forall|i: int| 0 <= i < after.processes.len() implies (
        #[trigger] after.processes[i]).known(groups) by {
            assert(after.processes[i] == f(m.processes[i]));
            assert(m.processes[i].known(groups));
        }
    }
}

proof fn lemma_orphaned(m: TableModel, pid: usize, groups: Seq<WaitGroup>)
    requires
        m.ok(),
        m.has(pid),
        m.known(groups),
    ensures
        m.orphaned(pid).ok(),
        m.orphaned(pid).has(pid),
        m.orphaned(pid).known(groups),
        m.orphaned(pid).process(pid).pid == pid,
{
    let guardian = m.guardian(pid);
    let f = |p: ProcessModel| p.orphaned(pid, guardian);
    let moved = TableModel { processes: m.processes.map_values(f), ..m };
    lemma_mapped(m, f, pid);
    lemma_first_where(m.processes, has_pid(pid), 0);
    assert forall|i: int| 0 <= i < moved.processes.len() implies (
    #[trigger] moved.processes[i]).known(groups) by {
        assert(moved.processes[i] == f(m.processes[i]));
        assert(m.processes[i].known(groups));
    }
    match guardian {
        Some(init) => {
            if any_where(m.processes, zombie_of(pid)) {
                lemma_mapped(m, f, init);
                lemma_first_where(moved.processes, has_pid(init), 0);
                lemma_with(moved, init, moved.process(init).notified(), pid);
                let after = m.orphaned(pid);
                assert forall|i: int| 0 <= i < after.processes.len() implies (
                #[trigger] after.processes[i]).known(groups) by {
                    assert(moved.processes[i].known(groups));
                }
            }
        },
        None => {},
    }
}

proof fn lemma_adoption_known(m: TableModel, pid: usize, groups: Seq<WaitGroup>)
    requires
        m.ok(),
        m.known(groups),
    ensures
        all_claimed(m.adoption_waiters(pid), groups).len() == groups.len(),
{
    match m.guardian(pid) {
        Some(init) => {
            lemma_first_where(m.processes, has_pid(init), 0);
            assert(m.process(init).known(groups));
        },
        None => {},
    }
    lemma_all_claimed(m.adoption_waiters(pid), groups);
}

proof fn lemma_finished_known(alone: TableModel, pid: usize, status: i32, groups: Seq<WaitGroup>)
    requires
        alone.ok(),
        alone.has(pid),
        alone.known(groups),
        alone.process(pid).pid == pid,
    ensures
        alone.with(
            pid,
            ProcessModel {
                files: Seq::empty(),
                status,
                exited: true,
                ..alone.process(pid)
            },
        ).known(groups),
{
    lemma_first_where(alone.processes, has_pid(pid), 0);
    let ended = alone.with(
        pid,
        ProcessModel { files: Seq::empty(), status, exited: true, ..alone.process(pid) },
    );
    assert forall|i: int| 0 <= i < ended.processes.len() implies (
    #[trigger] ended.processes[i]).known(groups) by {
        assert(alone.processes[i].known(groups));
    }
}

/// An exited process has no children left: they belong to the first process,
/// or to nobody.
pub proof fn law_exit_leaves_no_children(m: TableModel, pid: usize, i: int)
    requires
        m.ok(),
        m.has(pid),
        0 <= i < m.orphaned(pid).processes.len(),
    ensures
        m.orphaned(pid).processes[i].parent != Some(pid),
{
    let guardian = m.guardian(pid);
    let f = |p: ProcessModel| p.orphaned(pid, guardian);
    let moved = TableModel { processes: m.processes.map_values(f), ..m };
    lemma_mapped(m, f, pid);
    match guardian {
        Some(init) => {
            lemma_mapped(m, f, init);
            lemma_first_where(m.processes, has_pid(init), 0);
        },
        None => {},
    }
    assert(m.orphaned(pid).processes.len() == moved.processes.len());
    assert(moved.processes[i] == f(m.processes[i]));
}

/// Processes that a signal is for.
#[derive(Copy, Clone, Debug, PartialEq, Eq, Structural)]
pub enum Selection {
    /// One process.
    Process(u64),
    /// A process group.
    Group(u64),
    /// All but the first process.
    AllButInit,
}

impl Selection {
    /// Whether a process is selected; exited ones never are.
    pub open spec fn selects(self, p: ProcessModel) -> bool {
        !p.exited && match self {
            Selection::Process(pid) => p.pid == pid,
            Selection::Group(group) => p.group == group,
            Selection::AllButInit => p.pid != 1,
        }
    }

    /// The selected processes.
    pub open spec fn predicate(self) -> spec_fn(ProcessModel) -> bool {
        |p: ProcessModel| self.selects(p)
    }

    fn takes(&self, p: &Process) -> (selected: bool)
        ensures
            selected == self.selects(p@),
    {
        if p.is_exited() {
            return false;
        }
        match self {
            Selection::Process(pid) => p.pid() as u64 == *pid,
            Selection::Group(group) => p.process_group() as u64 == *group,
            Selection::AllButInit => p.pid() != 1,
        }
    }
}

/// The processes that a kill selector stands for.
pub open spec fn kill_selection(selector: i64, own_group: usize) -> Selection {
    if selector > 0 {
        Selection::Process(selector as u64)
    } else if selector == 0 {
        Selection::Group(own_group as u64)
    } else if selector == -1 {
        Selection::AllButInit
    } else {
        Selection::Group((-selector) as u64)
    }
}

/// What sending a signal to several processes leads to.
#[verifier::ext_equal]
pub struct Sending {
    /// The processes after it.
    pub processes: Seq<ProcessModel>,
    /// The waits after it.
    pub groups: Seq<WaitGroup>,
    /// Threads to wake.
    pub woken: Seq<WakeTarget>,
    /// Stopped threads to resume.
    pub resumed: Seq<WakeTarget>,
}

/// What sending `info` to the selected ones of `processes` leads to.
pub open spec fn sent(
    processes: Seq<ProcessModel>,
    groups: Seq<WaitGroup>,
    selection: Selection,
    info: SignalInfo,
) -> Sending
    decreases processes.len(),
{
    if processes.len() == 0 {
        Sending { processes, groups, woken: Seq::empty(), resumed: Seq::empty() }
    } else {
        let before = sent(processes.drop_last(), groups, selection, info);
        let p = processes.last();
        if !selection.selects(p) {
            Sending { processes: before.processes.push(p), ..before }
        } else {
            let accepted = p.signals.accepted(info);
            Sending {
                processes: before.processes.push(p.signaled(info)),
                groups: if accepted {
                    all_claimed(p.signal_waiters, before.groups)
                } else {
                    before.groups
                },
                woken: if accepted {
                    before.woken + all_targets(p.signal_waiters, before.groups)
                } else {
                    before.woken
                },
                resumed: if (info.signal == SIGCONT || info.signal == SIGKILL)
                    && p.signals.stopped.is_some() {
                    before.resumed.push(p.signals.stopped->0)
                } else {
                    before.resumed
                },
            }
        }
    }
}

proof fn lemma_sent(
    processes: Seq<ProcessModel>,
    groups: Seq<WaitGroup>,
    selection: Selection,
    info: SignalInfo,
)
    requires
        forall|i: int| 0 <= i < processes.len() ==> (#[trigger] processes[i]).known(groups),
    ensures
        ({
            let after = sent(processes, groups, selection, info);
            &&& after.processes.len() == processes.len()
            &&& after.groups.len() == groups.len()
            &&& forall|i: int|
                0 <= i < processes.len() ==> #[trigger] after.processes[i]
                    == if selection.selects(processes[i]) {
                    processes[i].signaled(info)
                } else {
                    processes[i]
                }
        }),
    decreases processes.len(),
{
    if processes.len() > 0 {
        lemma_sent(processes.drop_last(), groups, selection, info);
        let before = sent(processes.drop_last(), groups, selection, info);
        assert(processes.last() == processes[processes.len() - 1]);
        assert(processes[processes.len() - 1].known(groups));
        lemma_all_claimed(processes.last().signal_waiters, before.groups);
    }
}

/// Whom sending a signal wakes.
pub struct SendActions {
    /// Threads to wake.
    pub woken: Vec<WakeTarget>,
    /// Stopped threads to resume.
    pub resumed: Vec<WakeTarget>,
}

impl ProcessTable {
    fn any_selected(&self, selection: &Selection) -> (found: bool)
        ensures
            found == any_where(self@.processes, selection.predicate()),
    {
        let ghost views = self@.processes;
        let mut at: usize = 0;
        while at < self.processes.len()
            invariant
                views == self@.processes,
                views.len() == self.processes@.len(),
                at <= views.len(),
                first_where(views, selection.predicate(), 0) == first_where(
                    views,
                    selection.predicate(),
                    at as int,
                ),
            decreases views.len() - at,
        {
            let p = &self.processes[at];
            assert(p@ == views[at as int]);
            if selection.takes(p) {
                return true;
            }
            at = at + 1;
        }
        false
    }

    fn send_to(&mut self, selection: &Selection, info: SignalInfo, groups: &mut WaitGroups) -> (actions:
        SendActions)
        requires
            old(self).wf(),
            is_signal(info.signal),
            old(self)@.known(old(groups)@),
        ensures
            final(self).wf(),
            ({
                let after = sent(old(self)@.processes, old(groups)@, *selection, info);
                &&& final(self)@ == (TableModel { processes: after.processes, ..old(self)@ })
                &&& final(groups)@ == after.groups
                &&& actions.woken@ == after.woken
                &&& actions.resumed@ == after.resumed
            }),
    {
        let mut woken: Vec<WakeTarget> = Vec::new();
        let mut resumed: Vec<WakeTarget> = Vec::new();
        let ghost m = self@;
        let ghost before = groups@;
        let mut at: usize = 0;
        while at < self.processes.len()
            invariant
                m == old(self)@,
                m.ok(),
                before == old(groups)@,
                m.known(before),
                is_signal(info.signal),
                self.processes@.len() == m.processes.len(),
                at <= m.processes.len(),
                self.next_pid == m.next_pid,
                self.init == m.init,
                self.leftover == old(self).leftover,
                process_views(self.leftover@) == m.leftover,
                forall|i: int| 0 <= i < self.leftover@.len() ==> (#[trigger] self.leftover@[i]).wf(),
                groups@.len() == before.len(),
                groups@ == sent(m.processes.take(at as int), before, *selection, info).groups,
                woken@ == sent(m.processes.take(at as int), before, *selection, info).woken,
                resumed@ == sent(m.processes.take(at as int), before, *selection, info).resumed,
                forall|i: int|
                    0 <= i < m.processes.len() ==> (#[trigger] self.processes@[i]).wf()
                        && self.processes@[i]@ == if i < at && selection.selects(m.processes[i]) {
                        m.processes[i].signaled(info)
                    } else {
                        m.processes[i]
                    },
            decreases m.processes.len() - at,
        {
            proof {
                let longer = m.processes.take(at + 1);
                assert(longer.drop_last() =~= m.processes.take(at as int));
                assert(longer.last() == m.processes[at as int]);
                assert(m.processes[at as int].known(before));
                lemma_all_claimed(m.processes[at as int].signal_waiters, groups@);
            }
            if selection.takes(&self.processes[at]) {
                match self.processes[at].send(info, groups, &mut woken) {
                    Some(target) => {
                        resumed.push(target);
                    },
                    None => {},
                }
            }
            at = at + 1;
        }
        proof {
            assert(m.processes.take(at as int) =~= m.processes);
            lemma_sent(m.processes, before, *selection, info);
            let after = sent(m.processes, before, *selection, info);
            assert(self@.processes =~= after.processes);
            assert forall|i: int| 0 <= i < m.processes.len() implies (
            #[trigger] self@.processes[i]).pid == m.processes[i].pid by {
                assert(self@.processes[i] == self.processes@[i]@);
            }
        }
        SendActions { woken, resumed }
    }

    /// Sends a signal to the processes that `selector` stands for; signal zero
    /// only asks whether there are any.
    pub fn kill(&mut self, current: usize, selector: i64, signal: i32, groups: &mut WaitGroups) -> (result:
        Result<SendActions, Error>)
        requires
            old(self).wf(),
            old(self)@.known(old(groups)@),
        ensures
            final(self).wf(),
            ({
                let m = old(self)@;
                let selection = kill_selection(selector, m.own(current).group);
                let info = SignalInfo {
                    signal: signal as u8,
                    code: SI_USER,
                    sender_pid: current as u32,
                    sender_uid: 0,
                    synchronous: false,
                };
                let after = sent(m.processes, old(groups)@, selection, info);
                if signal < 0 || signal > SIGNAL_MAX || !m.owned(current) {
                    &&& result == Err::<SendActions, Error>(Error::InvalidArgument)
                    &&& final(self)@ == m
                    &&& final(groups)@ == old(groups)@
                } else if !any_where(m.processes, selection.predicate()) {
                    &&& result == Err::<SendActions, Error>(Error::NoSuchProcess)
                    &&& final(self)@ == m
                    &&& final(groups)@ == old(groups)@
                } else if signal == 0 {
                    &&& result matches Ok(actions) && actions.woken@.len() == 0
                        && actions.resumed@.len() == 0
                    &&& final(self)@ == m
                    &&& final(groups)@ == old(groups)@
                } else {
                    &&& final(self)@ == (TableModel { processes: after.processes, ..m })
                    &&& final(groups)@ == after.groups
                    &&& result matches Ok(actions) && actions.woken@ == after.woken
                        && actions.resumed@ == after.resumed
                }
            }),
            result.is_err() || signal == 0 ==> final(self)@ == old(self)@ && final(groups)@
                == old(groups)@,
            result.is_ok() ==> 0 <= signal <= 64 && old(self)@.owned(current),
            final(self)@.next_pid == old(self)@.next_pid,
    {
        let number: Option<u8> = match validate_optional_signal(signal) {
            Ok(number) => number,
            Err(error) => {
                return Err(error);
            },
        };
        let group: usize = match self.find_own(current) {
            Some(process) => process.process_group(),
            None => {
                return Err(Error::InvalidArgument);
            },
        };
        let selection = if selector > 0 {
            Selection::Process(selector as u64)
        } else if selector == 0 {
            Selection::Group(group as u64)
        } else if selector == -1 {
            Selection::AllButInit
        } else if selector == i64::MIN {
            Selection::Group(0x8000_0000_0000_0000)
        } else {
            Selection::Group((-selector) as u64)
        };
        if !self.any_selected(&selection) {
            return Err(Error::NoSuchProcess);
        }
        match number {
            None => Ok(SendActions { woken: Vec::new(), resumed: Vec::new() }),
            Some(signal) => Ok(
                self.send_to(
                    &selection,
                    SignalInfo {
                        signal,
                        code: SI_USER,
                        sender_pid: #[verifier::truncate] (current as u32),
                        sender_uid: 0,
                        synchronous: false,
                    },
                    groups,
                ),
            ),
        }
    }

    /// Sends a signal of the kernel to every live member of a process group.
    pub fn send_kernel_process_group(&mut self, group: usize, signal: u8, groups: &mut WaitGroups) -> (actions:
        SendActions)
        requires
            old(self).wf(),
            old(self)@.known(old(groups)@),
        ensures
            final(self).wf(),
            if group == 0 || !is_signal(signal) {
                &&& final(self)@ == old(self)@
                &&& final(groups)@ == old(groups)@
                &&& actions.woken@.len() == 0
                &&& actions.resumed@.len() == 0
            } else {
                let after = sent(
                    old(self)@.processes,
                    old(groups)@,
                    Selection::Group(group as u64),
                    kernel_info(signal),
                );
                &&& final(self)@ == (TableModel { processes: after.processes, ..old(self)@ })
                &&& final(groups)@ == after.groups
                &&& actions.woken@ == after.woken
                &&& actions.resumed@ == after.resumed
            },
    {
        if group == 0 || signal == 0 || signal as usize > SIGNAL_MAX {
            return SendActions { woken: Vec::new(), resumed: Vec::new() };
        }
        self.send_to(
            &Selection::Group(group as u64),
            SignalInfo {
                signal,
                code: SI_KERNEL,
                sender_pid: 0,
                sender_uid: 0,
                synchronous: false,
            },
            groups,
        )
    }

    /// Sends a signal of the kernel to one process.
    ///
    /// A synchronous one was caused by the instruction that the process
    /// executes.
    pub fn send_kernel(&mut self, pid: usize, signal: u8, synchronous: bool, groups: &mut WaitGroups) -> (actions:
        SendActions)
        requires
            old(self).wf(),
            is_signal(signal),
            old(self)@.known(old(groups)@),
        ensures
            final(self).wf(),
            !old(self)@.has(pid) ==> final(self)@ == old(self)@ && final(groups)@ == old(groups)@
                && actions.woken@.len() == 0 && actions.resumed@.len() == 0,
            old(self)@.has(pid) ==> {
                let info = SignalInfo { synchronous, ..kernel_info(signal) };
                let p = old(self)@.process(pid);
                &&& final(self)@ == old(self)@.with(pid, p.signaled(info))
                &&& final(groups)@ == if p.signals.accepted(info) {
                    all_claimed(p.signal_waiters, old(groups)@)
                } else {
                    old(groups)@
                }
                &&& actions.woken@ == if p.signals.accepted(info) {
                    all_targets(p.signal_waiters, old(groups)@)
                } else {
                    Seq::empty()
                }
                &&& actions.resumed@ == if signal == SIGCONT || signal == SIGKILL {
                    match p.signals.stopped {
                        Some(target) => seq![target],
                        None => Seq::empty(),
                    }
                } else {
                    Seq::empty()
                }
            },
    {
        let mut woken: Vec<WakeTarget> = Vec::new();
        let mut resumed: Vec<WakeTarget> = Vec::new();
        proof {
            lemma_first_where(self@.processes, has_pid(pid), 0);
            if self@.has(pid) {
                assert(self@.process(pid).known(groups@));
            }
        }
        if let Some(process) = self.find_mut(pid) {
            let info = SignalInfo {
                signal,
                code: SI_KERNEL,
                sender_pid: 0,
                sender_uid: 0,
                synchronous,
            };
            match process.send(info, groups, &mut woken) {
                Some(target) => {
                    resumed.push(target);
                },
                None => {},
            }
        }
        assert(woken@ =~= Seq::<WakeTarget>::empty() + woken@);
        SendActions { woken, resumed }
    }

    /// Returns whether a live process group belongs to a session.
    pub fn process_group_in_session(&self, group: usize, session: usize) -> (found: bool)
        ensures
            found == any_where(
                self@.processes,
                |p: ProcessModel| !p.exited && p.group == group && p.session == session,
            ),
    {
        let ghost views = self@.processes;
        let ghost wanted = |p: ProcessModel| !p.exited && p.group == group && p.session == session;
        let mut at: usize = 0;
        while at < self.processes.len()
            invariant
                views == self@.processes,
                views.len() == self.processes@.len(),
                wanted == (|p: ProcessModel|
                    !p.exited && p.group == group && p.session == session),
                at <= views.len(),
                first_where(views, wanted, 0) == first_where(views, wanted, at as int),
            decreases views.len() - at,
        {
            let p = &self.processes[at];
            assert(p@ == views[at as int]);
            if !p.is_exited() && p.process_group() == group && p.session() == session {
                return true;
            }
            at = at + 1;
        }
        false
    }

    /// Returns the group of a process; number zero stands for the current one.
    pub fn get_process_group(&self, current: Option<usize>, pid: usize) -> (group: Result<
        usize,
        Error,
    >)
        requires
            self.wf(),
        ensures
            group == match self@.chosen(current, pid) {
                Ok(p) => Ok::<usize, Error>(p.group),
                Err(error) => Err(error),
            },
    {
        match self.choose_process(current, pid) {
            Ok(process) => Ok(process.process_group()),
            Err(error) => Err(error),
        }
    }

    /// Returns the session of a process; number zero stands for the current
    /// one.
    pub fn get_session(&self, current: Option<usize>, pid: usize) -> (session: Result<usize, Error>)
        requires
            self.wf(),
        ensures
            session == match self@.chosen(current, pid) {
                Ok(p) => Ok::<usize, Error>(p.session),
                Err(error) => Err(error),
            },
    {
        match self.choose_process(current, pid) {
            Ok(process) => Ok(process.session()),
            Err(error) => Err(error),
        }
    }

    fn choose_process(&self, current: Option<usize>, pid: usize) -> (process: Result<
        &Process,
        Error,
    >)
        requires
            self.wf(),
        ensures
            match (process, self@.chosen(current, pid)) {
                (Ok(p), Ok(expected)) => p.wf() && p@ == expected,
                (Err(e), Err(expected)) => e == expected,
                _ => false,
            },
    {
        if pid == 0 {
            match current {
                Some(own) => match self.find_own(own) {
                    Some(process) => Ok(process),
                    None => Err(Error::InvalidArgument),
                },
                None => Err(Error::InvalidArgument),
            }
        } else {
            match self.find(pid) {
                Some(process) => Ok(process),
                None => Err(Error::NoSuchProcess),
            }
        }
    }

    /// Moves the current process or one of its children to a group; group zero
    /// stands for the process's own.
    pub fn set_process_group(&mut self, current: usize, pid: usize, group: usize) -> (result: Result<
        (),
        Error,
    >)
        requires
            old(self).wf(),
        ensures
            final(self).wf(),
            ({
                let m = old(self)@;
                let me = m.own(current);
                let target = if pid == 0 || pid == current {
                    current
                } else {
                    pid
                };
                if !m.owned(current) {
                    &&& result == Err::<(), Error>(Error::InvalidArgument)
                    &&& final(self)@ == m
                } else if target != current && (!m.has(target) || m.process(target).parent != Some(
                    current,
                )) {
                    &&& result == Err::<(), Error>(Error::NoSuchProcess)
                    &&& final(self)@ == m
                } else if m.own(target).session != me.session {
                    &&& result == Err::<(), Error>(Error::PermissionDenied)
                    &&& final(self)@ == m
                } else {
                    &&& result.is_ok()
                    &&& final(self)@ == m.with_own(
                        target,
                        ProcessModel {
                            group: if group == 0 {
                                target
                            } else {
                                group
                            },
                            ..m.own(target)
                        },
                    )
                }
            }),
            result.is_err() ==> final(self)@ == old(self)@,
    {
        let session: usize = match self.find_own(current) {
            Some(process) => process.session(),
            None => {
                return Err(Error::InvalidArgument);
            },
        };
        let target: usize = if pid == 0 || pid == current {
            current
        } else {
            pid
        };
        let chosen = if target == current {
            self.find_own(target)
        } else {
            self.find(target)
        };
        match chosen {
            None => {
                return Err(Error::NoSuchProcess);
            },
            Some(process) => {
                if target != current && process.parent() != Some(current) {
                    return Err(Error::NoSuchProcess);
                }
                if process.session() != session {
                    return Err(Error::PermissionDenied);
                }
            },
        }
        let moved: usize = if group == 0 {
            target
        } else {
            group
        };
        let ghost m = self@;
        match self.find_mut(target) {
            Some(process) => {
                process.set_process_group(moved);
            },
            None => {
                let place: usize = place_in(&self.leftover, target);
                assert(self.leftover@[place as int].wf());
                assert(m.leftover[place as int].exited && m.leftover[place as int].threads > 0);
                self.leftover[place].set_process_group(moved);
                assert(self@.leftover =~= m.leftover.update(
                    place as int,
                    ProcessModel { group: moved, ..m.own(target) },
                ));
            },
        }
        Ok(())
    }

    /// Returns the number of a process's parent, or zero.
    pub fn current_parent_pid(&self, current: Option<usize>) -> (parent: usize)
        requires
            self.wf(),
        ensures
            parent == match current {
                Some(pid) => if self@.owned(pid) {
                    match self@.own(pid).parent {
                        Some(parent) => if self@.owned(parent) {
                            parent
                        } else {
                            0
                        },
                        None => 0,
                    }
                } else {
                    0
                },
                None => 0,
            },
    {
        if let Some(pid) = current {
            if let Some(process) = self.find_own(pid) {
                if let Some(parent) = process.parent() {
                    if self.find_own(parent).is_some() {
                        return parent;
                    }
                }
            }
        }
        0
    }
}

impl TableModel {
    /// The process that a syscall names: zero stands for the current one.
    pub open spec fn chosen(self, current: Option<usize>, pid: usize) -> Result<
        ProcessModel,
        Error,
    > {
        if pid == 0 {
            match current {
                Some(pid) => if self.owned(pid) {
                    Ok(self.own(pid))
                } else {
                    Err(Error::InvalidArgument)
                },
                None => Err(Error::InvalidArgument),
            }
        } else if self.has(pid) {
            Ok(self.process(pid))
        } else {
            Err(Error::NoSuchProcess)
        }
    }
}

/// A signal to a group reaches every live member and nobody else.
pub proof fn law_group_signal_reaches_members(
    m: TableModel,
    groups: Seq<WaitGroup>,
    group: u64,
    info: SignalInfo,
    i: int,
)
    requires
        m.ok(),
        m.known(groups),
        0 <= i < m.processes.len(),
    ensures
        sent(m.processes, groups, Selection::Group(group), info).processes[i] == if
            !m.processes[i].exited && m.processes[i].group == group {
            m.processes[i].signaled(info)
        } else {
            m.processes[i]
        },
{
    lemma_sent(m.processes, groups, Selection::Group(group), info);
}

/// Whose priority is changed or asked for.
#[derive(Copy, Clone, Debug, PartialEq, Eq, Structural)]
pub enum PriorityWhich {
    /// A single process.
    Process,
    /// Every process of a group.
    ProcessGroup,
    /// Every process of a user.
    User,
}

/// The live processes that `which` and `who` stand for; `who` zero stands for
/// the caller's own.
pub open spec fn prioritized(which: PriorityWhich, who: u64, me: ProcessModel) -> spec_fn(
    ProcessModel,
) -> bool {
    |p: ProcessModel|
        !p.exited && match which {
            PriorityWhich::Process => p.pid == if who == 0 {
                me.pid as u64
            } else {
                who
            },
            PriorityWhich::ProcessGroup => p.group == if who == 0 {
                me.group as u64
            } else {
                who
            },
            PriorityWhich::User => true,
        }
}

/// Why no process is selected, if so.
pub open spec fn priority_error(
    m: TableModel,
    current: usize,
    which: PriorityWhich,
    who: u64,
) -> Option<Error> {
    if !m.owned(current) {
        Some(Error::InvalidArgument)
    } else if which == PriorityWhich::User && who != 0 {
        Some(Error::NoSuchProcess)
    } else if !any_where(m.processes, prioritized(which, who, m.own(current))) {
        Some(Error::NoSuchProcess)
    } else {
        None
    }
}

/// The scheduler after the selected processes got a nice value.
pub open spec fn sched_niced(
    m: SchedModel,
    processes: Seq<ProcessModel>,
    wanted: spec_fn(ProcessModel) -> bool,
    nice: i8,
) -> SchedModel
    decreases processes.len(),
{
    if processes.len() == 0 {
        m
    } else {
        let before = sched_niced(m, processes.drop_last(), wanted, nice);
        if wanted(processes.last()) {
            before.all_niced(before.registry, processes.last().pid, clamped_nice(nice))
        } else {
            before
        }
    }
}

/// The nice value of a process: that of its threads, or its own before they
/// start.
pub open spec fn effective_nice(m: SchedModel, p: ProcessModel) -> i8 {
    match first_nice(m, p.pid, 0) {
        Some(nice) => nice,
        None => p.nice,
    }
}

/// The most favourable nice value of the selected processes.
pub open spec fn best_nice(
    m: SchedModel,
    processes: Seq<ProcessModel>,
    wanted: spec_fn(ProcessModel) -> bool,
) -> i8
    decreases processes.len(),
{
    if processes.len() == 0 {
        NICE_MAX
    } else {
        let before = best_nice(m, processes.drop_last(), wanted);
        let nice = effective_nice(m, processes.last());
        if wanted(processes.last()) && nice < before {
            nice
        } else {
            before
        }
    }
}

impl ProcessTable {
    fn is_prioritized(
        &self,
        at: usize,
        which: PriorityWhich,
        who: u64,
        own_pid: usize,
        own_group: usize,
        Ghost(me): Ghost<ProcessModel>,
    ) -> (selected: bool)
        requires
            at < self.processes@.len(),
            me.pid == own_pid,
            me.group == own_group,
        ensures
            selected == prioritized(which, who, me)(self.processes@[at as int]@),
    {
        let p = &self.processes[at];
        if p.is_exited() {
            return false;
        }
        match which {
            PriorityWhich::Process => p.pid() as u64 == if who == 0 {
                own_pid as u64
            } else {
                who
            },
            PriorityWhich::ProcessGroup => p.process_group() as u64 == if who == 0 {
                own_group as u64
            } else {
                who
            },
            PriorityWhich::User => true,
        }
    }

    /// Collects the places of the live processes that `which` and `who` stand
    /// for.
    fn priority_targets(&self, current: usize, which: PriorityWhich, who: u64) -> (targets: Result<
        Vec<bool>,
        Error,
    >)
        requires
            self.wf(),
        ensures
            match targets {
                Ok(flags) => {
                    &&& priority_error(self@, current, which, who).is_none()
                    &&& flags@.len() == self@.processes.len()
                    &&& forall|i: int|
                        0 <= i < flags@.len() ==> #[trigger] flags@[i] == prioritized(
                            which,
                            who,
                            self@.own(current),
                        )(self@.processes[i])
                },
                Err(error) => priority_error(self@, current, which, who) == Some(error),
            },
    {
        let ghost views = self@.processes;
        let ghost me = self@.own(current);
        let ghost wanted = prioritized(which, who, me);
        let own_group: usize = match self.find_own(current) {
            Some(process) => process.process_group(),
            None => {
                return Err(Error::InvalidArgument);
            },
        };
        proof {
            lemma_first_where(views, has_pid(current), 0);
            lemma_first_where(self@.leftover, has_pid(current), 0);
        }
        if which == PriorityWhich::User && who != 0 {
            return Err(Error::NoSuchProcess);
        }
        let mut flags: Vec<bool> = Vec::new();
        let mut found = false;
        let mut at: usize = 0;
        while at < self.processes.len()
            invariant
                views == self@.processes,
                views.len() == self.processes@.len(),
                me.pid == current,
                me.group == own_group,
                wanted == prioritized(which, who, me),
                at <= views.len(),
                flags@.len() == at,
                forall|i: int| 0 <= i < at ==> #[trigger] flags@[i] == wanted(views[i]),
                !found ==> first_where(views, wanted, 0) == first_where(views, wanted, at as int),
                found ==> any_where(views, wanted),
            decreases views.len() - at,
        {
            let selected = self.is_prioritized(at, which, who, current, own_group, Ghost(me));
            assert(self.processes@[at as int]@ == views[at as int]);
            if selected {
                proof {
                    lemma_finds(views, wanted, at as int);
                }
                found = true;
            }
            flags.push(selected);
            at = at + 1;
        }
        if !found {
            return Err(Error::NoSuchProcess);
        }
        Ok(flags)
    }

    /// Gives every selected process and its threads a nice value.
    pub fn set_priority(
        &mut self,
        current: usize,
        which: PriorityWhich,
        who: u64,
        nice: i8,
        scheduler: &mut Scheduler,
    ) -> (result: Result<(), Error>)
        requires
            old(self).wf(),
            old(scheduler).wf(),
            old(scheduler)@.settled(),
        ensures
            final(self).wf(),
            final(scheduler).wf(),
            final(scheduler)@.settled(),
            match priority_error(old(self)@, current, which, who) {
                Some(error) => {
                    &&& result == Err::<(), Error>(error)
                    &&& final(self)@ == old(self)@
                    &&& final(scheduler)@ == old(scheduler)@
                },
                None => {
                    let wanted = prioritized(which, who, old(self)@.own(current));
                    &&& result.is_ok()
                    &&& final(self)@ == (TableModel {
                        processes: old(self)@.processes.map_values(
                            |p: ProcessModel|
                                if wanted(p) {
                                    ProcessModel { nice: clamped_nice(nice), ..p }
                                } else {
                                    p
                                },
                        ),
                        ..old(self)@
                    })
                    &&& final(scheduler)@ == sched_niced(
                        old(scheduler)@,
                        old(self)@.processes,
                        wanted,
                        clamped_nice(nice),
                    )
                },
            },
    {
        let value: i8 = if nice < NICE_MIN {
            NICE_MIN
        } else if nice > NICE_MAX {
            NICE_MAX
        } else {
            nice
        };
        let flags = match self.priority_targets(current, which, who) {
            Ok(flags) => flags,
            Err(error) => {
                return Err(error);
            },
        };
        let ghost m = self@;
        let ghost wanted = prioritized(which, who, m.own(current));
        let ghost f = |p: ProcessModel|
            if wanted(p) {
                ProcessModel { nice: clamped_nice(nice), ..p }
            } else {
                p
            };
        let ghost start = scheduler@;
        let mut at: usize = 0;
        while at < self.processes.len()
            invariant
                m == old(self)@,
                m.ok(),
                start == old(scheduler)@,
                value == clamped_nice(nice),
                nice_in_range(value),
                wanted == prioritized(which, who, m.own(current)),
                f == (|p: ProcessModel|
                    if wanted(p) {
                        ProcessModel { nice: clamped_nice(nice), ..p }
                    } else {
                        p
                    }),
                scheduler.wf(),
                scheduler@.settled(),
                scheduler@ == sched_niced(start, m.processes.take(at as int), wanted, value),
                self.processes@.len() == m.processes.len(),
                flags@.len() == m.processes.len(),
                forall|i: int|
                    0 <= i < flags@.len() ==> #[trigger] flags@[i] == wanted(m.processes[i]),
                at <= m.processes.len(),
                self.next_pid == m.next_pid,
                self.init == m.init,
                self.leftover == old(self).leftover,
                process_views(self.leftover@) == m.leftover,
                forall|i: int| 0 <= i < self.leftover@.len() ==> (#[trigger] self.leftover@[i]).wf(),
                forall|i: int|
                    0 <= i < m.processes.len() ==> (#[trigger] self.processes@[i]).wf()
                        && self.processes@[i]@ == if i < at {
                        f(m.processes[i])
                    } else {
                        m.processes[i]
                    },
            decreases m.processes.len() - at,
        {
            proof {
                let longer = m.processes.take(at + 1);
                assert(longer.drop_last() =~= m.processes.take(at as int));
                assert(longer.last() == m.processes[at as int]);
            }
            if flags[at] {
                self.processes[at].set_nice(value);
                let _ = scheduler.set_process_nice(self.processes[at].pid(), value);
            }
            at = at + 1;
        }
        proof {
            assert(m.processes.take(at as int) =~= m.processes);
            assert(self@.processes =~= m.processes.map_values(f));
            lemma_mapped(m, f, 0);
        }
        Ok(())
    }

    /// Returns the most favourable nice value of the selected processes.
    pub fn get_priority(
        &self,
        current: usize,
        which: PriorityWhich,
        who: u64,
        scheduler: &Scheduler,
    ) -> (nice: Result<i8, Error>)
        requires
            self.wf(),
            scheduler.wf(),
        ensures
            nice == match priority_error(self@, current, which, who) {
                Some(error) => Err::<i8, Error>(error),
                None => Ok(
                    best_nice(
                        scheduler@,
                        self@.processes,
                        prioritized(which, who, self@.own(current)),
                    ),
                ),
            },
    {
        let flags = match self.priority_targets(current, which, who) {
            Ok(flags) => flags,
            Err(error) => {
                return Err(error);
            },
        };
        let ghost views = self@.processes;
        let ghost wanted = prioritized(which, who, self@.own(current));
        let mut best: i8 = NICE_MAX;
        let mut at: usize = 0;
        while at < self.processes.len()
            invariant
                views == self@.processes,
                views.len() == self.processes@.len(),
                scheduler.wf(),
                flags@.len() == views.len(),
                forall|i: int| 0 <= i < flags@.len() ==> #[trigger] flags@[i] == wanted(views[i]),
                at <= views.len(),
                best == best_nice(scheduler@, views.take(at as int), wanted),
            decreases views.len() - at,
        {
            proof {
                let longer = views.take(at + 1);
                assert(longer.drop_last() =~= views.take(at as int));
                assert(longer.last() == views[at as int]);
                assert(self.processes@[at as int]@ == views[at as int]);
            }
            if flags[at] {
                let nice: i8 = match scheduler.process_nice(self.processes[at].pid()) {
                    Some(nice) => nice,
                    None => self.processes[at].nice(),
                };
                if nice < best {
                    best = nice;
                }
            }
            at = at + 1;
        }
        assert(views.take(at as int) =~= views);
        Ok(best)
    }
}

/// The most favourable nice value is at most that of every selected process.
pub proof fn law_best_nice_is_minimal(
    m: SchedModel,
    processes: Seq<ProcessModel>,
    wanted: spec_fn(ProcessModel) -> bool,
    i: int,
)
    requires
        0 <= i < processes.len(),
        wanted(processes[i]),
    ensures
        best_nice(m, processes, wanted) <= effective_nice(m, processes[i]),
    decreases processes.len(),
{
    if i < processes.len() - 1 {
        assert(processes.drop_last()[i] == processes[i]);
        law_best_nice_is_minimal(m, processes.drop_last(), wanted, i);
    }
}

/// A signal is for one process by its number, for the sender's group on zero,
/// for everyone but the first process on minus one and for the group of that
/// number on any other negative number, and never for exited processes.
pub proof fn law_kill_selects(selector: i64, own_group: usize, p: ProcessModel)
    requires
        selector > i64::MIN,
    ensures
        ({
            let selected = kill_selection(selector, own_group).selects(p);
            &&& p.exited ==> !selected
            &&& !p.exited && selector > 0 ==> (selected <==> p.pid == selector)
            &&& !p.exited && selector == 0 ==> (selected <==> p.group == own_group)
            &&& !p.exited && selector == -1 ==> (selected <==> p.pid != 1)
            &&& !p.exited && selector < -1 ==> (selected <==> p.group + selector == 0)
            &&& kill_selection(selector, own_group).predicate()(p) == selected
        }),
{
}

/// A signal reaches exactly the processes that it is for, each once.
pub proof fn law_signal_reaches_selected(
    m: TableModel,
    groups: Seq<WaitGroup>,
    selection: Selection,
    info: SignalInfo,
    i: int,
)
    requires
        m.known(groups),
        0 <= i < m.processes.len(),
    ensures
        ({
            let after = sent(m.processes, groups, selection, info).processes;
            &&& after.len() == m.processes.len()
            &&& selection.selects(m.processes[i]) ==> after[i].signals
                == m.processes[i].signals.enqueued(info)
            &&& !selection.selects(m.processes[i]) ==> after[i] == m.processes[i]
            &&& after[i].pid == m.processes[i].pid
        }),
{
    lemma_sent(m.processes, groups, selection, info);
}

/// A stopped process that a continue or kill signal is for is resumed; nothing
/// is resumed by any other signal, nor in any other process.
pub proof fn law_stopped_process_is_resumed(
    processes: Seq<ProcessModel>,
    groups: Seq<WaitGroup>,
    selection: Selection,
    info: SignalInfo,
    target: WakeTarget,
)
    ensures
        sent(processes, groups, selection, info).resumed.contains(target) <==> (info.signal == 18
            || info.signal == 9) && exists|i: int|
            0 <= i < processes.len() && selection.selects(#[trigger] processes[i])
                && processes[i].signals.stopped == Some(target),
    decreases processes.len(),
{
    let resumed = sent(processes, groups, selection, info).resumed;
    if processes.len() > 0 {
        let rest = processes.drop_last();
        let last = processes.len() - 1;
        law_stopped_process_is_resumed(rest, groups, selection, info, target);
        let before = sent(rest, groups, selection, info).resumed;
        assert(processes[last] == processes.last());
        if resumed.contains(target) {
            let j = choose|j: int| 0 <= j < resumed.len() && resumed[j] == target;
            if j < before.len() {
                assert(before[j] == target);
                let i = choose|i: int|
                    0 <= i < rest.len() && selection.selects(#[trigger] rest[i])
                        && rest[i].signals.stopped == Some(target);
                assert(processes[i] == rest[i]);
            } else {
                assert(processes[last].signals.stopped == Some(target));
            }
        }
        if before.contains(target) {
            let j = choose|j: int| 0 <= j < before.len() && before[j] == target;
            assert(resumed[j] == target);
        }
        if (info.signal == 18 || info.signal == 9) && exists|i: int|
            0 <= i < processes.len() && selection.selects(#[trigger] processes[i])
                && processes[i].signals.stopped == Some(target) {
            let i = choose|i: int|
                0 <= i < processes.len() && selection.selects(#[trigger] processes[i])
                    && processes[i].signals.stopped == Some(target);
            if i < last {
                assert(rest[i] == processes[i]);
            } else {
                assert(resumed[resumed.len() - 1] == target);
            }
        }
    }
}

/// A wait ends with an exited child that it is for, if there is one: with the
/// oldest, whose number and status it gives. Otherwise, while there are
/// children that it is for, it gives nothing or sleeps, as asked; without such
/// children there is nothing to wait for.
pub proof fn law_wait_finds_exited_child(
    m: TableModel,
    parent: usize,
    selector: i64,
    nohang: bool,
    i: int,
)
    requires
        m.ok(),
        m.has(parent),
        selector > i64::MIN,
        0 <= i < m.processes.len(),
        m.processes[i].parent == Some(parent),
        m.processes[i].waited_by(selector, m.process(parent).group),
    ensures
        waited(m, parent, selector, nohang).is_ok(),
        m.processes[i].exited ==> {
            &&& waited(m, parent, selector, nohang)->Ok_0.1 is Reaped
            &&& waited(m, parent, selector, nohang)->Ok_0.1->Reaped_0 <= m.processes[i].pid
        },
{
    let me = m.process(parent);
    lemma_first_where(m.processes, has_pid(parent), 0);
    assert(me.pid == parent);
    lemma_finds(m.processes, awaited(me, selector), i);
    if m.processes[i].exited {
        lemma_finds(m.processes, reapable(me, selector), i);
        let at = first_where(m.processes, reapable(me, selector), 0);
        lemma_first_where(m.processes, reapable(me, selector), 0);
        if at < i {
            assert(m.processes[at].pid < m.processes[i].pid);
        }
    }
}

/// Without an exited child that it is for, a wait changes nothing but that the
/// parent may sleep until it is told, and says so.
pub proof fn law_wait_without_exited_child(
    m: TableModel,
    parent: usize,
    selector: i64,
    nohang: bool,
)
    requires
        m.ok(),
        m.has(parent),
        selector > i64::MIN,
        forall|i: int|
            0 <= i < m.processes.len() && (#[trigger] m.processes[i]).parent == Some(parent)
                && m.processes[i].waited_by(selector, m.process(parent).group)
                ==> !m.processes[i].exited,
    ensures
        ({
            let children = exists|i: int|
                0 <= i < m.processes.len() && (#[trigger] m.processes[i]).parent == Some(parent)
                    && m.processes[i].waited_by(selector, m.process(parent).group);
            let result = waited(m, parent, selector, nohang);
            &&& !children ==> result == Err::<(TableModel, WaitOutcome), Error>(Error::NoChild)
            &&& children && nohang ==> result == Ok::<(TableModel, WaitOutcome), Error>(
                (m, WaitOutcome::Nothing),
            )
            &&& children && !nohang ==> (result matches Ok((after, WaitOutcome::Sleep))
                && !after.process(parent).child_ready && after.processes.len()
                == m.processes.len())
        }),
{
    let me = m.process(parent);
    lemma_first_where(m.processes, has_pid(parent), 0);
    lemma_first_where(m.processes, awaited(me, selector), 0);
    lemma_first_where(m.processes, reapable(me, selector), 0);
    let at = first_where(m.processes, reapable(me, selector), 0);
    if at < m.processes.len() {
        assert(m.processes[at].exited);
    }
    let children = exists|i: int|
        0 <= i < m.processes.len() && (#[trigger] m.processes[i]).parent == Some(parent)
            && m.processes[i].waited_by(selector, m.process(parent).group);
    if children {
        let i = choose|i: int|
            0 <= i < m.processes.len() && (#[trigger] m.processes[i]).parent == Some(parent)
                && m.processes[i].waited_by(selector, m.process(parent).group);
        lemma_finds(m.processes, awaited(me, selector), i);
    } else {
        let found = first_where(m.processes, awaited(me, selector), 0);
        if found < m.processes.len() {
            assert(m.processes[found].parent == Some(parent));
        }
    }
    lemma_with(m, parent, ProcessModel { child_ready: false, ..me }, parent);
}

/// Reaping a child takes it alone out of the table.
pub proof fn law_reaping_keeps_the_others(
    m: TableModel,
    parent: usize,
    selector: i64,
    nohang: bool,
    other: usize,
)
    requires
        m.ok(),
        m.has(other),
        waited(m, parent, selector, nohang).is_ok(),
        waited(m, parent, selector, nohang)->Ok_0.1 is Reaped,
        waited(m, parent, selector, nohang)->Ok_0.1->Reaped_0 != other,
    ensures
        ({
            let after = waited(m, parent, selector, nohang)->Ok_0.0;
            &&& after.has(other)
            &&& other != parent ==> after.process(other) == m.process(other)
            &&& other == parent ==> after.process(other) == (ProcessModel {
                child_ready: after.process(other).child_ready,
                ..m.process(other)
            })
            &&& after.processes.len() + 1 == m.processes.len()
        }),
{
    let me = m.process(parent);
    let at = first_where(m.processes, reapable(me, selector), 0);
    lemma_first_where(m.processes, reapable(me, selector), 0);
    lemma_first_where(m.processes, has_pid(parent), 0);
    let child = m.processes[at];
    let rest = m.reaped(at);
    lemma_removed(m, at, other);
    lemma_removed(m, at, parent);
    assert(rest.has(other) && rest.process(other) == m.process(other)) by {
        let plain = TableModel { processes: m.processes.remove(at), ..m };
        assert(plain.processes == rest.processes);
    }
    if child.pid != parent {
        assert(rest.has(parent) && rest.process(parent) == me) by {
            let plain = TableModel { processes: m.processes.remove(at), ..m };
            assert(plain.processes == rest.processes);
        }
        lemma_with(rest, parent, ProcessModel { child_ready: false, ..me }, other);
    }
    lemma_first_where(rest.processes, has_pid(parent), 0);
}

/// What an exit leaves of the process itself: it has exited with its status and
/// holds no files, and its number, parent and group can still be asked for.
pub proof fn law_exit_leaves_a_status(m: TableModel, pid: usize, status: i32)
    requires
        m.ok(),
        m.has(pid),
        m.process(pid).parent != Some(pid),
    ensures
        ({
            let after = m.finished(pid, status);
            let p = after.process(pid);
            &&& after.has(pid)
            &&& p.exited
            &&& p.status == status
            &&& p.files.len() == 0
            &&& p.pid == pid
            &&& p.parent == m.process(pid).parent
            &&& p.group == m.process(pid).group
            &&& p.session == m.process(pid).session
            &&& p.threads == m.process(pid).threads
        }),
{
    lemma_first_where(m.processes, has_pid(pid), 0);
    let one = m.detached(pid);
    let me = m.process(pid);
    if me.session == pid && me.tty.is_some() {
        let f = |p: ProcessModel| p.without_tty(me.session, me.tty->0);
        lemma_mapped(m, f, pid);
    }
    let guardian = one.guardian(pid);
    let g = |p: ProcessModel| p.orphaned(pid, guardian);
    lemma_mapped(one, g, pid);
    let moved = TableModel { processes: one.processes.map_values(g), ..one };
    if let Some(init) = guardian {
        lemma_mapped(one, g, init);
        lemma_first_where(moved.processes, has_pid(init), 0);
        lemma_with(moved, init, moved.process(init).notified(), pid);
    }
    let alone = one.orphaned(pid);
    lemma_first_where(alone.processes, has_pid(pid), 0);
    lemma_with(
        alone,
        pid,
        ProcessModel { files: Seq::empty(), status, exited: true, ..alone.process(pid) },
        pid,
    );
}

/// The parent of a process that exits is told: it gets the child signal, unless
/// it ignores it or has it already, and a wait of it ends.
pub proof fn law_parent_is_told(m: TableModel, pid: usize, parent: usize)
    requires
        m.ok(),
        m.has(pid),
        m.has(parent),
        m.process(pid).parent == Some(parent),
    ensures
        ({
            let p = m.process(parent);
            let after = m.parent_told(pid).process(parent);
            &&& after.child_ready
            &&& after.child_waiters.len() == 0
            &&& after.signals == p.signals.enqueued(
                SignalInfo {
                    signal: 17,
                    code: 128,
                    sender_pid: 0,
                    sender_uid: 0,
                    synchronous: false,
                },
            )
            &&& after.files == p.files && after.exited == p.exited && after.cwd == p.cwd
        }),
{
    lemma_first_where(m.processes, has_pid(parent), 0);
    let p = m.process(parent);
    lemma_with(m, parent, p.signaled(kernel_info(SIGCHLD)).notified(), parent);
}

/// The children of a process that exits go to the first process, or to nobody
/// where there is none; other processes keep their parents.
pub proof fn law_orphans_are_adopted(m: TableModel, pid: usize, child: usize)
    requires
        m.ok(),
        m.has(child),
    ensures
        ({
            let p = m.process(child);
            let after = m.orphaned(pid);
            &&& after.has(child)
            &&& p.parent != Some(pid) ==> after.process(child).parent == p.parent
            &&& p.parent == Some(pid) ==> after.process(child).parent == match m.init {
                Some(init) => if init != pid && m.has(init) {
                    Some(init)
                } else {
                    None
                },
                None => None,
            }
            &&& after.process(child).exited == p.exited && after.process(child).files == p.files
        }),
{
    let guardian = m.guardian(pid);
    let f = |p: ProcessModel| p.orphaned(pid, guardian);
    lemma_mapped(m, f, child);
    let moved = TableModel { processes: m.processes.map_values(f), ..m };
    lemma_first_where(m.processes, has_pid(child), 0);
    if let Some(init) = guardian {
        lemma_mapped(m, f, init);
        lemma_first_where(moved.processes, has_pid(init), 0);
        lemma_with(moved, init, moved.process(init).notified(), child);
    }
}

/// Adopting an exited child tells the first process that there is something to
/// wait for.
pub proof fn law_adopted_zombie_is_announced(m: TableModel, pid: usize, init: usize, i: int)
    requires
        m.ok(),
        m.init == Some(init),
        init != pid,
        m.has(init),
        0 <= i < m.processes.len(),
        m.processes[i].parent == Some(pid),
        m.processes[i].exited,
    ensures
        m.orphaned(pid).process(init).child_ready,
        m.orphaned(pid).process(init).child_waiters.len() == 0,
{
    lemma_finds(m.processes, zombie_of(pid), i);
    let guardian = m.guardian(pid);
    let f = |p: ProcessModel| p.orphaned(pid, guardian);
    lemma_mapped(m, f, init);
    let moved = TableModel { processes: m.processes.map_values(f), ..m };
    lemma_first_where(moved.processes, has_pid(init), 0);
    lemma_with(moved, init, moved.process(init).notified(), init);
}

/// When a session leader exits, its session loses the terminal, other sessions
/// and other terminals do not; any other process that exits leaves the terminal
/// alone.
pub proof fn law_session_gives_up_terminal(m: TableModel, pid: usize, i: int)
    requires
        m.ok(),
        m.has(pid),
        0 <= i < m.processes.len(),
    ensures
        ({
            let me = m.process(pid);
            let p = m.processes[i];
            let after = m.detached(pid).processes[i];
            &&& after.tty == if me.session == pid && p.session == pid && p.tty == me.tty {
                None
            } else {
                p.tty
            }
            &&& after == (ProcessModel { tty: after.tty, ..p })
            &&& m.detached(pid).processes.len() == m.processes.len()
        }),
{
}

/// A process stays in the table while it runs, while threads of it do or while
/// a parent can wait for it.
pub proof fn law_table_keeps_what_is_held(p: ProcessModel)
    ensures
        held()(p) <==> !(p.exited && p.threads == 0 && p.parent.is_none()),
{
}

/// A reaped process whose threads still run is known until the last of them is
/// gone.
pub proof fn law_leftover_counts_down(m: TableModel, pid: usize)
    requires
        m.ok(),
        !m.has(pid),
        m.owned(pid),
    ensures
        ({
            let at = place_of(m.leftover, pid);
            let threads = m.leftover[at].threads;
            &&& threads > 0
            &&& threads == 1 ==> m.left(pid).leftover == m.leftover.remove(at)
            &&& threads > 1 ==> m.left(pid).leftover[at].threads == threads - 1
                && m.left(pid).leftover.len() == m.leftover.len()
            &&& m.left(pid).processes == m.processes
        }),
{
    lemma_first_where(m.leftover, has_pid(pid), 0);
}

/// A nice value is set or asked for one process by its number, a group by its
/// number, or everyone; zero means the caller's own; exited processes do not
/// count.
pub proof fn law_priority_selects(which: PriorityWhich, who: u64, me: ProcessModel, p: ProcessModel)
    ensures
        ({
            let selected = prioritized(which, who, me)(p);
            &&& p.exited ==> !selected
            &&& !p.exited && which == PriorityWhich::Process ==> (selected <==> if who == 0 {
                p.pid == me.pid
            } else {
                p.pid == who
            })
            &&& !p.exited && which == PriorityWhich::ProcessGroup ==> (selected <==> if who == 0 {
                p.group == me.group
            } else {
                p.group == who
            })
            &&& !p.exited && which == PriorityWhich::User ==> selected
        }),
{
}

/// The nice value asked for is that of one of the selected processes, or the
/// highest one there is.
pub proof fn law_best_nice_is_attained(
    m: SchedModel,
    processes: Seq<ProcessModel>,
    wanted: spec_fn(ProcessModel) -> bool,
)
    ensures
        best_nice(m, processes, wanted) == 20 || exists|i: int|
            0 <= i < processes.len() && wanted(#[trigger] processes[i]) && effective_nice(
                m,
                processes[i],
            ) == best_nice(m, processes, wanted),
    decreases processes.len(),
{
    if processes.len() > 0 {
        let rest = processes.drop_last();
        law_best_nice_is_attained(m, rest, wanted);
        let last = processes.len() - 1;
        assert(processes[last] == processes.last());
        if best_nice(m, processes, wanted) == best_nice(m, rest, wanted) && best_nice(
            m,
            rest,
            wanted,
        ) != 20 {
            let i = choose|i: int|
                0 <= i < rest.len() && wanted(#[trigger] rest[i]) && effective_nice(m, rest[i])
                    == best_nice(m, rest, wanted);
            assert(processes[i] == rest[i]);
        }
    }
}

/// A process is named by its number, or by zero for the caller itself; a number
/// that no process has names none.
pub proof fn law_process_is_named(m: TableModel, current: usize, pid: usize)
    requires
        m.has(current),
    ensures
        m.chosen(Some(current), 0) == Ok::<ProcessModel, Error>(m.process(current)),
        pid != 0 && m.has(pid) ==> m.chosen(Some(current), pid) == Ok::<ProcessModel, Error>(
            m.process(pid),
        ),
        pid != 0 && !m.has(pid) ==> m.chosen(Some(current), pid) == Err::<ProcessModel, Error>(
            Error::NoSuchProcess,
        ),
        m.chosen(None, 0) == Err::<ProcessModel, Error>(Error::InvalidArgument),
{
}

} // verus!
