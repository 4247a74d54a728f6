//! Descriptor tables of processes.

use vstd::prelude::*;
use crate::fs;
use crate::fs::PollEvents;
use crate::lists::{any_where, first_where, lemma_finds, lemma_first_where};
use crate::proc::Error;

verus! {

/// Most descriptors that a process can have.
pub const MAX_FILES: usize = 1024;

/// What a descriptor stands for; each kind numbers its own objects.
#[derive(Copy, Clone, Debug, PartialEq, Eq, Structural)]
pub enum Descriptor {
    /// Open file.
    File(usize),
    /// End of an anonymous pipe.
    Pipe(usize),
    /// Pending-signal stream.
    SignalFd(usize),
    /// Set of descriptor readiness watches.
    Epoll(usize),
    /// Filesystem notification queue.
    Inotify(usize),
    /// Clock expiration counter.
    TimerFd(usize),
}

/// Stable identity of one open descriptor description.
#[derive(Copy, Clone, Debug, PartialEq, Eq, Structural)]
pub struct DescriptorKey {
    /// Kind of object.
    pub kind: u8,
    /// The object.
    pub pointer: usize,
}

impl Descriptor {
    /// The identity of the object.
    pub open spec fn identity(self) -> DescriptorKey {
        match self {
            Descriptor::File(pointer) => DescriptorKey { kind: 0, pointer },
            Descriptor::Pipe(pointer) => DescriptorKey { kind: 1, pointer },
            Descriptor::SignalFd(pointer) => DescriptorKey { kind: 2, pointer },
            Descriptor::Epoll(pointer) => DescriptorKey { kind: 3, pointer },
            Descriptor::Inotify(pointer) => DescriptorKey { kind: 4, pointer },
            Descriptor::TimerFd(pointer) => DescriptorKey { kind: 5, pointer },
        }
    }

    /// Returns the identity of the object.
    pub fn key(&self) -> (key: DescriptorKey)
        ensures
            key == self.identity(),
    {
        match *self {
            Descriptor::File(pointer) => DescriptorKey { kind: 0, pointer },
            Descriptor::Pipe(pointer) => DescriptorKey { kind: 1, pointer },
            Descriptor::SignalFd(pointer) => DescriptorKey { kind: 2, pointer },
            Descriptor::Epoll(pointer) => DescriptorKey { kind: 3, pointer },
            Descriptor::Inotify(pointer) => DescriptorKey { kind: 4, pointer },
            Descriptor::TimerFd(pointer) => DescriptorKey { kind: 5, pointer },
        }
    }

    /// Returns whether the object tells its readiness through events; the
    /// others have to be asked again from time to time.
    pub fn has_poll_events(&self) -> (events: bool)
        ensures
            events == !(self is SignalFd || self is Epoll || self is TimerFd),
    {
        match *self {
            Descriptor::File(_) | Descriptor::Pipe(_) | Descriptor::Inotify(_) => true,
            _ => false,
        }
    }
}

/// Returns the readiness of a file; a file that cannot tell has failed.
pub fn file_readiness(polled: &Result<PollEvents, fs::Error>) -> (ready: PollEvents)
    ensures
        ready == match *polled {
            Ok(events) => events,
            Err(_) => PollEvents { error: true, ..PollEvents::nothing() },
        },
{
    match polled {
        Ok(events) => *events,
        Err(_) => {
            let mut failed = PollEvents::empty();
            failed.error = true;
            failed
        },
    }
}

/// Two descriptors have the same identity only if they stand for the same
/// object.
pub proof fn law_descriptor_key_is_unique(a: Descriptor, b: Descriptor)
    requires
        a.identity() == b.identity(),
    ensures
        a == b,
{
}

/// One entry of a descriptor table.
#[derive(Copy, Clone, Debug, PartialEq, Eq, Structural)]
pub struct DescriptorEntry {
    /// What the descriptor stands for.
    pub descriptor: Descriptor,
    /// Whether it is closed when the program is replaced.
    pub close_on_exec: bool,
}

/// Whether a slot is free.
pub open spec fn is_free() -> spec_fn(Option<DescriptorEntry>) -> bool {
    |slot: Option<DescriptorEntry>| slot.is_none()
}

/// Whether a slot holds the description `key`.
pub open spec fn holds_key(key: DescriptorKey) -> spec_fn(Option<DescriptorEntry>) -> bool {
    |slot: Option<DescriptorEntry>| slot matches Some(entry) && entry.descriptor.identity() == key
}

/// A table with room for descriptor numbers below `count`.
pub open spec fn padded(files: Seq<Option<DescriptorEntry>>, count: int) -> Seq<
    Option<DescriptorEntry>,
> {
    if files.len() < count {
        files + Seq::new((count - files.len()) as nat, |i: int| None)
    } else {
        files
    }
}

/// The lowest free number that is at least `minimum`.
pub open spec fn free_slot(files: Seq<Option<DescriptorEntry>>, minimum: int) -> int {
    first_where(padded(files, minimum), is_free(), minimum)
}

/// The table after an entry was installed, and its number.
pub open spec fn installed(
    files: Seq<Option<DescriptorEntry>>,
    entry: DescriptorEntry,
    minimum: int,
) -> Result<(Seq<Option<DescriptorEntry>>, i32), Error> {
    let slot = free_slot(files, minimum);
    if minimum >= MAX_FILES || slot >= MAX_FILES {
        Err(Error::TooManyFiles)
    } else {
        Ok((padded(files, slot + 1).update(slot, Some(entry)), slot as i32))
    }
}

/// The entry with number `fd`.
pub open spec fn entry_of(files: Seq<Option<DescriptorEntry>>, fd: int) -> Option<DescriptorEntry> {
    if 0 <= fd < files.len() {
        files[fd]
    } else {
        None
    }
}

/// The table after `old_fd` was duplicated onto `new_fd`.
pub open spec fn duplicated_to(
    files: Seq<Option<DescriptorEntry>>,
    old_fd: int,
    new_fd: int,
    close_on_exec: bool,
) -> Result<Seq<Option<DescriptorEntry>>, Error> {
    if old_fd < 0 {
        Err(Error::BadFileDescriptor)
    } else if new_fd < 0 {
        Err(Error::InvalidArgument)
    } else if new_fd >= MAX_FILES {
        Err(Error::TooManyFiles)
    } else {
        match entry_of(files, old_fd) {
            None => Err(Error::BadFileDescriptor),
            Some(entry) => if old_fd == new_fd {
                Ok(files)
            } else {
                Ok(
                    padded(files, new_fd + 1).update(
                        new_fd,
                        Some(DescriptorEntry { descriptor: entry.descriptor, close_on_exec }),
                    ),
                )
            },
        }
    }
}

/// The table after the program was replaced.
pub open spec fn exec_closed(files: Seq<Option<DescriptorEntry>>) -> Seq<Option<DescriptorEntry>> {
    files.map_values(
        |slot: Option<DescriptorEntry>|
            match slot {
                Some(entry) => if entry.close_on_exec {
                    None
                } else {
                    slot
                },
                None => slot,
            },
    )
}

/// Descriptor table of a process.
pub struct FileTable {
    slots: Vec<Option<DescriptorEntry>>,
}

impl View for FileTable {
    type V = Seq<Option<DescriptorEntry>>;

    closed spec fn view(&self) -> Seq<Option<DescriptorEntry>> {
        self.slots@
    }
}

impl FileTable {
    /// The table does not grow beyond its limit.
    pub open spec fn wf(self) -> bool {
        self@.len() <= MAX_FILES
    }

    /// An empty table.
    pub fn new() -> (table: Self)
        ensures
            table.wf(),
            table@.len() == 0,
    {
        FileTable { slots: Vec::new() }
    }

    /// A copy of the table.
    pub fn duplicate(&self) -> (table: Self)
        requires
            self.wf(),
        ensures
            table.wf(),
            table@ == self@,
    {
        let mut slots: Vec<Option<DescriptorEntry>> = Vec::new();
        let mut at: usize = 0;
        while at < self.slots.len()
            invariant
                at <= self.slots@.len(),
                slots@ =~= self.slots@.take(at as int),
            decreases self.slots@.len() - at,
        {
            slots.push(self.slots[at]);
            at = at + 1;
        }
        assert(self.slots@.take(at as int) =~= self.slots@);
        FileTable { slots }
    }

    fn pad(&mut self, count: usize)
        requires
            old(self).wf(),
            count <= MAX_FILES,
        ensures
            final(self).wf(),
            final(self)@ == padded(old(self)@, count as int),
    {
        let ghost before = self@;
        while self.slots.len() < count
            invariant
                before == old(self)@,
                self@.len() <= MAX_FILES,
                count <= MAX_FILES,
                before.len() <= self@.len(),
                self@.len() <= count || self@ == before,
                self@ =~= padded(before, self@.len() as int),
            decreases count - self@.len(),
        {
            self.slots.push(None);
            assert(self@ =~= padded(before, self@.len() as int));
        }
        assert(self@ =~= padded(before, count as int));
    }

    /// Installs an entry at the lowest free number that is at least `minimum`.
    pub fn install_descriptor(&mut self, entry: DescriptorEntry, minimum: usize) -> (fd: Result<
        i32,
        Error,
    >)
        requires
            old(self).wf(),
        ensures
            final(self).wf(),
            match fd {
                Ok(number) => installed(old(self)@, entry, minimum as int) == Ok::<
                    (Seq<Option<DescriptorEntry>>, i32),
                    Error,
                >((final(self)@, number)),
                Err(e) => installed(old(self)@, entry, minimum as int) == Err::<
                    (Seq<Option<DescriptorEntry>>, i32),
                    Error,
                >(e) && final(self)@ == padded(
                    old(self)@,
                    if minimum < MAX_FILES {
                        minimum as int
                    } else {
                        0
                    },
                ),
            },
    {
        if minimum >= MAX_FILES {
            return Err(Error::TooManyFiles);
        }
        let ghost before = self@;
        self.pad(minimum);
        let ghost wide = self@;
        let mut at: usize = minimum;
        while at < self.slots.len() && self.slots[at].is_some()
            invariant
                minimum <= at <= self.slots@.len(),
                self@ == wide,
                self.wf(),
                first_where(wide, is_free(), minimum as int) == first_where(
                    wide,
                    is_free(),
                    at as int,
                ),
            decreases self.slots@.len() - at,
        {
            at = at + 1;
        }
        assert(at == free_slot(before, minimum as int));
        if at < self.slots.len() {
            self.slots.set(at, Some(entry));
            assert(self@ =~= padded(before, at + 1).update(at as int, Some(entry)));
            return Ok(at as i32);
        }
        if self.slots.len() >= MAX_FILES {
            return Err(Error::TooManyFiles);
        }
        self.slots.push(Some(entry));
        assert(self@ =~= padded(before, at + 1).update(at as int, Some(entry)));
        Ok(at as i32)
    }

    fn entry(&self, fd: i32) -> (entry: Option<DescriptorEntry>)
        ensures
            entry == entry_of(self@, fd as int),
    {
        if fd < 0 || fd as usize >= self.slots.len() {
            return None;
        }
        self.slots[fd as usize]
    }

    /// Returns what a descriptor stands for.
    pub fn descriptor(&self, fd: i32) -> (descriptor: Option<Descriptor>)
        ensures
            descriptor == match entry_of(self@, fd as int) {
                Some(entry) => Some(entry.descriptor),
                None => None,
            },
    {
        match self.entry(fd) {
            Some(entry) => Some(entry.descriptor),
            None => None,
        }
    }

    /// Returns what several descriptors stand for.
    pub fn descriptors(&self, fds: &Vec<i32>) -> (found: Vec<Option<Descriptor>>)
        ensures
            found@ == fds@.map_values(
                |fd: i32|
                    match entry_of(self@, fd as int) {
                        Some(entry) => Some(entry.descriptor),
                        None => None,
                    },
            ),
    {
        let mut found: Vec<Option<Descriptor>> = Vec::new();
        let mut at: usize = 0;
        while at < fds.len()
            invariant
                at <= fds@.len(),
                found@.len() == at,
                forall|i: int|
                    0 <= i < at ==> #[trigger] found@[i] == match entry_of(self@, fds@[i] as int) {
                        Some(entry) => Some(entry.descriptor),
                        None => None,
                    },
            decreases fds@.len() - at,
        {
            found.push(self.descriptor(fds[at]));
            at = at + 1;
        }
        found
    }

    /// Returns whether the table holds a description.
    pub fn contains_descriptor(&self, key: DescriptorKey) -> (found: bool)
        ensures
            found == any_where(self@, holds_key(key)),
    {
        let mut at: usize = 0;
        while at < self.slots.len()
            invariant
                at <= self.slots@.len(),
                first_where(self@, holds_key(key), 0) == first_where(
                    self@,
                    holds_key(key),
                    at as int,
                ),
            decreases self.slots@.len() - at,
        {
            if let Some(entry) = self.slots[at] {
                if entry.descriptor.key() == key {
                    return true;
                }
            }
            at = at + 1;
        }
        false
    }

    /// Duplicates `fd` to the lowest free number that is at least `minimum`.
    pub fn duplicate_descriptor(&mut self, fd: i32, minimum: usize, close_on_exec: bool) -> (copy:
        Result<i32, Error>)
        requires
            old(self).wf(),
        ensures
            final(self).wf(),
            match entry_of(old(self)@, fd as int) {
                None => copy == Err::<i32, Error>(Error::BadFileDescriptor) && final(self)@ == old(
                    self,
                )@,
                Some(entry) => {
                    let result = installed(
                        old(self)@,
                        DescriptorEntry { descriptor: entry.descriptor, close_on_exec },
                        minimum as int,
                    );
                    match copy {
                        Ok(number) => result == Ok::<(Seq<Option<DescriptorEntry>>, i32), Error>(
                            (final(self)@, number),
                        ),
                        Err(e) => result == Err::<(Seq<Option<DescriptorEntry>>, i32), Error>(e)
                            && final(self)@ == padded(
                            old(self)@,
                            if minimum < MAX_FILES {
                                minimum as int
                            } else {
                                0
                            },
                        ),
                    }
                },
            },
    {
        match self.descriptor(fd) {
            None => Err(Error::BadFileDescriptor),
            Some(descriptor) => self.install_descriptor(
                DescriptorEntry { descriptor, close_on_exec },
                minimum,
            ),
        }
    }

    /// Duplicates `old_fd` onto `new_fd`.
    pub fn duplicate_descriptor_to(&mut self, old_fd: i32, new_fd: i32, close_on_exec: bool) -> (copy:
        Result<i32, Error>)
        requires
            old(self).wf(),
        ensures
            final(self).wf(),
            match duplicated_to(old(self)@, old_fd as int, new_fd as int, close_on_exec) {
                Ok(after) => copy == Ok::<i32, Error>(new_fd) && final(self)@ == after,
                Err(error) => copy == Err::<i32, Error>(error) && final(self)@ == old(self)@,
            },
    {
        if old_fd < 0 {
            return Err(Error::BadFileDescriptor);
        }
        if new_fd < 0 {
            return Err(Error::InvalidArgument);
        }
        if new_fd as usize >= MAX_FILES {
            return Err(Error::TooManyFiles);
        }
        let descriptor = match self.descriptor(old_fd) {
            Some(descriptor) => descriptor,
            None => {
                return Err(Error::BadFileDescriptor);
            },
        };
        if old_fd == new_fd {
            return Ok(new_fd);
        }
        let index: usize = new_fd as usize;
        self.pad(index + 1);
        self.slots.set(index, Some(DescriptorEntry { descriptor, close_on_exec }));
        Ok(new_fd)
    }

    /// Returns whether a descriptor is closed when the program is replaced.
    pub fn descriptor_close_on_exec(&self, fd: i32) -> (close: Option<bool>)
        ensures
            close == match entry_of(self@, fd as int) {
                Some(entry) => Some(entry.close_on_exec),
                None => None,
            },
    {
        match self.entry(fd) {
            Some(entry) => Some(entry.close_on_exec),
            None => None,
        }
    }

    /// Changes whether a descriptor is closed when the program is replaced;
    /// tells whether there is such a descriptor.
    pub fn set_descriptor_close_on_exec(&mut self, fd: i32, value: bool) -> (found: bool)
        requires
            old(self).wf(),
        ensures
            final(self).wf(),
            match entry_of(old(self)@, fd as int) {
                Some(entry) => found && final(self)@ == old(self)@.update(
                    fd as int,
                    Some(DescriptorEntry { close_on_exec: value, ..entry }),
                ),
                None => !found && final(self)@ == old(self)@,
            },
    {
        match self.entry(fd) {
            Some(entry) => {
                self.slots.set(
                    fd as usize,
                    Some(DescriptorEntry { close_on_exec: value, ..entry }),
                );
                true
            },
            None => false,
        }
    }

    /// Closes a descriptor; tells whether it was open.
    pub fn close_descriptor(&mut self, fd: i32) -> (found: bool)
        requires
            old(self).wf(),
        ensures
            final(self).wf(),
            found == entry_of(old(self)@, fd as int).is_some(),
            final(self)@ == if found {
                old(self)@.update(fd as int, None)
            } else {
                old(self)@
            },
    {
        match self.entry(fd) {
            Some(_) => {
                self.slots.set(fd as usize, None);
                true
            },
            None => false,
        }
    }

    /// Closes what is to be closed when the program is replaced.
    pub fn close_exec_descriptors(&mut self)
        requires
            old(self).wf(),
        ensures
            final(self).wf(),
            final(self)@ == exec_closed(old(self)@),
    {
        let mut at: usize = 0;
        let ghost before = self@;
        while at < self.slots.len()
            invariant
                before == old(self)@,
                self.slots@.len() == before.len(),
                at <= before.len(),
                forall|i: int|
                    0 <= i < before.len() ==> #[trigger] self.slots@[i] == if i < at {
                        exec_closed(before)[i]
                    } else {
                        before[i]
                    },
            decreases before.len() - at,
        {
            if let Some(entry) = self.slots[at] {
                if entry.close_on_exec {
                    self.slots.set(at, None);
                }
            }
            at = at + 1;
        }
        assert(self@ =~= exec_closed(before));
    }

    /// Closes everything.
    pub fn clear(&mut self)
        ensures
            final(self).wf(),
            final(self)@.len() == 0,
    {
        self.slots = Vec::new();
    }
}

/// A new descriptor gets the lowest number that is free and large enough, and
/// no other descriptor changes.
pub proof fn law_lowest_descriptor_is_used(
    files: Seq<Option<DescriptorEntry>>,
    entry: DescriptorEntry,
    minimum: int,
    fd: int,
)
    requires
        files.len() <= MAX_FILES,
        0 <= minimum,
        installed(files, entry, minimum).is_ok(),
    ensures
        ({
            let (after, number) = installed(files, entry, minimum)->Ok_0;
            &&& minimum <= number < MAX_FILES
            &&& entry_of(files, number as int).is_none()
            &&& entry_of(after, number as int) == Some(entry)
            &&& minimum <= fd < number ==> entry_of(files, fd).is_some()
            &&& fd != number ==> entry_of(after, fd) == entry_of(files, fd)
        }),
{
    lemma_first_where(padded(files, minimum), is_free(), minimum);
    let wide = padded(files, minimum);
    let slot = free_slot(files, minimum);
    if minimum <= fd < slot {
        assert(wide[fd] == files[fd]);
    }
}

/// Replacing the program closes exactly the descriptors that are marked.
pub proof fn law_exec_closes_marked(files: Seq<Option<DescriptorEntry>>, fd: int)
    ensures
        entry_of(exec_closed(files), fd) == match entry_of(files, fd) {
            Some(entry) => if entry.close_on_exec {
                None
            } else {
                Some(entry)
            },
            None => None,
        },
{
}

/// A table that holds a description says so.
pub proof fn law_held_description_is_found(
    files: Seq<Option<DescriptorEntry>>,
    fd: int,
    entry: DescriptorEntry,
)
    requires
        entry_of(files, fd) == Some(entry),
    ensures
        any_where(files, holds_key(entry.descriptor.identity())),
{
    lemma_finds(files, holds_key(entry.descriptor.identity()), fd);
}

/// A duplicated descriptor refers to what the old one refers to, under the
/// number asked for, with the mark asked for; all others stay. Duplicating a
/// descriptor to itself changes nothing.
pub proof fn law_duplicate_refers_to_same(
    files: Seq<Option<DescriptorEntry>>,
    old_fd: int,
    new_fd: int,
    close_on_exec: bool,
    other: int,
)
    ensures
        ({
            let result = duplicated_to(files, old_fd, new_fd, close_on_exec);
            let open = 0 <= old_fd < files.len() && files[old_fd].is_some();
            &&& result.is_ok() <==> open && 0 <= new_fd < 1024
            &&& result matches Ok(after) ==> {
                &&& old_fd == new_fd ==> after == files
                &&& old_fd != new_fd ==> entry_of(after, new_fd) == Some(
                    DescriptorEntry { descriptor: files[old_fd]->0.descriptor, close_on_exec },
                )
                &&& entry_of(after, old_fd)->0.descriptor == files[old_fd]->0.descriptor
                &&& other != new_fd ==> entry_of(after, other) == entry_of(files, other)
            }
            &&& old_fd >= 0 && !open && 0 <= new_fd < 1024 ==> result == Err::<
                Seq<Option<DescriptorEntry>>,
                Error,
            >(Error::BadFileDescriptor)
            &&& open && new_fd < 0 ==> result == Err::<Seq<Option<DescriptorEntry>>, Error>(
                Error::InvalidArgument,
            )
            &&& open && new_fd >= 1024 ==> result == Err::<Seq<Option<DescriptorEntry>>, Error>(
                Error::TooManyFiles,
            )
        }),
{
}

/// A descriptor is refused only if every number from the least one asked for
/// up to the last one is in use.
pub proof fn law_free_number_is_found(
    files: Seq<Option<DescriptorEntry>>,
    entry: DescriptorEntry,
    minimum: int,
    fd: int,
)
    requires
        files.len() <= 1024,
        0 <= minimum <= fd < 1024,
        entry_of(files, fd).is_none(),
    ensures
        installed(files, entry, minimum).is_ok(),
        installed(files, entry, minimum)->Ok_0.1 <= fd,
{
    let longer = padded(files, minimum);
    lemma_first_where(longer, is_free(), minimum);
    let slot = free_slot(files, minimum);
    if slot > fd {
        assert(!is_free()(longer[fd]));
    }
}

/// Each kind of descriptor has a number of its own, and a descriptor is known
/// by its kind and its object.
pub proof fn law_descriptor_names_its_object(pointer: usize, other: usize)
    ensures
        Descriptor::File(pointer).identity() == (DescriptorKey { kind: 0, pointer }),
        Descriptor::Pipe(pointer).identity() == (DescriptorKey { kind: 1, pointer }),
        Descriptor::SignalFd(pointer).identity() == (DescriptorKey { kind: 2, pointer }),
        Descriptor::Epoll(pointer).identity() == (DescriptorKey { kind: 3, pointer }),
        Descriptor::Inotify(pointer).identity() == (DescriptorKey { kind: 4, pointer }),
        Descriptor::TimerFd(pointer).identity() == (DescriptorKey { kind: 5, pointer }),
        pointer != other ==> Descriptor::File(pointer).identity() != Descriptor::File(
            other,
        ).identity(),
{
}

} // verus!
