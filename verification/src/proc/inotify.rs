//! Filesystem notification descriptors.

use vstd::prelude::*;
use crate::bytes::{
    get_u32, lemma_u32_round_trip, put_bytes, put_u32, put_zeros, u32_at, u32_bytes, zeros,
};
use crate::fs::PollEvents;
use crate::lists::{first_where, lemma_finds, lemma_first_where};
use crate::mem::{MemoryModel, UserMemory};
use crate::sys::event::{
    all_claimed, all_targets, lemma_all_claimed, waiters_known, Event, EventModel, WaitGroup,
    WaitGroups,
};
use crate::sys::sync::WakeTarget;
use crate::syscall::Errno;

verus! {

/// All events that can be watched.
pub const IN_ALL_EVENTS: u32 = 0x0fff;

/// The watched object was deleted.
pub const IN_DELETE_SELF: u32 = 0x0400;

/// Events were lost.
pub const IN_Q_OVERFLOW: u32 = 0x4000;

/// The watch is gone.
pub const IN_IGNORED: u32 = 0x8000;

/// Watch directories only.
pub const IN_ONLYDIR: u32 = 0x0100_0000;

/// Add to the events of an existing watch.
pub const IN_MASK_ADD: u32 = 0x2000_0000;

/// Report one event, then remove the watch.
pub const IN_ONESHOT: u32 = 0x8000_0000;

/// Flags that a watch can have.
pub const IN_CONTROL_FLAGS: u32 = 0xa700_0000;

/// Number of a record that belongs to no watch.
pub const NO_WATCH: i32 = -1;

/// Size of a record without a name.
pub const EVENT_HEADER_SIZE: usize = 16;

/// Most bytes that are queued.
pub const MAX_QUEUE_BYTES: usize = 1024 * 1024;

/// One watched object.
#[derive(Copy, Clone, Debug, PartialEq, Eq, Structural)]
pub struct InotifyWatch {
    /// Number of the watch.
    pub descriptor: i32,
    /// Watched object.
    pub key: u64,
    /// Events and flags.
    pub mask: u32,
}

/// Whether a watch is for this object.
pub open spec fn on_key(key: u64) -> spec_fn(InotifyWatch) -> bool {
    |w: InotifyWatch| w.key == key
}

/// Whether a watch has this number.
pub open spec fn with_number(descriptor: i32) -> spec_fn(InotifyWatch) -> bool {
    |w: InotifyWatch| w.descriptor == descriptor
}

/// Whether a mask can be watched.
pub open spec fn mask_ok(mask: u32) -> bool {
    mask & IN_ALL_EVENTS != 0 && mask & !(IN_ALL_EVENTS | IN_CONTROL_FLAGS) == 0
}

/// Checks whether a mask can be watched.
pub fn validate_mask(mask: u32) -> (valid: bool)
    ensures
        valid == mask_ok(mask),
{
    mask & IN_ALL_EVENTS != 0 && mask & !(IN_ALL_EVENTS | IN_CONTROL_FLAGS) == 0
}

/// Room for a name: its bytes, a zero and padding to four bytes.
pub open spec fn name_room(name: Option<Seq<u8>>) -> int {
    match name {
        Some(n) => (n.len() + 4) - (n.len() + 4) % 4,
        None => 0,
    }
}

/// One record.
pub open spec fn record_of(descriptor: i32, mask: u32, cookie: u32, name: Option<Seq<u8>>) -> Seq<
    u8,
> {
    let header = u32_bytes(descriptor as u32) + u32_bytes(mask) + u32_bytes(cookie) + u32_bytes(
        name_room(name) as u32,
    );
    match name {
        Some(n) => header + n + zeros((name_room(name) - n.len()) as nat),
        None => header,
    }
}

/// Bytes of all records.
pub open spec fn total_len(queue: Seq<Seq<u8>>) -> int
    decreases queue.len(),
{
    if queue.len() == 0 {
        0
    } else {
        total_len(queue.drop_last()) + queue.last().len()
    }
}

/// A notification queue as specifications see it.
#[verifier::ext_equal]
pub struct InotifyModel {
    /// Watches.
    pub watches: Seq<InotifyWatch>,
    /// Records, oldest first.
    pub queue: Seq<Seq<u8>>,
    /// Whether the queue tells that events were lost.
    pub overflowed: bool,
    /// Number of the next watch.
    pub next_watch: i32,
    /// Whether reading never waits.
    pub nonblocking: bool,
    /// Event that tells of records.
    pub event: EventModel,
}

impl InotifyModel {
    /// The queue after its first `count` records reached their reader.
    pub open spec fn drained(self, count: int) -> InotifyModel {
        InotifyModel {
            queue: self.queue.skip(count),
            overflowed: self.overflowed && !has_overflow(self.queue.take(count)),
            event: EventModel {
                signaled: self.event.signaled && (count < self.queue.len() || self.queue.len()
                    == 0),
                ..self.event
            },
            ..self
        }
    }

    /// Objects and numbers are watched once, and the queue is no longer than
    /// it may be.
    pub open spec fn ok(self) -> bool {
        &&& forall|i: int, j: int|
            #![trigger self.watches[i], self.watches[j]]
            0 <= i < j < self.watches.len() ==> self.watches[i].key != self.watches[j].key
        &&& total_len(self.queue) <= MAX_QUEUE_BYTES + EVENT_HEADER_SIZE
        &&& !self.overflowed ==> total_len(self.queue) <= MAX_QUEUE_BYTES
        &&& forall|i: int|
            0 <= i < self.queue.len() ==> (#[trigger] self.queue[i]).len() >= EVENT_HEADER_SIZE
    }

    /// The queue after a record was added; a full queue gets a record that
    /// says so, once.
    pub open spec fn queued(self, descriptor: i32, mask: u32, cookie: u32, name: Option<Seq<u8>>) -> InotifyModel {
        if total_len(self.queue) + EVENT_HEADER_SIZE + name_room(name) > MAX_QUEUE_BYTES {
            if self.overflowed {
                self
            } else {
                InotifyModel {
                    overflowed: true,
                    queue: self.queue.push(record_of(NO_WATCH, IN_Q_OVERFLOW, 0, None)),
                    ..self
                }
            }
        } else {
            InotifyModel {
                queue: self.queue.push(record_of(descriptor, mask, cookie, name)),
                ..self
            }
        }
    }

    /// The state after an event of object `key`, before waiters are told.
    pub open spec fn observed(self, key: u64, mask: u32, cookie: u32, name: Option<Seq<u8>>) -> InotifyModel {
        let at = first_where(self.watches, on_key(key), 0);
        let watch = self.watches[at];
        let told = self.queued(watch.descriptor, mask, cookie, name);
        if watch.mask & IN_ONESHOT != 0 || mask & IN_DELETE_SELF != 0 {
            InotifyModel { watches: told.watches.remove(at), ..told }.queued(
                watch.descriptor,
                IN_IGNORED,
                0,
                None,
            )
        } else {
            told
        }
    }

    /// Whether an event of object `key` is watched.
    pub open spec fn watches_event(self, key: u64, mask: u32) -> bool {
        let at = first_where(self.watches, on_key(key), 0);
        at < self.watches.len() && self.watches[at].mask & mask & IN_ALL_EVENTS != 0
    }
}

/// A filesystem notification queue.
pub struct Inotify {
    watches: Vec<InotifyWatch>,
    queue: Vec<Vec<u8>>,
    queued_bytes: usize,
    overflowed: bool,
    next_watch: i32,
    nonblocking: bool,
    event: Event,
}

/// The records as specifications see them.
pub open spec fn records(queue: Seq<Vec<u8>>) -> Seq<Seq<u8>> {
    queue.map_values(|r: Vec<u8>| r@)
}

impl View for Inotify {
    type V = InotifyModel;

    closed spec fn view(&self) -> InotifyModel {
        InotifyModel {
            watches: self.watches@,
            queue: records(self.queue@),
            overflowed: self.overflowed,
            next_watch: self.next_watch,
            nonblocking: self.nonblocking,
            event: self.event@,
        }
    }
}

/// What reading notifications ended in.
#[derive(Copy, Clone, Debug, PartialEq, Eq, Structural)]
pub enum InotifyRead {
    /// This many records fit; those that reached the reader are confirmed with
    /// [`Inotify::finish_read`].
    Records(usize),
    /// Wait for records.
    Sleep,
}

/// How many of the first records fit in `capacity` bytes.
pub open spec fn fitting(queue: Seq<Seq<u8>>, capacity: int, at: int) -> int
    decreases queue.len() - at,
{
    if at >= queue.len() || total_len(queue.take(at + 1)) > capacity {
        at
    } else {
        fitting(queue, capacity, at + 1)
    }
}

fn encode_record(descriptor: i32, mask: u32, cookie: u32, name: Option<&[u8]>) -> (record: Vec<u8>)
    requires
        name matches Some(n) ==> n@.len() <= MAX_QUEUE_BYTES,
    ensures
        record@ == record_of(
            descriptor,
            mask,
            cookie,
            match name {
                Some(n) => Some(n@),
                None => None,
            },
        ),
        record@.len() == EVENT_HEADER_SIZE + name_room(
            match name {
                Some(n) => Some(n@),
                None => None,
            },
        ),
{
    let room: usize = match name {
        Some(n) => (n.len() + 4) - (n.len() + 4) % 4,
        None => 0,
    };
    let mut record: Vec<u8> = Vec::new();
    put_u32(&mut record, #[verifier::truncate] (descriptor as u32));
    put_u32(&mut record, mask);
    put_u32(&mut record, cookie);
    put_u32(&mut record, room as u32);
    if let Some(n) = name {
        put_bytes(&mut record, n);
        put_zeros(&mut record, room - n.len());
    }
    record
}

fn event_mask(record: &Vec<u8>) -> (mask: u32)
    requires
        record@.len() >= EVENT_HEADER_SIZE,
    ensures
        mask == u32_at(record@, 4),
{
    get_u32(record, 4)
}

proof fn lemma_pushed(queue: Seq<Vec<u8>>, record: Vec<u8>)
    ensures
        records(queue.push(record)) == records(queue).push(record@),
        total_len(records(queue).push(record@)) == total_len(records(queue)) + record@.len(),
{
    assert(records(queue.push(record)) =~= records(queue).push(record@));
    assert(records(queue).push(record@).drop_last() =~= records(queue));
}

proof fn lemma_total_pos(queue: Seq<Seq<u8>>)
    ensures
        total_len(queue) >= 0,
    decreases queue.len(),
{
    if queue.len() > 0 {
        lemma_total_pos(queue.drop_last());
    }
}

proof fn lemma_total_split(queue: Seq<Seq<u8>>, at: int)
    requires
        0 <= at <= queue.len(),
    ensures
        total_len(queue) == total_len(queue.take(at)) + total_len(queue.skip(at)),
    decreases queue.len(),
{
    if at == queue.len() {
        assert(queue.take(at) =~= queue);
        assert(queue.skip(at) =~= Seq::empty());
    } else {
        lemma_total_split(queue.drop_last(), at);
        assert(queue.drop_last().take(at) =~= queue.take(at));
        assert(queue.skip(at).drop_last() =~= queue.drop_last().skip(at));
    }
}

impl Inotify {
    /// The counts are right.
    pub closed spec fn wf(self) -> bool {
        &&& self@.ok()
        &&& self.queued_bytes == total_len(self@.queue)
        &&& self.event.wf()
    }

    /// A consistent queue satisfies its invariant.
    pub proof fn lemma_wf(&self)
        requires
            self.wf(),
        ensures
            self@.ok(),
    {
    }

    /// No watches, no records.
    pub fn new(nonblocking: bool) -> (inotify: Self)
        ensures
            inotify.wf(),
            inotify@ == (InotifyModel {
                watches: Seq::empty(),
                queue: Seq::empty(),
                overflowed: false,
                next_watch: 1,
                nonblocking,
                event: EventModel { signaled: false, waiters: Seq::empty() },
            }),
    {
        let inotify = Inotify {
            watches: Vec::new(),
            queue: Vec::new(),
            queued_bytes: 0,
            overflowed: false,
            next_watch: 1,
            nonblocking,
            event: Event::new(),
        };
        assert(inotify@.queue =~= Seq::empty());
        inotify
    }

    fn find_key(&self, key: u64) -> (at: usize)
        ensures
            at == first_where(self@.watches, on_key(key), 0),
            at <= self@.watches.len(),
    {
        let mut at: usize = 0;
        while at < self.watches.len()
            invariant
                at <= self.watches@.len(),
                first_where(self@.watches, on_key(key), 0) == first_where(
                    self@.watches,
                    on_key(key),
                    at as int,
                ),
            decreases self.watches@.len() - at,
        {
            if self.watches[at].key == key {
                return at;
            }
            at = at + 1;
        }
        at
    }

    fn find_number(&self, descriptor: i32) -> (at: usize)
        ensures
            at == first_where(self@.watches, with_number(descriptor), 0),
            at <= self@.watches.len(),
    {
        let mut at: usize = 0;
        while at < self.watches.len()
            invariant
                at <= self.watches@.len(),
                first_where(self@.watches, with_number(descriptor), 0) == first_where(
                    self@.watches,
                    with_number(descriptor),
                    at as int,
                ),
            decreases self.watches@.len() - at,
        {
            if self.watches[at].descriptor == descriptor {
                return at;
            }
            at = at + 1;
        }
        at
    }

    /// Watches an object, or changes its watch; returns the watch's number.
    pub fn add_watch(&mut self, key: u64, mask: u32) -> (number: Result<i32, Errno>)
        requires
            old(self).wf(),
        ensures
            final(self).wf(),
            ({
                let m = old(self)@;
                let at = first_where(m.watches, on_key(key), 0);
                let number_after = if m.next_watch == i32::MAX {
                    i32::MIN
                } else {
                    (m.next_watch + 1) as i32
                };
                if !mask_ok(mask) {
                    &&& number == Err::<i32, Errno>(Errno::Invalid)
                    &&& final(self)@ == m
                } else if at < m.watches.len() {
                    &&& number == Ok::<i32, Errno>(m.watches[at].descriptor)
                    &&& final(self)@ == (InotifyModel {
                        watches: m.watches.update(
                            at,
                            InotifyWatch {
                                mask: if mask & IN_MASK_ADD != 0 {
                                    m.watches[at].mask | (mask & !IN_MASK_ADD)
                                } else {
                                    mask
                                },
                                ..m.watches[at]
                            },
                        ),
                        ..m
                    })
                } else if m.next_watch <= 0 {
                    &&& number == Err::<i32, Errno>(Errno::Overflow)
                    &&& final(self)@ == (InotifyModel { next_watch: number_after, ..m })
                } else {
                    &&& number == Ok::<i32, Errno>(m.next_watch)
                    &&& final(self)@ == (InotifyModel {
                        watches: m.watches.push(
                            InotifyWatch {
                                descriptor: m.next_watch,
                                key,
                                mask: mask & !IN_MASK_ADD,
                            },
                        ),
                        next_watch: number_after,
                        ..m
                    })
                }
            }),
    {
        if !validate_mask(mask) {
            return Err(Errno::Invalid);
        }
        proof {
            lemma_first_where(self@.watches, on_key(key), 0);
        }
        let at: usize = self.find_key(key);
        if at < self.watches.len() {
            let mut watch = self.watches[at];
            watch.mask =
            if mask & IN_MASK_ADD != 0 {
                watch.mask | (mask & !IN_MASK_ADD)
            } else {
                mask
            };
            self.watches.set(at, watch);
            return Ok(watch.descriptor);
        }
        let number: i32 = self.next_watch;
        self.next_watch = if number == i32::MAX {
            i32::MIN
        } else {
            number + 1
        };
        if number <= 0 {
            return Err(Errno::Overflow);
        }
        let ghost before = self.watches@;
        self.watches.push(
            InotifyWatch { descriptor: number, key, mask: mask & !IN_MASK_ADD },
        );
        proof {
            assert forall|i: int, j: int|
                #![trigger self.watches@[i], self.watches@[j]]
                0 <= i < j < self.watches@.len() implies self.watches@[i].key
                != self.watches@[j].key by {
                assert(self.watches@[i] == before[i]);
                if j == before.len() {
                    assert(!on_key(key)(before[i]));
                } else {
                    assert(self.watches@[j] == before[j]);
                }
            }
        }
        Ok(number)
    }

    fn queue_record(&mut self, descriptor: i32, mask: u32, cookie: u32, name: Option<&[u8]>)
        requires
            old(self).wf(),
        ensures
            final(self).wf(),
            final(self)@ == old(self)@.queued(
                descriptor,
                mask,
                cookie,
                match name {
                    Some(n) => Some(n@),
                    None => None,
                },
            ),
    {
        let ghost m = self@;
        let too_long = match name {
            Some(n) => n.len() > MAX_QUEUE_BYTES,
            None => false,
        };
        let room: usize = match name {
            Some(n) => if too_long {
                MAX_QUEUE_BYTES
            } else {
                (n.len() + 4) - (n.len() + 4) % 4
            },
            None => 0,
        };
        proof {
            lemma_total_pos(m.queue);
        }
        if self.queued_bytes + EVENT_HEADER_SIZE + room > MAX_QUEUE_BYTES {
            if self.overflowed {
                return;
            }
            self.overflowed = true;
            let record = encode_record(NO_WATCH, IN_Q_OVERFLOW, 0, None);
            proof {
                lemma_pushed(self.queue@, record);
            }
            self.queued_bytes = self.queued_bytes + record.len();
            self.queue.push(record);
            assert(self@ =~= m.queued(
                descriptor,
                mask,
                cookie,
                match name {
                    Some(n) => Some(n@),
                    None => None,
                },
            ));
            return;
        }
        let record = encode_record(descriptor, mask, cookie, name);
        proof {
            lemma_pushed(self.queue@, record);
        }
        self.queued_bytes = self.queued_bytes + record.len();
        self.queue.push(record);
    }

    fn drop_watch(&mut self, at: usize)
        requires
            old(self).wf(),
            at < old(self)@.watches.len(),
        ensures
            final(self).wf(),
            final(self)@ == (InotifyModel {
                watches: old(self)@.watches.remove(at as int),
                ..old(self)@
            }),
    {
        let ghost before = self.watches@;
        let _ = self.watches.remove(at);
        proof {
            assert forall|i: int, j: int|
                #![trigger self.watches@[i], self.watches@[j]]
                0 <= i < j < self.watches@.len() implies self.watches@[i].key
                != self.watches@[j].key by {
                let a = if i < at { i } else { i + 1 };
                let b = if j < at { j } else { j + 1 };
                assert(self.watches@[i] == before[a] && self.watches@[j] == before[b]);
            }
        }
    }

    /// Removes a watch and reports that it is gone; returns whom to wake.
    pub fn remove_watch(&mut self, descriptor: i32, groups: &mut WaitGroups) -> (result: Result<
        Vec<WakeTarget>,
        Errno,
    >)
        requires
            old(self).wf(),
            waiters_known(old(self)@.event.waiters, old(groups)@),
        ensures
            final(self).wf(),
            ({
                let m = old(self)@;
                let at = first_where(m.watches, with_number(descriptor), 0);
                if at >= m.watches.len() {
                    &&& result == Err::<Vec<WakeTarget>, Errno>(Errno::Invalid)
                    &&& final(self)@ == m
                    &&& final(groups)@ == old(groups)@
                } else {
                    &&& result matches Ok(woken) && woken@ == all_targets(
                        m.event.waiters,
                        old(groups)@,
                    )
                    &&& final(groups)@ == all_claimed(m.event.waiters, old(groups)@)
                    &&& final(self)@ == (InotifyModel {
                        event: EventModel { signaled: true, waiters: Seq::empty() },
                        ..InotifyModel { watches: m.watches.remove(at), ..m }.queued(
                            descriptor,
                            IN_IGNORED,
                            0,
                            None,
                        )
                    })
                }
            }),
    {
        let at: usize = self.find_number(descriptor);
        if at >= self.watches.len() {
            return Err(Errno::Invalid);
        }
        self.drop_watch(at);
        self.queue_record(descriptor, IN_IGNORED, 0, None);
        Ok(self.event.signal(groups))
    }

    /// Reports an event of object `key` if it is watched; returns whom to
    /// wake.
    pub fn queue_for_key(
        &mut self,
        key: u64,
        mask: u32,
        cookie: u32,
        name: Option<&[u8]>,
        groups: &mut WaitGroups,
    ) -> (woken: Vec<WakeTarget>)
        requires
            old(self).wf(),
            waiters_known(old(self)@.event.waiters, old(groups)@),
        ensures
            final(self).wf(),
            ({
                let m = old(self)@;
                let text = match name {
                    Some(n) => Some(n@),
                    None => None,
                };
                if !m.watches_event(key, mask) {
                    &&& final(self)@ == m
                    &&& final(groups)@ == old(groups)@
                    &&& woken@.len() == 0
                } else {
                    &&& final(self)@ == (InotifyModel {
                        event: EventModel { signaled: true, waiters: Seq::empty() },
                        ..m.observed(key, mask, cookie, text)
                    })
                    &&& final(groups)@ == all_claimed(m.event.waiters, old(groups)@)
                    &&& woken@ == all_targets(m.event.waiters, old(groups)@)
                }
            }),
    {
        let at: usize = self.find_key(key);
        if at >= self.watches.len() {
            return Vec::new();
        }
        let watch = self.watches[at];
        if watch.mask & mask & IN_ALL_EVENTS == 0 {
            return Vec::new();
        }
        self.queue_record(watch.descriptor, mask, cookie, name);
        if watch.mask & IN_ONESHOT != 0 || mask & IN_DELETE_SELF != 0 {
            self.drop_watch(at);
            self.queue_record(watch.descriptor, IN_IGNORED, 0, None);
        }
        self.event.signal(groups)
    }

    /// Tells how many records fit in `capacity` bytes.
    pub fn read(&mut self, capacity: usize) -> (read: Result<InotifyRead, Errno>)
        requires
            old(self).wf(),
        ensures
            final(self).wf(),
            ({
                let m = old(self)@;
                if m.queue.len() > 0 {
                    &&& final(self)@ == m
                    &&& read == if m.queue[0].len() > capacity {
                        Err::<InotifyRead, Errno>(Errno::Invalid)
                    } else {
                        Ok(InotifyRead::Records(fitting(m.queue, capacity as int, 0) as usize))
                    }
                } else if m.nonblocking {
                    &&& final(self)@ == m
                    &&& read == Err::<InotifyRead, Errno>(Errno::TryAgain)
                } else {
                    &&& read == Ok::<InotifyRead, Errno>(InotifyRead::Sleep)
                    &&& final(self)@ == (InotifyModel {
                        event: EventModel { signaled: false, ..m.event },
                        ..m
                    })
                }
            }),
    {
        if self.queue.len() == 0 {
            if self.nonblocking {
                return Err(Errno::TryAgain);
            }
            let _ = self.event.reset();
            return Ok(InotifyRead::Sleep);
        }
        let ghost m = self@;
        assert(m.queue[0] == self.queue@[0]@);
        if self.queue[0].len() > capacity {
            return Err(Errno::Invalid);
        }
        let mut count: usize = 0;
        let mut written: usize = 0;
        assert(m.queue.take(0) =~= Seq::empty());
        while count < self.queue.len()
            invariant
                *self == *old(self),
                self.wf(),
                m == self@,
                m.queue.len() == self.queue@.len(),
                m.queue.len() > 0,
                m.queue[0].len() <= capacity,
                count <= m.queue.len(),
                written == total_len(m.queue.take(count as int)),
                written <= capacity,
                fitting(m.queue, capacity as int, 0) == fitting(
                    m.queue,
                    capacity as int,
                    count as int,
                ),
            decreases m.queue.len() - count,
        {
            let length: usize = self.queue[count].len();
            proof {
                let longer = m.queue.take(count + 1);
                assert(longer.drop_last() =~= m.queue.take(count as int));
                assert(longer.last() == self.queue@[count as int]@);
            }
            if length > capacity - written {
                return Ok(InotifyRead::Records(count));
            }
            written = written + length;
            count = count + 1;
        }
        Ok(InotifyRead::Records(count))
    }

    /// Returns record `index`.
    pub fn record(&self, index: usize) -> (record: &Vec<u8>)
        requires
            index < self@.queue.len(),
        ensures
            record@ == self@.queue[index as int],
    {
        &self.queue[index]
    }

    /// Forgets the first `count` records, which reached the reader.
    pub fn finish_read(&mut self, count: usize)
        requires
            old(self).wf(),
            count <= old(self)@.queue.len(),
        ensures
            final(self).wf(),
            final(self)@ == old(self)@.drained(count as int),
    {
        let ghost m = self@;
        let mut done: usize = 0;
        assert(m.queue.skip(0) =~= m.queue);
        assert(m.queue.take(0) =~= Seq::empty());
        while done < count
            invariant
                done <= count <= m.queue.len(),
                m == old(self)@,
                m.ok(),
                self.wf(),
                self@ == (InotifyModel {
                    queue: m.queue.skip(done as int),
                    overflowed: m.overflowed && !has_overflow(m.queue.take(done as int)),
                    ..m
                }),
            decreases count - done,
        {
            let ghost before = self@.queue;
            let ghost views = self.queue@;
            let record = self.queue.remove(0);
            proof {
                lemma_total_split(before, 1);
                assert(before.take(1).drop_last() =~= Seq::empty());
                assert(before.take(1).last() == record@);
                assert(total_len(before.take(1)) == total_len(Seq::<Seq<u8>>::empty())
                    + record@.len());
                lemma_total_pos(before.skip(1));
                assert(self@.queue =~= before.skip(1));
                assert(before.skip(1) =~= m.queue.skip(done + 1));
                assert(m.queue[done as int] == record@) by {
                    assert(before[0] == m.queue[done as int]);
                }
                let longer = m.queue.take(done + 1);
                assert(longer.drop_last() =~= m.queue.take(done as int));
                assert(longer.last() == record@);
            }
            self.queued_bytes = self.queued_bytes - record.len();
            if event_mask(&record) & IN_Q_OVERFLOW != 0 {
                self.overflowed = false;
            }
            done = done + 1;
        }
        if count > 0 && self.queue.len() == 0 {
            let _ = self.event.reset();
        }
    }

    /// Copies the records that fit to a reader's memory.
    ///
    /// A record leaves the queue once it has arrived. A fault ends the read: it
    /// is told only where no record arrived. Returns `None` where the reader
    /// has to wait for records.
    pub fn read_into(&mut self, memory: &mut UserMemory, address: u64, capacity: usize) -> (read:
        Result<Option<usize>, Errno>)
        requires
            old(self).wf(),
        ensures
            final(self).wf(),
            ({
                let m = old(self)@;
                if m.queue.len() == 0 {
                    &&& final(memory)@ == old(memory)@
                    &&& read == if m.nonblocking {
                        Err::<Option<usize>, Errno>(Errno::TryAgain)
                    } else {
                        Ok(None)
                    }
                    &&& final(self)@ == if m.nonblocking {
                        m
                    } else {
                        InotifyModel { event: EventModel { signaled: false, ..m.event }, ..m }
                    }
                } else if m.queue[0].len() > capacity {
                    &&& read == Err::<Option<usize>, Errno>(Errno::Invalid)
                    &&& final(self)@ == m
                    &&& final(memory)@ == old(memory)@
                } else {
                    let count = fitting(m.queue, capacity as int, 0);
                    let n = arriving(old(memory)@, address, m.queue, count, 0);
                    &&& final(memory)@ == copied(old(memory)@, address, m.queue, n)
                    &&& if n == 0 {
                        &&& read == Err::<Option<usize>, Errno>(Errno::Fault)
                        &&& final(self)@ == m
                    } else {
                        &&& read == Ok::<Option<usize>, Errno>(
                            Some(total_len(m.queue.take(n)) as usize),
                        )
                        &&& total_len(m.queue.take(n)) <= capacity
                        &&& final(self)@ == m.drained(n)
                    }
                }
            }),
    {
        let ghost m = self@;
        let ghost before = memory@;
        let count: usize = match self.read(capacity) {
            Err(error) => {
                return Err(error);
            },
            Ok(InotifyRead::Sleep) => {
                return Ok(None);
            },
            Ok(InotifyRead::Records(count)) => count,
        };
        let queued: usize = self.queue.len();
        assert(m.queue.len() == queued);
        assert(m.queue.take(0) =~= Seq::empty());
        proof {
            lemma_fitting(m.queue, capacity as int, 0);
        }
        let mut done: usize = 0;
        let mut written: usize = 0;
        while done < count
            invariant
                self.wf(),
                self@ == m,
                done <= count <= m.queue.len(),
                count == fitting(m.queue, capacity as int, 0),
                m.queue.len() == self.queue@.len(),
                total_len(m.queue.take(count as int)) <= capacity,
                written == total_len(m.queue.take(done as int)),
                arriving(before, address, m.queue, count as int, 0) == arriving(
                    before,
                    address,
                    m.queue,
                    count as int,
                    done as int,
                ),
                memory@ == copied(before, address, m.queue, done as int),
                memory@.start == before.start,
                memory@.bytes.len() == before.bytes.len(),
            ensures
                self.wf(),
                self@ == m,
                done <= count,
                written == total_len(m.queue.take(done as int)),
                done == arriving(before, address, m.queue, count as int, 0),
                memory@ == copied(before, address, m.queue, done as int),
            decreases count - done,
        {
            proof {
                let longer = m.queue.take(done + 1);
                assert(longer.drop_last() =~= m.queue.take(done as int));
                assert(longer.last() == self.queue@[done as int]@);
                lemma_total_split(m.queue.take(count as int), done + 1);
                assert(m.queue.take(count as int).take(done + 1) =~= longer);
                lemma_total_pos(m.queue.take(count as int).skip(done + 1));
            }
            let place: u64 = match address.checked_add(written as u64) {
                Some(place) => place,
                None => {
                    break;
                },
            };
            if memory.write_user(place, &self.queue[done]).is_err() {
                break;
            }
            written = written + self.queue[done].len();
            done = done + 1;
        }
        if done == 0 {
            return Err(Errno::Fault);
        }
        proof {
            lemma_total_split(m.queue.take(count as int), done as int);
            assert(m.queue.take(count as int).take(done as int) =~= m.queue.take(done as int));
            lemma_total_pos(m.queue.take(count as int).skip(done as int));
        }
        self.finish_read(done);
        Ok(Some(written))
    }

    /// Returns what the descriptor is ready for.
    pub fn poll(&self, requested: &PollEvents) -> (ready: PollEvents)
        ensures
            ready == (PollEvents {
                readable: requested.readable && self@.queue.len() > 0,
                ..PollEvents::nothing()
            }),
    {
        let mut ready = PollEvents::empty();
        ready.readable = requested.readable && self.queue.len() > 0;
        ready
    }

    /// Returns whether reading never waits.
    pub fn is_nonblocking(&self) -> (nonblocking: bool)
        ensures
            nonblocking == self@.nonblocking,
    {
        self.nonblocking
    }

    /// Changes whether reading never waits.
    pub fn set_nonblocking(&mut self, nonblocking: bool)
        requires
            old(self).wf(),
        ensures
            final(self).wf(),
            final(self)@ == (InotifyModel { nonblocking, ..old(self)@ }),
    {
        self.nonblocking = nonblocking;
    }

    /// Returns whether anything is watched.
    pub fn is_watching(&self) -> (watching: bool)
        ensures
            watching == (self@.watches.len() > 0),
    {
        self.watches.len() > 0
    }
}

/// How many of the first `count` records can be copied to `address`, where the
/// first `at` can be.
pub open spec fn arriving(
    memory: MemoryModel,
    address: u64,
    queue: Seq<Seq<u8>>,
    count: int,
    at: int,
) -> int
    decreases count - at,
{
    let place = address + total_len(queue.take(at));
    if at >= count || place > u64::MAX || !memory.covers(place, queue[at].len() as int) {
        at
    } else {
        arriving(memory, address, queue, count, at + 1)
    }
}

/// Memory after the first `n` records were copied to `address`.
pub open spec fn copied(memory: MemoryModel, address: u64, queue: Seq<Seq<u8>>, n: int) -> MemoryModel
    decreases n,
{
    if n <= 0 {
        memory
    } else {
        copied(memory, address, queue, n - 1).written(
            address + total_len(queue.take(n - 1)),
            queue[n - 1],
        )
    }
}

/// Whether records tell that events were lost.
pub open spec fn has_overflow(queue: Seq<Seq<u8>>) -> bool
    decreases queue.len(),
{
    if queue.len() == 0 {
        false
    } else {
        has_overflow(queue.drop_last()) || u32_at(queue.last(), 4) & IN_Q_OVERFLOW != 0
    }
}

proof fn lemma_fitting(queue: Seq<Seq<u8>>, capacity: int, at: int)
    requires
        0 <= at <= queue.len(),
        total_len(queue.take(at)) <= capacity,
    ensures
        at <= fitting(queue, capacity, at) <= queue.len(),
        total_len(queue.take(fitting(queue, capacity, at))) <= capacity,
    decreases queue.len() - at,
{
    if at < queue.len() && total_len(queue.take(at + 1)) <= capacity {
        lemma_fitting(queue, capacity, at + 1);
    }
}

/// Returns whether any queue watches anything.
pub fn is_watching(instances: &Vec<Inotify>) -> (watching: bool)
    ensures
        watching == exists|i: int|
            0 <= i < instances@.len() && (#[trigger] instances@[i])@.watches.len() > 0,
{
    let mut at: usize = 0;
    while at < instances.len()
        invariant
            at <= instances@.len(),
            forall|i: int| 0 <= i < at ==> (#[trigger] instances@[i])@.watches.len() == 0,
        decreases instances@.len() - at,
    {
        if instances[at].is_watching() {
            assert(instances@[at as int]@.watches.len() > 0);
            return true;
        }
        at = at + 1;
    }
    false
}

/// Hands out a cookie that is not zero.
pub fn next_cookie(counter: &mut u32) -> (cookie: u32)
    ensures
        cookie != 0,
        cookie == if *old(counter) == 0 {
            1
        } else {
            *old(counter)
        },
        *final(counter) == if cookie == u32::MAX {
            0
        } else {
            (cookie + 1) as u32
        },
{
    let cookie: u32 = if *counter == 0 {
        1
    } else {
        *counter
    };
    *counter = cookie.wrapping_add(1);
    cookie
}

/// The queues as specifications see them.
pub open spec fn queue_views(instances: Seq<Inotify>) -> Seq<InotifyModel> {
    Seq::new(instances.len(), |i: int| instances[i]@)
}

/// The state of one queue after an event of object `key`.
pub open spec fn told(
    m: InotifyModel,
    key: u64,
    mask: u32,
    cookie: u32,
    name: Option<Seq<u8>>,
) -> InotifyModel {
    if m.watches_event(key, mask) {
        InotifyModel {
            event: EventModel { signaled: true, waiters: Seq::empty() },
            ..m.observed(key, mask, cookie, name)
        }
    } else {
        m
    }
}

/// The waits and the threads to wake after the first `n` queues were told.
pub open spec fn told_waits(
    queues: Seq<InotifyModel>,
    groups: Seq<WaitGroup>,
    key: u64,
    mask: u32,
    n: int,
) -> (Seq<WaitGroup>, Seq<WakeTarget>)
    decreases n,
{
    if n <= 0 {
        (groups, Seq::empty())
    } else {
        let before = told_waits(queues, groups, key, mask, n - 1);
        let m = queues[n - 1];
        if m.watches_event(key, mask) {
            (
                all_claimed(m.event.waiters, before.0),
                before.1 + all_targets(m.event.waiters, before.0),
            )
        } else {
            before
        }
    }
}

/// Reports an event of object `key` to every queue that watches it; returns
/// whom to wake.
pub fn notify(
    instances: &mut Vec<Inotify>,
    key: u64,
    mask: u32,
    cookie: u32,
    name: Option<&[u8]>,
    groups: &mut WaitGroups,
) -> (woken: Vec<WakeTarget>)
    requires
        forall|i: int|
            0 <= i < old(instances)@.len() ==> (#[trigger] old(instances)@[i]).wf()
                && waiters_known(old(instances)@[i]@.event.waiters, old(groups)@),
    ensures
        final(instances)@.len() == old(instances)@.len(),
        forall|i: int|
            0 <= i < old(instances)@.len() ==> (#[trigger] final(instances)@[i]).wf() && final(instances)@[i]@ == told(
                old(instances)@[i]@,
                key,
                mask,
                cookie,
                match name {
                    Some(n) => Some(n@),
                    None => None,
                },
            ),
        ({
            let waits = told_waits(
                queue_views(old(instances)@),
                old(groups)@,
                key,
                mask,
                old(instances)@.len() as int,
            );
            &&& final(groups)@ == waits.0
            &&& woken@ == waits.1
        }),
{
    let ghost before = instances@;
    let ghost queues = queue_views(before);
    let ghost start = groups@;
    let ghost text = match name {
        Some(n) => Some(n@),
        None => None,
    };
    let mut woken: Vec<WakeTarget> = Vec::new();
    let mut at: usize = 0;
    while at < instances.len()
        invariant
            before == old(instances)@,
            start == old(groups)@,
            queues == queue_views(before),
            text == match name {
                Some(n) => Some(n@),
                None => None,
            },
            instances@.len() == before.len(),
            at <= before.len(),
            groups@.len() == start.len(),
            groups@ == told_waits(queues, start, key, mask, at as int).0,
            woken@ == told_waits(queues, start, key, mask, at as int).1,
            forall|i: int|
                0 <= i < before.len() ==> waiters_known(
                    (#[trigger] before[i])@.event.waiters,
                    start,
                ),
            forall|i: int|
                0 <= i < before.len() ==> (#[trigger] instances@[i]).wf() && instances@[i]@ == if i
                    < at {
                    told(before[i]@, key, mask, cookie, text)
                } else {
                    before[i]@
                },
        decreases before.len() - at,
    {
        proof {
            assert(queues[at as int] == before[at as int]@);
            assert(waiters_known(before[at as int]@.event.waiters, start));
            lemma_all_claimed(before[at as int]@.event.waiters, groups@);
        }
        let mut targets = instances[at].queue_for_key(key, mask, cookie, name, groups);
        woken.append(&mut targets);
        proof {
            let sofar = told_waits(queues, start, key, mask, at as int).1;
            assert(sofar + Seq::<WakeTarget>::empty() =~= sofar);
        }
        at = at + 1;
    }
    woken
}

/// A full queue tells once that events were lost, and takes no more events
/// until it is read.
pub proof fn law_overflow_is_told_once(
    m: InotifyModel,
    descriptor: i32,
    mask: u32,
    cookie: u32,
    name: Option<Seq<u8>>,
)
    requires
        m.ok(),
        total_len(m.queue) + EVENT_HEADER_SIZE + name_room(name) > MAX_QUEUE_BYTES,
    ensures
        ({
            let once = m.queued(descriptor, mask, cookie, name);
            once.overflowed && once.queued(descriptor, mask, cookie, name) == once
        }),
{
    if !m.overflowed {
        let record = record_of(NO_WATCH, IN_Q_OVERFLOW, 0, None);
        assert(m.queue.push(record).drop_last() =~= m.queue);
    }
}

/// An object is watched at most once by one queue.
pub proof fn law_object_is_watched_once(m: InotifyModel, i: int, j: int)
    requires
        m.ok(),
        0 <= i < j < m.watches.len(),
    ensures
        m.watches[i].key != m.watches[j].key,
{
}

proof fn lemma_word_in(bytes: Seq<u8>, at: int, value: u32)
    requires
        0 <= at,
        at + 4 <= bytes.len(),
        bytes.subrange(at, at + 4) == u32_bytes(value),
    ensures
        u32_at(bytes, at) == value,
{
    lemma_u32_round_trip(value);
    assert(bytes.subrange(at, at + 4)[0] == bytes[at]);
    assert(bytes.subrange(at, at + 4)[1] == bytes[at + 1]);
    assert(bytes.subrange(at, at + 4)[2] == bytes[at + 2]);
    assert(bytes.subrange(at, at + 4)[3] == bytes[at + 3]);
}

/// A record names the watch, says what happened, ties related events together
/// and carries the name of the file, ended by zero bytes up to a multiple of
/// four.
pub proof fn law_record_tells_the_event(
    descriptor: i32,
    mask: u32,
    cookie: u32,
    name: Seq<u8>,
)
    requires
        name.len() < 0x1000_0000,
    ensures
        ({
            let record = record_of(descriptor, mask, cookie, Some(name));
            let room = record.len() - 16;
            &&& u32_at(record, 0) == descriptor as u32
            &&& u32_at(record, 4) == mask
            &&& u32_at(record, 8) == cookie
            &&& u32_at(record, 12) == room
            &&& room % 4 == 0 && name.len() < room <= name.len() + 4
            &&& record.subrange(16, 16 + name.len() as int) == name
            &&& forall|i: int| 16 + name.len() <= i < record.len() ==> #[trigger] record[i] == 0
            &&& record_of(descriptor, mask, cookie, None).len() == 16
            &&& u32_at(record_of(descriptor, mask, cookie, None), 12) == 0
            &&& u32_at(record_of(descriptor, mask, cookie, None), 4) == mask
        }),
{
    let record = record_of(descriptor, mask, cookie, Some(name));
    let bare = record_of(descriptor, mask, cookie, None);
    let room = name_room(Some(name));
    assert(u32_bytes(descriptor as u32).len() == 4 && u32_bytes(mask).len() == 4 && u32_bytes(
        cookie,
    ).len() == 4 && u32_bytes(room as u32).len() == 4 && u32_bytes(0u32).len() == 4);
    assert(record.len() == 16 + room);
    assert(record.subrange(0, 4) =~= u32_bytes(descriptor as u32));
    assert(record.subrange(4, 8) =~= u32_bytes(mask));
    assert(record.subrange(8, 12) =~= u32_bytes(cookie));
    assert(record.subrange(12, 16) =~= u32_bytes(room as u32));
    assert(bare.subrange(4, 8) =~= u32_bytes(mask));
    assert(bare.subrange(12, 16) =~= u32_bytes(0u32));
    lemma_word_in(record, 0, descriptor as u32);
    lemma_word_in(record, 4, mask);
    lemma_word_in(record, 8, cookie);
    lemma_word_in(record, 12, room as u32);
    lemma_word_in(bare, 4, mask);
    lemma_word_in(bare, 12, 0);
    assert(record.subrange(16, 16 + name.len() as int) =~= name);
}

/// An event is told to a queue exactly if a watch for the object asks for it;
/// otherwise nothing changes.
pub proof fn law_watched_event_is_told(
    m: InotifyModel,
    key: u64,
    mask: u32,
    cookie: u32,
    name: Option<Seq<u8>>,
    i: int,
)
    requires
        m.ok(),
        0 <= i < m.watches.len(),
        m.watches[i].key == key,
    ensures
        m.watches_event(key, mask) <==> m.watches[i].mask & mask & 0xfffu32 != 0,
        m.watches[i].mask & mask & 0xfffu32 == 0 ==> told(m, key, mask, cookie, name) == m,
        m.watches[i].mask & mask & 0xfffu32 != 0 && m.watches[i].mask & 0x8000_0000u32 == 0 && mask
            & 0x400u32 == 0 && total_len(m.queue) + 16 + name_room(name) <= 0x10_0000 ==> {
            let after = told(m, key, mask, cookie, name);
            &&& after.queue == m.queue.push(
                record_of(m.watches[i].descriptor, mask, cookie, name),
            )
            &&& after.watches == m.watches
            &&& after.event.signaled
        },
{
    lemma_finds(m.watches, on_key(key), i);
    lemma_first_where(m.watches, on_key(key), 0);
    let at = first_where(m.watches, on_key(key), 0);
    if at < i {
        assert(m.watches[at].key != m.watches[i].key);
    }
}

/// An event for an object that is not watched is told to nobody.
pub proof fn law_unwatched_object_is_quiet(
    m: InotifyModel,
    key: u64,
    mask: u32,
    cookie: u32,
    name: Option<Seq<u8>>,
)
    requires
        forall|i: int| 0 <= i < m.watches.len() ==> (#[trigger] m.watches[i]).key != key,
    ensures
        told(m, key, mask, cookie, name) == m,
{
    lemma_first_where(m.watches, on_key(key), 0);
}

/// A watch that is to tell one event, and one whose object is gone, is removed
/// after its event, and a last record says so.
pub proof fn law_spent_watch_is_removed(
    m: InotifyModel,
    key: u64,
    mask: u32,
    cookie: u32,
    name: Option<Seq<u8>>,
    i: int,
)
    requires
        m.ok(),
        0 <= i < m.watches.len(),
        m.watches[i].key == key,
        m.watches[i].mask & mask & 0xfffu32 != 0,
        m.watches[i].mask & 0x8000_0000u32 != 0 || mask & 0x400u32 != 0,
        total_len(m.queue) + 32 + name_room(name) <= 0x10_0000,
    ensures
        ({
            let after = told(m, key, mask, cookie, name);
            let number = m.watches[i].descriptor;
            &&& after.watches == m.watches.remove(i)
            &&& after.queue == m.queue.push(record_of(number, mask, cookie, name)).push(
                record_of(number, 0x8000, 0, None),
            )
        }),
{
    lemma_finds(m.watches, on_key(key), i);
    lemma_first_where(m.watches, on_key(key), 0);
    let at = first_where(m.watches, on_key(key), 0);
    if at < i {
        assert(m.watches[at].key != m.watches[i].key);
    }
    let record = record_of(m.watches[i].descriptor, mask, cookie, name);
    assert(m.queue.push(record).drop_last() =~= m.queue);
    assert(record.len() == 16 + name_room(name)) by {
        match name {
            Some(n) => {},
            None => {},
        }
    }
    assert(total_len(m.queue.push(record)) == total_len(m.queue) + record.len());
}

/// A full queue keeps what it has and says, without a watch, that events were
/// lost.
pub proof fn law_full_queue_says_so(
    m: InotifyModel,
    descriptor: i32,
    mask: u32,
    cookie: u32,
    name: Option<Seq<u8>>,
)
    requires
        !m.overflowed,
        total_len(m.queue) + 16 + name_room(name) > 0x10_0000,
    ensures
        m.queued(descriptor, mask, cookie, name).overflowed,
        m.queued(descriptor, mask, cookie, name).queue == m.queue.push(
            record_of(-1i32, 0x4000, 0, None),
        ),
        m.queued(descriptor, mask, cookie, name).watches == m.watches,
{
}

/// A read takes as many whole records as fit, oldest first.
pub proof fn law_read_takes_what_fits(queue: Seq<Seq<u8>>, capacity: int)
    requires
        capacity >= 0,
    ensures
        ({
            let count = fitting(queue, capacity, 0);
            &&& 0 <= count <= queue.len()
            &&& total_len(queue.take(count)) <= capacity
            &&& count < queue.len() ==> total_len(queue.take(count + 1)) > capacity
        }),
{
    assert(queue.take(0) =~= Seq::empty());
    lemma_fitting(queue, capacity, 0);
    lemma_fitting_stops(queue, capacity, 0);
}

proof fn lemma_fitting_stops(queue: Seq<Seq<u8>>, capacity: int, at: int)
    requires
        0 <= at <= queue.len(),
    ensures
        fitting(queue, capacity, at) < queue.len() ==> total_len(
            queue.take(fitting(queue, capacity, at) + 1),
        ) > capacity,
    decreases queue.len() - at,
{
    if at < queue.len() && total_len(queue.take(at + 1)) <= capacity {
        lemma_fitting_stops(queue, capacity, at + 1);
    }
}

/// Records that were read are gone and the others stay, in order.
pub proof fn law_read_records_are_gone(m: InotifyModel, count: int)
    requires
        0 <= count <= m.queue.len(),
    ensures
        m.queue.take(count) + m.drained(count).queue == m.queue,
        m.drained(count).watches == m.watches,
        m.drained(count).nonblocking == m.nonblocking,
        count == m.queue.len() && count > 0 ==> !m.drained(count).event.signaled,
        count < m.queue.len() ==> m.drained(count).event.signaled == m.event.signaled,
{
    assert(m.queue.take(count) + m.queue.skip(count) =~= m.queue);
}

/// A watch asks for at least one of the twelve events; besides them it has only
/// the flags that say how to watch.
pub proof fn law_watch_asks_for_events(mask: u32)
    ensures
        mask_ok(mask) <==> mask & 0xfffu32 != 0 && mask & !0xa700_0fffu32 == 0,
{
    assert(0xfffu32 | 0xa700_0000u32 == 0xa700_0fffu32) by (bit_vector);
}

} // verus!
