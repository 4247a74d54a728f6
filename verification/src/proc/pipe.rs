//! Anonymous byte pipes.

use vstd::prelude::*;
use crate::bytes::copy_range;
use crate::fs::PollEvents;
use crate::sys::event::{all_claimed, all_targets, waiters_known, Event, EventModel, WaitGroups};
use crate::sys::sync::WakeTarget;

verus! {

/// Most bytes that a pipe holds.
pub const PIPE_CAPACITY: usize = 64 * 1024;

/// Pipe operation failure.
#[derive(Copy, Clone, Debug, PartialEq, Eq, Structural)]
pub enum PipeError {
    /// The end does not permit the operation.
    BadDescriptor,
    /// The operation would have to wait.
    TryAgain,
    /// Nobody reads the pipe any more.
    BrokenPipe,
}

/// Which end of a pipe.
#[derive(Copy, Clone, Debug, PartialEq, Eq, Structural)]
pub enum Direction {
    /// The end that reads.
    Read,
    /// The end that writes.
    Write,
}

/// One end of a pipe.
#[derive(Copy, Clone, Debug, PartialEq, Eq, Structural)]
pub struct PipeEnd {
    /// Which end.
    pub direction: Direction,
    /// Whether operations never wait.
    pub nonblocking: bool,
}

/// A pipe as specifications see it.
#[verifier::ext_equal]
pub struct PipeModel {
    /// Bytes written and not yet read, oldest first.
    pub buffer: Seq<u8>,
    /// Whether the reading end is open.
    pub reader_open: bool,
    /// Whether the writing end is open.
    pub writer_open: bool,
    /// Event for readers.
    pub readable: EventModel,
    /// Event for writers.
    pub writable: EventModel,
}

/// A pipe.
pub struct Pipe {
    buffer: Vec<u8>,
    reader_open: bool,
    writer_open: bool,
    readable: Event,
    writable: Event,
}

/// What reading or writing a pipe ended in.
pub enum PipeStep<T> {
    /// It is done; these threads have to be woken.
    Done(T, Vec<WakeTarget>),
    /// Wait for the event of this end, then try again.
    Sleep,
}

impl View for Pipe {
    type V = PipeModel;

    closed spec fn view(&self) -> PipeModel {
        PipeModel {
            buffer: self.buffer@,
            reader_open: self.reader_open,
            writer_open: self.writer_open,
            readable: self.readable@,
            writable: self.writable@,
        }
    }
}

/// An event after it was signaled.
pub open spec fn raised() -> EventModel {
    EventModel { signaled: true, waiters: Seq::empty() }
}

/// The smaller number.
pub open spec fn least(a: int, b: int) -> int {
    if a < b {
        a
    } else {
        b
    }
}

impl Pipe {
    /// The pipe holds no more than it may.
    pub closed spec fn wf(self) -> bool {
        &&& self.buffer@.len() <= PIPE_CAPACITY
        &&& self.readable.wf()
        &&& self.writable.wf()
    }

    /// A consistent pipe holds no more than it may.
    pub proof fn lemma_wf(&self)
        requires
            self.wf(),
        ensures
            self@.buffer.len() <= PIPE_CAPACITY,
    {
    }

    /// An empty pipe with both ends open.
    pub fn new() -> (pipe: Self)
        ensures
            pipe.wf(),
            pipe@ == (PipeModel {
                buffer: Seq::empty(),
                reader_open: true,
                writer_open: true,
                readable: EventModel { signaled: false, waiters: Seq::empty() },
                writable: EventModel { signaled: false, waiters: Seq::empty() },
            }),
    {
        Pipe {
            buffer: Vec::new(),
            reader_open: true,
            writer_open: true,
            readable: Event::new(),
            writable: Event::new(),
        }
    }

    /// Reads up to `length` bytes through `end`.
    pub fn read(&mut self, end: &PipeEnd, length: usize, groups: &mut WaitGroups) -> (step: Result<
        PipeStep<Vec<u8>>,
        PipeError,
    >)
        requires
            old(self).wf(),
            waiters_known(old(self)@.writable.waiters, old(groups)@),
        ensures
            final(self).wf(),
            ({
                let m = old(self)@;
                let count = least(length as int, m.buffer.len() as int);
                if end.direction != Direction::Read {
                    &&& step == Err::<PipeStep<Vec<u8>>, PipeError>(PipeError::BadDescriptor)
                    &&& final(self)@ == m
                    &&& final(groups)@ == old(groups)@
                } else if length == 0 || (m.buffer.len() == 0 && !m.writer_open) {
                    &&& step matches Ok(PipeStep::Done(data, woken)) && data@.len() == 0
                        && woken@.len() == 0
                    &&& final(self)@ == m
                    &&& final(groups)@ == old(groups)@
                } else if m.buffer.len() > 0 {
                    &&& step matches Ok(PipeStep::Done(data, woken)) && data@ == m.buffer.take(
                        count,
                    ) && woken@ == all_targets(m.writable.waiters, old(groups)@)
                    &&& final(self)@ == (PipeModel {
                        buffer: m.buffer.skip(count),
                        writable: raised(),
                        ..m
                    })
                    &&& final(groups)@ == all_claimed(m.writable.waiters, old(groups)@)
                } else if end.nonblocking {
                    &&& step == Err::<PipeStep<Vec<u8>>, PipeError>(PipeError::TryAgain)
                    &&& final(self)@ == m
                    &&& final(groups)@ == old(groups)@
                } else {
                    &&& step matches Ok(PipeStep::Sleep)
                    &&& final(self)@ == (PipeModel {
                        readable: EventModel { signaled: false, ..m.readable },
                        ..m
                    })
                    &&& final(groups)@ == old(groups)@
                }
            }),
            step matches Ok(PipeStep::Done(data, _)) ==> {
                &&& data@ + final(self)@.buffer == old(self)@.buffer
                &&& data@.len() <= length
                &&& data@.len() == 0 ==> length == 0 || (old(self)@.buffer.len() == 0
                    && !old(self)@.writer_open)
                &&& data@.len() < length ==> final(self)@.buffer.len() == 0
            },
            step matches Ok(PipeStep::Sleep) ==> old(self)@.buffer.len() == 0
                && old(self)@.writer_open && !end.nonblocking && length > 0
                && !final(self)@.readable.signaled,
            !(step matches Ok(PipeStep::Done(_, _))) ==> final(self)@.buffer == old(self)@.buffer,
            end.direction == Direction::Read && (old(self)@.buffer.len() > 0 || length == 0
                || !old(self)@.writer_open) ==> step matches Ok(PipeStep::Done(_, _)),
            final(self)@.reader_open == old(self)@.reader_open,
            final(self)@.writer_open == old(self)@.writer_open,
    {
        if end.direction != Direction::Read {
            return Err(PipeError::BadDescriptor);
        }
        if length == 0 {
            return Ok(PipeStep::Done(Vec::new(), Vec::new()));
        }
        if self.buffer.len() > 0 {
            let count: usize = if length < self.buffer.len() {
                length
            } else {
                self.buffer.len()
            };
            let data = copy_range(&self.buffer, 0, count);
            let rest = copy_range(&self.buffer, count, self.buffer.len());
            assert(data@ =~= self.buffer@.take(count as int));
            assert(rest@ =~= self.buffer@.skip(count as int));
            self.buffer = rest;
            let woken = self.writable.signal(groups);
            return Ok(PipeStep::Done(data, woken));
        }
        if !self.writer_open {
            return Ok(PipeStep::Done(Vec::new(), Vec::new()));
        }
        if end.nonblocking {
            return Err(PipeError::TryAgain);
        }
        let _ = self.readable.reset();
        Ok(PipeStep::Sleep)
    }

    /// Writes as much of `input` as fits through `end`; returns how much.
    pub fn write(&mut self, end: &PipeEnd, input: &[u8], groups: &mut WaitGroups) -> (step: Result<
        PipeStep<usize>,
        PipeError,
    >)
        requires
            old(self).wf(),
            waiters_known(old(self)@.readable.waiters, old(groups)@),
        ensures
            final(self).wf(),
            ({
                let m = old(self)@;
                let count = least(input@.len() as int, PIPE_CAPACITY - m.buffer.len());
                if end.direction != Direction::Write {
                    &&& step == Err::<PipeStep<usize>, PipeError>(PipeError::BadDescriptor)
                    &&& final(self)@ == m
                    &&& final(groups)@ == old(groups)@
                } else if input@.len() == 0 {
                    &&& step matches Ok(PipeStep::Done(n, woken)) && n == 0 && woken@.len() == 0
                    &&& final(self)@ == m
                    &&& final(groups)@ == old(groups)@
                } else if !m.reader_open {
                    &&& step == Err::<PipeStep<usize>, PipeError>(PipeError::BrokenPipe)
                    &&& final(self)@ == m
                    &&& final(groups)@ == old(groups)@
                } else if m.buffer.len() < PIPE_CAPACITY {
                    &&& step matches Ok(PipeStep::Done(n, woken)) && n == count && woken@
                        == all_targets(m.readable.waiters, old(groups)@)
                    &&& final(self)@ == (PipeModel {
                        buffer: m.buffer + input@.take(count),
                        readable: raised(),
                        ..m
                    })
                    &&& final(groups)@ == all_claimed(m.readable.waiters, old(groups)@)
                } else if end.nonblocking {
                    &&& step == Err::<PipeStep<usize>, PipeError>(PipeError::TryAgain)
                    &&& final(self)@ == m
                    &&& final(groups)@ == old(groups)@
                } else {
                    &&& step matches Ok(PipeStep::Sleep)
                    &&& final(self)@ == (PipeModel {
                        writable: EventModel { signaled: false, ..m.writable },
                        ..m
                    })
                    &&& final(groups)@ == old(groups)@
                }
            }),
            step matches Ok(PipeStep::Done(count, _)) ==> {
                &&& count <= input@.len()
                &&& final(self)@.buffer == old(self)@.buffer + input@.take(count as int)
                &&& input@.len() > 0 ==> count > 0 && old(self)@.reader_open
                &&& count < input@.len() ==> final(self)@.buffer.len() == 65536
            },
            step matches Ok(PipeStep::Sleep) ==> old(self)@.buffer.len() == 65536
                && old(self)@.reader_open && !end.nonblocking && !final(self)@.writable.signaled,
            !(step matches Ok(PipeStep::Done(_, _))) ==> final(self)@.buffer == old(self)@.buffer,
            end.direction == Direction::Write && input@.len() > 0 && !old(self)@.reader_open
                ==> step == Err::<PipeStep<usize>, PipeError>(PipeError::BrokenPipe),
            end.direction == Direction::Write && old(self)@.reader_open && old(self)@.buffer.len()
                < 65536 ==> step matches Ok(PipeStep::Done(_, _)),
            final(self)@.reader_open == old(self)@.reader_open,
            final(self)@.writer_open == old(self)@.writer_open,
    {
        if end.direction != Direction::Write {
            return Err(PipeError::BadDescriptor);
        }
        if input.len() == 0 {
            return Ok(PipeStep::Done(0, Vec::new()));
        }
        if !self.reader_open {
            return Err(PipeError::BrokenPipe);
        }
        let available: usize = PIPE_CAPACITY - self.buffer.len();
        if available != 0 {
            let count: usize = if available < input.len() {
                available
            } else {
                input.len()
            };
            let mut at: usize = 0;
            let ghost before = self.buffer@;
            while at < count
                invariant
                    at <= count <= input@.len(),
                    before == old(self).buffer@,
                    self.buffer@ =~= before + input@.take(at as int),
                    *self == (Pipe { buffer: self.buffer, ..*old(self) }),
                decreases count - at,
            {
                self.buffer.push(input[at]);
                at = at + 1;
            }
            let woken = self.readable.signal(groups);
            return Ok(PipeStep::Done(count, woken));
        }
        if end.nonblocking {
            return Err(PipeError::TryAgain);
        }
        let _ = self.writable.reset();
        Ok(PipeStep::Sleep)
    }

    /// Returns what `end` is ready for.
    pub fn poll(&self, end: &PipeEnd, requested: &PollEvents) -> (ready: PollEvents)
        ensures
            ready == match end.direction {
                Direction::Read => PollEvents {
                    readable: requested.readable && self@.buffer.len() > 0,
                    read_normal: requested.read_normal && self@.buffer.len() > 0,
                    hangup: !self@.writer_open,
                    ..PollEvents::nothing()
                },
                Direction::Write => if !self@.reader_open {
                    PollEvents { error: true, ..PollEvents::nothing() }
                } else {
                    PollEvents {
                        writable: requested.writable && self@.buffer.len() < PIPE_CAPACITY,
                        write_normal: requested.write_normal && self@.buffer.len() < PIPE_CAPACITY,
                        ..PollEvents::nothing()
                    }
                },
            },
            end.direction == Direction::Read ==> (ready.hangup <==> !self@.writer_open)
                && !ready.writable && (requested.readable ==> (ready.readable
                <==> self@.buffer.len() > 0)),
            end.direction == Direction::Write ==> (ready.error <==> !self@.reader_open)
                && !ready.readable && (requested.writable && self@.reader_open ==> (ready.writable
                <==> self@.buffer.len() < 65536)),
    {
        let mut ready = PollEvents::empty();
        match end.direction {
            Direction::Read => {
                if self.buffer.len() != 0 {
                    ready.readable = requested.readable;
                    ready.read_normal = requested.read_normal;
                }
                ready.hangup = !self.writer_open;
            },
            Direction::Write => {
                if !self.reader_open {
                    ready.error = true;
                } else if self.buffer.len() < PIPE_CAPACITY {
                    ready.writable = requested.writable;
                    ready.write_normal = requested.write_normal;
                }
            },
        }
        ready
    }

    /// Closes one end and tells the other.
    pub fn close(&mut self, direction: Direction, groups: &mut WaitGroups) -> (woken: Vec<WakeTarget>)
        requires
            old(self).wf(),
            waiters_known(old(self)@.readable.waiters, old(groups)@),
            waiters_known(old(self)@.writable.waiters, old(groups)@),
        ensures
            final(self).wf(),
            match direction {
                Direction::Read => {
                    &&& final(self)@ == (PipeModel {
                        reader_open: false,
                        writable: raised(),
                        ..old(self)@
                    })
                    &&& final(groups)@ == all_claimed(old(self)@.writable.waiters, old(groups)@)
                    &&& woken@ == all_targets(old(self)@.writable.waiters, old(groups)@)
                },
                Direction::Write => {
                    &&& final(self)@ == (PipeModel {
                        writer_open: false,
                        readable: raised(),
                        ..old(self)@
                    })
                    &&& final(groups)@ == all_claimed(old(self)@.readable.waiters, old(groups)@)
                    &&& woken@ == all_targets(old(self)@.readable.waiters, old(groups)@)
                },
            },
    {
        match direction {
            Direction::Read => {
                self.reader_open = false;
                self.writable.signal(groups)
            },
            Direction::Write => {
                self.writer_open = false;
                self.readable.signal(groups)
            },
        }
    }
}

impl PipeEnd {
    /// Creates the reading and the writing end of a pipe.
    pub fn pair() -> (ends: (Self, Self))
        ensures
            ends.0 == (PipeEnd { direction: Direction::Read, nonblocking: false }),
            ends.1 == (PipeEnd { direction: Direction::Write, nonblocking: false }),
    {
        (
            PipeEnd { direction: Direction::Read, nonblocking: false },
            PipeEnd { direction: Direction::Write, nonblocking: false },
        )
    }

    /// Returns the POSIX access mode.
    pub fn access_mode(&self) -> (mode: u64)
        ensures
            mode == match self.direction {
                Direction::Read => 0u64,
                Direction::Write => 1,
            },
    {
        match self.direction {
            Direction::Read => 0,
            Direction::Write => 1,
        }
    }

    /// Changes whether operations never wait.
    pub fn set_nonblocking(&mut self, value: bool)
        ensures
            *final(self) == (PipeEnd { nonblocking: value, ..*old(self) }),
    {
        self.nonblocking = value;
    }

    /// Returns whether operations never wait.
    pub fn is_nonblocking(&self) -> (nonblocking: bool)
        ensures
            nonblocking == self.nonblocking,
    {
        self.nonblocking
    }
}

/// The bytes still in a pipe after `written` went in at its end and `count`
/// came out at its front.
pub open spec fn moved(buffer: Seq<u8>, written: Seq<u8>, count: int) -> Seq<u8> {
    (buffer + written).skip(count)
}

/// A pipe hands bytes out in the order in which they came in, each once: what
/// was read, followed by what is left, is what was there and what was written.
pub proof fn law_pipe_is_fifo(buffer: Seq<u8>, written: Seq<u8>, count: int)
    requires
        0 <= count <= (buffer + written).len(),
    ensures
        (buffer + written).take(count) + moved(buffer, written, count) == buffer + written,
{
    assert((buffer + written).take(count) + moved(buffer, written, count) =~= buffer + written);
}

} // verus!
