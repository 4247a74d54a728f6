//! Log devices: the packet stream and the plain-text stream.

use vstd::prelude::*;
use super::{
    append_userspace, clear, console_level, first_sequence, has_packets, lines_of, next_packet,
    next_sequence, record_level, render_text, set_console_level, set_record_level, stats,
    text_line, user_emitted, user_printed, Level, Log, LogModel, NextPacket, Origin, ReadError,
    LEVEL_COUNT,
};
use super::packet::{
    law_packet_frames_itself, packet_bytes, PacketBuffer, PacketModel, MAX_PACKET_SIZE,
    PAYLOAD_CAPACITY, RING_SLOTS,
};
use crate::bytes::{
    copy_range, get_u32, lemma_u64_at, put_bytes, put_u32, put_u64, u32_at, u32_bytes, u64_at, u64_bytes, zeros,
};
use crate::fs::{Error, PollEvents};
use crate::lists::{first_where, lemma_first_where};
use crate::num::{min_int, min_usize};
use crate::sys::event::{waiters_known, WaitGroups};
use crate::sys::sync::WakeTarget;

verus! {

/// Reads the severity that is recorded.
pub const KLOG_GET_LEVEL: u64 = 0x8004_4b01;

/// Changes the severity that is recorded.
pub const KLOG_SET_LEVEL: u64 = 0x4004_4b02;

/// Reads the severity that is printed.
pub const KLOG_GET_CONSOLE_LEVEL: u64 = 0x8004_4b03;

/// Changes the severity that is printed.
pub const KLOG_SET_CONSOLE_LEVEL: u64 = 0x4004_4b04;

/// Hides every record so far.
pub const KLOG_CLEAR: u64 = 0x4b05;

/// Reads ring occupancy and the active filters.
pub const KLOG_GET_STATS: u64 = 0x8030_4b06;

/// Rewinds this descriptor to the oldest record.
pub const KLOG_SEEK_FIRST: u64 = 0x4b07;

/// Skips this descriptor to the end of the log.
pub const KLOG_SEEK_LAST: u64 = 0x4b08;

/// Largest single write that a log device accepts.
pub const MAX_USER_WRITE: usize = 4096;

/// How a device serves records.
#[derive(Copy, Clone, Debug, PartialEq, Eq, Structural)]
pub enum Encoding {
    /// Raw packets.
    Packets,
    /// Plain text lines.
    Text,
}

/// A reader as specifications see it.
#[verifier::ext_equal]
pub struct ReaderModel {
    /// Next sequence.
    pub sequence: u64,
    /// Rendered text that is left over from an earlier read.
    pub remaining: Seq<u8>,
}

/// Read position of one descriptor.
pub struct Reader {
    sequence: u64,
    line: Vec<u8>,
    offset: usize,
}

impl View for Reader {
    type V = ReaderModel;

    closed spec fn view(&self) -> ReaderModel {
        ReaderModel { sequence: self.sequence, remaining: self.line@.skip(self.offset as int) }
    }
}

/// What a read does next.
pub enum ReadStep {
    /// Copies these bytes out, and then confirms them.
    Copy(Vec<u8>, u64),
    /// Ends.
    Finish(Result<usize, Error>),
    /// Waits for records after this sequence.
    Wait(u64),
}

/// How a read ends that finds no record.
pub open spec fn dry(written: usize, nonblocking: bool, interrupted: bool, next: u64) -> ReadStep {
    if written != 0 {
        ReadStep::Finish(Ok(written))
    } else if nonblocking {
        ReadStep::Finish(Err(Error::WouldBlock))
    } else if interrupted {
        ReadStep::Finish(Err(Error::Interrupted))
    } else {
        ReadStep::Wait(next)
    }
}

impl ReaderModel {
    /// The reader with a line to serve, if there is one.
    pub open spec fn stocked(self, log: LogModel) -> ReaderModel {
        if self.remaining.len() > 0 {
            self
        } else {
            match log.upcoming(self.sequence) {
                Some(packet) => ReaderModel {
                    sequence: (log.position(self.sequence) + 1) as u64,
                    remaining: text_line(packet.record),
                },
                None => self,
            }
        }
    }
}

fn dry_step(error: ReadError, written: usize) -> (step: ReadStep)
    requires
        error != ReadError::BufferTooSmall,
    ensures
        step == if written != 0 {
            ReadStep::Finish(Ok(written))
        } else if error == ReadError::WouldBlock {
            ReadStep::Finish(Err(Error::WouldBlock))
        } else {
            ReadStep::Finish(Err(Error::Interrupted))
        },
{
    if written != 0 {
        return ReadStep::Finish(Ok(written));
    }
    match error {
        ReadError::WouldBlock => ReadStep::Finish(Err(Error::WouldBlock)),
        ReadError::Interrupted => ReadStep::Finish(Err(Error::Interrupted)),
        ReadError::BufferTooSmall => ReadStep::Finish(Err(Error::InvalidArgument)),
    }
}

impl Reader {
    /// The offset is inside the line.
    pub closed spec fn wf(self) -> bool {
        self.offset <= self.line@.len()
    }

    /// A reader at the oldest record.
    pub fn open(log: &Log) -> (reader: Self)
        ensures
            reader.wf(),
            reader@ == (ReaderModel { sequence: log@.first(), remaining: Seq::empty() }),
    {
        let reader = Reader { sequence: first_sequence(log), line: Vec::new(), offset: 0 };
        assert(reader@.remaining =~= Seq::empty());
        reader
    }

    /// What a read of packets into a buffer of `total` bytes does, of which
    /// `written` are filled.
    ///
    /// Packets come whole: a buffer that may be too small for one is refused.
    pub fn read_packets(
        &self,
        log: &mut Log,
        written: usize,
        total: usize,
        nonblocking: bool,
        interrupted: bool,
    ) -> (step: ReadStep)
        requires
            old(log).wf(),
            written <= total,
        ensures
            final(log).wf(),
            final(log)@ == if total - written >= MAX_PACKET_SIZE {
                old(log)@.taken(self@.sequence)
            } else {
                old(log)@
            },
            total < MAX_PACKET_SIZE ==> step == ReadStep::Finish(Err(Error::InvalidArgument)),
            total >= MAX_PACKET_SIZE && total - written < MAX_PACKET_SIZE ==> step
                == ReadStep::Finish(Ok(written)),
            total - written >= MAX_PACKET_SIZE ==> match old(log)@.upcoming(self@.sequence) {
                Some(packet) => step matches ReadStep::Copy(bytes, next) && bytes@ == packet_bytes(
                    packet,
                ) && next == old(log)@.position(self@.sequence) + 1 && bytes@.len() <= total - written,
                None => step == dry(written, nonblocking, interrupted, old(log)@.ring.next),
            },
    {
        if total < MAX_PACKET_SIZE {
            return ReadStep::Finish(Err(Error::InvalidArgument));
        }
        if total - written < MAX_PACKET_SIZE {
            return ReadStep::Finish(Ok(written));
        }
        let mut cursor: u64 = self.sequence;
        let mut buffer = PacketBuffer::new();
        match next_packet(log, &mut cursor, &mut buffer, nonblocking || written != 0, interrupted) {
            Ok(NextPacket::Ready) => {
                proof {
                    let packet = old(log)@.upcoming(self@.sequence)->Some_0;
                    assert(buffer.holds(packet));
                    law_packet_frames_itself(packet);
                }
                let bytes = copy_range(buffer.bytes(), 0, buffer.bytes().len());
                assert(bytes@ =~= buffer.contents());
                ReadStep::Copy(bytes, cursor)
            },
            Ok(NextPacket::Wait(observed)) => ReadStep::Wait(observed),
            Err(error) => dry_step(error, written),
        }
    }

    /// Moves past packets that were copied out.
    pub fn confirm_packets(&mut self, next: u64)
        requires
            old(self).wf(),
        ensures
            final(self).wf(),
            final(self)@ == (ReaderModel { sequence: next, ..old(self)@ }),
    {
        self.sequence = next;
    }

    /// What a read of text into a buffer of `total` bytes does, of which
    /// `written` are filled.
    ///
    /// A line may span two reads; what is left of it stays with the reader.
    pub fn read_text(
        &mut self,
        log: &mut Log,
        written: usize,
        total: usize,
        nonblocking: bool,
        interrupted: bool,
    ) -> (step: ReadStep)
        requires
            old(log).wf(),
            old(self).wf(),
            written <= total,
        ensures
            final(log).wf(),
            final(log)@ == if written < total && old(self)@.remaining.len() == 0 {
                old(log)@.taken(old(self)@.sequence)
            } else {
                old(log)@
            },
            final(self).wf(),
            written == total ==> step == ReadStep::Finish(Ok(written)) && final(self)@ == old(self)@,
            written < total ==> {
                let stocked = old(self)@.stocked(old(log)@);
                &&& final(self)@ == stocked
                &&& if stocked.remaining.len() > 0 {
                    step matches ReadStep::Copy(bytes, next) && bytes@ == stocked.remaining.take(
                        min_int(stocked.remaining.len() as int, total - written),
                    ) && next == stocked.sequence
                } else {
                    step == dry(written, nonblocking, interrupted, old(log)@.ring.next)
                }
            },
    {
        if written == total {
            return ReadStep::Finish(Ok(written));
        }
        if self.offset == self.line.len() {
            assert(self@.remaining =~= Seq::empty());
            let mut cursor: u64 = self.sequence;
            let mut buffer = PacketBuffer::new();
            match next_packet(
                log,
                &mut cursor,
                &mut buffer,
                nonblocking || written != 0,
                interrupted,
            ) {
                Ok(NextPacket::Ready) => {
                    let ghost packet = old(log)@.upcoming(self@.sequence)->Some_0;
                    assert(buffer.holds(packet));
                    self.line = render_text(&buffer);
                    self.offset = 0;
                    self.sequence = cursor;
                    assert(self.line@ == text_line(packet.record));
                    assert(self@.remaining =~= self.line@);
                    proof {
                        lemma_line_has_text(packet);
                    }
                },
                Ok(NextPacket::Wait(observed)) => {
                    return ReadStep::Wait(observed);
                },
                Err(error) => {
                    return dry_step(error, written);
                },
            }
        }
        let count: usize = min_usize(self.line.len() - self.offset, total - written);
        let bytes = copy_range(&self.line, self.offset, self.offset + count);
        assert(bytes@ =~= self@.remaining.take(count as int));
        ReadStep::Copy(bytes, self.sequence)
    }

    /// Moves past text that was copied out.
    pub fn confirm_text(&mut self, count: usize)
        requires
            old(self).wf(),
            count <= old(self)@.remaining.len(),
        ensures
            final(self).wf(),
            final(self)@ == (ReaderModel {
                remaining: old(self)@.remaining.skip(count as int),
                ..old(self)@
            }),
    {
        assert(self.offset + count <= self.line.len());
        self.offset = self.offset + count;
        assert(self@.remaining =~= old(self)@.remaining.skip(count as int));
    }

    /// Whether anything is left to serve.
    pub fn readable(&self, log: &Log, encoding: Encoding) -> (readable: bool)
        requires
            self.wf(),
        ensures
            readable == (encoding == Encoding::Text && self@.remaining.len() > 0
                || log@.position(self@.sequence) < log@.ring.next),
    {
        if encoding == Encoding::Text && self.offset < self.line.len() {
            return true;
        }
        has_packets(log, self.sequence)
    }

    /// Which of the requested events hold; a log device is always writable.
    pub fn poll(&self, log: &Log, encoding: Encoding, events: PollEvents) -> (ready: PollEvents)
        requires
            self.wf(),
        ensures
            ({
                let readable = encoding == Encoding::Text && self@.remaining.len() > 0
                    || log@.position(self@.sequence) < log@.ring.next;
                ready == (PollEvents {
                    readable: readable && events.readable,
                    writable: events.writable,
                    error: false,
                    hangup: false,
                    read_normal: readable && events.read_normal,
                    write_normal: events.write_normal,
                })
            }),
    {
        let readable: bool = self.readable(log, encoding);
        PollEvents {
            readable: readable && events.readable,
            writable: events.writable,
            error: false,
            hangup: false,
            read_normal: readable && events.read_normal,
            write_normal: events.write_normal,
        }
    }

    /// Whether a poll for `events` waits for the arrival of records.
    pub fn poll_events(&self, events: PollEvents) -> (arrival: bool)
        ensures
            arrival == (events.readable || events.read_normal),
    {
        events.readable || events.read_normal
    }

    /// Controls the log and this reader; returns the readers to wake, too.
    pub fn ioctl(
        &mut self,
        log: &mut Log,
        groups: &mut WaitGroups,
        request: u64,
        argument: &mut Vec<u8>,
    ) -> (result: (Result<u64, Error>, Vec<WakeTarget>))
        requires
            old(self).wf(),
            old(log).wf(),
            waiters_known(old(log)@.arrival.waiters, old(groups)@),
        ensures
            final(self).wf(),
            final(log).wf(),
            ({
                let (outcome, reader, log_after, bytes) = controlled(
                    old(self)@,
                    old(log)@,
                    request,
                    old(argument)@,
                );
                let signal = request == KLOG_CLEAR;
                &&& result.0 == outcome
                &&& final(self)@ == reader
                &&& final(log)@ == log_after
                &&& final(argument)@ == bytes
                &&& final(groups)@ == old(log)@.arrival.claims(signal, old(groups)@)
                &&& result.1@ == old(log)@.arrival.wakes(signal, old(groups)@)
            }),
    {
        if request == KLOG_CLEAR {
            let woken = clear(log, groups);
            self.sequence = first_sequence(log);
            return (Ok(0), woken);
        }
        (self.control(log, request, argument), Vec::new())
    }

    fn control(&mut self, log: &mut Log, request: u64, argument: &mut Vec<u8>) -> (result: Result<
        u64,
        Error,
    >)
        requires
            old(self).wf(),
            old(log).wf(),
            request != KLOG_CLEAR,
        ensures
            final(self).wf(),
            final(log).wf(),
            ({
                let (outcome, reader, log_after, bytes) = controlled(
                    old(self)@,
                    old(log)@,
                    request,
                    old(argument)@,
                );
                &&& result == outcome
                &&& final(self)@ == reader
                &&& final(log)@ == log_after
                &&& final(argument)@ == bytes
            }),
    {
        if request == KLOG_GET_LEVEL {
            store_u32(argument, record_level(log).as_raw() as u32)
        } else if request == KLOG_SET_LEVEL {
            match load_level(argument) {
                Ok(level) => {
                    let _ = set_record_level(log, level);
                    Ok(0)
                },
                Err(error) => Err(error),
            }
        } else if request == KLOG_GET_CONSOLE_LEVEL {
            store_u32(argument, console_level(log).as_raw() as u32)
        } else if request == KLOG_SET_CONSOLE_LEVEL {
            match load_level(argument) {
                Ok(level) => {
                    let _ = set_console_level(log, level);
                    Ok(0)
                },
                Err(error) => Err(error),
            }
        } else if request == KLOG_GET_STATS {
            if argument.len() != 48 {
                return Err(Error::InvalidArgument);
            }
            let bytes = encode_stats(log);
            *argument = bytes;
            Ok(0)
        } else if request == KLOG_SEEK_FIRST {
            self.sequence = first_sequence(log);
            Ok(0)
        } else if request == KLOG_SEEK_LAST {
            self.sequence = next_sequence(log);
            Ok(0)
        } else {
            Err(Error::InvalidArgument)
        }
    }
}

proof fn lemma_line_has_text(packet: PacketModel)
    ensures
        text_line(packet.record).len() > 0,
{
    let record = packet.record;
    assert(super::body(record).len() > 0);
    assert(super::rendered(record, super::text_style()).len() > 0);
}

/// The statistics in their wire format.
pub open spec fn stats_bytes(log: LogModel) -> Seq<u8> {
    u64_bytes(log.ring.next) + u64_bytes(log.first()) + u64_bytes(
        log.ring.overwritten,
    ) + u64_bytes(log.ring.truncated) + u32_bytes(RING_SLOTS as u32) + u32_bytes(PAYLOAD_CAPACITY as u32) + seq![
        log.record.raw(),
        log.console.raw(),
    ] + zeros(6)
}

fn encode_stats(log: &Log) -> (bytes: Vec<u8>)
    ensures
        bytes@ == stats_bytes(log@),
{
    let stats = stats(log);
    let mut bytes: Vec<u8> = Vec::new();
    put_u64(&mut bytes, stats.next_sequence);
    put_u64(&mut bytes, stats.first_sequence);
    put_u64(&mut bytes, stats.overwritten);
    put_u64(&mut bytes, stats.truncated);
    put_u32(&mut bytes, stats.slots);
    put_u32(&mut bytes, stats.slot_payload);
    bytes.push(stats.record_level);
    bytes.push(stats.console_level);
    put_bytes(&mut bytes, stats.reserved.as_slice());
    assert(bytes@ =~= stats_bytes(log@));
    bytes
}

/// A severity in an ioctl argument.
pub open spec fn argument_level(argument: Seq<u8>) -> Result<Level, Error> {
    if argument.len() != 4 || u32_at(argument, 0) >= LEVEL_COUNT {
        Err(Error::InvalidArgument)
    } else {
        Ok(Level::of(u32_at(argument, 0) as u8))
    }
}

/// What an ioctl returns, and what reader, log and argument are after it.
pub open spec fn controlled(
    reader: ReaderModel,
    log: LogModel,
    request: u64,
    argument: Seq<u8>,
) -> (Result<u64, Error>, ReaderModel, LogModel, Seq<u8>) {
    let refused = (Err(Error::InvalidArgument), reader, log, argument);
    let cleared = log.cleared();
    if request == KLOG_GET_LEVEL && argument.len() == 4 {
        (Ok(0), reader, log, u32_bytes(log.record.raw() as u32))
    } else if request == KLOG_GET_CONSOLE_LEVEL && argument.len() == 4 {
        (Ok(0), reader, log, u32_bytes(log.console.raw() as u32))
    } else if request == KLOG_SET_LEVEL && argument_level(argument).is_ok() {
        (Ok(0), reader, log.recording(argument_level(argument)->Ok_0), argument)
    } else if request == KLOG_SET_CONSOLE_LEVEL && argument_level(argument).is_ok() {
        (Ok(0), reader, log.printing(argument_level(argument)->Ok_0), argument)
    } else if request == KLOG_CLEAR {
        (Ok(0), ReaderModel { sequence: cleared.first(), ..reader }, cleared, argument)
    } else if request == KLOG_GET_STATS && argument.len() == 48 {
        (Ok(0), reader, log, stats_bytes(log))
    } else if request == KLOG_SEEK_FIRST {
        (Ok(0), ReaderModel { sequence: log.first(), ..reader }, log, argument)
    } else if request == KLOG_SEEK_LAST {
        (Ok(0), ReaderModel { sequence: log.ring.next, ..reader }, log, argument)
    } else {
        refused
    }
}

fn store_u32(argument: &mut Vec<u8>, value: u32) -> (result: Result<u64, Error>)
    ensures
        old(argument)@.len() == 4 ==> result == Ok::<u64, Error>(0) && final(argument)@
            == u32_bytes(value),
        old(argument)@.len() != 4 ==> result == Err::<u64, Error>(Error::InvalidArgument)
            && final(argument)@ == old(argument)@,
{
    if argument.len() != 4 {
        return Err(Error::InvalidArgument);
    }
    let mut bytes: Vec<u8> = Vec::new();
    put_u32(&mut bytes, value);
    assert(bytes@ =~= u32_bytes(value));
    *argument = bytes;
    Ok(0)
}

fn load_level(argument: &Vec<u8>) -> (level: Result<Level, Error>)
    ensures
        level == argument_level(argument@),
{
    if argument.len() != 4 {
        return Err(Error::InvalidArgument);
    }
    let value: u32 = get_u32(argument, 0);
    if value >= LEVEL_COUNT as u32 {
        return Err(Error::InvalidArgument);
    }
    Ok(Level::from_raw(value as u8))
}

/// Whether a byte is a decimal digit.
pub open spec fn is_digit(b: u8) -> bool {
    0x30 <= b <= 0x39
}

/// The value of one or two digits.
pub open spec fn digits_value(digits: Seq<u8>) -> int {
    if digits.len() == 1 {
        digits[0] - 0x30
    } else {
        10 * (digits[0] - 0x30) + (digits[1] - 0x30)
    }
}

/// Which byte ends a level prefix.
pub open spec fn closes() -> spec_fn(u8) -> bool {
    |b: u8| b == 0x3e
}

/// The severity and the message of text that may start with a level in angle
/// brackets.
pub open spec fn level_prefix(text: Seq<u8>) -> (Level, Seq<u8>) {
    let end = first_where(text, closes(), 1);
    let digits = text.subrange(1, end);
    if text.len() > 0 && text[0] == 0x3c && end < text.len() && 1 <= digits.len() <= 2 && (forall|
        i: int,
    |
        0 <= i < digits.len() ==> is_digit(#[trigger] digits[i])) && digits_value(digits)
        < LEVEL_COUNT {
        (Level::of(digits_value(digits) as u8), text.skip(end + 1))
    } else {
        (Level::Info, text)
    }
}

/// Splits a leading level in angle brackets from text.
pub fn split_level_prefix(text: &[u8]) -> (split: (Level, Vec<u8>))
    ensures
        split.0 == level_prefix(text@).0,
        split.1@ == level_prefix(text@).1,
{
    let whole = copy_range(text, 0, text.len());
    assert(whole@ =~= text@);
    if text.len() == 0 || text[0] != 0x3c {
        return (Level::Info, whole);
    }
    let mut end: usize = 1;
    while end < text.len() && text[end] != 0x3e
        invariant
            1 <= end <= text@.len(),
            first_where(text@, closes(), 1) == first_where(text@, closes(), end as int),
        decreases text@.len() - end,
    {
        end = end + 1;
    }
    let ghost digits = text@.subrange(1, end as int);
    if end == text.len() || end == 1 || end > 3 {
        return (Level::Info, whole);
    }
    assert(digits[0] == text@[1]);
    if text[1] < 0x30 || text[1] > 0x39 {
        assert(!is_digit(digits[0]));
        return (Level::Info, whole);
    }
    let mut value: u8 = text[1] - 0x30;
    if end == 3 {
        assert(digits[1] == text@[2]);
        if text[2] < 0x30 || text[2] > 0x39 {
            assert(!is_digit(digits[1]));
            return (Level::Info, whole);
        }
        value = value * 10 + (text[2] - 0x30);
    }
    assert(forall|i: int| 0 <= i < digits.len() ==> is_digit(#[trigger] digits[i]));
    assert(value == digits_value(digits));
    if value >= LEVEL_COUNT {
        return (Level::Info, whole);
    }
    let rest = copy_range(text, end + 1, text.len());
    assert(rest@ =~= text@.skip(end + 1));
    (Level::from_raw(value), rest)
}

/// Writes text of userspace to the log, and returns the lines that the console
/// prints of it and the readers to wake.
pub fn write_log(log: &mut Log, groups: &mut WaitGroups, text: &[u8], origin: Origin) -> (result:
    Result<(usize, Vec<Vec<u8>>, Vec<WakeTarget>), Error>)
    requires
        old(log).wf(),
        waiters_known(old(log)@.arrival.waiters, old(groups)@),
        old(log)@.ring.next + MAX_USER_WRITE <= u64::MAX,
    ensures
        final(log).wf(),
        text@.len() > MAX_USER_WRITE ==> (result matches Err(Error::InvalidArgument))
            && final(log)@ == old(log)@ && final(groups)@ == old(groups)@,
        text@.len() <= MAX_USER_WRITE ==> {
            let (level, message) = level_prefix(text@);
            let list = super::messages(message, 0, Seq::empty());
            let signal = super::user_arrives(old(log)@, level, list, origin);
            &&& result matches Ok((count, printed, woken))
            &&& count == text@.len()
            &&& final(log)@ == user_emitted(old(log)@, level, list, origin)
            &&& lines_of(printed@) == user_printed(old(log)@, level, list, origin)
            &&& final(groups)@ == old(log)@.arrival.claims(signal, old(groups)@)
            &&& woken@ == old(log)@.arrival.wakes(signal, old(groups)@)
        },
{
    if text.len() > MAX_USER_WRITE {
        return Err(Error::InvalidArgument);
    }
    proof {
        if text@.len() > 0 {
            lemma_first_where(text@, closes(), 1);
        }
    }
    let (level, message) = split_level_prefix(text);
    let (printed, woken) = append_userspace(log, groups, level, &message, origin);
    Ok((text.len(), printed, woken))
}

/// A level that was set is read back.
pub proof fn law_level_round_trip(reader: ReaderModel, log: LogModel, level: Level, room: Seq<u8>)
    requires
        room.len() == 4,
    ensures
        ({
            let (result, after, changed, _) = controlled(
                reader,
                log,
                KLOG_SET_LEVEL,
                u32_bytes(level.raw() as u32),
            );
            &&& result == Ok::<u64, Error>(0)
            &&& controlled(after, changed, KLOG_GET_LEVEL, room).3 == u32_bytes(level.raw() as u32)
        }),
{
    crate::bytes::lemma_u32_round_trip(level.raw() as u32);
}

/// A reader that found nothing more hands out what it has; one that has nothing
/// does not wait if it is not to, ends on a signal, and waits otherwise.
pub proof fn law_dry_reader_waits_or_ends(written: usize, nonblocking: bool, interrupted: bool, next: u64)
    ensures
        written > 0 ==> dry(written, nonblocking, interrupted, next) == ReadStep::Finish(
            Ok::<usize, Error>(written),
        ),
        written == 0 && nonblocking ==> dry(written, nonblocking, interrupted, next)
            == ReadStep::Finish(Err::<usize, Error>(Error::WouldBlock)),
        written == 0 && !nonblocking && interrupted ==> dry(written, nonblocking, interrupted, next)
            == ReadStep::Finish(Err::<usize, Error>(Error::Interrupted)),
        written == 0 && !nonblocking && !interrupted ==> dry(
            written,
            nonblocking,
            interrupted,
            next,
        ) == ReadStep::Wait(next),
{
}

/// A reader finishes its line before it takes the next record, and takes that
/// whole and once.
pub proof fn law_reader_takes_next_record(reader: ReaderModel, log: LogModel)
    requires
        log.wf(),
    ensures
        reader.remaining.len() > 0 ==> reader.stocked(log) == reader,
        reader.remaining.len() == 0 && log.position(reader.sequence) < log.ring.next ==> {
            let after = reader.stocked(log);
            &&& after.sequence == log.position(reader.sequence) + 1
            &&& after.sequence > reader.sequence
            &&& log.upcoming(reader.sequence) matches Some(packet)
            &&& after.remaining == text_line(packet.record)
        },
        reader.remaining.len() == 0 && log.position(reader.sequence) >= log.ring.next
            ==> reader.stocked(log) == reader,
{
    if log.position(reader.sequence) < log.ring.next {
        crate::sys::klog::law_waiting_record_is_ready(log, reader.sequence);
    }
}

/// A level in angle brackets in front of a text is taken off it and is its
/// level; a text without one is informational and stays whole.
pub proof fn law_level_prefix_is_taken_off(text: Seq<u8>, level: Level)
    ensures
        level_prefix(seq![0x3cu8, (0x30 + level.raw()) as u8, 0x3eu8] + text) == (level, text),
        text.len() == 0 || text[0] != 0x3c ==> level_prefix(text) == (Level::Info, text),
{
    let digit = (0x30 + level.raw()) as u8;
    let whole = seq![0x3cu8, digit, 0x3eu8] + text;
    reveal_with_fuel(first_where, 3);
    assert(whole[0] == 0x3c && whole[1] == digit && whole[2] == 0x3e);
    assert(first_where(whole, closes(), 1) == 2);
    let digits = whole.subrange(1, 2);
    assert(digits.len() == 1 && digits[0] == digit);
    assert(whole.skip(3) =~= text);
}

/// The statistics give the next and the first number, how many records were
/// lost and cut, how large the log is, and its levels.
pub proof fn law_statistics_are_told(log: LogModel)
    ensures
        ({
            let bytes = stats_bytes(log);
            &&& bytes.len() == 48
            &&& u64_at(bytes, 0) == log.ring.next
            &&& u64_at(bytes, 8) == log.first()
            &&& u64_at(bytes, 16) == log.ring.overwritten
            &&& u64_at(bytes, 24) == log.ring.truncated
            &&& bytes[40] == log.record.raw()
            &&& bytes[41] == log.console.raw()
        }),
{
    let bytes = stats_bytes(log);
    assert(bytes.subrange(0, 8) =~= u64_bytes(log.ring.next));
    assert(bytes.subrange(8, 16) =~= u64_bytes(log.first()));
    assert(bytes.subrange(16, 24) =~= u64_bytes(log.ring.overwritten));
    assert(bytes.subrange(24, 32) =~= u64_bytes(log.ring.truncated));
    lemma_u64_at(bytes, 0, log.ring.next);
    lemma_u64_at(bytes, 8, log.first());
    lemma_u64_at(bytes, 16, log.ring.overwritten);
    lemma_u64_at(bytes, 24, log.ring.truncated);
}

/// Seeking moves the reader alone, to the first record that is left or behind
/// the last; clearing hides what was logged from everyone; asking changes
/// nothing; and what is not understood is refused and changes nothing.
pub proof fn law_requests_do_what_they_say(
    reader: ReaderModel,
    log: LogModel,
    request: u64,
    argument: Seq<u8>,
)
    ensures
        ({
            let (result, after, changed, answer) = controlled(reader, log, request, argument);
            &&& after.remaining == reader.remaining
            &&& request == 0x4b07 ==> after.sequence == log.first() && changed == log
            &&& request == 0x4b08 ==> after.sequence == log.ring.next && changed == log
            &&& request == 0x4b05 ==> changed == log.cleared() && after.sequence
                == log.cleared().first()
            &&& request == 0x8004_4b01 && argument.len() == 4 ==> answer == u32_bytes(
                log.record.raw() as u32,
            ) && changed == log
            &&& request == 0x8004_4b03 && argument.len() == 4 ==> answer == u32_bytes(
                log.console.raw() as u32,
            ) && changed == log
            &&& request == 0x4004_4b04 && argument.len() == 4 && u32_at(argument, 0) < 6
                ==> changed.console.raw() == u32_at(argument, 0) && result == Ok::<u64, Error>(0)
            &&& request == 0x4004_4b02 && argument.len() == 4 && u32_at(argument, 0) < 6
                ==> changed.record.raw() == u32_at(argument, 0) && result == Ok::<u64, Error>(0)
            &&& request == 0x4004_4b02 && argument.len() == 4 && u32_at(argument, 0) >= 6
                ==> result == Err::<u64, Error>(Error::InvalidArgument)
            &&& result.is_err() ==> changed == log && after == reader && result == Err::<u64, Error>(
                Error::InvalidArgument,
            )
        }),
{
}

} // verus!
