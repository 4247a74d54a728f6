//! Logging backend: formatted records in a ring, and output sinks.
//!
//! Readers see the records as one stream of lines, addressed by byte offsets.

use vstd::prelude::*;
use crate::bytes::{copy_all, copy_range, put_bytes};
use crate::num::{min_int, min_usize};
use crate::sys::event::{waiters_known, Event, EventModel, WaitGroups};
use crate::sys::klog::{Filter, Level};
use crate::sys::sync::WakeTarget;
use crate::text::{decimal, put_decimal};

verus! {

/// Number of entries in the ring.
pub const RING_CAPACITY: usize = 512;

/// Bytes that a record holds.
pub const RECORD_CAPACITY: usize = 256;

/// Maximum number of registered sinks.
pub const MAX_SINKS: usize = 8;

/// Failure while reading the log stream.
#[derive(Copy, Clone, Debug, PartialEq, Eq, Structural)]
pub enum LogReadError {
    /// The requested data was overwritten.
    Overrun,
    /// A nonblocking read found no new data.
    WouldBlock,
}

/// One formatted message.
pub struct Record {
    message: Vec<u8>,
    level: usize,
    cpu: usize,
    offset: u64,
}

/// A record as specifications see it.
#[verifier::ext_equal]
pub struct EntryModel {
    /// Formatted message.
    pub message: Seq<u8>,
    /// Severity as a number.
    pub level: usize,
    /// CPU that produced it.
    pub cpu: usize,
    /// Where it begins in the stream.
    pub offset: u64,
}

impl View for Record {
    type V = EntryModel;

    closed spec fn view(&self) -> EntryModel {
        EntryModel {
            message: self.message@,
            level: self.level,
            cpu: self.cpu,
            offset: self.offset,
        }
    }
}

/// What a record keeps of a message.
pub open spec fn kept(message: Seq<u8>) -> Seq<u8> {
    message.take(min_int(message.len() as int, RECORD_CAPACITY as int))
}

/// The severity of a facade record.
pub open spec fn severity(level: Filter) -> Level {
    match level {
        Filter::Error => Level::Error,
        Filter::Warn => Level::Warn,
        Filter::Info => Level::Info,
        Filter::Debug => Level::Debug,
        Filter::Trace => Level::Trace,
    }
}

/// A log message with its severity and source location.
pub open spec fn formatted(level: Filter, path: Option<Seq<u8>>, line: Option<u32>, message: Seq<u8>) -> Seq<u8> {
    let mark = severity(level);
    seq![0x5bu8, 0x1b, 0x5b] + mark.attributes() + seq![
        0x6du8,
        mark.mark(),
        0x1b,
        0x5b,
        0x30,
        0x6d,
        0x5d,
    ] + seq![0x20u8, 0x1b, 0x5b, 0x32, 0x6d, 0x28] + (match path {
        Some(path) => path,
        None => seq![0x3fu8, 0x3f, 0x3f],
    }) + seq![0x3au8] + decimal(
        match line {
            Some(line) => line as int,
            None => 0,
        },
    ) + seq![0x29u8, 0x1b, 0x5b, 0x30, 0x6d, 0x20] + message
}

fn put_mark(out: &mut Vec<u8>, level: Filter)
    ensures
        final(out)@ == old(out)@ + (seq![0x5bu8, 0x1b, 0x5b] + severity(level).attributes()
            + seq![0x6du8, severity(level).mark(), 0x1b, 0x5b, 0x30, 0x6d, 0x5d]),
{
    let ghost start = out@;
    out.push(0x5b);
    out.push(0x1b);
    out.push(0x5b);
    match level {
        Filter::Error => {
            put_bytes(out, &vec![0x31u8, 0x3b, 0x33, 0x31, 0x6d, 0x45]);
        },
        Filter::Warn => {
            put_bytes(out, &vec![0x31u8, 0x3b, 0x33, 0x33, 0x6d, 0x21]);
        },
        Filter::Info => {
            put_bytes(out, &vec![0x31u8, 0x3b, 0x33, 0x32, 0x6d, 0x2a]);
        },
        Filter::Debug => {
            put_bytes(out, &vec![0x31u8, 0x3b, 0x33, 0x34, 0x6d, 0x44]);
        },
        Filter::Trace => {
            put_bytes(out, &vec![0x30u8, 0x3b, 0x33, 0x35, 0x6d, 0x54]);
        },
    }
    out.push(0x1b);
    out.push(0x5b);
    out.push(0x30);
    out.push(0x6d);
    out.push(0x5d);
    assert(out@ =~= start + (seq![0x5bu8, 0x1b, 0x5b] + severity(level).attributes() + seq![
        0x6du8,
        severity(level).mark(),
        0x1b,
        0x5b,
        0x30,
        0x6d,
        0x5d,
    ]));
}

impl Record {
    /// The record of a log message.
    pub fn from_log_record(
        level: Filter,
        path: Option<&[u8]>,
        line: Option<u32>,
        message: &[u8],
        cpu: usize,
    ) -> (record: Self)
        ensures
            record@ == (EntryModel {
                message: kept(
                    formatted(
                        level,
                        match path {
                            Some(path) => Some(path@),
                            None => None,
                        },
                        line,
                        message@,
                    ),
                ),
                level: severity(level).raw() as usize,
                cpu,
                offset: 0,
            }),
    {
        let mut out: Vec<u8> = Vec::new();
        put_mark(&mut out, level);
        out.push(0x20);
        out.push(0x1b);
        out.push(0x5b);
        out.push(0x32);
        out.push(0x6d);
        out.push(0x28);
        match path {
            Some(path) => {
                put_bytes(&mut out, path);
            },
            None => {
                out.push(0x3f);
                out.push(0x3f);
                out.push(0x3f);
            },
        }
        out.push(0x3a);
        put_decimal(
            &mut out,
            match line {
                Some(line) => line as u64,
                None => 0,
            },
        );
        out.push(0x29);
        out.push(0x1b);
        out.push(0x5b);
        out.push(0x30);
        out.push(0x6d);
        out.push(0x20);
        put_bytes(&mut out, message);
        let ghost path_bytes: Option<Seq<u8>> = match path {
            Some(path) => Some(path@),
            None => None,
        };
        assert(out@ =~= formatted(level, path_bytes, line, message@));
        let short = copy_range(&out, 0, min_usize(out.len(), RECORD_CAPACITY));
        assert(short@ =~= kept(out@));
        Record { message: short, level: Level::from_log(level).as_raw() as usize, cpu, offset: 0 }
    }

    /// The record of bytes that were written to the log device.
    pub fn from_bytes(bytes: &[u8], cpu: usize) -> (record: Self)
        ensures
            record@ == (EntryModel { message: kept(bytes@), level: 3, cpu, offset: 0 }),
    {
        let short = copy_range(bytes, 0, min_usize(bytes.len(), RECORD_CAPACITY));
        assert(short@ =~= kept(bytes@));
        Record { message: short, level: 3, cpu, offset: 0 }
    }
}

impl Record {
    /// Part of the record's line, which is its message and a newline.
    fn line_part(&self, source: usize, count: usize) -> (bytes: Vec<u8>)
        requires
            source + count <= self@.message.len() + 1,
        ensures
            bytes@ == self@.message.push(0x0a).subrange(source as int, source + count),
    {
        let ghost line = self.message@.push(0x0a);
        let mut bytes: Vec<u8> = Vec::new();
        while bytes.len() < count
            invariant
                line == self.message@.push(0x0a),
                source + count <= line.len(),
                bytes@.len() <= count,
                bytes@ == line.subrange(source as int, source + bytes@.len()),
            decreases count - bytes@.len(),
        {
            assert(self.message.len() == self.message@.len());
            let at: usize = source + bytes.len();
            if at < self.message.len() {
                bytes.push(self.message[at]);
            } else {
                bytes.push(0x0a);
            }
            assert(bytes@ =~= line.subrange(source as int, source + bytes@.len()));
        }
        bytes
    }
}

/// The log stream of several records: a line for each.
pub open spec fn stream(records: Seq<EntryModel>) -> Seq<u8>
    decreases records.len(),
{
    if records.len() == 0 {
        Seq::empty()
    } else {
        stream(records.drop_last()) + records.last().message.push(0x0a)
    }
}

/// The ring as specifications see it.
#[verifier::ext_equal]
pub struct RingModel {
    /// Records, oldest first.
    pub records: Seq<EntryModel>,
    /// Where the next record begins in the stream.
    pub next: u64,
}

impl RingModel {
    /// The records follow each other in the stream.
    pub open spec fn wf(self) -> bool {
        &&& self.records.len() <= RING_CAPACITY
        &&& forall|i: int| 0 <= i < self.records.len() ==> #[trigger] self.linked(i)
    }

    /// Where a record, or the one to come, begins.
    pub open spec fn begin(self, i: int) -> u64 {
        if 0 <= i < self.records.len() {
            self.records[i].offset
        } else {
            self.next
        }
    }

    /// Whether the next record begins where this one ends.
    pub open spec fn linked(self, i: int) -> bool {
        self.begin(i) + self.records[i].message.len() + 1 == self.begin(i + 1)
    }

    /// First offset that can still be read.
    pub open spec fn oldest(self) -> u64 {
        if self.records.len() == 0 {
            self.next
        } else {
            self.records[0].offset
        }
    }

    /// The ring with one more record; the oldest leaves a full one.
    pub open spec fn pushed(self, record: EntryModel) -> RingModel {
        let entry = EntryModel { offset: self.next, ..record };
        RingModel {
            records: (if self.records.len() == RING_CAPACITY {
                self.records.drop_first()
            } else {
                self.records
            }).push(entry),
            next: (self.next + record.message.len() + 1) as u64,
        }
    }

    /// What can be read from `offset` on.
    pub open spec fn readable(self, offset: u64) -> Seq<u8> {
        stream(self.records).skip(offset - self.oldest())
    }
}

proof fn lemma_stream_len(ring: RingModel, n: int)
    requires
        ring.wf(),
        0 <= n <= ring.records.len(),
    ensures
        stream(ring.records.take(n)).len() == ring.begin(n) - ring.oldest(),
    decreases n,
{
    if n > 0 {
        lemma_stream_len(ring, n - 1);
        assert(ring.records.take(n).drop_last() =~= ring.records.take(n - 1));
        assert(ring.records.take(n).last() == ring.records[n - 1]);
        assert(ring.linked(n - 1));
    } else {
        assert(ring.records.take(0) =~= Seq::empty());
    }
}

proof fn lemma_begin_bound(ring: RingModel, n: int)
    requires
        ring.wf(),
        0 <= n <= ring.records.len(),
    ensures
        ring.begin(n) <= ring.next,
    decreases ring.records.len() - n,
{
    if n < ring.records.len() {
        lemma_begin_bound(ring, n + 1);
        assert(ring.linked(n));
    }
}

proof fn lemma_stream_split(records: Seq<EntryModel>, n: int)
    requires
        0 <= n <= records.len(),
    ensures
        stream(records) == stream(records.take(n)) + stream(records.skip(n)),
    decreases records.len(),
{
    if n == records.len() {
        assert(records.take(n) =~= records);
        assert(records.skip(n) =~= Seq::empty());
        assert(stream(records) =~= stream(records.take(n)) + stream(records.skip(n)));
    } else {
        lemma_stream_split(records.drop_last(), n);
        assert(records.drop_last().take(n) =~= records.take(n));
        assert(records.drop_last().skip(n) =~= records.skip(n).drop_last());
        assert(records.skip(n).last() == records.last());
        assert(stream(records) =~= stream(records.take(n)) + stream(records.skip(n)));
    }
}

proof fn lemma_line(ring: RingModel, at: int)
    requires
        ring.wf(),
        0 <= at < ring.records.len(),
    ensures
        ({
            let line = ring.records[at].message.push(0x0a);
            let base = ring.records[at].offset - ring.oldest();
            &&& 0 <= base
            &&& base + line.len() <= stream(ring.records).len()
            &&& stream(ring.records).subrange(base, base + line.len()) == line
            &&& ring.begin(at + 1) == ring.records[at].offset + line.len()
            &&& ring.begin(at + 1) <= ring.next
        }),
{
    let line = ring.records[at].message.push(0x0a);
    let base = ring.records[at].offset - ring.oldest();
    lemma_stream_len(ring, at);
    lemma_stream_split(ring.records, at + 1);
    lemma_begin_bound(ring, at + 1);
    assert(ring.linked(at));
    assert(ring.records.take(at + 1).drop_last() =~= ring.records.take(at));
    assert(ring.records.take(at + 1).last() == ring.records[at]);
    let head = stream(ring.records.take(at + 1));
    assert(head == stream(ring.records.take(at)) + line);
    assert(stream(ring.records).subrange(base, base + line.len()) =~= line);
}

/// Ring of the latest records.
pub struct LogRing {
    records: Vec<Record>,
    read: usize,
    write: usize,
    len: usize,
    next_offset: u64,
}

impl View for LogRing {
    type V = RingModel;

    closed spec fn view(&self) -> RingModel {
        RingModel {
            records: Seq::new(
                self.len as nat,
                |i: int| self.records@[(self.read + i) % 512]@,
            ),
            next: self.next_offset,
        }
    }
}

impl LogRing {
    /// The places in the ring agree with its length.
    pub closed spec fn wf(self) -> bool {
        &&& self.records@.len() == RING_CAPACITY
        &&& self.read < RING_CAPACITY
        &&& self.len <= RING_CAPACITY
        &&& self.write == (self.read + self.len) % 512
        &&& self@.wf()
    }

    /// A sound ring has a sound model.
    pub proof fn lemma_wf(self)
        requires
            self.wf(),
        ensures
            self@.wf(),
    {
    }

    /// An empty ring.
    pub fn new() -> (ring: Self)
        ensures
            ring.wf(),
            ring@ == (RingModel { records: Seq::empty(), next: 0 }),
    {
        let mut records: Vec<Record> = Vec::new();
        while records.len() < RING_CAPACITY
            invariant
                records@.len() <= RING_CAPACITY,
            decreases RING_CAPACITY - records@.len(),
        {
            records.push(Record { message: Vec::new(), level: 0, cpu: 0, offset: 0 });
        }
        let ring = LogRing { records, read: 0, write: 0, len: 0, next_offset: 0 };
        assert(ring@.records =~= Seq::empty());
        ring
    }

    /// Adds a record; a full ring loses its oldest.
    #[verifier::spinoff_prover]
    #[verifier::rlimit(60)]
    pub fn push(&mut self, record: Record)
        requires
            old(self).wf(),
            old(self)@.next + record@.message.len() + 1 <= u64::MAX,
        ensures
            final(self).wf(),
            final(self)@ == old(self)@.pushed(record@),
    {
        let ghost before = *self;
        let ghost model = record@;
        let mut record = record;
        let length: usize = record.message.len();
        record.offset = self.next_offset;
        let ghost entry = record@;
        assert(entry =~= EntryModel { offset: before@.next, ..model });
        self.records.set(self.write, record);
        self.next_offset = self.next_offset + (length as u64 + 1);
        if self.len == RING_CAPACITY {
            self.read = (self.read + 1) % RING_CAPACITY;
        } else {
            self.len = self.len + 1;
        }
        self.write = (self.write + 1) % RING_CAPACITY;
        assert(self@.records =~= before@.pushed(model).records);
        assert(self@ =~= before@.pushed(model));
        proof {
            lemma_pushed(before@, model);
        }
    }

    /// First offset that can still be read.
    pub fn oldest_offset(&self) -> (offset: u64)
        requires
            self.wf(),
        ensures
            offset == self@.oldest(),
    {
        if self.len == 0 {
            self.next_offset
        } else {
            assert(self@.records[0] == self.records@[self.read as int]@);
            self.records[self.read].offset
        }
    }

    /// The offset behind the last record.
    pub fn end_offset(&self) -> (offset: u64)
        ensures
            offset == self@.next,
    {
        self.next_offset
    }

    /// Copies up to `count` bytes of the stream from `offset` on.
    #[verifier::spinoff_prover]
    #[verifier::rlimit(60)]
    pub fn read_into(&self, offset: u64, count: usize) -> (output: Vec<u8>)
        requires
            self.wf(),
            self@.oldest() <= offset <= self@.next,
        ensures
            output@ == self@.readable(offset).take(
                min_int(self@.readable(offset).len() as int, count as int),
            ),
            count > 0 && offset < self@.next ==> output@.len() > 0,
    {
        let ghost ring = self@;
        let ghost whole = stream(ring.records);
        let ghost start = offset - ring.oldest();
        proof {
            lemma_stream_len(ring, ring.records.len() as int);
            assert(ring.records.take(ring.records.len() as int) =~= ring.records);
        }
        let mut output: Vec<u8> = Vec::new();
        let mut cursor: u64 = offset;
        let mut index: usize = self.read;
        let mut seen: usize = 0;
        assert(whole.subrange(start, start) =~= output@);
        while seen < self.len && output.len() < count
            invariant
                self.wf(),
                ring == self@,
                whole == stream(ring.records),
                start == offset - ring.oldest(),
                0 <= start <= whole.len(),
                whole.len() == ring.next - ring.oldest(),
                seen <= self.len,
                index == (self.read + seen) % 512,
                output@.len() <= count,
                offset <= cursor <= ring.next,
                output@ == whole.subrange(start, cursor - ring.oldest()),
                output@.len() == 0 ==> cursor == offset && cursor >= ring.begin(seen as int),
                output@.len() > 0 ==> cursor == ring.begin(seen as int) || output@.len() == count,
            decreases self.len - seen,
        {
            let record = &self.records[index];
            assert(ring.records[seen as int] == record@);
            proof {
                lemma_line(ring, seen as int);
            }
            let end: u64 = record.offset + record.message.len() as u64 + 1;
            if cursor < end {
                let source: usize = (cursor - record.offset) as usize;
                let available: usize = record.message.len() - source;
                let room: usize = count - output.len();
                let part: usize = if available < room {
                    available + 1
                } else {
                    room
                };
                let bytes = record.line_part(source, part);
                put_bytes(&mut output, &bytes);
                assert(output@ =~= whole.subrange(start, cursor + part - ring.oldest()));
                cursor = cursor + part as u64;
            }
            index = if index + 1 == RING_CAPACITY {
                0
            } else {
                index + 1
            };
            seen = seen + 1;
        }
        assert(self@.readable(offset) =~= whole.skip(start));
        assert(output@ =~= self@.readable(offset).take(
            min_int(self@.readable(offset).len() as int, count as int),
        ));
        output
    }
}

proof fn lemma_pushed(ring: RingModel, record: EntryModel)
    requires
        ring.wf(),
        ring.next + record.message.len() + 1 <= u64::MAX,
    ensures
        ring.pushed(record).wf(),
{
    let after = ring.pushed(record);
    let shift: int = if ring.records.len() == RING_CAPACITY {
        1
    } else {
        0
    };
    assert forall|i: int| 0 <= i < after.records.len() implies #[trigger] after.linked(i) by {
        if i + 1 < after.records.len() {
            assert(ring.linked(i + shift));
            assert(after.records[i] == ring.records[i + shift]);
            if i + 2 < after.records.len() {
                assert(after.records[i + 1] == ring.records[i + 1 + shift]);
            }
        }
    }
}

/// The backend as specifications see it.
#[verifier::ext_equal]
pub struct DebugModel {
    /// Stored records.
    pub ring: RingModel,
    /// Registered sinks, by their numbers.
    pub sinks: Seq<Option<usize>>,
    /// Whether a panic owns the output.
    pub panicking: bool,
    /// Whether ordinary records are printed.
    pub printing: bool,
    /// The event that tells readers of new records.
    pub arrival: EventModel,
}

/// The messages of records.
pub open spec fn texts(records: Seq<EntryModel>) -> Seq<Seq<u8>> {
    records.map_values(|r: EntryModel| r.message)
}

/// Messages, deeply viewed.
pub open spec fn views(list: Seq<Vec<u8>>) -> Seq<Seq<u8>> {
    list.map_values(|v: Vec<u8>| v@)
}

impl DebugModel {
    /// Whether sinks get output now.
    pub open spec fn prints(self) -> bool {
        self.printing || self.panicking
    }
}

/// The logging backend.
pub struct DebugState {
    ring: LogRing,
    sinks: Vec<Option<usize>>,
    panicking: bool,
    printing: bool,
    arrival: Event,
}

impl View for DebugState {
    type V = DebugModel;

    closed spec fn view(&self) -> DebugModel {
        DebugModel {
            ring: self.ring@,
            sinks: self.sinks@,
            panicking: self.panicking,
            printing: self.printing,
            arrival: self.arrival@,
        }
    }
}

impl DebugState {
    /// The ring is sound and there is a fixed number of sinks.
    pub closed spec fn wf(self) -> bool {
        self.ring.wf() && self.sinks@.len() == MAX_SINKS && self.arrival.wf()
    }

    /// A sound backend has a sound model.
    pub proof fn lemma_wf(self)
        requires
            self.wf(),
        ensures
            self@.ring.wf(),
            self@.sinks.len() == MAX_SINKS,
    {
    }

    /// An empty backend that prints.
    pub fn new() -> (state: Self)
        ensures
            state.wf(),
            state@ == (DebugModel {
                ring: RingModel { records: Seq::empty(), next: 0 },
                sinks: Seq::new(8, |i: int| None::<usize>),
                panicking: false,
                printing: true,
                arrival: EventModel { signaled: false, waiters: Seq::empty() },
            }),
    {
        let sinks: Vec<Option<usize>> = vec![None, None, None, None, None, None, None, None];
        assert(sinks@ =~= Seq::new(8, |i: int| None::<usize>));
        DebugState {
            ring: LogRing::new(),
            sinks,
            panicking: false,
            printing: true,
            arrival: Event::new(),
        }
    }

    /// Records a log message, and returns what sinks print of it and the readers
    /// to wake; during a panic it is dropped.
    pub fn log(
        &mut self,
        groups: &mut WaitGroups,
        level: Filter,
        path: Option<&[u8]>,
        line: Option<u32>,
        message: &[u8],
        cpu: usize,
    ) -> (result: (Option<Vec<u8>>, Vec<WakeTarget>))
        requires
            old(self).wf(),
            waiters_known(old(self)@.arrival.waiters, old(groups)@),
            old(self)@.ring.next + RECORD_CAPACITY + 1 <= u64::MAX,
        ensures
            final(self).wf(),
            ({
                let text = kept(
                    formatted(
                        level,
                        match path {
                            Some(path) => Some(path@),
                            None => None,
                        },
                        line,
                        message@,
                    ),
                );
                let entry = EntryModel {
                    message: text,
                    level: severity(level).raw() as usize,
                    cpu,
                    offset: 0,
                };
                if old(self)@.panicking {
                    result.0.is_none() && final(self)@ == old(self)@
                } else {
                    &&& final(self)@ == (DebugModel {
                        ring: old(self)@.ring.pushed(entry),
                        arrival: old(self)@.arrival.raised(true),
                        ..old(self)@
                    })
                    &&& match result.0 {
                        Some(line) => old(self)@.prints() && line@ == text,
                        None => !old(self)@.prints(),
                    }
                }
            }),
            final(groups)@ == old(self)@.arrival.claims(!old(self)@.panicking, old(groups)@),
            result.1@ == old(self)@.arrival.wakes(!old(self)@.panicking, old(groups)@),
    {
        if self.panicking {
            return (None, Vec::new());
        }
        let record = Record::from_log_record(level, path, line, message, cpu);
        let text = copy_all(&record.message);
        self.ring.push(record);
        let woken = self.arrival.signal(groups);
        if self.printing {
            (Some(text), woken)
        } else {
            (None, woken)
        }
    }

    /// The event that tells readers of new records.
    pub fn arrival_event(&mut self) -> (event: &mut Event)
        requires
            old(self).wf(),
        ensures
            event.wf(),
            event@ == old(self)@.arrival,
            final(self)@ == (DebugModel { arrival: final(event)@, ..old(self)@ }),
            final(event).wf() ==> final(self).wf(),
    {
        &mut self.arrival
    }

    /// Appends one message of the log device.
    fn append_message(&mut self, bytes: &[u8], cpu: usize)
        requires
            old(self).wf(),
            old(self)@.ring.next + RECORD_CAPACITY + 1 <= u64::MAX,
        ensures
            final(self).wf(),
            final(self)@ == (DebugModel {
                ring: old(self)@.ring.pushed(
                    EntryModel { message: kept(bytes@), level: 3, cpu, offset: 0 },
                ),
                ..old(self)@
            }),
    {
        let record = Record::from_bytes(bytes, cpu);
        self.ring.push(record);
    }
}

fn first_free(sinks: &Vec<Option<usize>>) -> (at: Option<usize>)
    ensures
        match at {
            Some(i) => i < sinks@.len() && sinks@[i as int] == None::<usize> && forall|j: int|
                0 <= j < i ==> #[trigger] sinks@[j] != None::<usize>,
            None => forall|j: int| 0 <= j < sinks@.len() ==> #[trigger] sinks@[j] != None::<usize>,
        },
{
    let mut at: usize = 0;
    while at < sinks.len()
        invariant
            at <= sinks@.len(),
            forall|j: int| 0 <= j < at ==> #[trigger] sinks@[j] != None::<usize>,
        decreases sinks@.len() - at,
    {
        if sinks[at].is_none() {
            return Some(at);
        }
        at = at + 1;
    }
    None
}

/// Registers a sink, and returns the messages that it must print first.
///
/// Nothing happens where no more sinks fit.
pub fn register_sink(state: &mut DebugState, sink: usize) -> (replay: Vec<Vec<u8>>)
    requires
        old(state).wf(),
    ensures
        final(state).wf(),
        ({
            let full = forall|j: int|
                0 <= j < MAX_SINKS ==> #[trigger] old(state)@.sinks[j] != None::<usize>;
            &&& full ==> final(state)@ == old(state)@ && views(replay@) == Seq::<Seq<u8>>::empty()
            &&& !full ==> {
                &&& views(replay@) == if old(state)@.printing {
                    texts(old(state)@.ring.records)
                } else {
                    Seq::<Seq<u8>>::empty()
                }
                &&& exists|i: int|
                    {
                        &&& 0 <= i < MAX_SINKS
                        &&& #[trigger] old(state)@.sinks[i] == None::<usize>
                        &&& forall|j: int| 0 <= j < i ==> #[trigger] old(state)@.sinks[j]
                            != None::<usize>
                        &&& final(state)@ == (DebugModel {
                            sinks: old(state)@.sinks.update(i, Some(sink)),
                            ..old(state)@
                        })
                    }
            }
        }),
{
    let mut replay: Vec<Vec<u8>> = Vec::new();
    assert(views(replay@) =~= Seq::empty());
    let at: usize = match first_free(&state.sinks) {
        Some(at) => at,
        None => {
            return replay;
        },
    };
    assert(old(state)@.sinks[at as int] == None::<usize>);
    state.sinks.set(at, Some(sink));
    assert(state@ =~= DebugModel {
        sinks: old(state)@.sinks.update(at as int, Some(sink)),
        ..old(state)@
    });
    if !state.printing {
        return replay;
    }
    let ghost all = texts(state@.ring.records);
    let mut index: usize = state.ring.read;
    let mut seen: usize = 0;
    assert(all.take(0) =~= Seq::empty());
    while seen < state.ring.len
        invariant
            state.wf(),
            all == texts(state@.ring.records),
            seen <= state.ring.len,
            index == (state.ring.read + seen) % 512,
            views(replay@) == all.take(seen as int),
        decreases state.ring.len - seen,
    {
        let ghost before = replay@;
        assert(state.ring@.records[seen as int] == state.ring.records@[index as int]@);
        assert(all[seen as int] == state.ring.records@[index as int].message@);
        replay.push(copy_all(&state.ring.records[index].message));
        assert(views(replay@) =~= views(before).push(all[seen as int]));
        assert(views(replay@) =~= all.take(seen + 1));
        index = if index + 1 == RING_CAPACITY {
            0
        } else {
            index + 1
        };
        seen = seen + 1;
    }
    assert(all.take(seen as int) =~= all);
    replay
}

/// Removes the first registration of a sink.
pub fn unregister_sink(state: &mut DebugState, sink: usize) -> (removed: bool)
    requires
        old(state).wf(),
    ensures
        final(state).wf(),
        removed ==> exists|i: int|
            {
                &&& 0 <= i < MAX_SINKS
                &&& #[trigger] old(state)@.sinks[i] == Some(sink)
                &&& forall|j: int| 0 <= j < i ==> #[trigger] old(state)@.sinks[j] != Some(sink)
                &&& final(state)@ == (DebugModel {
                    sinks: old(state)@.sinks.update(i, None),
                    ..old(state)@
                })
            },
        !removed ==> final(state)@ == old(state)@ && forall|j: int|
            0 <= j < MAX_SINKS ==> #[trigger] old(state)@.sinks[j] != Some(sink),
{
    let mut at: usize = 0;
    while at < state.sinks.len()
        invariant
            at <= state.sinks@.len(),
            *state == *old(state),
            state.wf(),
            forall|j: int| 0 <= j < at ==> #[trigger] state.sinks@[j] != Some(sink),
        decreases state.sinks@.len() - at,
    {
        let found: bool = match state.sinks[at] {
            Some(registered) => registered == sink,
            None => false,
        };
        if found {
            state.sinks.set(at, None);
            assert(old(state)@.sinks[at as int] == Some(sink));
            assert(state@ =~= DebugModel {
                sinks: old(state)@.sinks.update(at as int, None),
                ..old(state)@
            });
            return true;
        }
        at = at + 1;
    }
    false
}

/// Removes all sinks.
pub fn clear_sinks(state: &mut DebugState)
    requires
        old(state).wf(),
    ensures
        final(state).wf(),
        final(state)@ == (DebugModel {
            sinks: Seq::new(8, |i: int| None::<usize>),
            ..old(state)@
        }),
{
    let sinks: Vec<Option<usize>> = vec![None, None, None, None, None, None, None, None];
    assert(sinks@ =~= Seq::new(8, |i: int| None::<usize>));
    state.sinks = sinks;
}

/// Stops printing ordinary records.
pub fn disable_regular_sink_output(state: &mut DebugState)
    requires
        old(state).wf(),
    ensures
        final(state).wf(),
        final(state)@ == (DebugModel { printing: false, ..old(state)@ }),
{
    state.printing = false;
}

/// Prints ordinary records again.
pub fn enable_regular_sink_output(state: &mut DebugState)
    requires
        old(state).wf(),
    ensures
        final(state).wf(),
        final(state)@ == (DebugModel { printing: true, ..old(state)@ }),
{
    state.printing = true;
}

/// Keeps ordinary records out of panic output.
pub fn enter_panic_mode(state: &mut DebugState)
    requires
        old(state).wf(),
    ensures
        final(state).wf(),
        final(state)@ == (DebugModel { panicking: true, ..old(state)@ }),
{
    state.panicking = true;
}

/// The sinks that get a message now.
pub fn write_to_sinks(state: &DebugState) -> (targets: Vec<usize>)
    requires
        state.wf(),
    ensures
        !state@.prints() ==> targets@ == Seq::<usize>::empty(),
        state@.prints() ==> targets@ == registered(state@.sinks, MAX_SINKS as nat),
{
    let mut targets: Vec<usize> = Vec::new();
    if !state.printing && !state.panicking {
        return targets;
    }
    let mut at: usize = 0;
    while at < state.sinks.len()
        invariant
            state.wf(),
            at <= state.sinks@.len(),
            targets@ == registered(state.sinks@, at as nat),
        decreases state.sinks@.len() - at,
    {
        if let Some(sink) = state.sinks[at] {
            targets.push(sink);
        }
        at = at + 1;
    }
    targets
}

/// The sinks registered in the first `n` places.
pub open spec fn registered(sinks: Seq<Option<usize>>, n: nat) -> Seq<usize>
    decreases n,
{
    if n == 0 {
        Seq::empty()
    } else {
        match sinks[n - 1] {
            Some(sink) => registered(sinks, (n - 1) as nat).push(sink),
            None => registered(sinks, (n - 1) as nat),
        }
    }
}

/// First offset of the log stream.
pub fn log_start_offset(state: &DebugState) -> (offset: u64)
    requires
        state.wf(),
    ensures
        offset == state@.ring.oldest(),
{
    state.ring.oldest_offset()
}

/// The offset behind the log stream.
pub fn log_end_offset(state: &DebugState) -> (offset: u64)
    ensures
        offset == state@.ring.next,
{
    state.ring.end_offset()
}

/// Reads up to `count` bytes of the log stream from `offset` on; where there is
/// nothing yet, the reader waits for the arrival event, which is cleared.
pub fn read_log(state: &mut DebugState, offset: u64, count: usize, nonblocking: bool) -> (result:
    Result<Option<Vec<u8>>, LogReadError>)
    requires
        old(state).wf(),
    ensures
        final(state).wf(),
        final(state)@ == if result matches Ok(None) {
            DebugModel {
                arrival: EventModel { signaled: false, ..old(state)@.arrival },
                ..old(state)@
            }
        } else {
            old(state)@
        },
        ({
            let ring = old(state)@.ring;
            let text = ring.readable(offset);
            if count == 0 {
                result matches Ok(Some(bytes)) && bytes@ == Seq::<u8>::empty()
            } else if offset < ring.oldest() {
                result matches Err(LogReadError::Overrun)
            } else if offset < ring.next {
                result matches Ok(Some(bytes)) && bytes@ == text.take(
                    min_int(text.len() as int, count as int),
                )
            } else if nonblocking {
                result matches Err(LogReadError::WouldBlock)
            } else {
                result matches Ok(None)
            }
        }),
{
    if count == 0 {
        return Ok(Some(Vec::new()));
    }
    if offset < state.ring.oldest_offset() {
        return Err(LogReadError::Overrun);
    }
    if offset < state.ring.end_offset() {
        return Ok(Some(state.ring.read_into(offset, count)));
    }
    if nonblocking {
        return Err(LogReadError::WouldBlock);
    }
    let _ = state.arrival.reset();
    Ok(None)
}

/// The pieces of a line that each fit a record; an empty line is one piece.
pub open spec fn pieces(line: Seq<u8>) -> Seq<Seq<u8>>
    decreases line.len(),
{
    if line.len() <= RECORD_CAPACITY {
        seq![line]
    } else {
        seq![line.take(256)] + pieces(line.skip(256))
    }
}

/// The messages in text from place `at`, where `current` is the line read so
/// far; a newline at the end begins no new line.
pub open spec fn messages(text: Seq<u8>, at: int, current: Seq<u8>) -> Seq<Seq<u8>>
    decreases text.len() - at,
{
    if at >= text.len() {
        if current.len() == 0 {
            Seq::empty()
        } else {
            pieces(current)
        }
    } else if text[at] == 0x0a {
        pieces(current) + messages(text, at + 1, Seq::empty())
    } else {
        messages(text, at + 1, current.push(text[at]))
    }
}

/// The ring after several messages of the log device.
pub open spec fn appended(ring: RingModel, list: Seq<Seq<u8>>, cpu: usize) -> RingModel
    decreases list.len(),
{
    if list.len() == 0 {
        ring
    } else {
        appended(ring, list.drop_last(), cpu).pushed(
            EntryModel { message: kept(list.last()), level: 3, cpu, offset: 0 },
        )
    }
}

fn put_pieces(out: &mut Vec<Vec<u8>>, line: Vec<u8>)
    ensures
        views(final(out)@) == views(old(out)@) + pieces(line@),
{
    let ghost start = views(out@);
    let mut at: usize = 0;
    assert(line@.skip(0) =~= line@);
    while line.len() - at > RECORD_CAPACITY
        invariant
            at <= line@.len(),
            start + pieces(line@) == views(out@) + pieces(line@.skip(at as int)),
        decreases line@.len() - at,
    {
        let ghost before = out@;
        let ghost rest = line@.skip(at as int);
        let piece = copy_range(&line, at, at + RECORD_CAPACITY);
        assert(piece@ =~= rest.take(256));
        assert(rest.skip(256) =~= line@.skip(at + 256));
        out.push(piece);
        assert(views(out@) =~= views(before).push(piece@));
        at = at + RECORD_CAPACITY;
        assert(views(before) + pieces(rest) =~= views(out@) + pieces(line@.skip(at as int)));
    }
    let ghost before = out@;
    let ghost rest = line@.skip(at as int);
    let piece = copy_range(&line, at, line.len());
    assert(piece@ =~= rest);
    out.push(piece);
    assert(views(out@) =~= views(before).push(piece@));
    assert(views(out@) =~= views(before) + pieces(rest));
}

/// Splits text into messages, one or more for each line.
pub fn split_messages(text: &[u8]) -> (list: Vec<Vec<u8>>)
    ensures
        views(list@) == messages(text@, 0, Seq::empty()),
{
    let mut list: Vec<Vec<u8>> = Vec::new();
    let mut current: Vec<u8> = Vec::new();
    let mut at: usize = 0;
    let ghost whole = messages(text@, 0, Seq::empty());
    assert(views(list@) + messages(text@, 0, current@) =~= whole);
    while at < text.len()
        invariant
            at <= text@.len(),
            whole == messages(text@, 0, Seq::empty()),
            whole == views(list@) + messages(text@, at as int, current@),
        decreases text@.len() - at,
    {
        if text[at] == 0x0a {
            let ghost before = views(list@);
            let ghost line = current@;
            let mut done: Vec<u8> = Vec::new();
            std::mem::swap(&mut done, &mut current);
            put_pieces(&mut list, done);
            assert(before + (pieces(line) + messages(text@, at + 1, Seq::empty())) =~= views(list@)
                + messages(text@, at + 1, current@));
        } else {
            current.push(text[at]);
        }
        at = at + 1;
    }
    if current.len() > 0 {
        put_pieces(&mut list, current);
    } else {
        assert(views(list@) =~= whole);
    }
    list
}

proof fn lemma_pieces_len(line: Seq<u8>)
    ensures
        pieces(line).len() <= line.len() + 1,
        forall|i: int|
            0 <= i < pieces(line).len() ==> (#[trigger] pieces(line)[i]).len() <= RECORD_CAPACITY,
    decreases line.len(),
{
    if line.len() > RECORD_CAPACITY {
        let rest = pieces(line.skip(256));
        lemma_pieces_len(line.skip(256));
        let all = seq![line.take(256)] + rest;
        assert forall|i: int| 0 <= i < all.len() implies (#[trigger] all[i]).len()
            <= RECORD_CAPACITY by {
            if i > 0 {
                assert(all[i] == rest[i - 1]);
            }
        }
    }
}

proof fn lemma_messages_len(text: Seq<u8>, at: int, current: Seq<u8>)
    requires
        0 <= at <= text.len(),
    ensures
        messages(text, at, current).len() <= current.len() + 2 * (text.len() - at) + 1,
        forall|i: int|
            0 <= i < messages(text, at, current).len() ==> (#[trigger] messages(
                text,
                at,
                current,
            )[i]).len() <= RECORD_CAPACITY,
    decreases text.len() - at,
{
    lemma_pieces_len(current);
    if at < text.len() {
        if text[at] == 0x0a {
            lemma_messages_len(text, at + 1, Seq::empty());
            let one = pieces(current);
            let two = messages(text, at + 1, Seq::empty());
            assert forall|i: int| 0 <= i < (one + two).len() implies (#[trigger] (one
                + two)[i]).len() <= RECORD_CAPACITY by {
                if i < one.len() {
                    assert((one + two)[i] == one[i]);
                } else {
                    assert((one + two)[i] == two[i - one.len()]);
                }
            }
        } else {
            lemma_messages_len(text, at + 1, current.push(text[at]));
        }
    }
}

/// Appends text of the log device as records, and returns the messages that
/// sinks print of it and the readers to wake; empty text does nothing.
pub fn append_kernel_message(
    state: &mut DebugState,
    groups: &mut WaitGroups,
    text: &[u8],
    cpu: usize,
) -> (result: (Vec<Vec<u8>>, Vec<WakeTarget>))
    requires
        old(state).wf(),
        waiters_known(old(state)@.arrival.waiters, old(groups)@),
        old(state)@.ring.next + 257 * (2 * text@.len() + 1) <= u64::MAX,
    ensures
        final(state).wf(),
        ({
            let list = messages(text@, 0, Seq::empty());
            let signal = text@.len() > 0;
            &&& final(state)@ == (DebugModel {
                ring: appended(old(state)@.ring, list, cpu),
                arrival: old(state)@.arrival.raised(signal),
                ..old(state)@
            })
            &&& final(groups)@ == old(state)@.arrival.claims(signal, old(groups)@)
            &&& result.1@ == old(state)@.arrival.wakes(signal, old(groups)@)
            &&& views(result.0@) == if old(state)@.prints() {
                list
            } else {
                Seq::<Seq<u8>>::empty()
            }
        }),
{
    let list = split_messages(text);
    let ghost all = views(list@);
    let ghost start = state@;
    proof {
        lemma_messages_len(text@, 0, Seq::empty());
    }
    assert(all.take(0) =~= Seq::empty());
    let mut at: usize = 0;
    while at < list.len()
        invariant
            at <= list@.len(),
            all == views(list@),
            all.len() <= 2 * text@.len() + 1,
            forall|i: int| 0 <= i < all.len() ==> (#[trigger] all[i]).len() <= RECORD_CAPACITY,
            state.wf(),
            start.ring.next + 257 * (2 * text@.len() + 1) <= u64::MAX,
            state@.ring.next <= start.ring.next + 257 * at,
            state@ == (DebugModel {
                ring: appended(start.ring, all.take(at as int), cpu),
                ..start
            }),
        decreases list@.len() - at,
    {
        assert(all.take(at + 1).drop_last() =~= all.take(at as int));
        assert(all[at as int] == list@[at as int]@);
        assert(257 * at + 257 <= 257 * (2 * text@.len() + 1)) by (nonlinear_arith)
            requires
                at + 1 <= 2 * text@.len() + 1,
        ;
        assert(kept(all[at as int]) =~= all[at as int]);
        state.append_message(&list[at], cpu);
        at = at + 1;
    }
    assert(all.take(at as int) =~= all);
    let woken = if text.len() > 0 {
        state.arrival.signal(groups)
    } else {
        Vec::new()
    };
    if state.printing || state.panicking {
        (list, woken)
    } else {
        let nothing: Vec<Vec<u8>> = Vec::new();
        assert(views(nothing@) =~= Seq::empty());
        (nothing, woken)
    }
}

/// The facade filter that the backend is installed with: it takes everything.
pub fn register() -> (filter: Filter)
    ensures
        filter == Filter::Trace,
{
    Filter::Trace
}

/// The latest records are all there: a ring that lost nothing holds the whole
/// stream from its oldest offset to its end.
pub proof fn law_stream_is_complete(ring: RingModel)
    requires
        ring.wf(),
    ensures
        ring.readable(ring.oldest()) == stream(ring.records),
        stream(ring.records).len() == ring.next - ring.oldest(),
{
    lemma_stream_len(ring, ring.records.len() as int);
    assert(ring.records.take(ring.records.len() as int) =~= ring.records);
    assert(stream(ring.records).skip(0) =~= stream(ring.records));
}

/// A reader at the end of the stream gets exactly the next record's line.
pub proof fn law_reader_gets_next_line(ring: RingModel, record: EntryModel)
    requires
        ring.wf(),
        ring.next + record.message.len() + 1 <= u64::MAX,
    ensures
        ring.pushed(record).readable(ring.next) == record.message.push(0x0a),
{
    let after = ring.pushed(record);
    lemma_pushed(ring, record);
    let n = after.records.len() - 1;
    lemma_stream_len(after, n);
    lemma_stream_split(after.records, n);
    assert(after.records[n].offset == ring.next);
    assert(after.records.skip(n) =~= seq![after.records[n]]);
    let last = seq![after.records[n]];
    assert(last.drop_last() =~= Seq::empty());
    assert(stream(last.drop_last()) =~= Seq::empty());
    assert(stream(last) =~= record.message.push(0x0a));
    assert(after.readable(ring.next) =~= record.message.push(0x0a));
}

/// The ring never holds more than its capacity, and a full ring loses exactly
/// its oldest record.
pub proof fn law_full_ring_drops_oldest(ring: RingModel, record: EntryModel)
    requires
        ring.wf(),
        ring.records.len() == RING_CAPACITY,
    ensures
        ring.pushed(record).records.len() == RING_CAPACITY,
        forall|i: int|
            0 <= i < RING_CAPACITY - 1 ==> #[trigger] ring.pushed(record).records[i]
                == ring.records[i + 1],
{
}

/// A record that is pushed is the last one and starts where the stream ended;
/// the stream then ends behind its line.
pub proof fn law_pushed_record_is_last(ring: RingModel, record: EntryModel)
    requires
        ring.wf(),
        ring.next + record.message.len() + 1 <= u64::MAX,
    ensures
        ({
            let after = ring.pushed(record);
            &&& after.records.len() > 0
            &&& after.records.last().message == record.message
            &&& after.records.last().level == record.level
            &&& after.records.last().cpu == record.cpu
            &&& after.records.last().offset == ring.next
            &&& after.next == ring.next + record.message.len() + 1
            &&& ring.records.len() < 512 ==> after.records.drop_last() == ring.records
            &&& after.records.len() <= 512
        }),
{
    let after = ring.pushed(record);
    if ring.records.len() < 512 {
        assert(after.records.drop_last() =~= ring.records);
    }
}

/// A message is kept up to 256 bytes; a longer one keeps its beginning.
pub proof fn law_record_keeps_beginning(message: Seq<u8>)
    ensures
        message.len() <= 256 ==> kept(message) == message,
        message.len() > 256 ==> kept(message) == message.take(256),
{
    if message.len() <= 256 {
        assert(message.take(message.len() as int) =~= message);
    }
}

/// The registered sinks are all that there are, in order.
pub proof fn law_all_sinks_are_used(sinks: Seq<Option<usize>>, n: nat, sink: usize)
    requires
        n <= sinks.len(),
    ensures
        registered(sinks, n).contains(sink) <==> exists|i: int|
            0 <= i < n && #[trigger] sinks[i] == Some(sink),
    decreases n,
{
    if n > 0 {
        law_all_sinks_are_used(sinks, (n - 1) as nat, sink);
        let before = registered(sinks, (n - 1) as nat);
        let all = registered(sinks, n);
        if before.contains(sink) {
            let i = choose|i: int| 0 <= i < before.len() && before[i] == sink;
            assert(all[i] == sink);
        }
        if all.contains(sink) {
            let i = choose|i: int| 0 <= i < all.len() && all[i] == sink;
            if i < before.len() {
                assert(before[i] == sink);
            } else {
                assert(sinks[n - 1] == Some(sink));
            }
        }
        if sinks[n - 1] == Some(sink) {
            assert(all[all.len() - 1] == sink);
        }
    }
}

} // verus!
