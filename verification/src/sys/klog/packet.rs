//! Wire format of kernel log records, and the ring that stores them.
//!
//! Every message becomes one self-describing packet: a fixed header, then
//! subsystem, source path and message text. Readers of the log device see these
//! bytes.

use vstd::prelude::*;
use vstd::utf8::{
    is_char_boundary_iff_not_is_continuation_byte, is_char_boundary_start_end_of_seq,
    is_continuation_byte, valid_utf8, valid_utf8_split,
};
use crate::bytes::{
    copy_range, law_u64_round_trip, lemma_u64_at, put_bytes, put_u16, put_u32, put_u64, u16_at, u16_bytes, u32_at, u32_bytes, u64_at, u64_bytes,
};
use crate::num::{min_int, min_usize, minus_or_zero};

verus! {

/// Magic word that starts every packet, `"KLOG"` in ASCII.
pub const PACKET_MAGIC: u32 = 0x474f_4c4b;

/// Version of the packet layout.
pub const PACKET_VERSION: u8 = 1;

/// Size in bytes of the fixed packet header.
pub const HEADER_SIZE: usize = 40;

/// Bytes of variable-length payload that a record can carry.
pub const PAYLOAD_CAPACITY: usize = 256;

/// Largest packet any reader can observe.
pub const MAX_PACKET_SIZE: usize = 296;

/// Number of records the ring retains.
pub const RING_SLOTS: usize = 512;

/// Longest subsystem tag stored with a record.
pub const SUBSYSTEM_LIMIT: usize = 32;

/// Longest source path stored with a record.
pub const FILE_LIMIT: usize = 48;

/// Message text that a record can always store.
pub const MESSAGE_LIMIT: usize = 176;

/// The message text did not fit and was cut short.
pub const FLAG_TRUNCATED: u8 = 1;

/// The record was submitted by userspace.
pub const FLAG_USERSPACE: u8 = 2;

/// The record was emitted from the panic path.
pub const FLAG_EMERGENCY: u8 = 4;

/// Fixed-size prefix of every packet.
#[derive(Copy, Clone)]
pub struct Header {
    /// Always [`PACKET_MAGIC`].
    pub magic: u32,
    /// Total packet size in bytes.
    pub length: u16,
    /// Severity.
    pub level: u8,
    /// Layout version.
    pub version: u8,
    /// Record number, never reused.
    pub sequence: u64,
    /// Nanoseconds since the clock source was registered.
    pub timestamp_ns: u64,
    /// CPU that produced the record.
    pub cpu: u16,
    /// Source line, or zero when unknown.
    pub line: u16,
    /// Thread that produced the record, or zero.
    pub thread: u32,
    /// Payload bytes of the subsystem tag.
    pub subsystem_len: u8,
    /// Payload bytes of the source path.
    pub file_len: u8,
    /// Payload bytes of the message text.
    pub message_len: u16,
    /// How the record was produced.
    pub flags: u8,
    /// Reserved, always zero.
    pub reserved: [u8; 3],
}

/// Fields that a producer supplies for one record.
pub struct RecordData<'a> {
    /// Severity of the message.
    pub level: u8,
    /// How the record was produced.
    pub flags: u8,
    /// Nanoseconds since the clock source was registered.
    pub timestamp_ns: u64,
    /// CPU that produces the record.
    pub cpu: u16,
    /// Source line, or zero when unknown.
    pub line: u16,
    /// Producing thread, or zero outside thread context.
    pub thread: u32,
    /// Subsystem tag.
    pub subsystem: &'a [u8],
    /// Source path of the call site.
    pub file: &'a [u8],
    /// Message text without a trailing newline.
    pub message: &'a [u8],
}

/// A record as specifications see it.
#[verifier::ext_equal]
pub struct RecordModel {
    /// Severity.
    pub level: u8,
    /// How the record was produced.
    pub flags: u8,
    /// When it was produced.
    pub timestamp_ns: u64,
    /// CPU that produced it.
    pub cpu: u16,
    /// Source line.
    pub line: u16,
    /// Thread that produced it.
    pub thread: u32,
    /// Subsystem tag.
    pub subsystem: Seq<u8>,
    /// Source path.
    pub file: Seq<u8>,
    /// Message text.
    pub message: Seq<u8>,
}

impl<'a> View for RecordData<'a> {
    type V = RecordModel;

    open spec fn view(&self) -> RecordModel {
        RecordModel {
            level: self.level,
            flags: self.flags,
            timestamp_ns: self.timestamp_ns,
            cpu: self.cpu,
            line: self.line,
            thread: self.thread,
            subsystem: self.subsystem@,
            file: self.file@,
            message: self.message@,
        }
    }
}

/// Where a cut at `end` moves to, so that no character is split.
pub open spec fn boundary(bytes: Seq<u8>, end: int) -> int
    decreases end,
{
    if end > 0 && is_continuation_byte(bytes[end]) {
        boundary(bytes, end - 1)
    } else {
        end
    }
}

/// `bytes` with at most `limit` bytes, cut between characters.
pub open spec fn clamped(bytes: Seq<u8>, limit: int) -> Seq<u8> {
    if bytes.len() <= limit {
        bytes
    } else {
        bytes.take(boundary(bytes, limit))
    }
}

proof fn lemma_boundary(bytes: Seq<u8>, end: int)
    requires
        0 <= end < bytes.len(),
    ensures
        0 <= boundary(bytes, end) <= end,
        boundary(bytes, end) == 0 || !is_continuation_byte(bytes[boundary(bytes, end)]),
    decreases end,
{
    if end > 0 && is_continuation_byte(bytes[end]) {
        lemma_boundary(bytes, end - 1);
    }
}

/// Shortens `bytes` to at most `limit`, between two characters.
pub fn clamp(bytes: &[u8], limit: usize) -> (short: Vec<u8>)
    ensures
        short@ == clamped(bytes@, limit as int),
        short@.len() <= limit,
        short@.len() <= bytes@.len(),
{
    if bytes.len() <= limit {
        let short = copy_range(bytes, 0, bytes.len());
        assert(short@ =~= bytes@);
        return short;
    }
    let mut end: usize = limit;
    while end > 0 && 0x80 <= bytes[end] && bytes[end] <= 0xbf
        invariant
            end <= limit < bytes@.len(),
            boundary(bytes@, end as int) == boundary(bytes@, limit as int),
        decreases end,
    {
        end = end - 1;
    }
    let short = copy_range(bytes, 0, end);
    assert(short@ =~= bytes@.take(end as int));
    short
}

/// A stored record.
#[verifier::ext_equal]
pub struct PacketModel {
    /// Record number.
    pub sequence: u64,
    /// What it holds.
    pub record: RecordModel,
}

impl PacketModel {
    /// Whether its parts fit a slot.
    pub open spec fn wf(self) -> bool {
        &&& self.record.subsystem.len() <= SUBSYSTEM_LIMIT
        &&& self.record.file.len() <= FILE_LIMIT
        &&& self.record.subsystem.len() + self.record.file.len() + self.record.message.len()
            <= PAYLOAD_CAPACITY
    }

    /// Subsystem, path and message.
    pub open spec fn payload(self) -> Seq<u8> {
        self.record.subsystem + self.record.file + self.record.message
    }

    /// The packet's size.
    pub open spec fn length(self) -> int {
        40 + self.payload().len() as int
    }
}

/// The record as it is stored: each part cut to its limit.
pub open spec fn stored(record: RecordModel, sequence: u64) -> PacketModel {
    let subsystem = clamped(record.subsystem, SUBSYSTEM_LIMIT as int);
    let file = clamped(record.file, FILE_LIMIT as int);
    let message = clamped(
        record.message,
        PAYLOAD_CAPACITY - subsystem.len() - file.len(),
    );
    PacketModel {
        sequence,
        record: RecordModel {
            flags: if message.len() != record.message.len() {
                record.flags | FLAG_TRUNCATED
            } else {
                record.flags
            },
            subsystem,
            file,
            message,
            ..record
        },
    }
}

/// Whether a record's message is cut short.
pub open spec fn is_cut(record: RecordModel) -> bool {
    stored(record, 0).record.message.len() != record.message.len()
}

/// The fixed part of a packet.
#[verifier::opaque]
pub open spec fn header_bytes(packet: PacketModel) -> Seq<u8> {
    u32_bytes(PACKET_MAGIC) + u16_bytes(packet.length() as u16) + seq![
        packet.record.level,
        PACKET_VERSION,
    ] + u64_bytes(packet.sequence) + u64_bytes(packet.record.timestamp_ns) + u16_bytes(
        packet.record.cpu,
    ) + u16_bytes(packet.record.line) + u32_bytes(packet.record.thread) + seq![
        packet.record.subsystem.len() as u8,
        packet.record.file.len() as u8,
    ] + u16_bytes(packet.record.message.len() as u16) + seq![packet.record.flags, 0u8, 0u8, 0u8]
}

/// A packet's bytes.
pub open spec fn packet_bytes(packet: PacketModel) -> Seq<u8> {
    header_bytes(packet) + packet.payload()
}

/// A packet's header takes its fixed size.
pub proof fn lemma_header_len(packet: PacketModel)
    ensures
        header_bytes(packet).len() == HEADER_SIZE,
        packet_bytes(packet).len() == packet.length(),
{
    reveal(header_bytes);
}

impl Header {
    /// Whether the header is that of `packet`.
    pub open spec fn describes(self, packet: PacketModel) -> bool {
        &&& self.magic == PACKET_MAGIC
        &&& self.length == packet.length()
        &&& self.level == packet.record.level
        &&& self.version == PACKET_VERSION
        &&& self.sequence == packet.sequence
        &&& self.timestamp_ns == packet.record.timestamp_ns
        &&& self.cpu == packet.record.cpu
        &&& self.line == packet.record.line
        &&& self.thread == packet.record.thread
        &&& self.subsystem_len == packet.record.subsystem.len()
        &&& self.file_len == packet.record.file.len()
        &&& self.message_len == packet.record.message.len()
        &&& self.flags == packet.record.flags
        &&& self.reserved@ == seq![0u8, 0u8, 0u8]
    }

    /// Whether the header is that of no packet.
    pub open spec fn is_empty(self) -> bool {
        &&& self.magic == PACKET_MAGIC
        &&& self.length == HEADER_SIZE
        &&& self.level == 0
        &&& self.version == PACKET_VERSION
        &&& self.sequence == 0
        &&& self.timestamp_ns == 0
        &&& self.cpu == 0
        &&& self.line == 0
        &&& self.thread == 0
        &&& self.subsystem_len == 0
        &&& self.file_len == 0
        &&& self.message_len == 0
        &&& self.flags == 0
        &&& self.reserved@ == seq![0u8, 0u8, 0u8]
    }

    fn empty() -> (header: Self)
        ensures
            header.is_empty(),
    {
        let header = Header {
            magic: PACKET_MAGIC,
            length: HEADER_SIZE as u16,
            level: 0,
            version: PACKET_VERSION,
            sequence: 0,
            timestamp_ns: 0,
            cpu: 0,
            line: 0,
            thread: 0,
            subsystem_len: 0,
            file_len: 0,
            message_len: 0,
            flags: 0,
            reserved: [0u8, 0u8, 0u8],
        };
        assert(header.reserved@ =~= seq![0u8, 0u8, 0u8]);
        header
    }

    /// The header's bytes.
    #[verifier::opaque]
    pub open spec fn wire(self) -> Seq<u8> {
        u32_bytes(self.magic) + u16_bytes(self.length) + seq![self.level, self.version]
            + u64_bytes(self.sequence) + u64_bytes(self.timestamp_ns) + u16_bytes(self.cpu)
            + u16_bytes(self.line) + u32_bytes(self.thread) + seq![
            self.subsystem_len,
            self.file_len,
        ] + u16_bytes(self.message_len) + seq![self.flags] + self.reserved@
    }

    proof fn lemma_wire(self, packet: PacketModel)
        requires
            packet.wf(),
            self.describes(packet),
        ensures
            self.wire() == header_bytes(packet),
    {
        reveal(Header::wire);
        reveal(header_bytes);
        assert(self.wire() =~= header_bytes(packet));
    }

    /// The header in its wire format.
    pub fn encode(&self) -> (out: Vec<u8>)
        ensures
            out@ == self.wire(),
    {
        let mut out: Vec<u8> = Vec::new();
        put_u32(&mut out, self.magic);
        put_u16(&mut out, self.length);
        out.push(self.level);
        out.push(self.version);
        put_u64(&mut out, self.sequence);
        put_u64(&mut out, self.timestamp_ns);
        put_u16(&mut out, self.cpu);
        put_u16(&mut out, self.line);
        put_u32(&mut out, self.thread);
        out.push(self.subsystem_len);
        out.push(self.file_len);
        put_u16(&mut out, self.message_len);
        out.push(self.flags);
        out.push(self.reserved[0]);
        out.push(self.reserved[1]);
        out.push(self.reserved[2]);
        proof {
            reveal(Header::wire);
            assert(self.reserved@ =~= seq![
                self.reserved@[0],
                self.reserved@[1],
                self.reserved@[2],
            ]);
            assert(out@ =~= self.wire());
        }
        out
    }
}

/// Outcome of copying one record out of the ring.
#[derive(Copy, Clone, Debug, PartialEq, Eq, Structural)]
pub enum Fetch {
    /// The packet was copied and takes this many bytes.
    Ready(usize),
    /// The record was claimed but is not published yet.
    Pending,
    /// The record was overwritten; readers go on at this sequence.
    Lost(u64),
}

/// A packet in storage of its reader.
pub struct PacketBuffer {
    bytes: Vec<u8>,
    header: Header,
}

impl PacketBuffer {
    /// The packet's bytes.
    pub closed spec fn contents(self) -> Seq<u8> {
        self.bytes@
    }

    /// The packet's header.
    pub closed spec fn head(self) -> Header {
        self.header
    }

    /// Whether it holds `packet`.
    pub open spec fn holds(self, packet: PacketModel) -> bool {
        &&& packet.wf()
        &&& self.contents() == packet_bytes(packet)
        &&& self.head().describes(packet)
    }

    /// Creates an empty buffer.
    pub fn new() -> (buffer: Self)
        ensures
            buffer.contents() == Seq::<u8>::empty(),
            buffer.head().is_empty(),
    {
        PacketBuffer { bytes: Vec::new(), header: Header::empty() }
    }

    /// The packet's bytes.
    pub fn bytes(&self) -> (bytes: &Vec<u8>)
        ensures
            bytes@ == self.contents(),
    {
        &self.bytes
    }

    /// The packet's header.
    pub fn header(&self) -> (header: Header)
        ensures
            header == self.head(),
    {
        self.header
    }

    /// The subsystem tag of the packet.
    pub fn subsystem(&self) -> (tag: Vec<u8>)
        requires
            self.contents().len() >= HEADER_SIZE,
        ensures
            tag@ == self.contents().subrange(
                40,
                min_int(40 + self.head().subsystem_len, self.contents().len() as int),
            ),
            forall|packet: PacketModel| #[trigger]
                self.holds(packet) ==> tag@ == packet.record.subsystem,
    {
        let end: usize = min_usize(HEADER_SIZE + self.header.subsystem_len as usize, self.bytes.len());
        let tag = copy_range(&self.bytes, HEADER_SIZE, end);
        assert forall|packet: PacketModel| #[trigger] self.holds(packet) implies tag@
            == packet.record.subsystem by {
            lemma_header_len(packet);
            assert(tag@ =~= packet.record.subsystem);
        }
        tag
    }

    /// The source path of the packet.
    pub fn file(&self) -> (path: Vec<u8>)
        requires
            40 + self.head().subsystem_len + self.head().file_len <= self.contents().len(),
        ensures
            path@ == self.contents().subrange(
                40 + self.head().subsystem_len,
                40 + self.head().subsystem_len + self.head().file_len,
            ),
            forall|packet: PacketModel| #[trigger]
                self.holds(packet) ==> path@ == packet.record.file,
    {
        let start: usize = HEADER_SIZE + self.header.subsystem_len as usize;
        let path = copy_range(&self.bytes, start, start + self.header.file_len as usize);
        assert forall|packet: PacketModel| #[trigger] self.holds(packet) implies path@
            == packet.record.file by {
            lemma_header_len(packet);
            assert(path@ =~= packet.record.file);
        }
        path
    }

    /// The message text of the packet.
    pub fn message(&self) -> (text: Vec<u8>)
        ensures
            ({
                let start = 40 + self.head().subsystem_len + self.head().file_len;
                let end = min_int(start + self.head().message_len, self.contents().len() as int);
                text@ == if start >= self.contents().len() {
                    Seq::<u8>::empty()
                } else {
                    self.contents().subrange(start, end)
                }
            }),
            forall|packet: PacketModel| #[trigger]
                self.holds(packet) ==> text@ == packet.record.message,
    {
        let start: usize = HEADER_SIZE + self.header.subsystem_len as usize
            + self.header.file_len as usize;
        let end: usize = min_usize(start + self.header.message_len as usize, self.bytes.len());
        let text: Vec<u8> = if start >= self.bytes.len() {
            Vec::new()
        } else {
            copy_range(&self.bytes, start, end)
        };
        assert forall|packet: PacketModel| #[trigger] self.holds(packet) implies text@
            == packet.record.message by {
            lemma_header_len(packet);
            assert(text@ =~= packet.record.message);
        }
        text
    }
}

impl Default for PacketBuffer {
    fn default() -> (buffer: Self)
        ensures
            buffer.contents() == Seq::<u8>::empty(),
            buffer.head().is_empty(),
    {
        PacketBuffer::new()
    }
}

/// One ring entry.
struct Slot {
    /// Record that claimed the entry last.
    sequence: Option<u64>,
    /// Whether that record is published.
    committed: bool,
    /// Whether a reader got that record.
    seen: bool,
    header: Header,
    /// Subsystem, source path and message.
    payload: Vec<u8>,
}

/// A ring entry as specifications see it.
#[verifier::ext_equal]
pub struct SlotModel {
    /// Record that claimed the entry last.
    pub sequence: Option<u64>,
    /// That record, once published.
    pub packet: Option<PacketModel>,
    /// Whether a reader got that record.
    pub seen: bool,
}

impl Slot {
    spec fn packet(self) -> PacketModel {
        let a = self.header.subsystem_len as int;
        let b = a + self.header.file_len;
        PacketModel {
            sequence: self.header.sequence,
            record: RecordModel {
                level: self.header.level,
                flags: self.header.flags,
                timestamp_ns: self.header.timestamp_ns,
                cpu: self.header.cpu,
                line: self.header.line,
                thread: self.header.thread,
                subsystem: self.payload@.subrange(0, a),
                file: self.payload@.subrange(a, b),
                message: self.payload@.skip(b),
            },
        }
    }

    spec fn model(self) -> SlotModel {
        SlotModel {
            sequence: self.sequence,
            packet: if self.committed {
                Some(self.packet())
            } else {
                None
            },
            seen: self.seen,
        }
    }

    spec fn wf(self) -> bool {
        self.committed ==> {
            &&& self.sequence == Some(self.header.sequence)
            &&& self.header.subsystem_len + self.header.file_len <= self.payload@.len()
            &&& self.packet().wf()
            &&& self.header.describes(self.packet())
        }
    }
}

/// What copying a record gives.
pub enum FetchModel {
    /// This packet.
    Ready(PacketModel),
    /// Nothing yet.
    Pending,
    /// It is gone; readers go on at this sequence.
    Lost(u64),
}

/// The ring as specifications see it.
#[verifier::ext_equal]
pub struct RingModel {
    /// Sequence of the next record.
    pub next: u64,
    /// How many records were cut short.
    pub truncated: u64,
    /// How many records were overwritten before any reader got them.
    pub overwritten: u64,
    /// The entries.
    pub slots: Seq<SlotModel>,
}

impl RingModel {
    /// A ring without records.
    pub open spec fn empty() -> RingModel {
        RingModel {
            next: 0,
            truncated: 0,
            overwritten: 0,
            slots: Seq::new(
                512,
                |i: int| SlotModel { sequence: None, packet: None, seen: false },
            ),
        }
    }

    /// The entry for a sequence.
    pub open spec fn slot(self, sequence: int) -> SlotModel {
        self.slots[sequence % 512]
    }

    /// Each entry belongs to the last record that claimed it, and the latest
    /// records all have their entry.
    pub open spec fn wf(self) -> bool {
        &&& self.slots.len() == RING_SLOTS
        &&& self.truncated <= self.next
        &&& self.overwritten <= self.first()
        &&& forall|i: int|
            0 <= i < 512 ==> ((#[trigger] self.slots[i]).sequence matches Some(q) ==> q < self.next
                && q % 512 == i)
        &&& forall|i: int|
            0 <= i < 512 ==> ((#[trigger] self.slots[i]).packet matches Some(p) ==> p.wf()
                && self.slots[i].sequence == Some(p.sequence))
        &&& forall|s: int|
            0 <= s < self.next && self.next - 512 <= s ==> (#[trigger] self.slot(s)).sequence
                == Some(s as u64)
    }

    /// Whether every claimed record is published.
    pub open spec fn complete(self) -> bool {
        forall|i: int|
            0 <= i < self.slots.len() && (#[trigger] self.slots[i]).sequence.is_some()
                ==> self.slots[i].packet.is_some()
    }

    /// Oldest sequence that the ring still holds.
    pub open spec fn first(self) -> u64 {
        minus_or_zero(self.next as int, 512) as u64
    }

    /// The ring with the next record claimed.
    pub open spec fn reserved(self) -> RingModel {
        RingModel {
            next: (self.next + 1) as u64,
            overwritten: if self.evicts_unread() {
                (self.overwritten + 1) as u64
            } else {
                self.overwritten
            },
            slots: self.slots.update(
                self.next as int % 512,
                SlotModel { sequence: Some(self.next), packet: None, seen: false },
            ),
            ..self
        }
    }

    /// Whether the next record overwrites one that no reader got.
    pub open spec fn evicts_unread(self) -> bool {
        self.slot(self.next as int).sequence.is_some() && !self.slot(self.next as int).seen
    }

    /// The ring with a record that a reader got.
    pub open spec fn consumed(self, sequence: u64) -> RingModel {
        RingModel {
            slots: self.slots.update(
                sequence as int % 512,
                SlotModel { seen: true, ..self.slot(sequence as int) },
            ),
            ..self
        }
    }

    /// The ring with a claimed record published.
    pub open spec fn published(self, sequence: u64, record: RecordModel) -> RingModel {
        RingModel {
            truncated: if is_cut(record) {
                (self.truncated + 1) as u64
            } else {
                self.truncated
            },
            slots: self.slots.update(
                sequence as int % 512,
                SlotModel {
                    sequence: Some(sequence),
                    packet: Some(stored(record, sequence)),
                    seen: false,
                },
            ),
            ..self
        }
    }

    /// The ring with one more record.
    pub open spec fn appended(self, record: RecordModel) -> RingModel {
        self.reserved().published(self.next, record)
    }

    /// What copying a record gives.
    pub open spec fn fetched(self, sequence: u64) -> FetchModel {
        let slot = self.slot(sequence as int);
        match slot.sequence {
            None => FetchModel::Pending,
            Some(q) => if q > sequence {
                FetchModel::Lost(self.first())
            } else if q < sequence {
                FetchModel::Pending
            } else {
                match slot.packet {
                    Some(packet) => FetchModel::Ready(packet),
                    None => FetchModel::Pending,
                }
            },
        }
    }
}

/// Ring of kernel log records.
pub struct Ring {
    slots: Vec<Slot>,
    next: u64,
    truncated: u64,
    overwritten: u64,
}

impl View for Ring {
    type V = RingModel;

    closed spec fn view(&self) -> RingModel {
        RingModel {
            next: self.next,
            truncated: self.truncated,
            overwritten: self.overwritten,
            slots: self.slots@.map_values(|s: Slot| s.model()),
        }
    }
}

proof fn lemma_cut_parts(record: RecordModel, sequence: u64)
    ensures
        stored(record, sequence).wf(),
        stored(record, sequence).record.message.len() <= record.message.len(),
{
    if record.subsystem.len() > SUBSYSTEM_LIMIT {
        lemma_boundary(record.subsystem, SUBSYSTEM_LIMIT as int);
    }
    if record.file.len() > FILE_LIMIT {
        lemma_boundary(record.file, FILE_LIMIT as int);
    }
    let room = PAYLOAD_CAPACITY - clamped(record.subsystem, SUBSYSTEM_LIMIT as int).len()
        - clamped(record.file, FILE_LIMIT as int).len();
    if record.message.len() > room {
        lemma_boundary(record.message, room);
    }
}

impl Ring {
    closed spec fn slots_wf(self) -> bool {
        forall|i: int| 0 <= i < self.slots@.len() ==> (#[trigger] self.slots@[i]).wf()
    }

    /// The ring holds what its entries say.
    pub closed spec fn wf(self) -> bool {
        self@.wf() && self.slots_wf()
    }

    /// A sound ring has a sound model.
    pub proof fn lemma_wf(self)
        requires
            self.wf(),
        ensures
            self@.wf(),
    {
    }

    /// Creates an empty ring.
    pub fn new() -> (ring: Self)
        ensures
            ring.wf(),
            ring@ == RingModel::empty(),
    {
        let mut slots: Vec<Slot> = Vec::new();
        while slots.len() < RING_SLOTS
            invariant
                slots@.len() <= 512,
                forall|i: int|
                    0 <= i < slots@.len() ==> (#[trigger] slots@[i]).sequence.is_none()
                        && !slots@[i].committed && !slots@[i].seen,
            decreases 512 - slots@.len(),
        {
            slots.push(
                Slot {
                    sequence: None,
                    committed: false,
                    seen: false,
                    header: Header::empty(),
                    payload: Vec::new(),
                },
            );
        }
        let ring = Ring { slots, next: 0, truncated: 0, overwritten: 0 };
        assert(ring@.slots =~= RingModel::empty().slots);
        ring
    }

    /// Sequence of the next record.
    pub fn next_sequence(&self) -> (sequence: u64)
        ensures
            sequence == self@.next,
    {
        self.next
    }

    /// Oldest sequence that the ring still holds.
    pub fn first_sequence(&self) -> (sequence: u64)
        ensures
            sequence == self@.first(),
    {
        self.next.saturating_sub(RING_SLOTS as u64)
    }

    /// How many records were cut short.
    pub fn truncated(&self) -> (count: u64)
        ensures
            count == self@.truncated,
    {
        self.truncated
    }

    /// How many records were overwritten before any reader got them.
    pub fn overwritten(&self) -> (count: u64)
        ensures
            count == self@.overwritten,
    {
        self.overwritten
    }

    /// Notes that a reader got the record of an entry.
    pub fn consume(&mut self, sequence: u64)
        requires
            old(self).wf(),
        ensures
            final(self).wf(),
            final(self)@ == old(self)@.consumed(sequence),
    {
        let at: usize = (sequence % 512) as usize;
        let ghost before = *self;
        assert(before@.slots.len() == 512);
        assert(before@.slots[at as int] == before.slots@[at as int].model());
        assert(before.slots@[at as int].wf());
        let mut slot = Slot {
            sequence: None,
            committed: false,
            seen: false,
            header: Header::empty(),
            payload: Vec::new(),
        };
        self.slots.set_and_swap(at, &mut slot);
        slot.seen = true;
        assert(slot.packet() == before.slots@[at as int].packet());
        self.slots.set(at, slot);
        assert(self@.slots =~= before@.slots.update(sequence as int % 512, slot.model()));
        assert(self@ =~= before@.consumed(sequence));
        proof {
            lemma_consumed(before@, sequence);
        }
    }

    /// Claims the next entry; what it held is gone.
    pub fn reserve(&mut self) -> (sequence: u64)
        requires
            old(self).wf(),
            old(self)@.next < u64::MAX,
        ensures
            final(self).wf(),
            sequence == old(self)@.next,
            final(self)@ == old(self)@.reserved(),
    {
        let sequence: u64 = self.next;
        let at: usize = (sequence % 512) as usize;
        let ghost before = *self;
        assert(before@.slots.len() == 512);
        assert(before@.slots[at as int] == before.slots@[at as int].model());
        if self.slots[at].sequence.is_some() && !self.slots[at].seen {
            self.overwritten = self.overwritten + 1;
        }
        self.next = sequence + 1;
        let slot = Slot {
            sequence: Some(sequence),
            committed: false,
            seen: false,
            header: Header::empty(),
            payload: Vec::new(),
        };
        self.slots.set(at, slot);
        assert(self@.slots =~= before@.slots.update(sequence as int % 512, slot.model()));
        assert(slot.model() =~= SlotModel { sequence: Some(sequence), packet: None, seen: false });
        assert(self@ =~= before@.reserved());
        assert forall|s: int| 0 <= s < self@.next && self@.next - 512 <= s implies (
        #[trigger] self@.slot(s)).sequence == Some(s as u64) by {
            if s != sequence {
                assert(before@.slot(s).sequence == Some(s as u64));
            }
        }
        sequence
    }

    /// Publishes the record of an entry that is still claimed for it.
    pub fn publish(&mut self, sequence: u64, record: &RecordData<'_>)
        requires
            old(self).wf(),
            old(self)@.slot(sequence as int).sequence == Some(sequence),
            old(self)@.truncated < old(self)@.next,
        ensures
            final(self).wf(),
            final(self)@ == old(self)@.published(sequence, record@),
    {
        let ghost before = *self;
        let ghost packet = stored(record@, sequence);
        proof {
            lemma_cut_parts(record@, sequence);
        }
        let at: usize = (sequence % 512) as usize;
        assert(before@.slots[sequence as int % 512].sequence == Some(sequence));
        let subsystem = clamp(record.subsystem, SUBSYSTEM_LIMIT);
        let file = clamp(record.file, FILE_LIMIT);
        let room: usize = PAYLOAD_CAPACITY - subsystem.len() - file.len();
        let message = clamp(record.message, room);
        let mut flags: u8 = record.flags;
        if message.len() != record.message.len() {
            flags = flags | FLAG_TRUNCATED;
            self.truncated = self.truncated + 1;
        }
        let mut payload: Vec<u8> = Vec::new();
        put_bytes(&mut payload, &subsystem);
        put_bytes(&mut payload, &file);
        put_bytes(&mut payload, &message);
        assert(payload@ =~= packet.payload());
        let mut header = Header::empty();
        header.length = (HEADER_SIZE + payload.len()) as u16;
        header.level = record.level;
        header.sequence = sequence;
        header.timestamp_ns = record.timestamp_ns;
        header.cpu = record.cpu;
        header.line = record.line;
        header.thread = record.thread;
        header.subsystem_len = subsystem.len() as u8;
        header.file_len = file.len() as u8;
        header.message_len = message.len() as u16;
        header.flags = flags;
        let slot = Slot { sequence: Some(sequence), committed: true, seen: false, header, payload };
        assert(slot.packet().record.subsystem =~= packet.record.subsystem);
        assert(slot.packet().record.file =~= packet.record.file);
        assert(slot.packet().record.message =~= packet.record.message);
        assert(slot.packet() =~= packet);
        assert(slot.model() =~= SlotModel {
            sequence: Some(sequence),
            packet: Some(packet),
            seen: false,
        });
        self.slots.set(at, slot);
        assert(self@.slots =~= before@.slots.update(sequence as int % 512, slot.model()));
        assert(self@ =~= before@.published(sequence, record@));
        assert forall|s: int| 0 <= s < self@.next && self@.next - 512 <= s implies (
        #[trigger] self@.slot(s)).sequence == Some(s as u64) by {
            assert(before@.slot(s).sequence == Some(s as u64));
        }
    }

    /// Stores one record and returns its sequence.
    pub fn append(&mut self, record: &RecordData<'_>) -> (sequence: u64)
        requires
            old(self).wf(),
            old(self)@.next < u64::MAX,
        ensures
            final(self).wf(),
            sequence == old(self)@.next,
            final(self)@ == old(self)@.appended(record@),
    {
        let sequence: u64 = self.reserve();
        self.publish(sequence, record);
        sequence
    }

    /// Copies the record at `sequence` into `out`.
    pub fn fetch(&self, sequence: u64, out: &mut PacketBuffer) -> (outcome: Fetch)
        requires
            self.wf(),
        ensures
            match self@.fetched(sequence) {
                FetchModel::Ready(packet) => outcome == Fetch::Ready(packet.length() as usize)
                    && final(out).holds(packet),
                FetchModel::Pending => outcome == Fetch::Pending && *final(out) == *old(out),
                FetchModel::Lost(first) => outcome == Fetch::Lost(first) && *final(out) == *old(out),
            },
    {
        let at: usize = (sequence % 512) as usize;
        let slot = &self.slots[at];
        assert(self@.slot(sequence as int) == slot.model());
        assert(slot.wf());
        let held: u64 = match slot.sequence {
            None => {
                return Fetch::Pending;
            },
            Some(held) => held,
        };
        if held > sequence {
            return Fetch::Lost(self.first_sequence());
        }
        if held < sequence || !slot.committed {
            return Fetch::Pending;
        }
        let ghost packet = slot.packet();
        proof {
            lemma_header_len(packet);
            slot.header.lemma_wire(packet);
            assert(slot.payload@ =~= packet.payload());
        }
        let mut bytes: Vec<u8> = slot.header.encode();
        put_bytes(&mut bytes, &slot.payload);
        assert(bytes@ == packet_bytes(packet));
        let length: usize = bytes.len();
        out.bytes = bytes;
        out.header = slot.header;
        Fetch::Ready(length)
    }
}

impl Default for Ring {
    fn default() -> (ring: Self)
        ensures
            ring.wf(),
            ring@ == RingModel::empty(),
    {
        Ring::new()
    }
}

/// The ring after several records.
pub open spec fn appended_all(ring: RingModel, records: Seq<RecordModel>) -> RingModel
    decreases records.len(),
{
    if records.len() == 0 {
        ring
    } else {
        appended_all(ring, records.drop_last()).appended(records.last())
    }
}

proof fn lemma_appended(ring: RingModel, record: RecordModel)
    requires
        ring.wf(),
        ring.next < u64::MAX,
    ensures
        ring.appended(record).wf(),
        ring.appended(record).next == ring.next + 1,
{
    let after = ring.appended(record);
    lemma_cut_parts(record, ring.next);
    assert forall|s: int| 0 <= s < after.next && after.next - 512 <= s implies (
    #[trigger] after.slot(s)).sequence == Some(s as u64) by {
        if s != ring.next {
            assert(ring.slot(s).sequence == Some(s as u64));
        }
    }
}

proof fn lemma_consumed(ring: RingModel, sequence: u64)
    requires
        ring.wf(),
    ensures
        ring.consumed(sequence).wf(),
{
    let after = ring.consumed(sequence);
    assert forall|s: int| 0 <= s < after.next && after.next - 512 <= s implies (
    #[trigger] after.slot(s)).sequence == Some(s as u64) by {
        assert(ring.slot(s).sequence == Some(s as u64));
    }
}

/// Whether readers got every record that the ring holds.
pub open spec fn all_seen(ring: RingModel) -> bool {
    forall|i: int|
        0 <= i < ring.slots.len() ==> (#[trigger] ring.slots[i]).sequence.is_some()
            ==> ring.slots[i].seen
}

/// The ring after several records, of which a reader got each before the next
/// came.
pub open spec fn followed(ring: RingModel, records: Seq<RecordModel>) -> RingModel
    decreases records.len(),
{
    if records.len() == 0 {
        ring
    } else {
        let before = followed(ring, records.drop_last());
        before.appended(records.last()).consumed(before.next)
    }
}

/// A record that was read is not counted as overwritten: as long as a reader
/// keeps up, the count does not change, however many records come.
pub proof fn law_read_records_are_not_counted(ring: RingModel, records: Seq<RecordModel>)
    requires
        ring.wf(),
        all_seen(ring),
        ring.next + records.len() <= u64::MAX,
    ensures
        followed(ring, records).wf(),
        followed(ring, records).next == ring.next + records.len(),
        followed(ring, records).overwritten == ring.overwritten,
        all_seen(followed(ring, records)),
    decreases records.len(),
{
    if records.len() > 0 {
        let before = followed(ring, records.drop_last());
        law_read_records_are_not_counted(ring, records.drop_last());
        lemma_appended(before, records.last());
        lemma_consumed(before.appended(records.last()), before.next);
        let after = followed(ring, records);
        assert forall|i: int|
            0 <= i < after.slots.len() && (#[trigger] after.slots[i]).sequence.is_some() implies
            after.slots[i].seen by {
            assert(i != before.next % 512 ==> after.slots[i] == before.slots[i]);
        }
    }
}

/// A record that was never read counts once it is overwritten.
pub proof fn law_unread_record_is_counted(ring: RingModel, record: RecordModel)
    requires
        ring.wf(),
        512 <= ring.next < u64::MAX,
        !ring.slot(ring.first() as int).seen,
    ensures
        ring.appended(record).overwritten == ring.overwritten + 1,
{
    assert(ring.slot(ring.next as int) == ring.slot(ring.first() as int));
    assert(ring.slot(ring.first() as int).sequence == Some(ring.first()));
}

/// Records are numbered in the order of their writing, so no number is used
/// twice.
pub proof fn law_sequence_is_never_reused(ring: RingModel, records: Seq<RecordModel>)
    requires
        ring.wf(),
        ring.next + records.len() <= u64::MAX,
    ensures
        appended_all(ring, records).wf(),
        appended_all(ring, records).next == ring.next + records.len(),
    decreases records.len(),
{
    if records.len() > 0 {
        law_sequence_is_never_reused(ring, records.drop_last());
        lemma_appended(appended_all(ring, records.drop_last()), records.last());
    }
}

/// A record can be read back as long as it is among the latest that the ring
/// holds, whatever was logged since.
pub proof fn law_recent_record_is_kept(ring: RingModel, records: Seq<RecordModel>, i: int)
    requires
        ring.wf(),
        ring.next + records.len() <= u64::MAX,
        0 <= i < records.len() <= i + 512,
    ensures
        appended_all(ring, records).fetched((ring.next + i) as u64) == FetchModel::Ready(
            stored(records[i], (ring.next + i) as u64),
        ),
    decreases records.len(),
{
    let before = appended_all(ring, records.drop_last());
    let sequence = (ring.next + i) as u64;
    law_sequence_is_never_reused(ring, records.drop_last());
    if i < records.len() - 1 {
        law_recent_record_is_kept(ring, records.drop_last(), i);
        assert(records.drop_last()[i] == records[i]);
        assert(before.slot(sequence as int).sequence == Some(sequence));
        assert(before.next % 512 != sequence % 512);
        assert(before.appended(records.last()).slot(sequence as int) == before.slot(
            sequence as int,
        ));
    }
}

/// A record that was overwritten is told as lost, with the place to go on.
pub proof fn law_overwritten_record_is_lost(ring: RingModel, sequence: u64)
    requires
        ring.wf(),
        sequence < ring.first(),
    ensures
        ring.fetched(sequence) == FetchModel::Lost(ring.first()),
{
    let later = ring.next - 512 + (sequence - (ring.next - 512)) % 512;
    assert(later % 512 == sequence % 512);
    assert(ring.slot(later).sequence == Some(later as u64));
    assert(ring.slot(sequence as int) == ring.slot(later));
}

/// Cutting text never splits a character: what is stored of valid text is
/// valid.
pub proof fn law_cut_text_stays_valid(bytes: Seq<u8>, limit: int)
    requires
        valid_utf8(bytes),
        0 <= limit,
    ensures
        valid_utf8(clamped(bytes, limit)),
{
    if bytes.len() > limit {
        lemma_boundary(bytes, limit);
        let end = boundary(bytes, limit);
        is_char_boundary_start_end_of_seq(bytes);
        is_char_boundary_iff_not_is_continuation_byte(bytes, end);
        valid_utf8_split(bytes, end);
        assert(bytes.take(end) =~= bytes.subrange(0, end));
    }
}

/// A message within the guaranteed limit is never cut.
pub proof fn law_short_message_is_whole(record: RecordModel, sequence: u64)
    requires
        record.message.len() <= MESSAGE_LIMIT,
    ensures
        stored(record, sequence).record.message == record.message,
        !is_cut(record),
        stored(record, sequence).record.flags == record.flags,
{
    lemma_cut_parts(record, sequence);
    lemma_cut_parts(record, 0);
}

proof fn lemma_keeps_start(start: Seq<u8>, more: Seq<u8>)
    requires
        start.len() >= 16,
    ensures
        (start + more).subrange(0, 16) == start.subrange(0, 16),
        (start + more).len() >= 16,
{
    assert((start + more).subrange(0, 16) =~= start.subrange(0, 16));
}

/// How every packet begins.
pub open spec fn packet_start(packet: PacketModel) -> Seq<u8> {
    u32_bytes(PACKET_MAGIC) + u16_bytes(packet.length() as u16) + seq![
        packet.record.level,
        PACKET_VERSION,
    ] + u64_bytes(packet.sequence)
}

proof fn lemma_packet_start(packet: PacketModel)
    ensures
        packet_bytes(packet).subrange(0, 16) == packet_start(packet),
{
    reveal(header_bytes);
    let record = packet.record;
    let a = packet_start(packet);
    let b = a + u64_bytes(record.timestamp_ns);
    let c = b + u16_bytes(record.cpu);
    let d = c + u16_bytes(record.line);
    let e = d + u32_bytes(record.thread);
    let f = e + seq![record.subsystem.len() as u8, record.file.len() as u8];
    let g = f + u16_bytes(record.message.len() as u16);
    let h = g + seq![record.flags, 0u8, 0u8, 0u8];
    assert(a.subrange(0, 16) =~= a);
    lemma_keeps_start(a, u64_bytes(record.timestamp_ns));
    lemma_keeps_start(b, u16_bytes(record.cpu));
    lemma_keeps_start(c, u16_bytes(record.line));
    lemma_keeps_start(d, u32_bytes(record.thread));
    lemma_keeps_start(e, seq![record.subsystem.len() as u8, record.file.len() as u8]);
    lemma_keeps_start(f, u16_bytes(record.message.len() as u16));
    lemma_keeps_start(g, seq![record.flags, 0u8, 0u8, 0u8]);
    lemma_keeps_start(h, packet.payload());
    assert(h == header_bytes(packet));
}

/// A packet frames itself: it starts with the magic word and tells its own
/// size and number.
pub proof fn law_packet_frames_itself(packet: PacketModel)
    requires
        packet.wf(),
    ensures
        u32_at(packet_bytes(packet), 0) == PACKET_MAGIC,
        u16_at(packet_bytes(packet), 4) == packet_bytes(packet).len(),
        u64_at(packet_bytes(packet), 8) == packet.sequence,
        packet_bytes(packet).len() <= MAX_PACKET_SIZE,
{
    let bytes = packet_bytes(packet);
    let start = packet_start(packet);
    lemma_header_len(packet);
    lemma_packet_start(packet);
    assert forall|i: int| 0 <= i < 16 implies bytes[i] == start[i] by {
        assert(bytes.subrange(0, 16)[i] == bytes[i]);
    }
    assert(start[0] == u32_bytes(PACKET_MAGIC)[0]);
    assert(start[1] == u32_bytes(PACKET_MAGIC)[1]);
    assert(start[2] == u32_bytes(PACKET_MAGIC)[2]);
    assert(start[3] == u32_bytes(PACKET_MAGIC)[3]);
    assert(start[4] == u16_bytes(packet.length() as u16)[0]);
    assert(start[5] == u16_bytes(packet.length() as u16)[1]);
    assert(bytes.subrange(8, 16) =~= u64_bytes(packet.sequence)) by {
        assert forall|i: int| 0 <= i < 8 implies bytes.subrange(8, 16)[i] == u64_bytes(
            packet.sequence,
        )[i] by {
            assert(bytes[8 + i] == start[8 + i]);
        }
    }
    lemma_u64_at(bytes, 8, packet.sequence);
}

/// Appending leaves no record claimed but unpublished.
pub proof fn lemma_appended_complete(ring: RingModel, record: RecordModel)
    requires
        ring.wf(),
        ring.complete(),
    ensures
        ring.appended(record).complete(),
{
    let after = ring.appended(record);
    assert forall|i: int|
        0 <= i < after.slots.len() && (#[trigger] after.slots[i]).sequence.is_some() implies
        after.slots[i].packet.is_some() by {
        if i != ring.next as int % 512 {
            assert(after.slots[i] == ring.slots[i]);
        }
    }
}

/// Behind its header a packet holds the subsystem, the file and the message of
/// its record, and nothing else.
pub proof fn law_packet_holds_the_texts(packet: PacketModel)
    ensures
        ({
            let bytes = packet_bytes(packet);
            let record = packet.record;
            let a = 40 + record.subsystem.len() as int;
            let b = a + record.file.len() as int;
            &&& bytes.len() == b + record.message.len()
            &&& bytes.subrange(40, a) == record.subsystem
            &&& bytes.subrange(a, b) == record.file
            &&& bytes.skip(b) == record.message
        }),
{
    lemma_header_len(packet);
    lemma_texts_behind(
        header_bytes(packet),
        packet.record.subsystem,
        packet.record.file,
        packet.record.message,
    );
}

proof fn lemma_texts_behind(header: Seq<u8>, a: Seq<u8>, b: Seq<u8>, c: Seq<u8>)
    requires
        header.len() == 40,
    ensures
        ({
            let bytes = header + (a + b + c);
            let m = 40 + a.len() as int;
            let n = m + b.len() as int;
            &&& bytes.subrange(40, m) == a
            &&& bytes.subrange(m, n) == b
            &&& bytes.skip(n) == c
            &&& bytes.len() == n + c.len()
        }),
{
    let bytes = header + (a + b + c);
    let m = 40 + a.len() as int;
    let n = m + b.len() as int;
    assert(bytes.subrange(40, m) =~= a);
    assert(bytes.subrange(m, n) =~= b);
    assert(bytes.skip(n) =~= c);
}

/// A stored record is what was logged, with each text cut, if at all, only at
/// its end, and it says whether its message was cut.
pub proof fn law_stored_record_is_what_was_logged(record: RecordModel, sequence: u64)
    ensures
        ({
            let kept = stored(record, sequence).record;
            &&& stored(record, sequence).sequence == sequence
            &&& kept.message.len() <= record.message.len()
            &&& kept.message == record.message.take(kept.message.len() as int)
            &&& kept.subsystem == record.subsystem.take(kept.subsystem.len() as int)
            &&& kept.file == record.file.take(kept.file.len() as int)
            &&& record.subsystem.len() <= 32 ==> kept.subsystem == record.subsystem
            &&& record.file.len() <= 48 ==> kept.file == record.file
            &&& kept.subsystem.len() + kept.file.len() + kept.message.len() <= 256
            &&& kept.message.len() == record.message.len() ==> kept.flags == record.flags
            &&& kept.message.len() < record.message.len() ==> kept.flags == record.flags | 1u8
            &&& kept.level == record.level && kept.timestamp_ns == record.timestamp_ns
            &&& kept.cpu == record.cpu && kept.line == record.line && kept.thread == record.thread
        }),
{
    lemma_cut_parts(record, sequence);
    lemma_clamped(record.subsystem, SUBSYSTEM_LIMIT as int);
    lemma_clamped(record.file, FILE_LIMIT as int);
    let subsystem = clamped(record.subsystem, SUBSYSTEM_LIMIT as int);
    let file = clamped(record.file, FILE_LIMIT as int);
    lemma_clamped(record.message, PAYLOAD_CAPACITY - subsystem.len() - file.len());
}

proof fn lemma_clamped(bytes: Seq<u8>, limit: int)
    requires
        0 <= limit,
    ensures
        clamped(bytes, limit).len() <= limit,
        clamped(bytes, limit).len() <= bytes.len(),
        clamped(bytes, limit) == bytes.take(clamped(bytes, limit).len() as int),
        bytes.len() <= limit ==> clamped(bytes, limit) == bytes,
{
    if bytes.len() > limit {
        lemma_boundary(bytes, limit);
    } else {
        assert(bytes.take(bytes.len() as int) =~= bytes);
    }
}

/// A text is cut only inside of it, and no more than the character that the
/// limit falls into is lost.
pub proof fn law_cut_loses_one_character(bytes: Seq<u8>, limit: int)
    requires
        0 <= limit < bytes.len(),
    ensures
        ({
            let kept = clamped(bytes, limit).len() as int;
            &&& 0 <= kept <= limit
            &&& forall|i: int| kept < i <= limit ==> is_continuation_byte(#[trigger] bytes[i])
            &&& kept == 0 || !is_continuation_byte(bytes[kept])
        }),
{
    lemma_boundary(bytes, limit);
    lemma_boundary_skips(bytes, limit);
}

proof fn lemma_boundary_skips(bytes: Seq<u8>, end: int)
    requires
        0 <= end < bytes.len(),
    ensures
        forall|i: int|
            boundary(bytes, end) < i <= end ==> is_continuation_byte(#[trigger] bytes[i]),
    decreases end,
{
    if end > 0 && is_continuation_byte(bytes[end]) {
        lemma_boundary_skips(bytes, end - 1);
    }
}

} // verus!
