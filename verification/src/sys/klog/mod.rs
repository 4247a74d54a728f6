//! Kernel log with runtime severity control.
//!
//! A message is stored as a packet in a ring, which is the history that readers
//! see. Only a message that also clears the separate console level is printed
//! as a line.

use std::cmp::Ordering;
use vstd::prelude::*;
use vstd::std_specs::cmp::{PartialOrdSpec, PartialOrdSpecImpl};
use vstd::utf8::valid_utf8;
use crate::bytes::{copy_all, copy_range, put_bytes, same_bytes, zeros};
use crate::num::{max_int, max_u64, min_int, min_usize, minus_or_zero};
use crate::sys::event::{waiters_known, Event, EventModel, WaitGroups};
use crate::sys::sync::WakeTarget;
use crate::text::{decimal, is_utf8, padded, put_decimal, put_padded, put_text, shown};
use self::packet::{
    Fetch, FetchModel, PacketBuffer, PacketModel, RecordData, RecordModel, Ring, RingModel,
    FLAG_EMERGENCY, FLAG_TRUNCATED, FLAG_USERSPACE, MESSAGE_LIMIT, PAYLOAD_CAPACITY,
    RING_SLOTS, SUBSYSTEM_LIMIT,
};

pub mod dev;
pub mod packet;

verus! {

/// Severity of a record; more urgent ones have smaller numbers.
#[derive(Copy, Clone, Debug, PartialEq, Eq, Ord, Structural)]
pub enum Level {
    /// The kernel cannot continue. Never suppressed.
    Emergency,
    /// An operation failed.
    Error,
    /// Something unexpected happened but the kernel recovered.
    Warn,
    /// A one-off milestone.
    Info,
    /// Detail for investigating a subsystem.
    Debug,
    /// High-frequency detail.
    Trace,
}

impl PartialOrd for Level {
    fn partial_cmp(&self, other: &Self) -> (order: Option<Ordering>) {
        let (a, b): (u8, u8) = (self.as_raw(), other.as_raw());
        if a < b {
            Some(Ordering::Less)
        } else if a == b {
            Some(Ordering::Equal)
        } else {
            Some(Ordering::Greater)
        }
    }
}

impl PartialOrdSpecImpl for Level {
    open spec fn obeys_partial_cmp_spec() -> bool {
        true
    }

    open spec fn partial_cmp_spec(&self, other: &Self) -> Option<Ordering> {
        if self.raw() < other.raw() {
            Some(Ordering::Less)
        } else if self.raw() == other.raw() {
            Some(Ordering::Equal)
        } else {
            Some(Ordering::Greater)
        }
    }
}

/// Levels are ordered by their numbers: the smaller is the more severe, and
/// every level comes back from its number.
pub proof fn law_levels_are_ordered(a: Level, b: Level)
    ensures
        PartialOrdSpec::partial_cmp_spec(&a, &b) == Some(Ordering::Less) <==> a.raw() < b.raw(),
        PartialOrdSpec::partial_cmp_spec(&a, &b) == Some(Ordering::Equal) <==> a == b,
        PartialOrdSpec::partial_cmp_spec(&a, &b) == Some(Ordering::Greater) <==> a.raw() > b.raw(),
        Level::of(a.raw()) == a,
        a.raw() < LEVEL_COUNT,
        Level::Emergency.raw() == 0,
{
}

/// Number of distinct severities.
pub const LEVEL_COUNT: u8 = 6;

/// What the logging facade can filter by.
#[derive(Copy, Clone, Debug, PartialEq, Eq, Structural)]
pub enum Filter {
    /// Errors only.
    Error,
    /// Warnings and errors.
    Warn,
    /// Milestones too.
    Info,
    /// Details too.
    Debug,
    /// Everything.
    Trace,
}

impl Level {
    /// The numeric severity.
    pub open spec fn raw(self) -> u8 {
        match self {
            Level::Emergency => 0,
            Level::Error => 1,
            Level::Warn => 2,
            Level::Info => 3,
            Level::Debug => 4,
            Level::Trace => 5,
        }
    }

    /// The severity of a number.
    pub open spec fn of(value: u8) -> Level {
        match value {
            0 => Level::Emergency,
            1 => Level::Error,
            2 => Level::Warn,
            3 => Level::Info,
            4 => Level::Debug,
            _ => Level::Trace,
        }
    }

    /// Converts a raw severity, where large ones are `Trace`.
    pub fn from_raw(value: u8) -> (level: Self)
        ensures
            level == Level::of(value),
    {
        match value {
            0 => Level::Emergency,
            1 => Level::Error,
            2 => Level::Warn,
            3 => Level::Info,
            4 => Level::Debug,
            _ => Level::Trace,
        }
    }

    /// The numeric severity.
    pub fn as_raw(self) -> (value: u8)
        ensures
            value == self.raw(),
            Level::of(value) == self,
    {
        match self {
            Level::Emergency => 0,
            Level::Error => 1,
            Level::Warn => 2,
            Level::Info => 3,
            Level::Debug => 4,
            Level::Trace => 5,
        }
    }

    /// The lowercase name used by diagnostics.
    pub fn name(self) -> (name: &'static str)
        ensures
            name@ == match self {
                Level::Emergency => "emerg"@,
                Level::Error => "error"@,
                Level::Warn => "warn"@,
                Level::Info => "info"@,
                Level::Debug => "debug"@,
                Level::Trace => "trace"@,
            },
    {
        match self {
            Level::Emergency => "emerg",
            Level::Error => "error",
            Level::Warn => "warn",
            Level::Info => "info",
            Level::Debug => "debug",
            Level::Trace => "trace",
        }
    }

    /// The character that marks a line.
    pub open spec fn mark(self) -> u8 {
        match self {
            Level::Emergency => 0x21,
            Level::Error => 0x45,
            Level::Warn => 0x21,
            Level::Info => 0x2a,
            Level::Debug => 0x44,
            Level::Trace => 0x54,
        }
    }

    /// The terminal attributes of that character.
    pub open spec fn attributes(self) -> Seq<u8> {
        match self {
            Level::Emergency => seq![0x31u8, 0x3b, 0x34, 0x31, 0x3b, 0x39, 0x37],
            Level::Error => seq![0x31u8, 0x3b, 0x33, 0x31],
            Level::Warn => seq![0x31u8, 0x3b, 0x33, 0x33],
            Level::Info => seq![0x31u8, 0x3b, 0x33, 0x32],
            Level::Debug => seq![0x31u8, 0x3b, 0x33, 0x34],
            Level::Trace => seq![0x30u8, 0x3b, 0x33, 0x35],
        }
    }

    fn glyph(self) -> (glyph: (u8, Vec<u8>))
        ensures
            glyph.0 == self.mark(),
            glyph.1@ == self.attributes(),
    {
        let glyph: (u8, Vec<u8>) = match self {
            Level::Emergency => (0x21, vec![0x31u8, 0x3b, 0x34, 0x31, 0x3b, 0x39, 0x37]),
            Level::Error => (0x45, vec![0x31u8, 0x3b, 0x33, 0x31]),
            Level::Warn => (0x21, vec![0x31u8, 0x3b, 0x33, 0x33]),
            Level::Info => (0x2a, vec![0x31u8, 0x3b, 0x33, 0x32]),
            Level::Debug => (0x44, vec![0x31u8, 0x3b, 0x33, 0x34]),
            Level::Trace => (0x54, vec![0x30u8, 0x3b, 0x33, 0x35]),
        };
        assert(glyph.1@ =~= self.attributes());
        glyph
    }

    /// The severity of a facade record.
    pub open spec fn of_filter(level: Filter) -> Level {
        match level {
            Filter::Error => Level::Error,
            Filter::Warn => Level::Warn,
            Filter::Info => Level::Info,
            Filter::Debug => Level::Debug,
            Filter::Trace => Level::Trace,
        }
    }

    /// Returns the severity of a facade record.
    pub fn from_log(level: Filter) -> (result: Self)
        ensures
            result == Level::of_filter(level),
    {
        match level {
            Filter::Error => Level::Error,
            Filter::Warn => Level::Warn,
            Filter::Info => Level::Info,
            Filter::Debug => Level::Debug,
            Filter::Trace => Level::Trace,
        }
    }

    /// The facade filter of a severity; the facade knows no emergencies.
    pub fn to_filter(self) -> (filter: Filter)
        ensures
            filter == match self {
                Level::Emergency => Filter::Error,
                Level::Error => Filter::Error,
                Level::Warn => Filter::Warn,
                Level::Info => Filter::Info,
                Level::Debug => Filter::Debug,
                Level::Trace => Filter::Trace,
            },
    {
        match self {
            Level::Emergency => Filter::Error,
            Level::Error => Filter::Error,
            Level::Warn => Filter::Warn,
            Level::Info => Filter::Info,
            Level::Debug => Filter::Debug,
            Level::Trace => Filter::Trace,
        }
    }
}

/// Maximum number of registered console sinks.
pub const MAX_SINKS: usize = 8;

/// Widest console line of a record.
pub const CONSOLE_LINE_CAPACITY: usize = 512;

/// Widest plain-text line of a record.
pub const TEXT_LINE_CAPACITY: usize = 448;

/// Snapshot of log statistics.
#[derive(Copy, Clone, Debug, Default)]
pub struct Stats {
    /// Sequence of the next record.
    pub next_sequence: u64,
    /// Oldest sequence that readers see.
    pub first_sequence: u64,
    /// Records that were overwritten before any reader got them.
    pub overwritten: u64,
    /// Records that were cut short.
    pub truncated: u64,
    /// Number of entries in the ring.
    pub slots: u32,
    /// Bytes of payload that an entry holds.
    pub slot_payload: u32,
    /// Severity that is recorded.
    pub record_level: u8,
    /// Severity that is printed.
    pub console_level: u8,
    /// Reserved, always zero.
    pub reserved: [u8; 6],
}

/// Failure while reading packets.
#[derive(Copy, Clone, Debug, PartialEq, Eq, Structural)]
pub enum ReadError {
    /// A nonblocking read found no record.
    WouldBlock,
    /// The output buffer cannot hold a packet.
    BufferTooSmall,
    /// A signal became pending during the wait.
    Interrupted,
}

/// Rendering options of a line.
#[derive(Copy, Clone, Debug, PartialEq, Eq, Structural)]
pub struct Style {
    /// Emit terminal escape sequences.
    pub color: bool,
    /// Begin with the record's time.
    pub timestamp: bool,
}

/// Style of console lines.
pub open spec fn console_style() -> Style {
    Style { color: true, timestamp: false }
}

/// Style of the plain-text device.
pub open spec fn text_style() -> Style {
    Style { color: false, timestamp: true }
}

/// The time at the start of a line.
pub open spec fn stamp(record: RecordModel, style: Style) -> Seq<u8> {
    if style.timestamp {
        seq![0x5bu8] + padded(record.timestamp_ns as int / 1_000_000_000, 5, 0x20) + seq![0x2eu8]
            + padded((record.timestamp_ns as int % 1_000_000_000) / 1_000, 6, 0x30) + seq![
            0x5du8,
            0x20u8,
        ]
    } else {
        Seq::empty()
    }
}

/// The severity in a line.
pub open spec fn badge(record: RecordModel, style: Style) -> Seq<u8> {
    let level = Level::of(record.level);
    if style.color {
        seq![0x5bu8, 0x1b, 0x5b] + level.attributes() + seq![
            0x6du8,
            level.mark(),
            0x1b,
            0x5b,
            0x30,
            0x6d,
            0x5d,
        ]
    } else {
        seq![0x5bu8, level.mark(), 0x5d]
    }
}

/// The source location in a line.
pub open spec fn place(record: RecordModel, style: Style) -> Seq<u8> {
    if record.file.len() == 0 {
        Seq::empty()
    } else if style.color {
        seq![0x20u8, 0x1b, 0x5b, 0x32, 0x6d, 0x28] + shown(record.file) + seq![0x3au8] + decimal(
            record.line as int,
        ) + seq![0x29u8, 0x1b, 0x5b, 0x30, 0x6d]
    } else {
        seq![0x20u8, 0x28] + shown(record.file) + seq![0x3au8] + decimal(record.line as int)
            + seq![0x29u8]
    }
}

/// Subsystem and message in a line.
pub open spec fn body(record: RecordModel) -> Seq<u8> {
    seq![0x20u8] + (if record.subsystem.len() == 0 {
        Seq::empty()
    } else {
        shown(record.subsystem) + seq![0x3au8, 0x20]
    }) + shown(record.message) + (if record.flags & FLAG_TRUNCATED != 0 {
        seq![0x2eu8, 0x2e, 0x2e]
    } else {
        Seq::empty()
    }) + seq![0x0au8]
}

/// A record as a line: severity, source location, and the message behind its
/// subsystem.
pub open spec fn rendered(record: RecordModel, style: Style) -> Seq<u8> {
    stamp(record, style) + badge(record, style) + place(record, style) + body(record)
}

/// What a buffer of `capacity` bytes takes of a text.
pub open spec fn fitted(text: Seq<u8>, capacity: int) -> Seq<u8> {
    text.take(min_int(text.len() as int, capacity))
}

/// A record as a console line.
pub open spec fn console_line(record: RecordModel) -> Seq<u8> {
    fitted(rendered(record, console_style()), CONSOLE_LINE_CAPACITY as int)
}

/// A record as a plain-text line.
pub open spec fn text_line(record: RecordModel) -> Seq<u8> {
    fitted(rendered(record, text_style()), TEXT_LINE_CAPACITY as int)
}

fn put_stamp(out: &mut Vec<u8>, record: &RecordData<'_>, style: Style)
    ensures
        final(out)@ == old(out)@ + stamp(record@, style),
{
    let ghost start = out@;
    if style.timestamp {
        out.push(0x5b);
        put_padded(out, record.timestamp_ns / 1_000_000_000, 5, 0x20);
        out.push(0x2e);
        put_padded(out, (record.timestamp_ns % 1_000_000_000) / 1_000, 6, 0x30);
        out.push(0x5d);
        out.push(0x20);
    }
    assert(out@ =~= start + stamp(record@, style));
}

fn put_badge(out: &mut Vec<u8>, record: &RecordData<'_>, style: Style)
    ensures
        final(out)@ == old(out)@ + badge(record@, style),
{
    let ghost start = out@;
    let (mark, attributes) = Level::from_raw(record.level).glyph();
    out.push(0x5b);
    if style.color {
        out.push(0x1b);
        out.push(0x5b);
        put_bytes(out, &attributes);
        out.push(0x6d);
    }
    out.push(mark);
    if style.color {
        out.push(0x1b);
        out.push(0x5b);
        out.push(0x30);
        out.push(0x6d);
    }
    out.push(0x5d);
    assert(out@ =~= start + badge(record@, style));
}

fn put_place(out: &mut Vec<u8>, record: &RecordData<'_>, style: Style)
    ensures
        final(out)@ == old(out)@ + place(record@, style),
{
    let ghost start = out@;
    if record.file.len() > 0 {
        out.push(0x20);
        if style.color {
            out.push(0x1b);
            out.push(0x5b);
            out.push(0x32);
            out.push(0x6d);
        }
        out.push(0x28);
        put_text(out, record.file);
        out.push(0x3a);
        put_decimal(out, record.line as u64);
        out.push(0x29);
        if style.color {
            out.push(0x1b);
            out.push(0x5b);
            out.push(0x30);
            out.push(0x6d);
        }
    }
    assert(out@ =~= start + place(record@, style));
}

fn put_body(out: &mut Vec<u8>, record: &RecordData<'_>)
    ensures
        final(out)@ == old(out)@ + body(record@),
{
    let ghost start = out@;
    out.push(0x20);
    if record.subsystem.len() > 0 {
        put_text(out, record.subsystem);
        out.push(0x3a);
        out.push(0x20);
    }
    put_text(out, record.message);
    if record.flags & FLAG_TRUNCATED != 0 {
        out.push(0x2e);
        out.push(0x2e);
        out.push(0x2e);
    }
    out.push(0x0a);
    assert(out@ =~= start + body(record@));
}

/// Renders a record as a line of at most `capacity` bytes.
pub fn render_fields(record: &RecordData<'_>, style: Style, capacity: usize) -> (line: Vec<u8>)
    ensures
        line@ == fitted(rendered(record@, style), capacity as int),
{
    let mut out: Vec<u8> = Vec::new();
    put_stamp(&mut out, record, style);
    put_badge(&mut out, record, style);
    put_place(&mut out, record, style);
    put_body(&mut out, record);
    assert(out@ =~= rendered(record@, style));
    let end: usize = min_usize(out.len(), capacity);
    let line = copy_range(&out, 0, end);
    assert(line@ =~= fitted(out@, capacity as int));
    line
}

/// Whether a buffer holds some packet.
pub open spec fn filled(buffer: PacketBuffer) -> bool {
    exists|packet: PacketModel| buffer.holds(packet)
}

/// Renders a stored packet as a line of at most `capacity` bytes.
pub fn render(buffer: &PacketBuffer, style: Style, capacity: usize) -> (line: Vec<u8>)
    requires
        filled(*buffer),
    ensures
        forall|packet: PacketModel| #[trigger]
            buffer.holds(packet) ==> line@ == fitted(
                rendered(packet.record, style),
                capacity as int,
            ),
{
    let ghost some = choose|packet: PacketModel| buffer.holds(packet);
    proof {
        packet::lemma_header_len(some);
    }
    let header = buffer.header();
    let subsystem = buffer.subsystem();
    let file = buffer.file();
    let message = buffer.message();
    let record = RecordData {
        level: header.level,
        flags: header.flags,
        timestamp_ns: header.timestamp_ns,
        cpu: header.cpu,
        line: header.line,
        thread: header.thread,
        subsystem: &subsystem,
        file: &file,
        message: &message,
    };
    let line = render_fields(&record, style, capacity);
    assert forall|packet: PacketModel| #[trigger] buffer.holds(packet) implies line@ == fitted(
        rendered(packet.record, style),
        capacity as int,
    ) by {
        assert(record@ =~= packet.record);
    }
    line
}

/// Renders a stored packet as a plain-text line.
pub fn render_text(buffer: &PacketBuffer) -> (line: Vec<u8>)
    requires
        filled(*buffer),
    ensures
        forall|packet: PacketModel| #[trigger]
            buffer.holds(packet) ==> line@ == text_line(packet.record),
{
    render(buffer, Style { color: false, timestamp: true }, TEXT_LINE_CAPACITY)
}

/// A module path with slashes for the double colons, from place `at`.
pub open spec fn slashed(source: Seq<u8>, at: int) -> Seq<u8>
    decreases source.len() - at,
{
    if at >= source.len() {
        Seq::empty()
    } else if at + 1 < source.len() && source[at] == 0x3a && source[at + 1] == 0x3a {
        seq![0x2fu8] + slashed(source, at + 2)
    } else {
        seq![source[at]] + slashed(source, at + 1)
    }
}

/// The crate's own prefix of module paths.
pub open spec fn crate_prefix() -> Seq<u8> {
    seq![0x72u8, 0x6f, 0x61, 0x6e, 0x69, 0x78, 0x3a, 0x3a]
}

/// `text` without `prefix`, where it begins with that.
pub open spec fn stripped(text: Seq<u8>, prefix: Seq<u8>) -> Seq<u8> {
    if prefix.len() <= text.len() && text.take(prefix.len() as int) == prefix {
        text.skip(prefix.len() as int)
    } else {
        text
    }
}

/// The tag of a log target.
pub open spec fn tag_of(target: Seq<u8>) -> Seq<u8> {
    let tag = fitted(slashed(stripped(target, crate_prefix()), 0), SUBSYSTEM_LIMIT as int);
    if valid_utf8(tag) {
        tag
    } else {
        seq![0x6bu8, 0x65, 0x72, 0x6e, 0x65, 0x6c]
    }
}

fn strip_prefix(text: &[u8], prefix: &[u8]) -> (rest: Vec<u8>)
    ensures
        rest@ == stripped(text@, prefix@),
{
    if prefix.len() <= text.len() {
        let start = copy_range(text, 0, prefix.len());
        assert(start@ =~= text@.take(prefix@.len() as int));
        if same_bytes(&start, prefix) {
            let rest = copy_range(text, prefix.len(), text.len());
            assert(rest@ =~= text@.skip(prefix@.len() as int));
            return rest;
        }
    }
    copy_all(text)
}

/// Derives a subsystem tag from a log target: the module path within the
/// kernel, with slashes.
pub fn subsystem_of(target: &[u8]) -> (tag: Vec<u8>)
    ensures
        tag@ == tag_of(target@),
{
    let prefix: Vec<u8> = vec![0x72u8, 0x6f, 0x61, 0x6e, 0x69, 0x78, 0x3a, 0x3a];
    assert(prefix@ =~= crate_prefix());
    let source = strip_prefix(target, &prefix);
    let ghost whole = slashed(source@, 0);
    let mut tag: Vec<u8> = Vec::new();
    let mut at: usize = 0;
    assert(tag@ + slashed(source@, at as int) =~= whole);
    while at < source.len() && tag.len() < SUBSYSTEM_LIMIT
        invariant
            at <= source@.len(),
            tag@.len() <= SUBSYSTEM_LIMIT,
            whole == tag@ + slashed(source@, at as int),
        decreases source@.len() - at,
    {
        let ghost before = tag@;
        let ghost place = at as int;
        if at + 1 < source.len() && source[at] == 0x3a && source[at + 1] == 0x3a {
            tag.push(0x2f);
            at = at + 2;
        } else {
            tag.push(source[at]);
            at = at + 1;
        }
        assert(before + slashed(source@, place) =~= tag@ + slashed(source@, at as int));
    }
    assert(tag@ =~= fitted(whole, SUBSYSTEM_LIMIT as int));
    if is_utf8(&tag) {
        return tag;
    }
    let kernel: Vec<u8> = vec![0x6bu8, 0x65, 0x72, 0x6e, 0x65, 0x6c];
    assert(kernel@ =~= seq![0x6bu8, 0x65, 0x72, 0x6e, 0x65, 0x6c]);
    kernel
}

/// Shortens a source path to the part that identifies the file.
pub fn trim_source_path(path: &[u8]) -> (short: Vec<u8>)
    ensures
        short@ == stripped(path@, seq![0x6bu8, 0x65, 0x72, 0x6e, 0x65, 0x6c, 0x2f]),
{
    let prefix: Vec<u8> = vec![0x6bu8, 0x65, 0x72, 0x6e, 0x65, 0x6c, 0x2f];
    assert(prefix@ =~= seq![0x6bu8, 0x65, 0x72, 0x6e, 0x65, 0x6c, 0x2f]);
    strip_prefix(path, &prefix)
}

/// Where and when a record is produced.
#[derive(Copy, Clone, Debug, PartialEq, Eq, Structural)]
pub struct Origin {
    /// Nanoseconds since the clock source was registered.
    pub timestamp_ns: u64,
    /// CPU.
    pub cpu: u16,
    /// Thread, or zero.
    pub thread: u32,
}

/// The origin of a record on a CPU that runs a thread, or of an early one.
pub fn origin(timestamp_ns: u64, running: Option<(usize, usize)>) -> (origin: Origin)
    ensures
        origin == match running {
            Some((cpu, thread)) => Origin {
                timestamp_ns,
                cpu: min_int(cpu as int, 0xffff) as u16,
                thread: min_int(thread as int, 0xffff_ffff) as u32,
            },
            None => Origin { timestamp_ns, cpu: 0, thread: 0 },
        },
{
    match running {
        Some((cpu, thread)) => Origin {
            timestamp_ns,
            cpu: if cpu > 0xffff {
                0xffff
            } else {
                cpu as u16
            },
            thread: if thread > 0xffff_ffff {
                0xffff_ffff
            } else {
                thread as u32
            },
        },
        None => Origin { timestamp_ns, cpu: 0, thread: 0 },
    }
}

/// The record of a message.
pub open spec fn record_of(
    level: Level,
    subsystem: Seq<u8>,
    file: Seq<u8>,
    line: u32,
    message: Seq<u8>,
    flags: u8,
    origin: Origin,
) -> RecordModel {
    RecordModel {
        level: level.raw(),
        flags,
        timestamp_ns: origin.timestamp_ns,
        cpu: origin.cpu,
        line: min_int(line as int, 0xffff) as u16,
        thread: origin.thread,
        subsystem,
        file,
        message,
    }
}

/// The log as specifications see it.
#[verifier::ext_equal]
pub struct LogModel {
    /// Stored records.
    pub ring: RingModel,
    /// Severity that is recorded.
    pub record: Level,
    /// Severity that is printed.
    pub console: Level,
    /// First sequence that was not hidden.
    pub floor: u64,
    /// Whether a panic owns the machine.
    pub panicking: bool,
    /// Registered sinks, by their numbers.
    pub sinks: Seq<Option<usize>>,
    /// The event that tells readers of new records.
    pub arrival: EventModel,
}

impl LogModel {
    /// The ring is sound and holds no record that is still being written,
    /// nothing unrecorded is printed, and the hidden part is in the past.
    pub open spec fn wf(self) -> bool {
        &&& self.ring.wf()
        &&& self.ring.complete()
        &&& self.console.raw() <= self.record.raw()
        &&& self.floor <= self.ring.next
        &&& self.sinks.len() == MAX_SINKS
    }

    /// Oldest sequence that readers see.
    pub open spec fn first(self) -> u64 {
        max_int(self.ring.first() as int, self.floor as int) as u64
    }

    /// Whether a record is dropped because a panic owns the machine.
    pub open spec fn drops(self, record: RecordModel) -> bool {
        self.panicking && record.flags & FLAG_EMERGENCY == 0
    }

    /// The log with a record emitted.
    pub open spec fn emitted(self, record: RecordModel) -> LogModel {
        if self.drops(record) {
            self
        } else {
            LogModel {
                ring: self.ring.appended(record),
                arrival: self.arrival.raised(true),
                ..self
            }
        }
    }

    /// The log with every record so far hidden.
    pub open spec fn cleared(self) -> LogModel {
        LogModel { floor: self.ring.next, arrival: self.arrival.raised(true), ..self }
    }

    /// What the console prints of an emitted record.
    pub open spec fn printed(self, record: RecordModel) -> Seq<Seq<u8>> {
        if !self.drops(record) && record.level <= self.console.raw() {
            seq![console_line(record)]
        } else {
            Seq::empty()
        }
    }

    /// The log with a new record level; the console follows down.
    pub open spec fn recording(self, level: Level) -> LogModel {
        LogModel {
            record: level,
            console: if self.console.raw() > level.raw() {
                level
            } else {
                self.console
            },
            ..self
        }
    }

    /// The log with a new console level; the record level follows up.
    pub open spec fn printing(self, level: Level) -> LogModel {
        LogModel {
            record: if level.raw() > self.record.raw() {
                level
            } else {
                self.record
            },
            console: level,
            ..self
        }
    }

    /// The console lines of stored records from `sequence` on.
    pub open spec fn backlog(self, sequence: u64) -> Seq<Seq<u8>>
        decreases self.ring.next - sequence,
    {
        if sequence >= self.ring.next {
            Seq::empty()
        } else {
            match self.ring.fetched(sequence) {
                FetchModel::Ready(packet) => (if Level::of(packet.record.level).raw()
                    <= self.console.raw() {
                    seq![console_line(packet.record)]
                } else {
                    Seq::empty()
                }) + self.backlog((sequence + 1) as u64),
                _ => Seq::empty(),
            }
        }
    }

    /// Where a reader at `cursor` stands, once moved past what is gone.
    pub open spec fn position(self, cursor: u64) -> u64 {
        max_int(cursor as int, self.first() as int) as u64
    }

    /// The log after a reader at `cursor` took the packet that it gets next.
    pub open spec fn taken(self, cursor: u64) -> LogModel {
        if self.upcoming(cursor).is_some() {
            LogModel { ring: self.ring.consumed(self.position(cursor)), ..self }
        } else {
            self
        }
    }

    /// The packet that a reader at `cursor` gets next, if it is published.
    pub open spec fn upcoming(self, cursor: u64) -> Option<PacketModel> {
        if self.position(cursor) < self.ring.next {
            match self.ring.fetched(self.position(cursor)) {
                FetchModel::Ready(packet) => Some(packet),
                _ => None,
            }
        } else {
            None
        }
    }
}

/// The kernel log.
pub struct Log {
    ring: Ring,
    record_level: Level,
    console_level: Level,
    floor: u64,
    panicking: bool,
    sinks: Vec<Option<usize>>,
    arrival: Event,
}

impl View for Log {
    type V = LogModel;

    closed spec fn view(&self) -> LogModel {
        LogModel {
            ring: self.ring@,
            record: self.record_level,
            console: self.console_level,
            floor: self.floor,
            panicking: self.panicking,
            sinks: self.sinks@,
            arrival: self.arrival@,
        }
    }
}

impl Log {
    /// The log is sound.
    pub closed spec fn wf(self) -> bool {
        self@.wf() && self.ring.wf() && self.arrival.wf()
    }

    /// A sound log has a sound model.
    pub proof fn lemma_wf(self)
        requires
            self.wf(),
        ensures
            self@.wf(),
    {
    }

    /// An empty log that records details and prints milestones.
    pub fn new() -> (log: Self)
        ensures
            log.wf(),
            log@ == (LogModel {
                ring: RingModel::empty(),
                record: Level::Debug,
                console: Level::Info,
                floor: 0,
                panicking: false,
                sinks: Seq::new(8, |i: int| None::<usize>),
                arrival: EventModel { signaled: false, waiters: Seq::empty() },
            }),
    {
        let ring = Ring::new();
        let sinks: Vec<Option<usize>> = vec![None, None, None, None, None, None, None, None];
        assert(sinks@ =~= Seq::new(8, |i: int| None::<usize>));
        proof {
            ring.lemma_wf();
        }
        Log {
            ring,
            record_level: Level::Debug,
            console_level: Level::Info,
            floor: 0,
            panicking: false,
            sinks,
            arrival: Event::new(),
        }
    }
}

/// The facade filter to install the logger with.
pub fn init(log: &Log) -> (filter: Filter)
    ensures
        filter == match log@.record {
            Level::Emergency => Filter::Error,
            Level::Error => Filter::Error,
            Level::Warn => Filter::Warn,
            Level::Info => Filter::Info,
            Level::Debug => Filter::Debug,
            Level::Trace => Filter::Trace,
        },
{
    log.record_level.to_filter()
}

/// Severity that is recorded.
pub fn record_level(log: &Log) -> (level: Level)
    ensures
        level == log@.record,
{
    log.record_level
}

/// Severity that is printed.
pub fn console_level(log: &Log) -> (level: Level)
    ensures
        level == log@.console,
{
    log.console_level
}

/// Whether a facade record of this severity is recorded.
pub fn is_enabled(log: &Log, level: Filter) -> (enabled: bool)
    ensures
        enabled == (Level::of_filter(level).raw() <= log@.record.raw()),
{
    Level::from_log(level) <= log.record_level
}

/// Changes the severity that is recorded, and returns the previous one.
///
/// What is not recorded cannot be printed, so the console follows down.
pub fn set_record_level(log: &mut Log, level: Level) -> (previous: Level)
    requires
        old(log).wf(),
    ensures
        final(log).wf(),
        previous == old(log)@.record,
        final(log)@ == old(log)@.recording(level),
{
    let previous = log.record_level;
    log.record_level = level;
    if log.console_level.as_raw() > level.as_raw() {
        log.console_level = level;
    }
    previous
}

/// Changes the severity that is printed, and returns the previous one.
///
/// What is printed must be recorded, so the record level follows up.
pub fn set_console_level(log: &mut Log, level: Level) -> (previous: Level)
    requires
        old(log).wf(),
    ensures
        final(log).wf(),
        previous == old(log)@.console,
        final(log)@ == old(log)@.printing(level),
{
    let previous = log.console_level;
    if level.as_raw() > log.record_level.as_raw() {
        log.record_level = level;
    }
    log.console_level = level;
    previous
}

/// Hides every record so far from readers, and returns the readers to wake.
pub fn clear(log: &mut Log, groups: &mut WaitGroups) -> (woken: Vec<WakeTarget>)
    requires
        old(log).wf(),
        waiters_known(old(log)@.arrival.waiters, old(groups)@),
    ensures
        final(log).wf(),
        final(log)@ == old(log)@.cleared(),
        final(groups)@ == old(log)@.arrival.claims(true, old(groups)@),
        woken@ == old(log)@.arrival.wakes(true, old(groups)@),
{
    log.floor = log.ring.next_sequence();
    log.arrival.signal(groups)
}

/// The event that tells readers of new records.
pub fn arrival_event(log: &mut Log) -> (event: &mut Event)
    requires
        old(log).wf(),
    ensures
        event.wf(),
        event@ == old(log)@.arrival,
        final(log)@ == (LogModel { arrival: final(event)@, ..old(log)@ }),
        final(event).wf() ==> final(log).wf(),
{
    &mut log.arrival
}

/// Oldest sequence that readers see.
pub fn first_sequence(log: &Log) -> (sequence: u64)
    ensures
        sequence == log@.first(),
{
    max_u64(log.ring.first_sequence(), log.floor)
}

/// Sequence of the next record.
pub fn next_sequence(log: &Log) -> (sequence: u64)
    ensures
        sequence == log@.ring.next,
{
    log.ring.next_sequence()
}

/// Occupancy of the ring and the active filters.
pub fn stats(log: &Log) -> (stats: Stats)
    ensures
        stats.next_sequence == log@.ring.next,
        stats.first_sequence == log@.first(),
        stats.overwritten == log@.ring.overwritten,
        stats.truncated == log@.ring.truncated,
        stats.slots == RING_SLOTS,
        stats.slot_payload == PAYLOAD_CAPACITY,
        stats.record_level == log@.record.raw(),
        stats.console_level == log@.console.raw(),
        stats.reserved@ == zeros(6),
{
    let stats = Stats {
        next_sequence: log.ring.next_sequence(),
        first_sequence: first_sequence(log),
        overwritten: log.ring.overwritten(),
        truncated: log.ring.truncated(),
        slots: RING_SLOTS as u32,
        slot_payload: PAYLOAD_CAPACITY as u32,
        record_level: log.record_level.as_raw(),
        console_level: log.console_level.as_raw(),
        reserved: [0u8, 0u8, 0u8, 0u8, 0u8, 0u8],
    };
    assert(stats.reserved@ =~= zeros(6));
    stats
}

/// Whether a reader at `cursor` has records ahead.
pub fn has_packets(log: &Log, cursor: u64) -> (waiting: bool)
    ensures
        waiting == (log@.position(cursor) < log@.ring.next),
{
    max_u64(cursor, first_sequence(log)) < log.ring.next_sequence()
}

/// Lines, deeply viewed.
pub open spec fn lines_of(lines: Seq<Vec<u8>>) -> Seq<Seq<u8>> {
    lines.map_values(|line: Vec<u8>| line@)
}

/// Registers a console sink, and returns the lines of stored records that it
/// must print first; there is none where no more sinks fit.
pub fn register_sink(log: &mut Log, sink: usize) -> (replay: Option<Vec<Vec<u8>>>)
    requires
        old(log).wf(),
    ensures
        final(log).wf(),
        match replay {
            Some(lines) => {
                &&& lines_of(lines@) == old(log)@.backlog(old(log)@.first())
                &&& exists|i: int|
                    {
                        &&& 0 <= i < MAX_SINKS
                        &&& #[trigger] old(log)@.sinks[i] == None::<usize>
                        &&& forall|j: int| 0 <= j < i ==> #[trigger] old(log)@.sinks[j] != None::<
                            usize,
                        >
                        &&& final(log)@ == (LogModel {
                            sinks: old(log)@.sinks.update(i, Some(sink)),
                            ..old(log)@
                        })
                    }
            },
            None => {
                &&& final(log)@ == old(log)@
                &&& forall|j: int|
                    0 <= j < MAX_SINKS ==> #[trigger] old(log)@.sinks[j] != None::<usize>
            },
        },
{
    let mut at: usize = 0;
    while at < log.sinks.len() && log.sinks[at].is_some()
        invariant
            at <= log.sinks@.len(),
            *log == *old(log),
            forall|j: int| 0 <= j < at ==> #[trigger] log.sinks@[j] != None::<usize>,
        decreases log.sinks@.len() - at,
    {
        at = at + 1;
    }
    if at == log.sinks.len() {
        return None;
    }
    log.sinks.set(at, Some(sink));
    assert(old(log)@.sinks[at as int] == None::<usize>);
    let ghost start = old(log)@;
    assert(log@ =~= LogModel { sinks: start.sinks.update(at as int, Some(sink)), ..start });
    let lines = replay_lines(log);
    proof {
        lemma_backlog_same(start, log@, start.first());
    }
    Some(lines)
}

proof fn lemma_backlog_same(one: LogModel, two: LogModel, sequence: u64)
    requires
        one.ring == two.ring,
        one.console == two.console,
    ensures
        one.backlog(sequence) == two.backlog(sequence),
    decreases one.ring.next - sequence,
{
    if sequence < one.ring.next {
        lemma_backlog_same(one, two, (sequence + 1) as u64);
    }
}

fn replay_lines(log: &Log) -> (lines: Vec<Vec<u8>>)
    requires
        log.wf(),
    ensures
        lines_of(lines@) == log@.backlog(log@.first()),
{
    let mut lines: Vec<Vec<u8>> = Vec::new();
    let mut buffer = PacketBuffer::new();
    let mut sequence: u64 = first_sequence(log);
    let end: u64 = log.ring.next_sequence();
    let ghost whole = log@.backlog(sequence);
    assert(lines_of(lines@) + log@.backlog(sequence) =~= whole);
    while sequence < end
        invariant
            log.wf(),
            end == log@.ring.next,
            whole == log@.backlog(log@.first()),
            whole == lines_of(lines@) + log@.backlog(sequence),
        decreases end - sequence,
    {
        match log.ring.fetch(sequence, &mut buffer) {
            Fetch::Ready(_) => {
                let ghost packet = log@.ring.fetched(sequence)->Ready_0;
                let ghost rest = log@.backlog((sequence + 1) as u64);
                let ghost before = lines@;
                let level: u8 = buffer.header().level;
                if Level::from_raw(level).as_raw() <= log.console_level.as_raw() {
                    assert(filled(buffer)) by {
                        assert(buffer.holds(packet));
                    }
                    let line = render(
                        &buffer,
                        Style { color: true, timestamp: false },
                        CONSOLE_LINE_CAPACITY,
                    );
                    assert(buffer.holds(packet));
                    assert(line@ == console_line(packet.record));
                    lines.push(line);
                    assert(lines_of(lines@) =~= lines_of(before).push(line@));
                }
                assert(whole =~= lines_of(lines@) + rest);
                sequence = sequence + 1;
            },
            Fetch::Pending => {
                assert(whole =~= lines_of(lines@));
                return lines;
            },
            Fetch::Lost(_) => {
                assert(whole =~= lines_of(lines@));
                return lines;
            },
        }
    }
    assert(whole =~= lines_of(lines@));
    lines
}

/// Removes the first registration of a sink.
pub fn unregister_sink(log: &mut Log, sink: usize) -> (removed: bool)
    requires
        old(log).wf(),
    ensures
        final(log).wf(),
        removed ==> exists|i: int|
            {
                &&& 0 <= i < MAX_SINKS
                &&& #[trigger] old(log)@.sinks[i] == Some(sink)
                &&& forall|j: int| 0 <= j < i ==> #[trigger] old(log)@.sinks[j] != Some(sink)
                &&& final(log)@ == (LogModel {
                    sinks: old(log)@.sinks.update(i, None),
                    ..old(log)@
                })
            },
        !removed ==> final(log)@ == old(log)@ && forall|j: int|
            0 <= j < MAX_SINKS ==> #[trigger] old(log)@.sinks[j] != Some(sink),
{
    let mut at: usize = 0;
    while at < log.sinks.len()
        invariant
            at <= log.sinks@.len(),
            *log == *old(log),
            log.wf(),
            forall|j: int| 0 <= j < at ==> #[trigger] log.sinks@[j] != Some(sink),
        decreases log.sinks@.len() - at,
    {
        let matches_sink: bool = match log.sinks[at] {
            Some(registered) => registered == sink,
            None => false,
        };
        if matches_sink {
            log.sinks.set(at, None);
            assert(old(log)@.sinks[at as int] == Some(sink));
            assert(log@ =~= LogModel {
                sinks: old(log)@.sinks.update(at as int, None),
                ..old(log)@
            });
            return true;
        }
        at = at + 1;
    }
    false
}

/// Records one message, and returns the line that the console prints of it and
/// the readers to wake.
pub fn emit(
    log: &mut Log,
    groups: &mut WaitGroups,
    level: Level,
    subsystem: &[u8],
    file: &[u8],
    line: u32,
    message: &[u8],
    flags: u8,
    origin: Origin,
) -> (result: (Option<Vec<u8>>, Vec<WakeTarget>))
    requires
        old(log).wf(),
        old(log)@.ring.next < u64::MAX,
        waiters_known(old(log)@.arrival.waiters, old(groups)@),
    ensures
        final(log).wf(),
        ({
            let record = record_of(level, subsystem@, file@, line, message@, flags, origin);
            let signal = !old(log)@.drops(record);
            &&& final(log)@ == old(log)@.emitted(record)
            &&& match result.0 {
                Some(line) => old(log)@.printed(record) == seq![line@],
                None => old(log)@.printed(record) == Seq::<Seq<u8>>::empty(),
            }
            &&& final(groups)@ == old(log)@.arrival.claims(signal, old(groups)@)
            &&& result.1@ == old(log)@.arrival.wakes(signal, old(groups)@)
        }),
{
    if log.panicking && flags & FLAG_EMERGENCY == 0 {
        return (None, Vec::new());
    }
    let record = RecordData {
        level: level.as_raw(),
        flags,
        timestamp_ns: origin.timestamp_ns,
        cpu: origin.cpu,
        line: if line > 0xffff {
            0xffff
        } else {
            line as u16
        },
        thread: origin.thread,
        subsystem,
        file,
        message,
    };
    assert(record@ =~= record_of(level, subsystem@, file@, line, message@, flags, origin));
    let _ = log.ring.append(&record);
    let woken = log.arrival.signal(groups);
    proof {
        log.ring.lemma_wf();
        packet::lemma_appended_complete(old(log)@.ring, record@);
    }
    assert(log@ =~= old(log)@.emitted(record@));
    let printed = if level.as_raw() <= log.console_level.as_raw() {
        Some(
            render_fields(&record, Style { color: true, timestamp: false }, CONSOLE_LINE_CAPACITY),
        )
    } else {
        None
    };
    (printed, woken)
}

/// The record of a facade message.
pub open spec fn facade_record(
    filter: Filter,
    target: Seq<u8>,
    file: Seq<u8>,
    line: Option<u32>,
    message: Seq<u8>,
    origin: Origin,
) -> RecordModel {
    record_of(
        Level::of_filter(filter),
        tag_of(target),
        stripped(file, seq![0x6bu8, 0x65, 0x72, 0x6e, 0x65, 0x6c, 0x2f]),
        match line {
            Some(number) => number,
            None => 0,
        },
        fitted(message, PAYLOAD_CAPACITY as int),
        0,
        origin,
    )
}

/// Records a message of the logging facade, unless its severity is not
/// recorded; only as much of it as a packet can hold.
pub fn log_record(
    log: &mut Log,
    groups: &mut WaitGroups,
    filter: Filter,
    target: &[u8],
    file: &[u8],
    line: Option<u32>,
    message: &[u8],
    origin: Origin,
) -> (result: (Option<Vec<u8>>, Vec<WakeTarget>))
    requires
        old(log).wf(),
        old(log)@.ring.next < u64::MAX,
        waiters_known(old(log)@.arrival.waiters, old(groups)@),
    ensures
        final(log).wf(),
        Level::of_filter(filter).raw() > old(log)@.record.raw() ==> {
            &&& final(log)@ == old(log)@
            &&& final(groups)@ == old(groups)@
            &&& result.0.is_none()
            &&& result.1@ == Seq::<WakeTarget>::empty()
        },
        Level::of_filter(filter).raw() <= old(log)@.record.raw() ==> {
            let record = facade_record(filter, target@, file@, line, message@, origin);
            let signal = !old(log)@.drops(record);
            &&& final(log)@ == old(log)@.emitted(record)
            &&& match result.0 {
                Some(line) => old(log)@.printed(record) == seq![line@],
                None => old(log)@.printed(record) == Seq::<Seq<u8>>::empty(),
            }
            &&& final(groups)@ == old(log)@.arrival.claims(signal, old(groups)@)
            &&& result.1@ == old(log)@.arrival.wakes(signal, old(groups)@)
        },
{
    if !is_enabled(log, filter) {
        return (None, Vec::new());
    }
    let kept = copy_range(message, 0, min_usize(message.len(), PAYLOAD_CAPACITY));
    assert(kept@ =~= fitted(message@, PAYLOAD_CAPACITY as int));
    let tag = subsystem_of(target);
    let place = trim_source_path(file);
    let number: u32 = match line {
        Some(number) => number,
        None => 0,
    };
    emit(log, groups, Level::from_log(filter), &tag, &place, number, &kept, 0, origin)
}

/// How reading the next packet goes on.
#[derive(Copy, Clone, Debug, PartialEq, Eq, Structural)]
pub enum NextPacket {
    /// The packet was copied.
    Ready,
    /// The reader waits for records after this sequence.
    Wait(u64),
}

/// Copies the next published packet at or after `cursor`.
///
/// A cursor that has fallen out of the ring is moved to the oldest record. A
/// reader that finds nothing gives up if it must not block or if a signal is
/// pending; otherwise it waits.
pub fn next_packet(
    log: &mut Log,
    cursor: &mut u64,
    buffer: &mut PacketBuffer,
    nonblocking: bool,
    interrupted: bool,
) -> (next: Result<NextPacket, ReadError>)
    requires
        old(log).wf(),
    ensures
        final(log).wf(),
        final(log)@ == old(log)@.taken(*old(cursor)),
        match old(log)@.upcoming(*old(cursor)) {
            Some(packet) => {
                &&& next == Ok::<NextPacket, ReadError>(NextPacket::Ready)
                &&& final(buffer).holds(packet)
                &&& *final(cursor) == old(log)@.position(*old(cursor)) + 1
            },
            None => {
                &&& *final(buffer) == *old(buffer)
                &&& *final(cursor) == old(log)@.position(*old(cursor))
                &&& next == if nonblocking {
                    Err::<NextPacket, ReadError>(ReadError::WouldBlock)
                } else if interrupted {
                    Err::<NextPacket, ReadError>(ReadError::Interrupted)
                } else {
                    Ok::<NextPacket, ReadError>(NextPacket::Wait(old(log)@.ring.next))
                }
            },
        },
{
    *cursor = max_u64(*cursor, first_sequence(log));
    let observed: u64 = log.ring.next_sequence();
    if *cursor < observed {
        if let Fetch::Ready(_) = log.ring.fetch(*cursor, buffer) {
            log.ring.consume(*cursor);
            proof {
                log.ring.lemma_wf();
            }
            assert(log@ =~= old(log)@.taken(*old(cursor)));
            *cursor = *cursor + 1;
            return Ok(NextPacket::Ready);
        }
    }
    if nonblocking {
        return Err(ReadError::WouldBlock);
    }
    if interrupted {
        return Err(ReadError::Interrupted);
    }
    Ok(NextPacket::Wait(observed))
}

/// Clears the arrival event and tells whether a reader may sleep on it: not
/// where records have come since it looked, which signals the event again.
///
/// Returns the readers to wake, too.
pub fn may_wait(log: &mut Log, groups: &mut WaitGroups, observed: u64) -> (result: (
    bool,
    Vec<WakeTarget>,
))
    requires
        old(log).wf(),
        waiters_known(old(log)@.arrival.waiters, old(groups)@),
    ensures
        final(log).wf(),
        result.0 == (old(log)@.ring.next == observed),
        final(log)@ == (LogModel {
            arrival: EventModel { signaled: false, ..old(log)@.arrival }.raised(!result.0),
            ..old(log)@
        }),
        final(groups)@ == old(log)@.arrival.claims(!result.0, old(groups)@),
        result.1@ == old(log)@.arrival.wakes(!result.0, old(groups)@),
{
    let _ = log.arrival.reset();
    if log.ring.next_sequence() != observed {
        let woken = log.arrival.signal(groups);
        return (false, woken);
    }
    (true, Vec::new())
}

/// The pieces of a line that each fit a record.
pub open spec fn pieces(line: Seq<u8>) -> Seq<Seq<u8>>
    decreases line.len(),
{
    if line.len() == 0 {
        Seq::empty()
    } else if line.len() <= MESSAGE_LIMIT {
        seq![line]
    } else {
        seq![line.take(176)] + pieces(line.skip(176))
    }
}

/// The messages in text from place `at`, where `current` is the line read so
/// far.
pub open spec fn messages(text: Seq<u8>, at: int, current: Seq<u8>) -> Seq<Seq<u8>>
    decreases text.len() - at,
{
    if at >= text.len() {
        pieces(current)
    } else if text[at] == 0x0a {
        pieces(current) + messages(text, at + 1, Seq::empty())
    } else {
        messages(text, at + 1, current.push(text[at]))
    }
}

fn put_pieces(out: &mut Vec<Vec<u8>>, line: Vec<u8>)
    ensures
        lines_of(final(out)@) == lines_of(old(out)@) + pieces(line@),
{
    let ghost start = lines_of(out@);
    let mut at: usize = 0;
    assert(line@.skip(0) =~= line@);
    while line.len() - at > MESSAGE_LIMIT
        invariant
            at <= line@.len(),
            start + pieces(line@) == lines_of(out@) + pieces(line@.skip(at as int)),
        decreases line@.len() - at,
    {
        let ghost before = out@;
        let ghost rest = line@.skip(at as int);
        let piece = copy_range(&line, at, at + MESSAGE_LIMIT);
        assert(piece@ =~= rest.take(176));
        assert(rest.skip(176) =~= line@.skip(at + 176));
        out.push(piece);
        assert(lines_of(out@) =~= lines_of(before).push(piece@));
        at = at + MESSAGE_LIMIT;
        assert(lines_of(before) + pieces(rest) =~= lines_of(out@) + pieces(line@.skip(at as int)));
    }
    let ghost before = out@;
    let ghost rest = line@.skip(at as int);
    if at < line.len() {
        let piece = copy_range(&line, at, line.len());
        assert(piece@ =~= rest);
        out.push(piece);
        assert(lines_of(out@) =~= lines_of(before).push(piece@));
    }
    assert(lines_of(out@) =~= lines_of(before) + pieces(rest));
}

/// Splits text into messages: one for each line that is not empty, and more
/// where a line is too long for one record.
pub fn user_messages(text: &[u8]) -> (list: Vec<Vec<u8>>)
    ensures
        lines_of(list@) == messages(text@, 0, Seq::empty()),
{
    let mut list: Vec<Vec<u8>> = Vec::new();
    let mut current: Vec<u8> = Vec::new();
    let mut at: usize = 0;
    let ghost whole = messages(text@, 0, Seq::empty());
    assert(lines_of(list@) + messages(text@, 0, current@) =~= whole);
    while at < text.len()
        invariant
            at <= text@.len(),
            whole == messages(text@, 0, Seq::empty()),
            whole == lines_of(list@) + messages(text@, at as int, current@),
        decreases text@.len() - at,
    {
        if text[at] == 0x0a {
            let ghost before = lines_of(list@);
            let ghost line = current@;
            let mut done: Vec<u8> = Vec::new();
            std::mem::swap(&mut done, &mut current);
            put_pieces(&mut list, done);
            assert(current@ == Seq::<u8>::empty());
            assert(before + (pieces(line) + messages(text@, at + 1, Seq::empty())) =~= lines_of(
                list@,
            ) + messages(text@, at + 1, current@));
        } else {
            current.push(text[at]);
        }
        at = at + 1;
    }
    put_pieces(&mut list, current);
    list
}

/// The record of a message that userspace submits.
pub open spec fn user_record(level: Level, message: Seq<u8>, origin: Origin) -> RecordModel {
    record_of(
        level,
        seq![0x75u8, 0x73, 0x65, 0x72],
        Seq::empty(),
        0,
        message,
        FLAG_USERSPACE,
        origin,
    )
}

/// The log after several messages of userspace.
pub open spec fn user_emitted(
    log: LogModel,
    level: Level,
    list: Seq<Seq<u8>>,
    origin: Origin,
) -> LogModel
    decreases list.len(),
{
    if list.len() == 0 {
        log
    } else {
        user_emitted(log, level, list.drop_last(), origin).emitted(
            user_record(level, list.last(), origin),
        )
    }
}

/// Whether messages of userspace are recorded, so that readers are told.
pub open spec fn user_arrives(
    log: LogModel,
    level: Level,
    list: Seq<Seq<u8>>,
    origin: Origin,
) -> bool {
    list.len() > 0 && !log.drops(user_record(level, list[0], origin))
}

/// What the console prints of several messages of userspace.
pub open spec fn user_printed(
    log: LogModel,
    level: Level,
    list: Seq<Seq<u8>>,
    origin: Origin,
) -> Seq<Seq<u8>>
    decreases list.len(),
{
    if list.len() == 0 {
        Seq::empty()
    } else {
        user_printed(log, level, list.drop_last(), origin) + user_emitted(
            log,
            level,
            list.drop_last(),
            origin,
        ).printed(user_record(level, list.last(), origin))
    }
}

proof fn lemma_pieces(line: Seq<u8>)
    ensures
        pieces(line).len() <= line.len(),
        pieces(line).flatten() == line,
        forall|i: int|
            0 <= i < pieces(line).len() ==> 0 < (#[trigger] pieces(line)[i]).len()
                <= MESSAGE_LIMIT,
    decreases line.len(),
{
    if line.len() == 0 {
        assert(pieces(line).flatten() =~= line);
    } else if line.len() <= MESSAGE_LIMIT {
        reveal_with_fuel(Seq::flatten, 2);
        assert(seq![line].drop_first() =~= Seq::empty());
        assert(pieces(line).flatten() =~= line);
    } else {
        let rest = pieces(line.skip(176));
        lemma_pieces(line.skip(176));
        let all = seq![line.take(176)] + rest;
        assert(all.drop_first() =~= rest);
        assert(all.flatten() == line.take(176) + rest.flatten());
        assert(line.take(176) + line.skip(176) =~= line);
        assert forall|i: int| 0 <= i < all.len() implies 0 < (#[trigger] all[i]).len()
            <= MESSAGE_LIMIT by {
            if i > 0 {
                assert(all[i] == rest[i - 1]);
            }
        }
    }
}

proof fn lemma_flatten_both<A>(one: Seq<Seq<A>>, two: Seq<Seq<A>>)
    ensures
        (one + two).flatten() == one.flatten() + two.flatten(),
    decreases one.len(),
{
    if one.len() == 0 {
        assert(one + two =~= two);
        assert(one.flatten() + two.flatten() =~= two.flatten());
    } else {
        lemma_flatten_both(one.drop_first(), two);
        assert((one + two).drop_first() =~= one.drop_first() + two);
        assert((one + two).first() == one.first());
        assert((one + two).flatten() =~= one.flatten() + two.flatten());
    }
}

/// Which bytes belong to a line.
pub open spec fn not_newline() -> spec_fn(u8) -> bool {
    |b: u8| b != 0x0a
}

proof fn lemma_messages(text: Seq<u8>, at: int, current: Seq<u8>)
    requires
        0 <= at <= text.len(),
    ensures
        messages(text, at, current).len() <= current.len() + text.len() - at,
        messages(text, at, current).flatten() == current + text.skip(at).filter(not_newline()),
        forall|i: int|
            0 <= i < messages(text, at, current).len() ==> 0 < (#[trigger] messages(
                text,
                at,
                current,
            )[i]).len() <= MESSAGE_LIMIT,
    decreases text.len() - at,
{
    let keep = not_newline();
    if at >= text.len() {
        lemma_pieces(current);
        reveal(Seq::filter);
        assert(text.skip(at) =~= Seq::empty());
        assert(current + text.skip(at).filter(keep) =~= current);
    } else {
        let rest = text.skip(at + 1);
        assert(text.skip(at) =~= seq![text[at]] + rest);
        Seq::filter_distributes_over_add(seq![text[at]], rest, keep);
        assert(seq![text[at]].filter(keep) =~= if text[at] != 0x0a {
            seq![text[at]]
        } else {
            Seq::empty()
        }) by {
            reveal_with_fuel(Seq::filter, 2);
            assert(seq![text[at]].drop_last() =~= Seq::empty());
        }
        if text[at] == 0x0a {
            lemma_pieces(current);
            lemma_messages(text, at + 1, Seq::empty());
            let one = pieces(current);
            let two = messages(text, at + 1, Seq::empty());
            lemma_flatten_both(one, two);
            assert((one + two).flatten() =~= current + text.skip(at).filter(keep));
            assert forall|i: int| 0 <= i < (one + two).len() implies 0 < (#[trigger] (one
                + two)[i]).len() <= MESSAGE_LIMIT by {
                if i < one.len() {
                    assert((one + two)[i] == one[i]);
                } else {
                    assert((one + two)[i] == two[i - one.len()]);
                }
            }
        } else {
            lemma_messages(text, at + 1, current.push(text[at]));
            assert(current.push(text[at]) + rest.filter(keep) =~= current + text.skip(at).filter(
                keep,
            ));
        }
    }
}

proof fn lemma_user_emitted(log: LogModel, level: Level, list: Seq<Seq<u8>>, origin: Origin)
    requires
        log.wf(),
        log.ring.next + list.len() <= u64::MAX,
    ensures
        user_emitted(log, level, list, origin).ring.next <= log.ring.next + list.len(),
        user_emitted(log, level, list, origin).console == log.console,
        user_emitted(log, level, list, origin).panicking == log.panicking,
        user_emitted(log, level, list, origin).arrival == log.arrival.raised(
            user_arrives(log, level, list, origin),
        ),
    decreases list.len(),
{
    if list.len() > 0 {
        lemma_user_emitted(log, level, list.drop_last(), origin);
    }
}

/// Records text that userspace submits, and returns the lines that the console
/// prints of it and the readers to wake.
pub fn append_userspace(
    log: &mut Log,
    groups: &mut WaitGroups,
    level: Level,
    text: &[u8],
    origin: Origin,
) -> (result: (Vec<Vec<u8>>, Vec<WakeTarget>))
    requires
        old(log).wf(),
        old(log)@.ring.next + text@.len() <= u64::MAX,
        waiters_known(old(log)@.arrival.waiters, old(groups)@),
    ensures
        final(log).wf(),
        ({
            let list = messages(text@, 0, Seq::empty());
            let signal = user_arrives(old(log)@, level, list, origin);
            &&& final(log)@ == user_emitted(old(log)@, level, list, origin)
            &&& lines_of(result.0@) == user_printed(old(log)@, level, list, origin)
            &&& final(groups)@ == old(log)@.arrival.claims(signal, old(groups)@)
            &&& result.1@ == old(log)@.arrival.wakes(signal, old(groups)@)
        }),
{
    let list = user_messages(text);
    let ghost all = lines_of(list@);
    let ghost start = log@;
    proof {
        lemma_messages(text@, 0, Seq::empty());
    }
    let user: Vec<u8> = vec![0x75u8, 0x73, 0x65, 0x72];
    assert(user@ =~= seq![0x75u8, 0x73, 0x65, 0x72]);
    let nowhere: Vec<u8> = Vec::new();
    let mut printed: Vec<Vec<u8>> = Vec::new();
    let mut woken: Vec<WakeTarget> = Vec::new();
    let ghost waits = groups@;
    assert(all.take(0) =~= Seq::empty());
    assert(lines_of(printed@) =~= Seq::empty());
    let mut at: usize = 0;
    while at < list.len()
        invariant
            at <= list@.len(),
            all == lines_of(list@),
            log.wf(),
            start.wf(),
            waiters_known(start.arrival.waiters, waits),
            groups@ == start.arrival.claims(
                user_arrives(start, level, all.take(at as int), origin),
                waits,
            ),
            woken@ == start.arrival.wakes(
                user_arrives(start, level, all.take(at as int), origin),
                waits,
            ),
            start.ring.next + all.len() <= u64::MAX,
            user@ == seq![0x75u8, 0x73, 0x65, 0x72],
            nowhere@ == Seq::<u8>::empty(),
            log@ == user_emitted(start, level, all.take(at as int), origin),
            lines_of(printed@) == user_printed(start, level, all.take(at as int), origin),
        decreases list@.len() - at,
    {
        let ghost here = log@;
        let ghost before = printed@;
        proof {
            lemma_user_emitted(start, level, all.take(at as int), origin);
            assert(all.take(at + 1).drop_last() =~= all.take(at as int));
            assert(all.take(at + 1).last() == list@[at as int]@);
        }
        let (line, mut targets) = emit(
            log,
            groups,
            level,
            &user,
            &nowhere,
            0,
            &list[at],
            FLAG_USERSPACE,
            origin,
        );
        let ghost record = user_record(level, list@[at as int]@, origin);
        assert(log@ == here.emitted(record));
        let ghost wakes = woken@;
        let ghost more = targets@;
        woken.append(&mut targets);
        proof {
            let first = user_record(level, all.take(at + 1)[0], origin);
            assert(start.drops(first) == here.drops(record));
            assert(at > 0 ==> all.take(at as int)[0] == all.take(at + 1)[0]);
            assert(wakes + more =~= if at == 0 {
                more
            } else {
                wakes
            });
        }
        match line {
            Some(text) => {
                printed.push(text);
                assert(lines_of(printed@) =~= lines_of(before) + here.printed(record));
            },
            None => {
                assert(lines_of(printed@) =~= lines_of(before) + here.printed(record));
            },
        }
        at = at + 1;
    }
    assert(all.take(at as int) =~= all);
    (printed, woken)
}

/// Stops ordinary records once a panic owns the machine.
pub fn enter_panic_mode(log: &mut Log)
    requires
        old(log).wf(),
    ensures
        final(log).wf(),
        final(log)@ == (LogModel { panicking: true, ..old(log)@ }),
{
    log.panicking = true;
}

/// A panic-time line.
pub open spec fn emergency_line(text: Seq<u8>) -> Seq<u8> {
    fitted(text.push(0x0a), CONSOLE_LINE_CAPACITY as int)
}

/// A line without its newline.
pub open spec fn unended(line: Seq<u8>) -> Seq<u8> {
    if line.len() > 0 && line.last() == 0x0a {
        line.drop_last()
    } else {
        line
    }
}

/// The record of a panic-time line.
pub open spec fn emergency_record(text: Seq<u8>, origin: Origin) -> RecordModel {
    record_of(
        Level::Emergency,
        seq![0x70u8, 0x61, 0x6e, 0x69, 0x63],
        Seq::empty(),
        0,
        unended(emergency_line(text)),
        FLAG_EMERGENCY,
        origin,
    )
}

/// Records panic-time text, past all filters, and returns the line to print.
pub fn emergency(log: &mut Log, text: &[u8], origin: Origin) -> (line: Vec<u8>)
    requires
        old(log).wf(),
        old(log)@.ring.next < u64::MAX,
    ensures
        final(log).wf(),
        line@ == emergency_line(text@),
        final(log)@ == (LogModel {
            ring: old(log)@.ring.appended(emergency_record(text@, origin)),
            ..old(log)@
        }),
{
    let mut whole: Vec<u8> = copy_all(text);
    whole.push(0x0a);
    assert(whole@ =~= text@.push(0x0a));
    let line = copy_range(&whole, 0, min_usize(whole.len(), CONSOLE_LINE_CAPACITY));
    assert(line@ =~= emergency_line(text@));
    let end: usize = if line.len() > 0 && line[line.len() - 1] == 0x0a {
        line.len() - 1
    } else {
        line.len()
    };
    let message = copy_range(&line, 0, end);
    assert(message@ =~= unended(line@));
    let panic_tag: Vec<u8> = vec![0x70u8, 0x61, 0x6e, 0x69, 0x63];
    assert(panic_tag@ =~= seq![0x70u8, 0x61, 0x6e, 0x69, 0x63]);
    let nowhere: Vec<u8> = Vec::new();
    let record = RecordData {
        level: Level::Emergency.as_raw(),
        flags: FLAG_EMERGENCY,
        timestamp_ns: origin.timestamp_ns,
        cpu: origin.cpu,
        line: 0,
        thread: origin.thread,
        subsystem: &panic_tag,
        file: &nowhere,
        message: &message,
    };
    assert(record@ =~= emergency_record(text@, origin));
    let _ = log.ring.append(&record);
    proof {
        log.ring.lemma_wf();
        packet::lemma_appended_complete(old(log)@.ring, record@);
    }
    line
}

/// Nothing is printed that is not recorded: whatever levels are set, the
/// console level stays at or below the record level.
pub proof fn law_console_stays_below_record(log: LogModel, level: Level)
    requires
        log.console.raw() <= log.record.raw(),
    ensures
        log.recording(level).console.raw() <= log.recording(level).record.raw(),
        log.printing(level).console.raw() <= log.printing(level).record.raw(),
        log.printing(level).console == level,
        log.recording(level).record == level,
{
}

/// A cleared log shows nothing to any reader: each stands at the next record, or
/// beyond, and gets that record once it comes.
pub proof fn law_clear_hides_records(log: LogModel, cursor: u64, record: RecordModel)
    requires
        log.wf(),
    ensures
        log.cleared().first() == log.ring.next,
        log.cleared().ring == log.ring,
        log.cleared().record == log.record,
        log.cleared().console == log.console,
        log.cleared().position(cursor) == max_int(cursor as int, log.ring.next as int),
        log.cleared().upcoming(cursor).is_none(),
        log.cleared().position(cursor) >= log.cleared().ring.next,
        log.ring.next < u64::MAX && !log.drops(record) && cursor <= log.ring.next ==> {
            &&& log.cleared().emitted(record).position(cursor) == log.ring.next
            &&& log.cleared().emitted(record).upcoming(cursor) == Some(
                packet::stored(record, log.ring.next),
            )
        },
{
    if log.ring.next < u64::MAX && !log.drops(record) {
        law_reader_gets_new_record(log.cleared(), record);
    }
}

/// The oldest sequence that readers see is the later of what the ring holds and
/// where the log was cleared last; it never goes back, and no reader gets an
/// older record.
pub proof fn law_first_sequence_never_goes_back(log: LogModel, record: RecordModel, cursor: u64)
    requires
        log.wf(),
    ensures
        log.first() == max_int(minus_or_zero(log.ring.next as int, 512), log.floor as int),
        log.first() <= log.ring.next,
        log.cleared().floor == log.ring.next,
        log.emitted(record).floor == log.floor,
        log.ring.next < u64::MAX ==> log.first() <= log.emitted(record).first(),
        log.first() <= log.cleared().first(),
        log.taken(cursor).first() == log.first(),
        log.upcoming(cursor) matches Some(packet) ==> packet.sequence >= log.first()
            && packet.sequence == log.position(cursor),
{
}

/// A reader that has records ahead gets the next of them at once.
pub proof fn law_waiting_record_is_ready(log: LogModel, cursor: u64)
    requires
        log.wf(),
        log.position(cursor) < log.ring.next,
    ensures
        log.upcoming(cursor).is_some(),
{
    let at = log.position(cursor);
    assert(log.ring.slot(at as int).sequence == Some(at));
    assert(log.ring.slots[at as int % 512].packet.is_some());
}

/// Readers that sleep on the arrival event are all woken by the next record, and
/// by clearing the log.
pub proof fn law_sleeping_readers_are_told(log: LogModel, record: RecordModel)
    requires
        !log.drops(record),
    ensures
        log.emitted(record).arrival.signaled,
        log.emitted(record).arrival.waiters.len() == 0,
        log.cleared().arrival == log.emitted(record).arrival,
{
}

/// A reader that keeps up gets each record: after a record was emitted, the
/// reader at the end of the log gets exactly it.
pub proof fn law_reader_gets_new_record(log: LogModel, record: RecordModel)
    requires
        log.wf(),
        log.ring.next < u64::MAX,
        !log.drops(record),
    ensures
        log.emitted(record).upcoming(log.ring.next) == Some(
            packet::stored(record, log.ring.next),
        ),
{
    let records = seq![record];
    assert(records.drop_last() =~= Seq::empty());
    assert(packet::appended_all(log.ring, Seq::empty()) == log.ring);
    assert(packet::appended_all(log.ring, records) == log.ring.appended(record));
    packet::law_recent_record_is_kept(log.ring, records, 0);
}

/// Text of userspace is recorded completely: its messages put together are the
/// text without its newlines, and none is cut.
pub proof fn law_user_text_is_complete(text: Seq<u8>, level: Level, origin: Origin, i: int)
    requires
        0 <= i < messages(text, 0, Seq::empty()).len(),
    ensures
        messages(text, 0, Seq::empty()).flatten() == text.filter(not_newline()),
        !packet::is_cut(user_record(level, messages(text, 0, Seq::empty())[i], origin)),
{
    lemma_messages(text, 0, Seq::empty());
    assert(text.skip(0) =~= text);
    assert(Seq::<u8>::empty() + text.filter(not_newline()) =~= text.filter(not_newline()));
    packet::law_short_message_is_whole(
        user_record(level, messages(text, 0, Seq::empty())[i], origin),
        0,
    );
}

/// Levels are numbered from the most to the least urgent, and each has its mark
/// in a line.
pub proof fn law_levels_have_marks()
    ensures
        Level::Emergency.raw() == 0 && Level::Error.raw() == 1 && Level::Warn.raw() == 2,
        Level::Info.raw() == 3 && Level::Debug.raw() == 4 && Level::Trace.raw() == 5,
        Level::Emergency.mark() == 0x21 && Level::Error.mark() == 0x45 && Level::Warn.mark() == 0x21,
        Level::Info.mark() == 0x2a && Level::Debug.mark() == 0x44 && Level::Trace.mark() == 0x54,
        Level::of_filter(Filter::Error) == Level::Error,
        Level::of_filter(Filter::Warn) == Level::Warn,
        Level::of_filter(Filter::Info) == Level::Info,
        Level::of_filter(Filter::Debug) == Level::Debug,
        Level::of_filter(Filter::Trace) == Level::Trace,
{
}

/// A record is printed exactly if its level is as urgent as the console level
/// or more, and, while the kernel panics, only if it belongs to that.
pub proof fn law_urgent_record_is_printed(log: LogModel, record: RecordModel)
    ensures
        log.printed(record).len() > 0 <==> record.level <= log.console.raw() && (!log.panicking
            || record.flags & 4u8 != 0),
        log.printed(record).len() <= 1,
        log.printed(record).len() == 1 ==> log.printed(record)[0] == console_line(record),
{
}

/// A record that is logged gets the next number and is stored; only while the
/// kernel panics are others than those of the panic dropped.
pub proof fn law_record_is_stored_next(log: LogModel, record: RecordModel)
    requires
        log.ring.next < u64::MAX,
        log.ring.slots.len() == 512,
    ensures
        log.drops(record) <==> log.panicking && record.flags & 4u8 == 0,
        log.drops(record) ==> log.emitted(record) == log,
        !log.drops(record) ==> {
            let after = log.emitted(record);
            &&& after.ring.next == log.ring.next + 1
            &&& after.ring.slots[log.ring.next as int % 512].packet == Some(
                packet::stored(record, log.ring.next),
            )
            &&& after.console == log.console && after.record == log.record
        },
{
}

/// A line shows the whole record: the message, which stands at its end, marked
/// if it was cut, in front of it the subsystem, and the level's mark. A line of
/// text starts with the time in brackets.
pub proof fn law_line_shows_message(record: RecordModel, style: Style)
    ensures
        ({
            let line = rendered(record, style);
            let end = if record.flags & 1u8 != 0 {
                seq![0x2eu8, 0x2e, 0x2e, 0x0a]
            } else {
                seq![0x0au8]
            };
            let tail = shown(record.message) + end;
            &&& line.len() >= tail.len()
            &&& line.skip(line.len() - tail.len()) == tail
            &&& line[0] == 0x5b
            &&& record.subsystem.len() > 0 ==> {
                let named = shown(record.subsystem) + seq![0x3au8, 0x20] + tail;
                &&& line.len() >= named.len()
                &&& line.skip(line.len() - named.len()) == named
            }
        }),
{
    let line = rendered(record, style);
    let front = stamp(record, style) + badge(record, style) + place(record, style);
    let end = if record.flags & 1u8 != 0 {
        seq![0x2eu8, 0x2e, 0x2e, 0x0a]
    } else {
        seq![0x0au8]
    };
    let tail = shown(record.message) + end;
    let subsystem = if record.subsystem.len() == 0 {
        Seq::<u8>::empty()
    } else {
        shown(record.subsystem) + seq![0x3au8, 0x20]
    };
    assert(line =~= front + seq![0x20u8] + subsystem + tail);
    assert(line.skip(line.len() - tail.len()) =~= tail);
    if record.subsystem.len() > 0 {
        let named = subsystem + tail;
        assert(line.skip(line.len() - named.len()) =~= named);
    }
}

/// The time in front of a line of text is in seconds, padded to five places,
/// with six places of microseconds; console lines have no time and show their
/// level in colour.
pub proof fn law_text_line_has_time(record: RecordModel)
    ensures
        stamp(record, text_style()) == seq![0x5bu8] + padded(
            record.timestamp_ns as int / 1_000_000_000,
            5,
            0x20,
        ) + seq![0x2eu8] + padded((record.timestamp_ns as int / 1000) % 1_000_000, 6, 0x30) + seq![
            0x5du8,
            0x20u8,
        ],
        stamp(record, console_style()).len() == 0,
        badge(record, text_style()) == seq![0x5bu8, Level::of(record.level).mark(), 0x5du8],
        badge(record, console_style()).contains(0x1b),
        badge(record, console_style()).contains(Level::of(record.level).mark()),
        record.file.len() == 0 ==> place(record, text_style()).len() == 0,
{
    let ns = record.timestamp_ns as int;
    assert((ns % 1_000_000_000) / 1_000 == (ns / 1000) % 1_000_000);
    let colored = badge(record, console_style());
    assert(colored[1] == 0x1b);
    let n = Level::of(record.level).attributes().len() as int;
    assert(colored[4 + n] == Level::of(record.level).mark());
}

/// A path of modules becomes a tag with a slash for each pair of colons.
pub proof fn law_module_path_becomes_tag(front: Seq<u8>, rest: Seq<u8>)
    requires
        forall|i: int| 0 <= i < front.len() ==> #[trigger] front[i] != 0x3a,
    ensures
        slashed(front + seq![0x3au8, 0x3au8] + rest, 0) == front + seq![0x2fu8] + slashed(rest, 0),
        slashed(front, 0) == front,
{
    lemma_slashed_front(front, seq![0x3au8, 0x3au8] + rest, 0);
    let whole = front + seq![0x3au8, 0x3au8] + rest;
    assert(whole =~= front + (seq![0x3au8, 0x3au8] + rest));
    let n = front.len() as int;
    assert(front.skip(0) =~= front);
    assert(whole[n] == 0x3a && whole[n + 1] == 0x3a);
    lemma_slashed_behind(front + seq![0x3au8, 0x3au8], rest, 0);
    assert(slashed(whole, n) == seq![0x2fu8] + slashed(whole, n + 2));
    assert(front + (seq![0x2fu8] + slashed(rest, 0)) =~= front + seq![0x2fu8] + slashed(rest, 0));
    lemma_slashed_front(front, Seq::empty(), 0);
    assert(front + Seq::<u8>::empty() =~= front);
}

proof fn lemma_slashed_front(front: Seq<u8>, more: Seq<u8>, at: int)
    requires
        forall|i: int| 0 <= i < front.len() ==> #[trigger] front[i] != 0x3a,
        0 <= at <= front.len(),
    ensures
        slashed(front + more, at) == front.skip(at) + slashed(front + more, front.len() as int),
    decreases front.len() - at,
{
    if at < front.len() {
        lemma_slashed_front(front, more, at + 1);
        assert((front + more)[at] == front[at]);
        assert(front.skip(at) =~= seq![front[at]] + front.skip(at + 1));
        let rest = slashed(front + more, front.len() as int);
        assert(seq![front[at]] + (front.skip(at + 1) + rest) =~= front.skip(at) + rest);
    } else {
        assert(front.skip(at) + slashed(front + more, at) =~= slashed(front + more, at));
    }
}

proof fn lemma_slashed_behind(front: Seq<u8>, rest: Seq<u8>, at: int)
    requires
        0 <= at,
    ensures
        slashed(front + rest, front.len() + at) == slashed(rest, at),
    decreases rest.len() - at,
{
    if at < rest.len() {
        assert((front + rest)[front.len() + at] == rest[at]);
        if at + 1 < rest.len() {
            assert((front + rest)[front.len() + at + 1] == rest[at + 1]);
        }
        if at + 1 < rest.len() && rest[at] == 0x3a && rest[at + 1] == 0x3a {
            lemma_slashed_behind(front, rest, at + 2);
        } else {
            lemma_slashed_behind(front, rest, at + 1);
        }
    }
}

/// A record of the logging facade has its level, its message up to 256 bytes,
/// and its place, without the directory of the kernel; a record of a program
/// says that it comes from there.
pub proof fn law_record_keeps_its_origin(
    filter: Filter,
    target: Seq<u8>,
    file: Seq<u8>,
    line: u32,
    message: Seq<u8>,
    origin: Origin,
    level: Level,
)
    ensures
        ({
            let record = facade_record(filter, target, file, Some(line), message, origin);
            &&& record.level == Level::of_filter(filter).raw()
            &&& message.len() <= 256 ==> record.message == message
            &&& record.message == message.take(record.message.len() as int)
            &&& line <= 0xffff ==> record.line == line
            &&& line > 0xffff ==> record.line == 0xffff
            &&& record.flags == 0
            &&& record.timestamp_ns == origin.timestamp_ns && record.cpu == origin.cpu
                && record.thread == origin.thread
        }),
        ({
            let record = user_record(level, message, origin);
            &&& record.level == level.raw()
            &&& record.message == message
            &&& record.subsystem == seq![0x75u8, 0x73, 0x65, 0x72]
            &&& record.file.len() == 0
            &&& record.flags == 2
            &&& record.timestamp_ns == origin.timestamp_ns
        }),
        ({
            let record = emergency_record(message, origin);
            &&& record.level == 0
            &&& record.subsystem == seq![0x70u8, 0x61, 0x6e, 0x69, 0x63]
            &&& record.flags == 4
        }),
{
    if message.len() <= 256 {
        assert(message.take(message.len() as int) =~= message);
    }
}

/// Text of a program becomes one record per line, none for an empty line, and
/// several for a line that is too long.
pub proof fn law_line_becomes_record(line: Seq<u8>, rest: Seq<u8>)
    requires
        forall|i: int| 0 <= i < line.len() ==> #[trigger] line[i] != 0x0a,
    ensures
        messages(line + seq![0x0au8] + rest, 0, Seq::empty()) == pieces(line) + messages(
            rest,
            0,
            Seq::empty(),
        ),
        0 < line.len() <= 176 ==> pieces(line) == seq![line],
        line.len() == 0 ==> pieces(line).len() == 0,
{
    let whole = line + seq![0x0au8] + rest;
    lemma_messages_line(line, seq![0x0au8] + rest, 0, Seq::empty());
    assert(whole =~= line + (seq![0x0au8] + rest));
    assert(Seq::<u8>::empty() + line.skip(0) =~= line);
    let n = line.len() as int;
    assert(whole[n] == 0x0a);
    lemma_messages_behind(line + seq![0x0au8], rest, 0, Seq::empty());
}

proof fn lemma_messages_line(line: Seq<u8>, more: Seq<u8>, at: int, current: Seq<u8>)
    requires
        forall|i: int| 0 <= i < line.len() ==> #[trigger] line[i] != 0x0a,
        0 <= at <= line.len(),
    ensures
        messages(line + more, at, current) == messages(
            line + more,
            line.len() as int,
            current + line.skip(at),
        ),
    decreases line.len() - at,
{
    if at < line.len() {
        assert((line + more)[at] == line[at]);
        lemma_messages_line(line, more, at + 1, current.push(line[at]));
        assert(current.push(line[at]) + line.skip(at + 1) =~= current + line.skip(at));
    } else {
        assert(current + line.skip(at) =~= current);
    }
}

proof fn lemma_messages_behind(front: Seq<u8>, rest: Seq<u8>, at: int, current: Seq<u8>)
    requires
        0 <= at <= rest.len(),
    ensures
        messages(front + rest, front.len() + at, current) == messages(rest, at, current),
    decreases rest.len() - at,
{
    if at < rest.len() {
        assert((front + rest)[front.len() + at] == rest[at]);
        if rest[at] == 0x0a {
            lemma_messages_behind(front, rest, at + 1, Seq::empty());
        } else {
            lemma_messages_behind(front, rest, at + 1, current.push(rest[at]));
        }
    }
}

} // verus!
