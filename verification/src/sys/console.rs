//! Console logger: formatted lines that go to the debug port, and a ring of the
//! latest output.

use vstd::prelude::*;
use crate::bytes::put_bytes;
use crate::sys::klog::Filter;
use crate::text::{decimal, put_decimal};

verus! {

/// Number of bytes in the ring.
pub const RING_ENTRIES: usize = 4096;

/// Ring of raw log output; once filled, new bytes replace the oldest.
pub struct RingBuffer {
    data: Vec<u8>,
    read: usize,
    write: usize,
}

impl View for RingBuffer {
    type V = Seq<u8>;

    closed spec fn view(&self) -> Seq<u8> {
        Seq::new(
            ((self.write - self.read) % 4096) as nat,
            |i: int| self.data@[(self.read + i) % 4096],
        )
    }
}

/// The output with one more byte, of which the ring holds one less than its
/// entries.
pub open spec fn appended(held: Seq<u8>, byte: u8) -> Seq<u8> {
    if held.len() == 4095 {
        held.drop_first().push(byte)
    } else {
        held.push(byte)
    }
}

/// The output with the first `n` bytes of a text.
pub open spec fn written(held: Seq<u8>, text: Seq<u8>, n: nat) -> Seq<u8>
    decreases n,
{
    if n == 0 {
        held
    } else {
        appended(written(held, text, (n - 1) as nat), text[n - 1])
    }
}

impl RingBuffer {
    /// The places are inside the ring.
    pub closed spec fn wf(self) -> bool {
        self.data@.len() == RING_ENTRIES && self.read < RING_ENTRIES && self.write < RING_ENTRIES
    }

    /// An empty ring.
    pub fn new() -> (ring: Self)
        ensures
            ring.wf(),
            ring@ == Seq::<u8>::empty(),
    {
        let mut data: Vec<u8> = Vec::new();
        while data.len() < RING_ENTRIES
            invariant
                data@.len() <= RING_ENTRIES,
            decreases RING_ENTRIES - data@.len(),
        {
            data.push(0);
        }
        let ring = RingBuffer { data, read: 0, write: 0 };
        assert(ring@ =~= Seq::empty());
        ring
    }

    #[verifier::spinoff_prover]
    #[verifier::rlimit(40)]
    fn put(&mut self, byte: u8)
        requires
            old(self).wf(),
        ensures
            final(self).wf(),
            final(self)@ == appended(old(self)@, byte),
    {
        let ghost before = *self;
        self.data.set(self.write, byte);
        let next: usize = (self.write + 1) % RING_ENTRIES;
        if next == self.read {
            self.read = (self.read + 1) % RING_ENTRIES;
        }
        self.write = next;
        let ghost length = (before.write - before.read) % 4096;
        assert(before@.len() == length);
        assert(self@ =~= appended(before@, byte));
    }

    /// Keeps the text; each byte also goes to the debug port.
    pub fn write_str(&mut self, text: &[u8])
        requires
            old(self).wf(),
        ensures
            final(self).wf(),
            final(self)@ == written(old(self)@, text@, text@.len()),
    {
        let mut at: usize = 0;
        while at < text.len()
            invariant
                at <= text@.len(),
                self.wf(),
                self@ == written(old(self)@, text@, at as nat),
            decreases text@.len() - at,
        {
            self.put(text[at]);
            at = at + 1;
        }
    }
}

/// The digit of a severity's color, and its mark.
pub open spec fn badge(level: Filter) -> (u8, u8) {
    match level {
        Filter::Error => (0x31, 0x45),
        Filter::Warn => (0x33, 0x21),
        Filter::Info => (0x32, 0x2a),
        Filter::Debug => (0x34, 0x44),
        Filter::Trace => (0x35, 0x54),
    }
}

/// A log message as a line.
pub open spec fn line_of(level: Filter, path: Option<Seq<u8>>, line: Option<u32>, message: Seq<u8>) -> Seq<u8> {
    seq![
        0x5bu8,
        0x1b,
        0x5b,
        0x31,
        0x3b,
        0x33,
        badge(level).0,
        0x6d,
        badge(level).1,
        0x1b,
        0x5b,
        0x30,
        0x6d,
        0x5d,
        0x20,
        0x28,
    ] + (match path {
        Some(path) => path,
        None => seq![0x3fu8, 0x3f, 0x3f],
    }) + seq![0x3au8] + decimal(
        match line {
            Some(line) => line as int,
            None => 0,
        },
    ) + seq![0x29u8, 0x20] + message + seq![0x0au8]
}

/// Formats a log message as a line.
pub fn format_line(level: Filter, path: Option<&[u8]>, line: Option<u32>, message: &[u8]) -> (text:
    Vec<u8>)
    ensures
        text@ == line_of(
            level,
            match path {
                Some(path) => Some(path@),
                None => None,
            },
            line,
            message@,
        ),
{
    let (color, mark): (u8, u8) = match level {
        Filter::Error => (0x31, 0x45),
        Filter::Warn => (0x33, 0x21),
        Filter::Info => (0x32, 0x2a),
        Filter::Debug => (0x34, 0x44),
        Filter::Trace => (0x35, 0x54),
    };
    let mut text: Vec<u8> = vec![
        0x5bu8,
        0x1b,
        0x5b,
        0x31,
        0x3b,
        0x33,
        color,
        0x6d,
        mark,
        0x1b,
        0x5b,
        0x30,
        0x6d,
        0x5d,
        0x20,
        0x28,
    ];
    match path {
        Some(path) => {
            put_bytes(&mut text, path);
        },
        None => {
            text.push(0x3f);
            text.push(0x3f);
            text.push(0x3f);
        },
    }
    text.push(0x3a);
    put_decimal(
        &mut text,
        match line {
            Some(line) => line as u64,
            None => 0,
        },
    );
    text.push(0x29);
    text.push(0x20);
    put_bytes(&mut text, message);
    text.push(0x0a);
    let ghost path_bytes: Option<Seq<u8>> = match path {
        Some(path) => Some(path@),
        None => None,
    };
    assert(text@ =~= line_of(level, path_bytes, line, message@));
    text
}

/// Logs a message, and returns the bytes for the debug port.
pub fn log(
    ring: &mut RingBuffer,
    level: Filter,
    path: Option<&[u8]>,
    line: Option<u32>,
    message: &[u8],
) -> (text: Vec<u8>)
    requires
        old(ring).wf(),
    ensures
        final(ring).wf(),
        text@ == line_of(
            level,
            match path {
                Some(path) => Some(path@),
                None => None,
            },
            line,
            message@,
        ),
        final(ring)@ == written(old(ring)@, text@, text@.len()),
{
    let text = format_line(level, path, line, message);
    ring.write_str(&text);
    text
}

/// The facade filter that the console is installed with.
pub fn register() -> (filter: Filter)
    ensures
        filter == Filter::Info,
{
    Filter::Info
}

/// The ring holds the latest output: after any text it ends with that text, as
/// far as it fits, and what came before it is cut at the front.
pub proof fn law_ring_holds_latest(held: Seq<u8>, text: Seq<u8>, n: nat)
    requires
        held.len() <= 4095,
        n <= text.len(),
    ensures
        ({
            let all = held + text.take(n as int);
            let kept: int = if all.len() <= 4095 {
                all.len() as int
            } else {
                4095
            };
            written(held, text, n) == all.skip(all.len() - kept)
        }),
    decreases n,
{
    if n == 0 {
        assert(held + text.take(0) =~= held);
        assert(held.skip(0) =~= held);
    } else {
        law_ring_holds_latest(held, text, (n - 1) as nat);
        let before = held + text.take(n - 1);
        let all = held + text.take(n as int);
        assert(all =~= before.push(text[n - 1]));
        let kept: int = if all.len() <= 4095 {
            all.len() as int
        } else {
            4095
        };
        assert(written(held, text, n) =~= all.skip(all.len() - kept));
    }
}

/// A full buffer loses its oldest byte for a new one; otherwise nothing is lost.
pub proof fn law_buffer_loses_oldest(held: Seq<u8>, byte: u8)
    requires
        held.len() <= 4095,
    ensures
        appended(held, byte).last() == byte,
        held.len() < 4095 ==> appended(held, byte).drop_last() == held,
        held.len() == 4095 ==> appended(held, byte).len() == 4095 && appended(held, byte).drop_last()
            == held.skip(1),
{
    assert(held.push(byte).drop_last() =~= held);
    if held.len() == 4095 {
        assert(held.drop_first().push(byte).drop_last() =~= held.skip(1));
    }
}

/// A line on the early console shows its level, its place and its message, and
/// ends there.
pub proof fn law_console_line_ends_with_message(
    level: Filter,
    path: Option<Seq<u8>>,
    line: Option<u32>,
    message: Seq<u8>,
)
    ensures
        ({
            let text = line_of(level, path, line, message);
            let tail = seq![0x29u8, 0x20] + message + seq![0x0au8];
            &&& text.len() >= tail.len() + 16
            &&& text.skip(text.len() - tail.len()) == tail
            &&& text[8] == match level {
                Filter::Error => 0x45u8,
                Filter::Warn => 0x21,
                Filter::Info => 0x2a,
                Filter::Debug => 0x44,
                Filter::Trace => 0x54,
            }
            &&& text[6] == match level {
                Filter::Error => 0x31u8,
                Filter::Warn => 0x33,
                Filter::Info => 0x32,
                Filter::Debug => 0x34,
                Filter::Trace => 0x35,
            }
            &&& path matches Some(p) ==> text.subrange(16, 16 + p.len() as int) == p
        }),
{
    let text = line_of(level, path, line, message);
    let tail = seq![0x29u8, 0x20] + message + seq![0x0au8];
    assert(text.skip(text.len() - tail.len()) =~= tail);
    if let Some(p) = path {
        assert(text.subrange(16, 16 + p.len() as int) =~= p);
    }
}

} // verus!
