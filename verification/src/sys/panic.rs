//! Kernel panic handling: stopping the other CPUs and reporting the call stack.

use vstd::prelude::*;
use crate::bytes::{copy_range, get_u64, put_bytes, u64_at};
use crate::mem::{MemoryModel, UserMemory};
use crate::num::{min_int, min_usize, minus_or_zero};
use crate::text::{padded, put_padded};
use crate::Arch;

verus! {

/// How far above the stack pointer frames are looked for.
pub const BACKTRACE_STACK_WINDOW: u64 = 0x4_0000;

/// Most frames of a report.
pub const BACKTRACE_DEPTH: usize = 32;

/// Bytes of a report line.
pub const PANIC_LINE_CAPACITY: usize = 256;

/// How often the owner looks for stopped CPUs before it goes on alone.
pub const PANIC_SHOOTDOWN_SPINS: usize = 1_000_000;

/// Whether a pointer to a frame lies on the stack above `sp`.
pub open spec fn in_bounds(pointer: u64, sp: u64) -> bool {
    &&& pointer != 0
    &&& pointer % 8 == 0
    &&& sp <= pointer < sp + BACKTRACE_STACK_WINDOW
}

/// Tells whether a pointer to a frame lies on the stack above `stack_ptr`.
pub fn frame_ptr_in_bounds(pointer: u64, stack_ptr: u64) -> (bounded: bool)
    ensures
        bounded == in_bounds(pointer, stack_ptr),
{
    pointer != 0 && pointer % 8 == 0 && pointer >= stack_ptr && pointer - stack_ptr
        < BACKTRACE_STACK_WINDOW
}

/// Where a frame keeps the return address and the pointer to the frame before
/// it, if both lie on the stack.
pub open spec fn frame_slots(arch: Arch, fp: u64, sp: u64) -> Option<(int, int)> {
    match arch {
        Arch::X86_64 => if fp + 8 <= u64::MAX && in_bounds((fp + 8) as u64, sp) {
            Some((fp + 8, fp as int))
        } else {
            None
        },
        Arch::Riscv64 => if fp >= 16 && in_bounds((fp - 8) as u64, sp) && in_bounds(
            (fp - 16) as u64,
            sp,
        ) {
            Some((fp - 8, fp - 16))
        } else {
            None
        },
    }
}

/// The word at an address.
pub open spec fn word(stack: MemoryModel, address: int) -> u64 {
    u64_at(stack.at(address, 8), 0)
}

/// The return addresses from a frame on, of at most `depth` frames.
///
/// Each frame lies above the one before it; a frame without a return address
/// ends the stack.
pub open spec fn return_addresses(
    arch: Arch,
    stack: MemoryModel,
    fp: u64,
    sp: u64,
    depth: nat,
) -> Seq<u64>
    decreases depth,
{
    if depth == 0 {
        Seq::empty()
    } else {
        match frame_slots(arch, fp, sp) {
            None => Seq::empty(),
            Some((address_slot, frame_slot)) => {
                let address = word(stack, address_slot);
                let before = word(stack, frame_slot);
                if address == 0 {
                    Seq::empty()
                } else if !in_bounds(before, sp) || before <= fp {
                    seq![address]
                } else {
                    seq![address] + return_addresses(
                        arch,
                        stack,
                        before,
                        sp,
                        (depth - 1) as nat,
                    )
                }
            },
        }
    }
}

fn slots_of(arch: Arch, fp: u64, sp: u64) -> (slots: Option<(u64, u64)>)
    ensures
        match slots {
            Some((address_slot, frame_slot)) => frame_slots(arch, fp, sp) == Some(
                (address_slot as int, frame_slot as int),
            ),
            None => frame_slots(arch, fp, sp).is_none(),
        },
{
    match arch {
        Arch::X86_64 => match fp.checked_add(8) {
            Some(slot) => if frame_ptr_in_bounds(slot, sp) {
                Some((slot, fp))
            } else {
                None
            },
            None => None,
        },
        Arch::Riscv64 => if fp >= 16 && frame_ptr_in_bounds(fp - 8, sp) && frame_ptr_in_bounds(
            fp - 16,
            sp,
        ) {
            Some((fp - 8, fp - 16))
        } else {
            None
        },
    }
}

fn load_word(stack: &UserMemory, address: u64) -> (value: u64)
    requires
        stack@.covers(address as int, 8),
    ensures
        value == word(stack@, address as int),
{
    match stack.read_user(address, 8) {
        Ok(bytes) => get_u64(&bytes, 0),
        Err(_) => 0,
    }
}

/// Walks the call stack from the current frame: the return addresses, innermost
/// first. There is none to report where the frame pointer is not on the stack.
///
/// `stack` holds the memory above the stack pointer.
pub fn perform_bt(arch: Arch, stack: &UserMemory, fp: u64, sp: u64) -> (frames: Option<Vec<u64>>)
    requires
        stack@.covers(sp as int, BACKTRACE_STACK_WINDOW + 8),
    ensures
        match frames {
            Some(list) => in_bounds(fp, sp) && list@ == return_addresses(
                arch,
                stack@,
                fp,
                sp,
                BACKTRACE_DEPTH as nat,
            ),
            None => !in_bounds(fp, sp),
        },
{
    if !frame_ptr_in_bounds(fp, sp) {
        return None;
    }
    let ghost whole = return_addresses(arch, stack@, fp, sp, BACKTRACE_DEPTH as nat);
    let mut frames: Vec<u64> = Vec::new();
    let mut frame: u64 = fp;
    assert(frames@ + whole =~= whole);
    while frames.len() < BACKTRACE_DEPTH
        invariant
            stack@.covers(sp as int, BACKTRACE_STACK_WINDOW + 8),
            in_bounds(frame, sp),
            in_bounds(fp, sp),
            frames@.len() <= BACKTRACE_DEPTH,
            whole == return_addresses(arch, stack@, fp, sp, BACKTRACE_DEPTH as nat),
            whole == frames@ + return_addresses(
                arch,
                stack@,
                frame,
                sp,
                (BACKTRACE_DEPTH - frames@.len()) as nat,
            ),
        decreases BACKTRACE_DEPTH - frames@.len(),
    {
        let ghost seen = frames@;
        let ghost left = (BACKTRACE_DEPTH - frames@.len()) as nat;
        let (address_slot, frame_slot) = match slots_of(arch, frame, sp) {
            Some(slots) => slots,
            None => {
                assert(whole =~= frames@);
                return Some(frames);
            },
        };
        let address: u64 = load_word(stack, address_slot);
        let before: u64 = load_word(stack, frame_slot);
        if address == 0 {
            assert(whole =~= frames@);
            return Some(frames);
        }
        frames.push(address);
        if !frame_ptr_in_bounds(before, sp) || before <= frame {
            assert(whole =~= frames@);
            return Some(frames);
        }
        assert(seen + (seq![address] + return_addresses(
            arch,
            stack@,
            before,
            sp,
            (left - 1) as nat,
        )) =~= frames@ + return_addresses(arch, stack@, before, sp, (left - 1) as nat));
        frame = before;
    }
    assert(whole =~= frames@);
    Some(frames)
}

/// A hexadecimal digit.
pub open spec fn hex_digit(value: int) -> u8 {
    if value < 10 {
        (0x30 + value) as u8
    } else {
        (0x57 + value) as u8
    }
}

/// The last `n` hexadecimal digits of a number.
pub open spec fn hex(value: int, n: nat) -> Seq<u8>
    decreases n,
{
    if n == 0 {
        Seq::empty()
    } else {
        hex(value / 16, (n - 1) as nat).push(hex_digit(value % 16))
    }
}

fn put_hex(out: &mut Vec<u8>, value: u64, digits: usize)
    ensures
        final(out)@ == old(out)@ + hex(value as int, digits as nat),
    decreases digits,
{
    if digits > 0 {
        put_hex(out, value / 16, digits - 1);
        let digit: u8 = (value % 16) as u8;
        if digit < 10 {
            out.push(0x30 + digit);
        } else {
            out.push(0x57 + digit);
        }
    }
    assert(out@ =~= old(out)@ + hex(value as int, digits as nat));
}

/// A line of the call stack report.
pub open spec fn frame_text(depth: int, address: u64, name: Option<Seq<u8>>) -> Seq<u8> {
    padded(depth, 2, 0x20) + seq![0x3au8, 0x20, 0x30, 0x78] + hex(address as int, 16) + seq![
        0x20u8,
        0x2d,
        0x20,
    ] + (match name {
        Some(name) => name,
        None => seq![0x3cu8, 0x75, 0x6e, 0x6b, 0x6e, 0x6f, 0x77, 0x6e, 0x3e],
    })
}

/// What a report line keeps of a text.
pub open spec fn fitted(text: Seq<u8>) -> Seq<u8> {
    text.take(min_int(text.len() as int, PANIC_LINE_CAPACITY as int))
}

/// Cuts a text to a report line.
pub fn panic_line(text: &[u8]) -> (line: Vec<u8>)
    ensures
        line@ == fitted(text@),
{
    let line = copy_range(text, 0, min_usize(text.len(), PANIC_LINE_CAPACITY));
    assert(line@ =~= fitted(text@));
    line
}

/// The report line of a frame.
pub fn frame_line(depth: usize, address: u64, name: Option<&Vec<u8>>) -> (line: Vec<u8>)
    ensures
        line@ == fitted(
            frame_text(
                depth as int,
                address,
                match name {
                    Some(name) => Some(name@),
                    None => None,
                },
            ),
        ),
{
    let mut out: Vec<u8> = Vec::new();
    put_padded(&mut out, depth as u64, 2, 0x20);
    out.push(0x3a);
    out.push(0x20);
    out.push(0x30);
    out.push(0x78);
    put_hex(&mut out, address, 16);
    out.push(0x20);
    out.push(0x2d);
    out.push(0x20);
    match name {
        Some(name) => {
            put_bytes(&mut out, name);
        },
        None => {
            let unknown: Vec<u8> = vec![0x3cu8, 0x75, 0x6e, 0x6b, 0x6e, 0x6f, 0x77, 0x6e, 0x3e];
            put_bytes(&mut out, &unknown);
        },
    }
    let ghost shown: Option<Seq<u8>> = match name {
        Some(name) => Some(name@),
        None => None,
    };
    assert(out@ =~= frame_text(depth as int, address, shown));
    panic_line(&out)
}

/// Who owns a panic.
#[derive(Copy, Clone, Debug, PartialEq, Eq, Structural)]
pub struct PanicState {
    /// Whether a panic is active.
    pub active: bool,
    /// CPU that reports it.
    pub owner: usize,
    /// CPUs that stopped for it.
    pub stopped: usize,
}

impl PanicState {
    /// No panic.
    pub fn new() -> (state: Self)
        ensures
            state == (PanicState { active: false, owner: usize::MAX, stopped: 0 }),
    {
        PanicState { active: false, owner: usize::MAX, stopped: 0 }
    }

    /// Enters a panic on a CPU; whether this CPU reports it.
    pub fn enter(&mut self, cpu_id: usize) -> (reports: bool)
        ensures
            reports == !old(self).active,
            reports ==> *final(self) == (PanicState { active: true, owner: cpu_id, stopped: 0 }),
            !reports ==> *final(self) == *old(self),
    {
        if self.active {
            return false;
        }
        self.active = true;
        self.owner = cpu_id;
        self.stopped = 0;
        true
    }

    /// Whether a CPU stops for good, because another one panicked; it is then
    /// counted.
    pub fn halt_if_panicking(&mut self, cpu_id: usize) -> (halts: bool)
        requires
            old(self).stopped < usize::MAX,
        ensures
            halts == (old(self).active && cpu_id != old(self).owner),
            *final(self) == (PanicState {
                stopped: if halts {
                    (old(self).stopped + 1) as usize
                } else {
                    old(self).stopped
                },
                ..*old(self)
            }),
    {
        if !self.active || cpu_id == self.owner {
            return false;
        }
        self.stopped = self.stopped + 1;
        true
    }

    /// Whether the owner goes on waiting for other CPUs to stop.
    pub fn wait_for_other_cpus(&self, online_cpus: usize, spins: usize) -> (waits: bool)
        ensures
            waits == (spins < PANIC_SHOOTDOWN_SPINS && self.stopped < minus_or_zero(
                online_cpus as int,
                1,
            )),
    {
        spins < PANIC_SHOOTDOWN_SPINS && self.stopped < online_cpus.saturating_sub(1)
    }
}

/// The other CPUs, which the owner of a panic stops.
pub fn shoot_down_other_cpus(owner: usize, cpu_count: usize) -> (targets: Vec<usize>)
    ensures
        targets@ == others(owner, if cpu_count <= 1 {
            0
        } else {
            cpu_count as nat
        }),
{
    let mut targets: Vec<usize> = Vec::new();
    if cpu_count <= 1 {
        return targets;
    }
    let mut cpu: usize = 0;
    while cpu < cpu_count
        invariant
            cpu <= cpu_count,
            targets@ == others(owner, cpu as nat),
        decreases cpu_count - cpu,
    {
        if cpu != owner {
            targets.push(cpu);
        }
        cpu = cpu + 1;
    }
    targets
}

/// The CPUs below `n` without `owner`.
pub open spec fn others(owner: usize, n: nat) -> Seq<usize>
    decreases n,
{
    if n == 0 {
        Seq::empty()
    } else if n - 1 == owner {
        others(owner, (n - 1) as nat)
    } else {
        others(owner, (n - 1) as nat).push((n - 1) as usize)
    }
}

/// A call stack report ends: it has no more frames than its limit, and no frame
/// without a return address.
pub proof fn law_backtrace_is_bounded(arch: Arch, stack: MemoryModel, fp: u64, sp: u64, depth: nat)
    ensures
        return_addresses(arch, stack, fp, sp, depth).len() <= depth,
        forall|i: int|
            0 <= i < return_addresses(arch, stack, fp, sp, depth).len()
                ==> #[trigger] return_addresses(arch, stack, fp, sp, depth)[i] != 0,
    decreases depth,
{
    if depth > 0 {
        if let Some((address_slot, frame_slot)) = frame_slots(arch, fp, sp) {
            let before = word(stack, frame_slot);
            let rest = return_addresses(arch, stack, before, sp, (depth - 1) as nat);
            law_backtrace_is_bounded(arch, stack, before, sp, (depth - 1) as nat);
            let address = word(stack, address_slot);
            assert forall|i: int| 0 <= i < (seq![address] + rest).len() && address
                != 0 implies #[trigger] (seq![address] + rest)[i] != 0 by {
                if i > 0 {
                    assert((seq![address] + rest)[i] == rest[i - 1]);
                }
            }
        }
    }
}

/// The value that hexadecimal digits stand for.
pub open spec fn hex_value(digits: Seq<u8>) -> int
    decreases digits.len(),
{
    if digits.len() == 0 {
        0
    } else {
        16 * hex_value(digits.drop_last()) + if digits.last() >= 0x61 {
            digits.last() - 0x57
        } else {
            digits.last() - 0x30
        }
    }
}

/// An address is written in as many hexadecimal digits as asked for, which
/// stand for it if they are enough.
pub proof fn law_hex_reads_back(value: int, n: nat)
    requires
        value >= 0,
    ensures
        hex(value, n).len() == n,
        n == 0 ==> hex_value(hex(value, n)) == 0,
        hex_value(hex(value, n)) % 16 == if n == 0 {
            0
        } else {
            value % 16
        },
        value == 0 ==> hex_value(hex(value, n)) == 0,
        n > 0 ==> hex_value(hex(value, n)) == 16 * hex_value(hex(value / 16, (n - 1) as nat))
            + value % 16,
    decreases n,
{
    if n > 0 {
        law_hex_reads_back(value / 16, (n - 1) as nat);
        let front = hex(value / 16, (n - 1) as nat);
        assert(hex(value, n).drop_last() =~= front);
        assert(hex(value, n).last() == hex_digit(value % 16));
    }
}

/// The CPUs that a panic stops are all but the one that it happened on.
pub proof fn law_panic_stops_all_others(owner: usize, n: nat, cpu: usize)
    requires
        n <= usize::MAX,
    ensures
        others(owner, n).contains(cpu) <==> cpu < n && cpu != owner,
    decreases n,
{
    if n > 0 {
        law_panic_stops_all_others(owner, (n - 1) as nat, cpu);
        let before = others(owner, (n - 1) as nat);
        let all = others(owner, n);
        if before.contains(cpu) {
            let i = choose|i: int| 0 <= i < before.len() && before[i] == cpu;
            assert(all[i] == cpu);
        }
        if all.contains(cpu) {
            let i = choose|i: int| 0 <= i < all.len() && all[i] == cpu;
            if i < before.len() {
                assert(before[i] == cpu);
            }
        }
        if cpu == n - 1 && cpu != owner {
            assert(all[all.len() - 1] == cpu);
        }
    }
}

/// A backtrace follows the frames upwards: each address comes from its frame,
/// the walk goes on at the frame that this one names if that lies higher on the
/// stack, and ends otherwise.
pub proof fn law_backtrace_follows_frames(
    arch: Arch,
    stack: MemoryModel,
    fp: u64,
    sp: u64,
    depth: nat,
)
    requires
        depth > 0,
    ensures
        frame_slots(arch, fp, sp).is_none() ==> return_addresses(arch, stack, fp, sp, depth).len()
            == 0,
        frame_slots(arch, fp, sp) matches Some((address_slot, frame_slot)) ==> {
            let found = return_addresses(arch, stack, fp, sp, depth);
            let before = word(stack, frame_slot);
            &&& arch == Arch::X86_64 ==> address_slot == fp + 8 && frame_slot == fp
            &&& arch == Arch::Riscv64 ==> address_slot == fp - 8 && frame_slot == fp - 16
            &&& word(stack, address_slot) == 0 ==> found.len() == 0
            &&& word(stack, address_slot) != 0 ==> found.len() > 0 && found[0] == word(
                stack,
                address_slot,
            )
            &&& word(stack, address_slot) != 0 && before > fp && before != 0 && before % 8 == 0
                && sp <= before < sp + BACKTRACE_STACK_WINDOW ==> found.skip(1)
                == return_addresses(arch, stack, before, sp, (depth - 1) as nat)
            &&& before <= fp ==> found.len() <= 1
        },
{
    if let Some((address_slot, frame_slot)) = frame_slots(arch, fp, sp) {
        let before = word(stack, frame_slot);
        let rest = return_addresses(arch, stack, before, sp, (depth - 1) as nat);
        assert((seq![word(stack, address_slot)] + rest).skip(1) =~= rest);
    }
}

} // verus!
