//! Clock and system-information syscalls.

use vstd::prelude::*;
use crate::bytes::{put_bytes, put_u64, put_zeros, u64_bytes, zeros};
use crate::mem::{MemoryModel, UserMemory};
use crate::syscall::{map_memory_error, Errno, Timespec, NANOS_PER_SEC};
use crate::Arch;

verus! {

/// Wall-clock time.
pub const CLOCK_REALTIME: u64 = 0;

/// Time since boot.
pub const CLOCK_MONOTONIC: u64 = 1;

/// Time since boot, as the hardware counts it.
pub const CLOCK_MONOTONIC_RAW: u64 = 4;

/// Time since boot, with sleep.
pub const CLOCK_BOOTTIME: u64 = 7;

/// Bytes of a field of the system name.
pub const UTSNAME_FIELD_SIZE: usize = 65;

/// Whether a clock can be read.
pub open spec fn is_clock(clock_id: u64) -> bool {
    clock_id == CLOCK_REALTIME || clock_id == CLOCK_MONOTONIC || clock_id == CLOCK_MONOTONIC_RAW
        || clock_id == CLOCK_BOOTTIME
}

/// What reading a clock returns, and the memory after it.
pub open spec fn clock_got(
    memory: MemoryModel,
    clock_id: u64,
    seconds: u64,
    nanoseconds: u64,
    now_ns: u64,
) -> (Result<u64, Errno>, MemoryModel) {
    if !is_clock(clock_id) {
        (Err(Errno::Invalid), memory)
    } else if !memory.covers(seconds as int, 8) {
        (Err(Errno::Fault), memory)
    } else {
        let first = memory.written(
            seconds as int,
            u64_bytes((now_ns as int / 1_000_000_000) as u64),
        );
        if !first.covers(nanoseconds as int, 8) {
            (Err(Errno::Fault), first)
        } else {
            (
                Ok(0),
                first.written(
                    nanoseconds as int,
                    u64_bytes((now_ns as int % 1_000_000_000) as u64),
                ),
            )
        }
    }
}

/// Stores the time in two places of the caller.
pub fn syscall_clock_get(
    memory: &mut UserMemory,
    clock_id: u64,
    seconds: u64,
    nanoseconds: u64,
    now_ns: u64,
) -> (result: Result<u64, Errno>)
    ensures
        (result, final(memory)@) == clock_got(
            old(memory)@,
            clock_id,
            seconds,
            nanoseconds,
            now_ns,
        ),
{
    if clock_id != CLOCK_REALTIME && clock_id != CLOCK_MONOTONIC && clock_id
        != CLOCK_MONOTONIC_RAW && clock_id != CLOCK_BOOTTIME {
        return Err(Errno::Invalid);
    }
    let mut whole: Vec<u8> = Vec::new();
    put_u64(&mut whole, now_ns / NANOS_PER_SEC);
    let mut part: Vec<u8> = Vec::new();
    put_u64(&mut part, now_ns % NANOS_PER_SEC);
    assert(whole@ =~= u64_bytes((now_ns as int / 1_000_000_000) as u64));
    assert(part@ =~= u64_bytes((now_ns as int % 1_000_000_000) as u64));
    if let Err(error) = memory.write_user(seconds, &whole) {
        return Err(map_memory_error(error));
    }
    if let Err(error) = memory.write_user(nanoseconds, &part) {
        return Err(map_memory_error(error));
    }
    Ok(0)
}

/// How long a caller sleeps.
pub fn syscall_clock_sleep(seconds: u64, nanoseconds: u64) -> (span: Result<Timespec, Errno>)
    ensures
        span == if nanoseconds >= 1_000_000_000 {
            Err::<Timespec, Errno>(Errno::Invalid)
        } else {
            Ok::<Timespec, Errno>(Timespec { seconds, nanoseconds: nanoseconds as u32 })
        },
{
    if nanoseconds >= NANOS_PER_SEC {
        return Err(Errno::Invalid);
    }
    Ok(Timespec { seconds, nanoseconds: nanoseconds as u32 })
}

/// The name of an architecture.
pub open spec fn machine(arch: Arch) -> Seq<u8> {
    match arch {
        Arch::X86_64 => seq![0x78u8, 0x38, 0x36, 0x5f, 0x36, 0x34],
        Arch::Riscv64 => seq![0x72u8, 0x69, 0x73, 0x63, 0x76, 0x36, 0x34],
    }
}

/// A field of the system name: text that zeros fill up.
pub open spec fn name_field(value: Seq<u8>) -> Seq<u8> {
    value + zeros((65 - value.len()) as nat)
}

/// The system name.
pub open spec fn system_name(arch: Arch, release: Seq<u8>, build: Seq<u8>) -> Seq<u8> {
    name_field(seq![0x52u8, 0x6f, 0x61, 0x6e, 0x69, 0x78]) + name_field(
        seq![0x6cu8, 0x6f, 0x63, 0x61, 0x6c],
    ) + name_field(release) + name_field(seq![0x23u8, 0x31, 0x20] + build) + name_field(
        machine(arch),
    ) + name_field(seq![0x28u8, 0x6e, 0x6f, 0x6e, 0x65, 0x29])
}

fn write_utsname_field(record: &mut Vec<u8>, value: &[u8])
    requires
        value@.len() < UTSNAME_FIELD_SIZE,
    ensures
        final(record)@ == old(record)@ + name_field(value@),
{
    put_bytes(record, value);
    put_zeros(record, UTSNAME_FIELD_SIZE - value.len());
    assert(record@ =~= old(record)@ + name_field(value@));
}

/// Stores the system name for a kernel of this release and build.
pub fn syscall_system_uname(
    memory: &mut UserMemory,
    output: u64,
    arch: Arch,
    release: &[u8],
    build: &[u8],
) -> (result: Result<u64, Errno>)
    requires
        release@.len() < 65,
        build@.len() < 62,
    ensures
        ({
            let name = system_name(arch, release@, build@);
            if old(memory)@.covers(output as int, name.len() as int) {
                result == Ok::<u64, Errno>(0) && final(memory)@ == old(memory)@.written(
                    output as int,
                    name,
                )
            } else {
                result == Err::<u64, Errno>(Errno::Fault) && final(memory)@ == old(memory)@
            }
        }),
{
    let system: Vec<u8> = vec![0x52u8, 0x6f, 0x61, 0x6e, 0x69, 0x78];
    assert(system@ =~= seq![0x52u8, 0x6f, 0x61, 0x6e, 0x69, 0x78]);
    let node: Vec<u8> = vec![0x6cu8, 0x6f, 0x63, 0x61, 0x6c];
    assert(node@ =~= seq![0x6cu8, 0x6f, 0x63, 0x61, 0x6c]);
    let mut version: Vec<u8> = vec![0x23u8, 0x31, 0x20];
    put_bytes(&mut version, build);
    assert(version@ =~= seq![0x23u8, 0x31, 0x20] + build@);
    let hardware: Vec<u8> = match arch {
        Arch::X86_64 => vec![0x78u8, 0x38, 0x36, 0x5f, 0x36, 0x34],
        Arch::Riscv64 => vec![0x72u8, 0x69, 0x73, 0x63, 0x76, 0x36, 0x34],
    };
    assert(hardware@ =~= machine(arch));
    let domain: Vec<u8> = vec![0x28u8, 0x6e, 0x6f, 0x6e, 0x65, 0x29];
    assert(domain@ =~= seq![0x28u8, 0x6e, 0x6f, 0x6e, 0x65, 0x29]);
    let mut record: Vec<u8> = Vec::new();
    write_utsname_field(&mut record, &system);
    write_utsname_field(&mut record, &node);
    write_utsname_field(&mut record, release);
    write_utsname_field(&mut record, &version);
    write_utsname_field(&mut record, &hardware);
    write_utsname_field(&mut record, &domain);
    assert(record@ =~= system_name(arch, release@, build@));
    match memory.write_user(output, &record) {
        Ok(_) => Ok(0),
        Err(error) => Err(map_memory_error(error)),
    }
}

/// The clocks that can be asked for are those of real, monotonic, raw and boot
/// time.
pub proof fn law_known_clocks(clock_id: u64)
    ensures
        is_clock(clock_id) <==> clock_id == 0 || clock_id == 1 || clock_id == 4 || clock_id == 7,
{
}

/// A clock gives whole seconds and the nanoseconds beyond them, where asked.
pub proof fn law_clock_tells_seconds_and_nanoseconds(
    memory: MemoryModel,
    clock_id: u64,
    seconds: u64,
    nanoseconds: u64,
    now_ns: u64,
)
    requires
        clock_id == 0 || clock_id == 1 || clock_id == 4 || clock_id == 7,
        memory.covers(seconds as int, 8),
        memory.covers(nanoseconds as int, 8),
        seconds + 8 <= nanoseconds || nanoseconds + 8 <= seconds,
    ensures
        ({
            let (result, after) = clock_got(memory, clock_id, seconds, nanoseconds, now_ns);
            let s = crate::bytes::u64_at(after.at(seconds as int, 8), 0);
            let n = crate::bytes::u64_at(after.at(nanoseconds as int, 8), 0);
            &&& result == Ok::<u64, Errno>(0)
            &&& 1_000_000_000 * s + n == now_ns
            &&& n < 1_000_000_000
        }),
{
    let s = (now_ns as int / 1_000_000_000) as u64;
    let n = (now_ns as int % 1_000_000_000) as u64;
    crate::bytes::law_u64_round_trip(s);
    crate::bytes::law_u64_round_trip(n);
    let first = memory.written(seconds as int, u64_bytes(s));
    crate::mem::law_written_bytes_are_read(
        memory,
        seconds as int,
        u64_bytes(s),
        nanoseconds as int,
        8,
    );
    crate::mem::law_written_bytes_are_read(
        first,
        nanoseconds as int,
        u64_bytes(n),
        seconds as int,
        8,
    );
}

/// A clock that there is not is refused, and a place that cannot be written is
/// a fault.
pub proof fn law_unknown_clock_is_refused(
    memory: MemoryModel,
    clock_id: u64,
    seconds: u64,
    nanoseconds: u64,
    now_ns: u64,
)
    ensures
        !is_clock(clock_id) ==> clock_got(memory, clock_id, seconds, nanoseconds, now_ns) == (
            Err::<u64, Errno>(Errno::Invalid),
            memory,
        ),
        is_clock(clock_id) && !memory.covers(seconds as int, 8) ==> clock_got(
            memory,
            clock_id,
            seconds,
            nanoseconds,
            now_ns,
        ) == (Err::<u64, Errno>(Errno::Fault), memory),
{
}

} // verus!
