//! Shared userspace syscall conventions.

use vstd::prelude::*;
use vstd::utf8::{decode_utf8, valid_utf8};
use crate::bytes::{get_u32, get_u64, u32_at, u64_at};
use crate::mem::{MemoryModel, UserMemory};
use crate::text::utf8_string;
use crate::{fs, mem, proc};

verus! {

/// Most strings that a program can be started with.
pub const MAX_EXEC_ITEMS: usize = 256;

/// Most bytes that those strings can have together.
pub const MAX_EXEC_BYTES: usize = 64 * 1024;

/// Nanoseconds in a second.
pub const NANOS_PER_SEC: u64 = 1_000_000_000;

/// Error that a syscall reports.
#[derive(Copy, Clone, Debug, PartialEq, Eq, Structural)]
pub enum Errno {
    /// Operation not permitted.
    Permission,
    /// No such file.
    NoEntry,
    /// No such process.
    NoProcess,
    /// Interrupted by a signal.
    Interrupted,
    /// Input or output failed.
    Io,
    /// Bad descriptor.
    BadFileDescriptor,
    /// No child process.
    NoChild,
    /// Try again later.
    TryAgain,
    /// Out of memory.
    OutOfMemory,
    /// Access denied.
    Access,
    /// Bad address.
    Fault,
    /// Object in use.
    Busy,
    /// Object exists.
    Exists,
    /// Operation spans two devices.
    CrossDevice,
    /// Not a directory.
    NotDirectory,
    /// Is a directory.
    IsDirectory,
    /// Invalid argument.
    Invalid,
    /// Too many open files.
    TooManyFiles,
    /// Not a terminal.
    NotTty,
    /// File too large.
    FileTooLarge,
    /// No space left.
    NoSpace,
    /// Object has no position.
    IllegalSeek,
    /// Read-only file system.
    ReadOnly,
    /// Nobody reads the pipe.
    BrokenPipe,
    /// Result out of range.
    Range,
    /// Name too long.
    NameTooLong,
    /// Not implemented.
    NotImplemented,
    /// Directory not empty.
    NotEmpty,
    /// Too many symbolic links.
    Loop,
    /// Value too large.
    Overflow,
    /// Not supported.
    NotSupported,
    /// Timed out.
    TimedOut,
}

impl Errno {
    /// Number of the error.
    pub open spec fn number(self) -> i64 {
        match self {
            Errno::Permission => 1,
            Errno::NoEntry => 2,
            Errno::NoProcess => 3,
            Errno::Interrupted => 4,
            Errno::Io => 5,
            Errno::BadFileDescriptor => 9,
            Errno::NoChild => 10,
            Errno::TryAgain => 11,
            Errno::OutOfMemory => 12,
            Errno::Access => 13,
            Errno::Fault => 14,
            Errno::Busy => 16,
            Errno::Exists => 17,
            Errno::CrossDevice => 18,
            Errno::NotDirectory => 20,
            Errno::IsDirectory => 21,
            Errno::Invalid => 22,
            Errno::TooManyFiles => 24,
            Errno::NotTty => 25,
            Errno::FileTooLarge => 27,
            Errno::NoSpace => 28,
            Errno::IllegalSeek => 29,
            Errno::ReadOnly => 30,
            Errno::BrokenPipe => 32,
            Errno::Range => 34,
            Errno::NameTooLong => 36,
            Errno::NotImplemented => 38,
            Errno::NotEmpty => 39,
            Errno::Loop => 40,
            Errno::Overflow => 75,
            Errno::NotSupported => 95,
            Errno::TimedOut => 110,
        }
    }

    /// Returns the number of the error.
    pub fn as_raw(self) -> (number: i64)
        ensures
            number == self.number(),
    {
        match self {
            Errno::Permission => 1,
            Errno::NoEntry => 2,
            Errno::NoProcess => 3,
            Errno::Interrupted => 4,
            Errno::Io => 5,
            Errno::BadFileDescriptor => 9,
            Errno::NoChild => 10,
            Errno::TryAgain => 11,
            Errno::OutOfMemory => 12,
            Errno::Access => 13,
            Errno::Fault => 14,
            Errno::Busy => 16,
            Errno::Exists => 17,
            Errno::CrossDevice => 18,
            Errno::NotDirectory => 20,
            Errno::IsDirectory => 21,
            Errno::Invalid => 22,
            Errno::TooManyFiles => 24,
            Errno::NotTty => 25,
            Errno::FileTooLarge => 27,
            Errno::NoSpace => 28,
            Errno::IllegalSeek => 29,
            Errno::ReadOnly => 30,
            Errno::BrokenPipe => 32,
            Errno::Range => 34,
            Errno::NameTooLong => 36,
            Errno::NotImplemented => 38,
            Errno::NotEmpty => 39,
            Errno::Loop => 40,
            Errno::Overflow => 75,
            Errno::NotSupported => 95,
            Errno::TimedOut => 110,
        }
    }
}

/// The register value for a syscall result.
pub open spec fn raw_of(result: Result<u64, Errno>) -> i64 {
    match result {
        Ok(value) => value as i64,
        Err(error) => (-error.number()) as i64,
    }
}

/// Returns the register value for a syscall result: the value, or the negated
/// error number.
pub fn raw_result(result: Result<u64, Errno>) -> (raw: i64)
    ensures
        raw == raw_of(result),
{
    match result {
        Ok(value) => #[verifier::truncate] (value as i64),
        Err(error) => -error.as_raw(),
    }
}

/// Answers a syscall that is not implemented.
pub fn syscall_not_implemented() -> (raw: i64)
    ensures
        raw == -38,
{
    raw_result(Err(Errno::NotImplemented))
}

/// The error number for a memory failure.
pub open spec fn memory_errno(error: mem::Error) -> Errno {
    match error {
        mem::Error::OutOfMemory | mem::Error::LimitExceeded => Errno::OutOfMemory,
        mem::Error::InvalidAddress
        | mem::Error::NotMapped
        | mem::Error::Protection
        | mem::Error::AlreadyMapped => Errno::Fault,
        mem::Error::SwapUnavailable | mem::Error::CorruptSwap | mem::Error::Pmap => Errno::Io,
    }
}

/// The error number for a file system failure.
pub open spec fn fs_errno(error: fs::Error) -> Errno {
    match error {
        fs::Error::NotFound => Errno::NoEntry,
        fs::Error::AlreadyExists => Errno::Exists,
        fs::Error::NotDirectory => Errno::NotDirectory,
        fs::Error::IllegalSeek => Errno::IllegalSeek,
        fs::Error::IsDirectory => Errno::IsDirectory,
        fs::Error::NotTty => Errno::NotTty,
        fs::Error::Interrupted => Errno::Interrupted,
        fs::Error::NotEmpty => Errno::NotEmpty,
        fs::Error::CrossDevice => Errno::CrossDevice,
        fs::Error::SymlinkLoop => Errno::Loop,
        fs::Error::NameTooLong => Errno::NameTooLong,
        fs::Error::InvalidArgument => Errno::Invalid,
        fs::Error::Unsupported => Errno::NotSupported,
        fs::Error::Busy => Errno::Busy,
        fs::Error::WouldBlock => Errno::TryAgain,
        fs::Error::NoSpace => Errno::NoSpace,
        fs::Error::FileTooLarge => Errno::FileTooLarge,
        fs::Error::PermissionDenied => Errno::Access,
        fs::Error::ReadOnly => Errno::ReadOnly,
        fs::Error::BadFileDescriptor => Errno::BadFileDescriptor,
        fs::Error::OutOfMemory => Errno::OutOfMemory,
        fs::Error::Io => Errno::Io,
    }
}

/// The error number for a process failure.
pub open spec fn process_errno(error: proc::Error) -> Errno {
    match error {
        proc::Error::Filesystem(error) => fs_errno(error),
        proc::Error::Memory(error) => memory_errno(error),
        proc::Error::TooManyFiles => Errno::TooManyFiles,
        proc::Error::BadFileDescriptor => Errno::BadFileDescriptor,
        proc::Error::NoSuchProcess => Errno::NoProcess,
        proc::Error::NoChild => Errno::NoChild,
        proc::Error::PermissionDenied => Errno::Permission,
        proc::Error::InvalidArgument
        | proc::Error::InvalidElf(_)
        | proc::Error::UnsupportedElf => Errno::Invalid,
    }
}

/// Returns the error number for a memory failure.
pub fn map_memory_error(error: mem::Error) -> (errno: Errno)
    ensures
        errno == memory_errno(error),
{
    match error {
        mem::Error::OutOfMemory | mem::Error::LimitExceeded => Errno::OutOfMemory,
        mem::Error::InvalidAddress
        | mem::Error::NotMapped
        | mem::Error::Protection
        | mem::Error::AlreadyMapped => Errno::Fault,
        mem::Error::SwapUnavailable | mem::Error::CorruptSwap | mem::Error::Pmap => Errno::Io,
    }
}

/// Returns the error number for a file system failure.
pub fn map_fs_error(error: fs::Error) -> (errno: Errno)
    ensures
        errno == fs_errno(error),
{
    match error {
        fs::Error::NotFound => Errno::NoEntry,
        fs::Error::AlreadyExists => Errno::Exists,
        fs::Error::NotDirectory => Errno::NotDirectory,
        fs::Error::IllegalSeek => Errno::IllegalSeek,
        fs::Error::IsDirectory => Errno::IsDirectory,
        fs::Error::NotTty => Errno::NotTty,
        fs::Error::Interrupted => Errno::Interrupted,
        fs::Error::NotEmpty => Errno::NotEmpty,
        fs::Error::CrossDevice => Errno::CrossDevice,
        fs::Error::SymlinkLoop => Errno::Loop,
        fs::Error::NameTooLong => Errno::NameTooLong,
        fs::Error::InvalidArgument => Errno::Invalid,
        fs::Error::Unsupported => Errno::NotSupported,
        fs::Error::Busy => Errno::Busy,
        fs::Error::WouldBlock => Errno::TryAgain,
        fs::Error::NoSpace => Errno::NoSpace,
        fs::Error::FileTooLarge => Errno::FileTooLarge,
        fs::Error::PermissionDenied => Errno::Access,
        fs::Error::ReadOnly => Errno::ReadOnly,
        fs::Error::BadFileDescriptor => Errno::BadFileDescriptor,
        fs::Error::OutOfMemory => Errno::OutOfMemory,
        fs::Error::Io => Errno::Io,
    }
}

/// Returns the error number for a process failure.
pub fn map_process_error(error: proc::Error) -> (errno: Errno)
    ensures
        errno == process_errno(error),
{
    match error {
        proc::Error::Filesystem(error) => map_fs_error(error),
        proc::Error::Memory(error) => map_memory_error(error),
        proc::Error::TooManyFiles => Errno::TooManyFiles,
        proc::Error::BadFileDescriptor => Errno::BadFileDescriptor,
        proc::Error::NoSuchProcess => Errno::NoProcess,
        proc::Error::NoChild => Errno::NoChild,
        proc::Error::PermissionDenied => Errno::Permission,
        proc::Error::InvalidArgument
        | proc::Error::InvalidElf(_)
        | proc::Error::UnsupportedElf => Errno::Invalid,
    }
}

/// The bytes of the zero-terminated string at `address`, from the one at
/// offset `at` on.
pub open spec fn user_bytes(memory: MemoryModel, address: u64, at: int, max: int) -> Result<
    Seq<u8>,
    Errno,
>
    decreases max - at,
{
    if at >= max {
        Err(Errno::NameTooLong)
    } else if address + at > u64::MAX || !memory.covers(address + at, 1) {
        Err(Errno::Fault)
    } else {
        let byte = memory.at(address + at, 1)[0];
        if byte == 0 {
            Ok(Seq::empty())
        } else {
            match user_bytes(memory, address, at + 1, max) {
                Ok(rest) => Ok(seq![byte] + rest),
                Err(error) => Err(error),
            }
        }
    }
}

/// The text at `address`, of fewer than `max` bytes.
pub open spec fn user_text(memory: MemoryModel, address: u64, max: int) -> Result<Seq<u8>, Errno> {
    match user_bytes(memory, address, 0, max) {
        Err(error) => Err(error),
        Ok(bytes) => if valid_utf8(bytes) {
            Ok(bytes)
        } else {
            Err(Errno::Invalid)
        },
    }
}

/// Reads a zero-terminated string of fewer than `max` bytes.
pub fn read_user_string(memory: &UserMemory, address: u64, max: usize) -> (text: Result<
    String,
    Errno,
>)
    ensures
        match (text, user_text(memory@, address, max as int)) {
            (Ok(t), Ok(bytes)) => t@ == decode_utf8(bytes),
            (Err(e), Err(expected)) => e == expected,
            _ => false,
        },
{
    let mut bytes: Vec<u8> = Vec::new();
    let mut offset: usize = 0;
    while offset < max
        invariant
            offset <= max,
            match (
                user_bytes(memory@, address, 0, max as int),
                user_bytes(memory@, address, offset as int, max as int),
            ) {
                (Ok(whole), Ok(rest)) => whole =~= bytes@ + rest,
                (Err(error), Err(expected)) => error == expected,
                _ => false,
            },
        decreases max - offset,
    {
        let place: u64 = match address.checked_add(offset as u64) {
            Some(place) => place,
            None => {
                return Err(Errno::Fault);
            },
        };
        let byte: u8 = match memory.read_user(place, 1) {
            Ok(read) => read[0],
            Err(error) => {
                return Err(map_memory_error(error));
            },
        };
        if byte == 0 {
            assert(bytes@ =~= bytes@ + Seq::<u8>::empty());
            return match utf8_string(bytes) {
                Some(text) => Ok(text),
                None => Err(Errno::Invalid),
            };
        }
        bytes.push(byte);
        offset = offset + 1;
    }
    Err(Errno::NameTooLong)
}

/// Reads an eight-byte number.
pub fn read_user_u64(memory: &UserMemory, address: u64) -> (value: Result<u64, Errno>)
    ensures
        value == if memory@.covers(address as int, 8) {
            Ok::<u64, Errno>(u64_at(memory@.at(address as int, 8), 0))
        } else {
            Err(Errno::Fault)
        },
{
    match memory.read_user(address, 8) {
        Ok(bytes) => Ok(get_u64(&bytes, 0)),
        Err(error) => Err(map_memory_error(error)),
    }
}

/// Reads a four-byte signed number.
pub fn read_user_i32(memory: &UserMemory, address: u64) -> (value: Result<i32, Errno>)
    ensures
        value == if memory@.covers(address as int, 4) {
            Ok::<i32, Errno>(u32_at(memory@.at(address as int, 4), 0) as i32)
        } else {
            Err(Errno::Fault)
        },
{
    match memory.read_user(address, 4) {
        Ok(bytes) => Ok(#[verifier::truncate] (get_u32(&bytes, 0) as i32)),
        Err(error) => Err(map_memory_error(error)),
    }
}

/// A span of time.
#[derive(Copy, Clone, Debug, PartialEq, Eq, Structural)]
pub struct Timespec {
    /// Whole seconds.
    pub seconds: u64,
    /// Nanoseconds, fewer than a second.
    pub nanoseconds: u32,
}

impl Timespec {
    /// The span in nanoseconds.
    pub open spec fn total(self) -> int {
        self.seconds * NANOS_PER_SEC + self.nanoseconds
    }

    /// Returns the span in nanoseconds, or the largest number if there are
    /// more.
    pub fn as_nanos(&self) -> (nanoseconds: u64)
        ensures
            nanoseconds == if self.total() > u64::MAX {
                u64::MAX as int
            } else {
                self.total()
            },
    {
        match self.seconds.checked_mul(NANOS_PER_SEC) {
            Some(whole) => whole.saturating_add(self.nanoseconds as u64),
            None => u64::MAX,
        }
    }
}

/// The span of time in a timespec, whose numbers must be in range.
pub open spec fn timespec_of(bytes: Seq<u8>) -> Result<Timespec, Errno> {
    let seconds = u64_at(bytes, 0);
    let nanoseconds = u64_at(bytes, 8);
    if seconds > i64::MAX || nanoseconds >= NANOS_PER_SEC {
        Err(Errno::Invalid)
    } else {
        Ok(Timespec { seconds, nanoseconds: nanoseconds as u32 })
    }
}

/// Reads a span of time; negative numbers and nanoseconds of a second or more
/// are refused.
pub fn read_user_timespec(memory: &UserMemory, address: u64) -> (span: Result<Timespec, Errno>)
    ensures
        span == if memory@.covers(address as int, 16) {
            timespec_of(memory@.at(address as int, 16))
        } else {
            Err(Errno::Fault)
        },
{
    match memory.read_user(address, 16) {
        Ok(bytes) => {
            let seconds: u64 = get_u64(&bytes, 0);
            let nanoseconds: u64 = get_u64(&bytes, 8);
            if seconds > i64::MAX as u64 || nanoseconds >= NANOS_PER_SEC {
                return Err(Errno::Invalid);
            }
            Ok(Timespec { seconds, nanoseconds: nanoseconds as u32 })
        },
        Err(error) => Err(map_memory_error(error)),
    }
}

/// The strings that the array at `address` points to, from item `index` on,
/// when the earlier ones took `used` bytes.
pub open spec fn user_texts(
    memory: MemoryModel,
    address: u64,
    max: int,
    index: int,
    used: int,
) -> Result<Seq<Seq<u8>>, Errno>
    decreases MAX_EXEC_ITEMS - index,
{
    let place = address + 8 * index;
    if index >= MAX_EXEC_ITEMS {
        Err(Errno::Invalid)
    } else if place > u64::MAX || !memory.covers(place, 8) {
        Err(Errno::Fault)
    } else {
        let pointer = u64_at(memory.at(place, 8), 0);
        if pointer == 0 {
            Ok(Seq::empty())
        } else {
            match user_text(memory, pointer, max) {
                Err(error) => Err(error),
                Ok(text) => if used + text.len() + 1 > MAX_EXEC_BYTES {
                    Err(Errno::Invalid)
                } else {
                    match user_texts(memory, address, max, index + 1, used + text.len() + 1) {
                        Ok(rest) => Ok(seq![text] + rest),
                        Err(error) => Err(error),
                    }
                },
            }
        }
    }
}

/// The texts that `strings` hold.
pub open spec fn texts(strings: Seq<String>) -> Seq<Seq<char>> {
    strings.map_values(|s: String| s@)
}

/// The characters of several byte strings.
pub open spec fn decoded(strings: Seq<Seq<u8>>) -> Seq<Seq<char>> {
    strings.map_values(|s: Seq<u8>| decode_utf8(s))
}

/// Reads a zero-terminated array of pointers to strings of fewer than `max`
/// bytes; no array at all is an empty one.
pub fn read_user_string_array(memory: &UserMemory, address: u64, max: usize) -> (strings: Result<
    Vec<String>,
    Errno,
>)
    requires
        max <= usize::MAX - MAX_EXEC_BYTES - 1,
    ensures
        address == 0 ==> (strings matches Ok(v) && v@.len() == 0),
        address != 0 ==> match (strings, user_texts(memory@, address, max as int, 0, 0)) {
            (Ok(v), Ok(expected)) => texts(v@) == decoded(expected),
            (Err(e), Err(expected)) => e == expected,
            _ => false,
        },
{
    let mut strings: Vec<String> = Vec::new();
    if address == 0 {
        return Ok(strings);
    }
    let mut used: usize = 0;
    let mut index: usize = 0;
    while index < MAX_EXEC_ITEMS
        invariant
            index <= MAX_EXEC_ITEMS,
            address != 0,
            used <= MAX_EXEC_BYTES,
            max <= usize::MAX - MAX_EXEC_BYTES - 1,
            match (
                user_texts(memory@, address, max as int, 0, 0),
                user_texts(memory@, address, max as int, index as int, used as int),
            ) {
                (Ok(whole), Ok(rest)) => decoded(whole) =~= texts(strings@) + decoded(rest),
                (Err(error), Err(expected)) => error == expected,
                _ => false,
            },
        decreases MAX_EXEC_ITEMS - index,
    {
        let place: u64 = match address.checked_add(8 * index as u64) {
            Some(place) => place,
            None => {
                return Err(Errno::Fault);
            },
        };
        let pointer: u64 = match read_user_u64(memory, place) {
            Ok(pointer) => pointer,
            Err(error) => {
                return Err(error);
            },
        };
        if pointer == 0 {
            assert(texts(strings@) + decoded(Seq::empty()) =~= texts(strings@));
            return Ok(strings);
        }
        let text = match read_user_string(memory, pointer, max) {
            Ok(text) => text,
            Err(error) => {
                return Err(error);
            },
        };
        let ghost bytes = user_text(memory@, pointer, max as int)->Ok_0;
        proof {
            lemma_text_length(memory@, pointer, 0, max as int);
            vstd::utf8::decode_utf8_encode_utf8(bytes);
        }
        let size: usize = text.as_str().len();
        used = used + size + 1;
        if used > MAX_EXEC_BYTES {
            return Err(Errno::Invalid);
        }
        proof {
            let more = strings@.push(text);
            assert(texts(more) =~= texts(strings@).push(decode_utf8(bytes)));
            match user_texts(memory@, address, max as int, index + 1, used as int) {
                Ok(rest) => {
                    assert(decoded(seq![bytes] + rest) =~= seq![decode_utf8(bytes)] + decoded(
                        rest,
                    ));
                    assert(texts(strings@) + decoded(seq![bytes] + rest) =~= texts(more) + decoded(
                        rest,
                    ));
                },
                Err(_) => {},
            }
        }
        strings.push(text);
        index = index + 1;
    }
    Err(Errno::Invalid)
}

proof fn lemma_text_length(memory: MemoryModel, address: u64, at: int, max: int)
    requires
        0 <= at,
    ensures
        user_bytes(memory, address, at, max) matches Ok(bytes) ==> bytes.len() < max - at,
    decreases max - at,
{
    if at < max {
        lemma_text_length(memory, address, at + 1, max);
    }
}

/// A call answers with its value or with the negative number of its error, so
/// that a program can tell them apart.
pub proof fn law_errors_are_negative(error: Errno, value: u64)
    requires
        value <= i64::MAX,
    ensures
        raw_of(Ok::<u64, Errno>(value)) == value,
        raw_of(Err::<u64, Errno>(error)) + error.number() == 0,
        -4096 < raw_of(Err::<u64, Errno>(error)) < 0,
{
}

/// Errors have the numbers that programs know them by.
pub proof fn law_error_numbers()
    ensures
        Errno::Permission.number() == 1 && Errno::NoEntry.number() == 2 && Errno::NoProcess.number()
            == 3 && Errno::Interrupted.number() == 4 && Errno::Io.number() == 5,
        Errno::BadFileDescriptor.number() == 9 && Errno::NoChild.number() == 10
            && Errno::TryAgain.number() == 11 && Errno::OutOfMemory.number() == 12,
        Errno::Access.number() == 13 && Errno::Fault.number() == 14 && Errno::Busy.number() == 16
            && Errno::Exists.number() == 17 && Errno::CrossDevice.number() == 18,
        Errno::NotDirectory.number() == 20 && Errno::IsDirectory.number() == 21
            && Errno::Invalid.number() == 22 && Errno::TooManyFiles.number() == 24,
        Errno::NotTty.number() == 25 && Errno::FileTooLarge.number() == 27
            && Errno::NoSpace.number() == 28 && Errno::IllegalSeek.number() == 29,
        Errno::ReadOnly.number() == 30 && Errno::BrokenPipe.number() == 32 && Errno::Range.number()
            == 34 && Errno::NameTooLong.number() == 36,
        Errno::NotImplemented.number() == 38 && Errno::NotEmpty.number() == 39
            && Errno::Loop.number() == 40 && Errno::Overflow.number() == 75,
        Errno::NotSupported.number() == 95 && Errno::TimedOut.number() == 110,
{
}

/// Errors of the file systems, the memory and the processes become the errors
/// that programs expect for them.
pub proof fn law_errors_keep_their_meaning()
    ensures
        fs_errno(fs::Error::NotFound).number() == 2 && fs_errno(fs::Error::AlreadyExists).number()
            == 17 && fs_errno(fs::Error::NotDirectory).number() == 20,
        fs_errno(fs::Error::IsDirectory).number() == 21 && fs_errno(
            fs::Error::PermissionDenied,
        ).number() == 13 && fs_errno(fs::Error::ReadOnly).number() == 30,
        fs_errno(fs::Error::WouldBlock).number() == 11 && fs_errno(fs::Error::Interrupted).number()
            == 4 && fs_errno(fs::Error::InvalidArgument).number() == 22,
        fs_errno(fs::Error::NotEmpty).number() == 39 && fs_errno(fs::Error::SymlinkLoop).number()
            == 40 && fs_errno(fs::Error::NameTooLong).number() == 36,
        fs_errno(fs::Error::CrossDevice).number() == 18 && fs_errno(fs::Error::IllegalSeek).number()
            == 29 && fs_errno(fs::Error::NotTty).number() == 25,
        fs_errno(fs::Error::NoSpace).number() == 28 && fs_errno(fs::Error::FileTooLarge).number()
            == 27 && fs_errno(fs::Error::Busy).number() == 16,
        fs_errno(fs::Error::BadFileDescriptor).number() == 9 && fs_errno(
            fs::Error::OutOfMemory,
        ).number() == 12 && fs_errno(fs::Error::Io).number() == 5,
        fs_errno(fs::Error::Unsupported).number() == 95,
        memory_errno(mem::Error::OutOfMemory).number() == 12 && memory_errno(
            mem::Error::LimitExceeded,
        ).number() == 12,
        memory_errno(mem::Error::InvalidAddress).number() == 14 && memory_errno(
            mem::Error::NotMapped,
        ).number() == 14 && memory_errno(mem::Error::Protection).number() == 14,
        memory_errno(mem::Error::Pmap).number() == 5,
        process_errno(proc::Error::NoSuchProcess).number() == 3 && process_errno(
            proc::Error::NoChild,
        ).number() == 10 && process_errno(proc::Error::PermissionDenied).number() == 1,
        process_errno(proc::Error::TooManyFiles).number() == 24 && process_errno(
            proc::Error::BadFileDescriptor,
        ).number() == 9 && process_errno(proc::Error::InvalidArgument).number() == 22,
{
}

/// A text of a program ends at its first zero byte: all bytes before it are
/// taken, in order, and all of them can be read.
pub proof fn law_user_text_ends_at_zero(memory: MemoryModel, address: u64, at: int, max: int, i: int)
    requires
        0 <= at,
        user_bytes(memory, address, at, max).is_ok(),
        0 <= i <= user_bytes(memory, address, at, max)->Ok_0.len(),
    ensures
        ({
            let bytes = user_bytes(memory, address, at, max)->Ok_0;
            let place = address + at + i;
            &&& memory.covers(place, 1)
            &&& i < bytes.len() ==> memory.at(place, 1)[0] == bytes[i] && bytes[i] != 0
            &&& i == bytes.len() ==> memory.at(place, 1)[0] == 0
            &&& at + bytes.len() < max
        }),
    decreases max - at,
{
    let byte = memory.at(address + at, 1)[0];
    if byte != 0 {
        let bytes = user_bytes(memory, address, at, max)->Ok_0;
        let rest = user_bytes(memory, address, at + 1, max)->Ok_0;
        assert(bytes =~= seq![byte] + rest);
        if i > 0 {
            law_user_text_ends_at_zero(memory, address, at + 1, max, i - 1);
            assert(bytes[i - 1] == (seq![byte] + rest)[i - 1]);
            if i < bytes.len() {
                assert(bytes[i] == rest[i - 1]);
            }
        } else {
            law_user_text_ends_at_zero(memory, address, at + 1, max, 0);
        }
    }
}

/// A time of a program is not negative and has fewer nanoseconds than a second.
pub proof fn law_user_time_is_checked(bytes: Seq<u8>)
    ensures
        timespec_of(bytes).is_ok() <==> u64_at(bytes, 0) < 0x8000_0000_0000_0000 && u64_at(bytes, 8)
            < 1_000_000_000,
        timespec_of(bytes) matches Ok(time) ==> time.seconds == u64_at(bytes, 0)
            && time.nanoseconds == u64_at(bytes, 8) && time.total() == 1_000_000_000 * u64_at(
            bytes,
            0,
        ) + u64_at(bytes, 8),
        timespec_of(bytes) matches Err(error) ==> error == Errno::Invalid,
{
}

} // verus!
