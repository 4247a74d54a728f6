//! Memory results, limits and snapshots that other components handle.

use vstd::prelude::*;
use crate::bytes::copy_range;
use crate::sys::thread::PAGE_SIZE;

verus! {

/// Memory operation failure.
#[derive(Copy, Clone, Debug, PartialEq, Eq, Structural)]
pub enum Error {
    /// Memory ran out.
    OutOfMemory,
    /// A limit of the process is exceeded.
    LimitExceeded,
    /// The address is out of range.
    InvalidAddress,
    /// Nothing is mapped at the address.
    NotMapped,
    /// The mapping does not allow the access.
    Protection,
    /// Something is mapped at the address already.
    AlreadyMapped,
    /// No swap space is there.
    SwapUnavailable,
    /// The swap space is damaged.
    CorruptSwap,
    /// The page tables cannot be changed.
    Pmap,
}

/// Addresses that userspace may use: at least `min` and below `max`.
#[derive(Copy, Clone, Debug, PartialEq, Eq, Structural)]
pub struct UserRange {
    /// First address.
    pub min: u64,
    /// First address behind the range.
    pub max: u64,
}

impl UserRange {
    /// The range leaves room for a guard page at its end.
    pub open spec fn wf(self) -> bool {
        self.max >= PAGE_SIZE
    }

    /// Whether userspace may use `address`.
    pub open spec fn has(self, address: u64) -> bool {
        self.min <= address < self.max
    }

    /// Returns whether userspace may use `address`.
    pub fn contains(&self, address: u64) -> (inside: bool)
        ensures
            inside == self.has(address),
    {
        self.min <= address && address < self.max
    }
}

/// What a mapping allows.
#[derive(Copy, Clone, Debug, PartialEq, Eq, Structural)]
pub struct VmProtection {
    /// Reading.
    pub read: bool,
    /// Writing.
    pub write: bool,
    /// Executing.
    pub execute: bool,
}

/// Readable memory from `start` on.
pub struct UserMemory {
    /// Address of the first byte.
    pub start: u64,
    /// The bytes there.
    pub bytes: Vec<u8>,
}

/// Readable memory as specifications see it.
#[verifier::ext_equal]
pub struct MemoryModel {
    /// Address of the first byte.
    pub start: u64,
    /// The bytes there.
    pub bytes: Seq<u8>,
}

impl MemoryModel {
    /// Whether all of `length` bytes at `address` are there.
    pub open spec fn covers(self, address: int, length: int) -> bool {
        self.start <= address && address + length <= self.start + self.bytes.len()
    }

    /// The `length` bytes at `address`.
    pub open spec fn at(self, address: int, length: int) -> Seq<u8> {
        self.bytes.subrange(address - self.start, address - self.start + length)
    }

    /// The memory after `data` was written at `address`.
    pub open spec fn written(self, address: int, data: Seq<u8>) -> MemoryModel {
        let at = address - self.start;
        MemoryModel {
            bytes: self.bytes.take(at) + data + self.bytes.skip(at + data.len()),
            ..self
        }
    }
}

impl View for UserMemory {
    type V = MemoryModel;

    open spec fn view(&self) -> MemoryModel {
        MemoryModel { start: self.start, bytes: self.bytes@ }
    }
}

impl UserMemory {
    fn offset_of(&self, address: u64, length: usize) -> (offset: Option<usize>)
        ensures
            offset.is_some() == self@.covers(address as int, length as int),
            offset matches Some(o) ==> o == address - self.start && o + length
                <= self.bytes@.len() && o + length <= usize::MAX,
    {
        if address < self.start || address - self.start > self.bytes.len() as u64 {
            return None;
        }
        let offset: usize = (address - self.start) as usize;
        if length > self.bytes.len() - offset {
            return None;
        }
        Some(offset)
    }

    /// Reads `length` bytes at `address`.
    pub fn read_user(&self, address: u64, length: usize) -> (bytes: Result<Vec<u8>, Error>)
        ensures
            bytes.is_ok() == self@.covers(address as int, length as int),
            bytes matches Ok(b) ==> b@ == self@.at(address as int, length as int),
            bytes matches Err(e) ==> e == Error::NotMapped,
    {
        match self.offset_of(address, length) {
            Some(offset) => Ok(copy_range(&self.bytes, offset, offset + length)),
            None => Err(Error::NotMapped),
        }
    }

    /// Writes `data` at `address`.
    pub fn write_user(&mut self, address: u64, data: &[u8]) -> (result: Result<(), Error>)
        ensures
            result.is_ok() == old(self)@.covers(address as int, data@.len() as int),
            result matches Err(e) ==> e == Error::NotMapped,
            final(self)@ == if result.is_ok() {
                old(self)@.written(address as int, data@)
            } else {
                old(self)@
            },
    {
        let offset: usize = match self.offset_of(address, data.len()) {
            Some(offset) => offset,
            None => {
                return Err(Error::NotMapped);
            },
        };
        let mut at: usize = 0;
        while at < data.len()
            invariant
                at <= data@.len(),
                offset + data@.len() <= old(self).bytes@.len(),
                offset + data@.len() <= usize::MAX,
                self.start == old(self).start,
                self.bytes@.len() == old(self).bytes@.len(),
                forall|i: int|
                    0 <= i < self.bytes@.len() ==> #[trigger] self.bytes@[i] == if offset <= i
                        < offset + at {
                        data@[i - offset]
                    } else {
                        old(self).bytes@[i]
                    },
            decreases data@.len() - at,
        {
            self.bytes.set(offset + at, data[at]);
            at = at + 1;
        }
        assert(self@ =~= old(self)@.written(address as int, data@));
        Ok(())
    }
}

/// Rounds an address down to its page.
pub fn align_down(address: u64) -> (aligned: u64)
    ensures
        aligned == address - address % PAGE_SIZE,
        aligned % PAGE_SIZE == 0,
{
    address - address % PAGE_SIZE
}

/// What was written is read back, and memory elsewhere stays as it was.
pub proof fn law_written_bytes_are_read(
    memory: MemoryModel,
    address: int,
    data: Seq<u8>,
    other: int,
    length: int,
)
    requires
        memory.covers(address, data.len() as int),
        memory.covers(other, length),
        0 <= length,
        other + length <= address || address + data.len() <= other,
    ensures
        memory.written(address, data).at(address, data.len() as int) == data,
        memory.written(address, data).at(other, length) == memory.at(other, length),
        memory.written(address, data).bytes.len() == memory.bytes.len(),
{
    let written = memory.written(address, data);
    assert(written.at(address, data.len() as int) =~= data);
    assert(written.at(other, length) =~= memory.at(other, length));
}

} // verus!
