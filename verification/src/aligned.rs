//! Bytes at a word boundary, as readers of binary formats need them.

use vstd::prelude::*;
use vstd::slice::slice_subrange;
use crate::bytes::{put_bytes, put_zeros};

verus! {

/// A copy of some bytes that starts at an address divisible by eight.
///
/// Only this module makes one, and never changes it, so the copy stays where
/// it was placed.
pub struct AlignedBytes {
    room: Vec<u8>,
    start: usize,
    len: usize,
}

impl View for AlignedBytes {
    type V = Seq<u8>;

    closed spec fn view(&self) -> Seq<u8> {
        self.room@.subrange(self.start as int, self.start + self.len)
    }
}

impl AlignedBytes {
    #[verifier::type_invariant]
    spec fn lies_inside(self) -> bool {
        self.start + self.len <= self.room@.len()
    }

    /// Copies bytes to a word boundary.
    pub fn new(bytes: &[u8]) -> (copy: Self)
        ensures
            copy@ == bytes@,
    {
        let len: usize = bytes.len();
        let mut room: Vec<u8> = Vec::new();
        put_zeros(&mut room, 8);
        put_bytes(&mut room, bytes);
        let size: usize = room.len();
        let start: usize = aligning_offset(&room);
        let mut at: usize = 0;
        while at < len
            invariant
                len == bytes@.len(),
                size == room@.len() == len + 8,
                start < 8,
                at <= len,
                room@.subrange(start as int, start + at) == bytes@.take(at as int),
            decreases len - at,
        {
            let ghost before = room@;
            room.set(start + at, bytes[at]);
            assert(room@.subrange(start as int, start + at + 1) =~= before.subrange(
                start as int,
                start + at,
            ).push(bytes@[at as int]));
            assert(bytes@.take(at + 1) =~= bytes@.take(at as int).push(bytes@[at as int]));
            at = at + 1;
        }
        assert(bytes@.take(len as int) =~= bytes@);
        AlignedBytes { room, start, len }
    }

    /// The bytes.
    pub fn as_slice(&self) -> (bytes: &[u8])
        ensures
            bytes@ == self@,
    {
        proof {
            use_type_invariant(self);
            assert(self.room.len() == self.room@.len());
        }
        slice_subrange(self.room.as_slice(), self.start, self.start + self.len)
    }
}

/// Tells how many bytes into a vector the first address is that is divisible
/// by eight.
///
/// Calls `align_offset` of a pointer to bytes, which gives the offset that
/// makes the pointer aligned. Bytes can always be aligned to eight, and within
/// the next seven. A vector keeps its bytes where they are as long as it does
/// not grow. Which offset it is depends on the address and is not stated.
#[verifier::external_body]
fn aligning_offset(room: &Vec<u8>) -> (offset: usize)
    ensures
        offset < 8,
{
    room.as_ptr().align_offset(8)
}

} // verus!
