//! Little-endian numbers in byte strings.

use vstd::prelude::*;

verus! {

/// The number in the two bytes at `at`.
pub open spec fn u16_at(bytes: Seq<u8>, at: int) -> u16 {
    (bytes[at] + 0x100 * bytes[at + 1]) as u16
}

/// The number in the four bytes at `at`.
pub open spec fn u32_at(bytes: Seq<u8>, at: int) -> u32 {
    (bytes[at] + 0x100 * bytes[at + 1] + 0x1_0000 * bytes[at + 2] + 0x100_0000 * bytes[at
        + 3]) as u32
}

/// The number in the eight bytes at `at`.
pub open spec fn u64_at(bytes: Seq<u8>, at: int) -> u64 {
    (u32_at(bytes, at) + 0x1_0000_0000 * u32_at(bytes, at + 4)) as u64
}

/// The bytes of a two-byte number.
pub open spec fn u16_bytes(value: u16) -> Seq<u8> {
    seq![(value % 0x100) as u8, (value / 0x100) as u8]
}

/// The bytes of a four-byte number.
pub open spec fn u32_bytes(value: u32) -> Seq<u8> {
    seq![
        (value % 0x100) as u8,
        ((value / 0x100) % 0x100) as u8,
        ((value / 0x1_0000) % 0x100) as u8,
        (value / 0x100_0000) as u8,
    ]
}

/// The bytes of an eight-byte number.
pub open spec fn u64_bytes(value: u64) -> Seq<u8> {
    u32_bytes((value % 0x1_0000_0000) as u32) + u32_bytes((value / 0x1_0000_0000) as u32)
}

/// The bytes of a sequence of eight-byte numbers.
pub open spec fn words_bytes(words: Seq<u64>) -> Seq<u8>
    decreases words.len(),
{
    if words.len() == 0 {
        Seq::empty()
    } else {
        words_bytes(words.drop_last()) + u64_bytes(words.last())
    }
}

/// A number reads back from its bytes.
pub proof fn lemma_u32_round_trip(value: u32)
    ensures
        u32_bytes(value).len() == 4,
        u32_at(u32_bytes(value), 0) == value,
{
}

/// An eight-byte number reads back from its bytes.
pub proof fn law_u64_round_trip(value: u64)
    ensures
        u64_bytes(value).len() == 8,
        u64_at(u64_bytes(value), 0) == value,
{
    let low = (value % 0x1_0000_0000) as u32;
    let high = (value / 0x1_0000_0000) as u32;
    lemma_u32_round_trip(low);
    lemma_u32_round_trip(high);
    let bytes = u64_bytes(value);
    assert(u32_at(bytes, 0) == u32_at(u32_bytes(low), 0));
    assert(u32_at(bytes, 4) == u32_at(u32_bytes(high), 0));
}

/// A number reads back wherever its bytes stand.
pub proof fn lemma_u64_at(bytes: Seq<u8>, at: int, value: u64)
    requires
        0 <= at,
        at + 8 <= bytes.len(),
        bytes.subrange(at, at + 8) == u64_bytes(value),
    ensures
        u64_at(bytes, at) == value,
{
    law_u64_round_trip(value);
    let own = u64_bytes(value);
    assert forall|i: int| 0 <= i < 8 implies bytes[at + i] == #[trigger] own[i] by {
        assert(bytes.subrange(at, at + 8)[i] == bytes[at + i]);
    }
    assert(bytes[at] == own[0] && bytes[at + 1] == own[1] && bytes[at + 2] == own[2] && bytes[at
        + 3] == own[3]);
    assert(bytes[at + 4] == own[4] && bytes[at + 4 + 1] == own[5] && bytes[at + 4 + 2] == own[6]
        && bytes[at + 4 + 3] == own[7]);
    assert(u32_at(bytes, at) == u32_at(own, 0));
    assert(u32_at(bytes, at + 4) == u32_at(own, 4));
}

/// Each word stands at its place in the bytes of all words.
pub proof fn lemma_words(words: Seq<u64>, i: int)
    requires
        0 <= i < words.len(),
    ensures
        words_bytes(words).len() == 8 * words.len(),
        words_bytes(words).subrange(8 * i, 8 * i + 8) == u64_bytes(words[i]),
    decreases words.len(),
{
    lemma_words_len(words);
    lemma_words_len(words.drop_last());
    if i < words.len() - 1 {
        lemma_words(words.drop_last(), i);
        assert(words_bytes(words).subrange(8 * i, 8 * i + 8) =~= words_bytes(
            words.drop_last(),
        ).subrange(8 * i, 8 * i + 8));
        assert(words.drop_last()[i] == words[i]);
    } else {
        assert(words_bytes(words).subrange(8 * i, 8 * i + 8) =~= u64_bytes(words[i]));
    }
}

/// Every word takes eight bytes.
pub proof fn lemma_words_len(words: Seq<u64>)
    ensures
        words_bytes(words).len() == 8 * words.len(),
    decreases words.len(),
{
    if words.len() > 0 {
        lemma_words_len(words.drop_last());
    }
}

/// Reads the two-byte number at `at`.
pub fn get_u16(bytes: &[u8], at: usize) -> (value: u16)
    requires
        at + 2 <= bytes@.len(),
    ensures
        value == u16_at(bytes@, at as int),
{
    bytes[at] as u16 + 0x100 * (bytes[at + 1] as u16)
}

/// Reads the four-byte number at `at`.
pub fn get_u32(bytes: &[u8], at: usize) -> (value: u32)
    requires
        at + 4 <= bytes@.len(),
    ensures
        value == u32_at(bytes@, at as int),
{
    bytes[at] as u32 + 0x100 * (bytes[at + 1] as u32) + 0x1_0000 * (bytes[at + 2] as u32)
        + 0x100_0000 * (bytes[at + 3] as u32)
}

/// Reads the eight-byte number at `at`.
pub fn get_u64(bytes: &[u8], at: usize) -> (value: u64)
    requires
        at + 8 <= bytes@.len(),
    ensures
        value == u64_at(bytes@, at as int),
{
    assert(at + 8 <= bytes.len());
    get_u32(bytes, at) as u64 + 0x1_0000_0000 * (get_u32(bytes, at + 4) as u64)
}

/// Appends the bytes of a two-byte number.
pub fn put_u16(bytes: &mut Vec<u8>, value: u16)
    ensures
        final(bytes)@ == old(bytes)@ + u16_bytes(value),
{
    bytes.push((value % 0x100) as u8);
    bytes.push((value / 0x100) as u8);
}

/// Appends the bytes of a four-byte number.
pub fn put_u32(bytes: &mut Vec<u8>, value: u32)
    ensures
        final(bytes)@ == old(bytes)@ + u32_bytes(value),
{
    bytes.push((value % 0x100) as u8);
    bytes.push(((value / 0x100) % 0x100) as u8);
    bytes.push(((value / 0x1_0000) % 0x100) as u8);
    bytes.push((value / 0x100_0000) as u8);
}

/// Appends the bytes of an eight-byte number.
pub fn put_u64(bytes: &mut Vec<u8>, value: u64)
    ensures
        final(bytes)@ == old(bytes)@ + u64_bytes(value),
{
    put_u32(bytes, (value % 0x1_0000_0000) as u32);
    put_u32(bytes, (value / 0x1_0000_0000) as u32);
}

/// Appends a byte string.
pub fn put_bytes(bytes: &mut Vec<u8>, more: &[u8])
    ensures
        final(bytes)@ == old(bytes)@ + more@,
{
    let mut at: usize = 0;
    while at < more.len()
        invariant
            at <= more@.len(),
            bytes@ == old(bytes)@ + more@.take(at as int),
        decreases more@.len() - at,
    {
        bytes.push(more[at]);
        at = at + 1;
        assert(more@.take(at as int) =~= more@.take(at - 1).push(more@[at - 1]));
    }
    assert(more@.take(at as int) =~= more@);
}

/// Appends `count` zero bytes.
pub fn put_zeros(bytes: &mut Vec<u8>, count: usize)
    ensures
        final(bytes)@ == old(bytes)@ + zeros(count as nat),
{
    let mut at: usize = 0;
    while at < count
        invariant
            at <= count,
            bytes@ == old(bytes)@ + zeros(at as nat),
        decreases count - at,
    {
        bytes.push(0);
        at = at + 1;
        assert(zeros(at as nat) =~= zeros((at - 1) as nat).push(0));
    }
}

/// Zero bytes.
pub open spec fn zeros(count: nat) -> Seq<u8> {
    Seq::new(count, |i: int| 0u8)
}

/// Copies part of a byte string.
pub fn copy_range(bytes: &[u8], start: usize, end: usize) -> (part: Vec<u8>)
    requires
        start <= end <= bytes@.len(),
    ensures
        part@ == bytes@.subrange(start as int, end as int),
{
    let mut part: Vec<u8> = Vec::new();
    let mut at: usize = start;
    while at < end
        invariant
            start <= at <= end <= bytes@.len(),
            part@ == bytes@.subrange(start as int, at as int),
        decreases end - at,
    {
        part.push(bytes[at]);
        at = at + 1;
        assert(bytes@.subrange(start as int, at as int) =~= bytes@.subrange(
            start as int,
            at - 1,
        ).push(bytes@[at - 1]));
    }
    part
}

/// Copies a byte string.
pub fn copy_all(bytes: &[u8]) -> (copy: Vec<u8>)
    ensures
        copy@ == bytes@,
{
    let copy = copy_range(bytes, 0, bytes.len());
    assert(bytes@.subrange(0, bytes@.len() as int) =~= bytes@);
    copy
}

/// Compares two byte strings.
pub fn same_bytes(a: &[u8], b: &[u8]) -> (same: bool)
    ensures
        same == (a@ == b@),
{
    if a.len() != b.len() {
        return false;
    }
    let mut at: usize = 0;
    while at < a.len()
        invariant
            at <= a@.len() == b@.len(),
            a@.take(at as int) == b@.take(at as int),
        decreases a@.len() - at,
    {
        if a[at] != b[at] {
            assert(a@[at as int] != b@[at as int]);
            return false;
        }
        at = at + 1;
        assert(a@.take(at as int) =~= a@.take(at - 1).push(a@[at - 1]));
        assert(b@.take(at as int) =~= b@.take(at - 1).push(b@[at - 1]));
    }
    assert(a@.take(at as int) =~= a@);
    assert(b@.take(at as int) =~= b@);
    true
}

} // verus!
