//! Text encoding checks and decimal numbers.

use vstd::prelude::*;
use vstd::utf8::{decode_utf8, valid_utf8};
use crate::bytes::{copy_range, put_bytes};

verus! {

/// Where UTF-8 decoding of some bytes first fails, as `core::str::from_utf8`
/// tells it: the length of the valid text before the fault, and the length of
/// the fault, which is unknown where the bytes end too early.
pub uninterp spec fn utf8_fault(bytes: Seq<u8>) -> Option<(usize, Option<usize>)>;

/// Finds the first fault in `bytes` as UTF-8 text.
///
/// Calls `core::str::from_utf8`, which returns `Ok` exactly on valid UTF-8. Its
/// error tells by `valid_up_to` how long the longest valid text before the fault
/// is, and by `error_len` how many bytes, from one to three, the fault takes,
/// except where the bytes end too early. Which length a fault has is not stated
/// further than by `utf8_fault`.
#[verifier::external_body]
pub(crate) fn first_fault(bytes: &[u8]) -> (fault: Option<(usize, Option<usize>)>)
    ensures
        fault == utf8_fault(bytes@),
        fault.is_none() == valid_utf8(bytes@),
        fault matches Some((valid, _)) ==> valid < bytes@.len() && valid_utf8(
            bytes@.take(valid as int),
        ),
        fault matches Some((valid, _)) ==> forall|n: int|
            valid < n <= bytes@.len() ==> !valid_utf8(#[trigger] bytes@.take(n)),
        fault matches Some((valid, Some(length))) ==> 1 <= length <= 3 && valid + length
            <= bytes@.len(),
{
    match core::str::from_utf8(bytes) {
        Ok(_) => None,
        Err(error) => Some((error.valid_up_to(), error.error_len())),
    }
}

/// Tells whether `bytes` are UTF-8 text.
pub fn is_utf8(bytes: &[u8]) -> (valid: bool)
    ensures
        valid == valid_utf8(bytes@),
{
    first_fault(bytes).is_none()
}

/// Turns UTF-8 bytes into text.
///
/// Calls `String::from_utf8`, which returns the decoded characters exactly on
/// valid UTF-8.
#[verifier::external_body]
pub(crate) fn utf8_string(bytes: Vec<u8>) -> (text: Option<String>)
    ensures
        text.is_some() == valid_utf8(bytes@),
        text matches Some(t) ==> t@ == decode_utf8(bytes@),
{
    String::from_utf8(bytes).ok()
}

/// The replacement character.
pub open spec fn replacement() -> Seq<u8> {
    seq![0xefu8, 0xbf, 0xbd]
}

/// How far a fault reaches.
pub open spec fn fault_end(fault: (usize, Option<usize>)) -> int {
    fault.0 + match fault.1 {
        Some(length) => length as int,
        None => 1,
    }
}

/// The text up to and over a fault, which a replacement character stands for.
pub open spec fn mended(bytes: Seq<u8>, fault: Option<(usize, Option<usize>)>) -> Seq<u8> {
    match fault {
        None => bytes,
        Some(found) => bytes.take(found.0 as int) + replacement(),
    }
}

/// `bytes` as text, with a replacement character for each fault.
pub open spec fn shown(bytes: Seq<u8>) -> Seq<u8>
    decreases bytes.len(),
{
    match utf8_fault(bytes) {
        None => bytes,
        Some(found) => if 0 < fault_end(found) <= bytes.len() {
            mended(bytes, Some(found)) + shown(bytes.skip(fault_end(found)))
        } else {
            mended(bytes, Some(found))
        },
    }
}

/// Appends the text up to and over a fault, and tells where to go on.
pub fn mend_fault(text: &mut Vec<u8>, bytes: &[u8], fault: Option<(usize, Option<usize>)>) -> (next:
    usize)
    requires
        fault matches Some(found) ==> fault_end(found) <= bytes@.len(),
    ensures
        final(text)@ == old(text)@ + mended(bytes@, fault),
        next == match fault {
            None => bytes@.len() as int,
            Some(found) => fault_end(found),
        },
{
    match fault {
        None => {
            put_bytes(text, bytes);
            bytes.len()
        },
        Some((valid, length)) => {
            let ghost start = text@;
            assert(bytes@.len() == bytes.len());
            let good = copy_range(bytes, 0, valid);
            assert(good@ =~= bytes@.take(valid as int));
            put_bytes(text, &good);
            text.push(0xef);
            text.push(0xbf);
            text.push(0xbd);
            assert(text@ =~= start + mended(bytes@, fault));
            valid + match length {
                Some(length) => length,
                None => 1,
            }
        },
    }
}

/// Appends bytes as text, with a replacement character for each fault.
pub fn put_text(text: &mut Vec<u8>, bytes: &[u8])
    ensures
        final(text)@ == old(text)@ + shown(bytes@),
{
    let ghost start = text@;
    let mut rest: Vec<u8> = copy_range(bytes, 0, bytes.len());
    assert(rest@ =~= bytes@);
    loop
        invariant
            start + shown(bytes@) == text@ + shown(rest@),
            start == old(text)@,
        decreases rest@.len(),
    {
        let fault = first_fault(&rest);
        let ghost before = text@;
        let ghost now = rest@;
        let next: usize = mend_fault(text, &rest, fault);
        match fault {
            None => {
                assert(text@ == before + shown(now));
                return;
            },
            Some(_) => {
                rest = copy_range(&rest, next, rest.len());
                assert(rest@ =~= now.skip(next as int));
                assert(before + shown(now) =~= text@ + shown(rest@));
            },
        }
    }
}

/// A decimal digit.
pub open spec fn digit(value: int) -> u8 {
    (0x30 + value) as u8
}

/// The decimal digits of a number.
pub open spec fn decimal(value: int) -> Seq<u8>
    decreases value,
{
    if value < 10 {
        seq![digit(value)]
    } else {
        decimal(value / 10).push(digit(value % 10))
    }
}

/// A number of the given width, filled up at the front.
pub open spec fn padded(value: int, width: int, fill: u8) -> Seq<u8> {
    let digits = decimal(value);
    Seq::new(
        if digits.len() < width {
            (width - digits.len()) as nat
        } else {
            0
        },
        |i: int| fill,
    ) + digits
}

/// Appends a number in decimal digits.
pub fn put_decimal(text: &mut Vec<u8>, value: u64)
    ensures
        final(text)@ == old(text)@ + decimal(value as int),
    decreases value,
{
    if value >= 10 {
        put_decimal(text, value / 10);
    }
    text.push(0x30 + (value % 10) as u8);
    assert(text@ =~= old(text)@ + decimal(value as int));
}

/// Appends a number of the given width, filled up at the front.
pub fn put_padded(text: &mut Vec<u8>, value: u64, width: usize, fill: u8)
    ensures
        final(text)@ == old(text)@ + padded(value as int, width as int, fill),
{
    let mut digits: Vec<u8> = Vec::new();
    put_decimal(&mut digits, value);
    assert(digits@ =~= decimal(value as int));
    let ghost start = text@;
    let mut count: usize = digits.len();
    let ghost least = count as int;
    while count < width
        invariant
            least == digits@.len() <= count,
            count <= width || count == least,
            text@ == start + Seq::new((count - least) as nat, |i: int| fill),
        decreases width - count,
    {
        text.push(fill);
        count = count + 1;
        assert(text@ =~= start + Seq::new((count - least) as nat, |i: int| fill));
    }
    put_bytes(text, &digits);
    assert(text@ =~= start + padded(value as int, width as int, fill));
}

/// The value that decimal digits stand for.
pub open spec fn digits_value(digits: Seq<u8>) -> int
    decreases digits.len(),
{
    if digits.len() == 0 {
        0
    } else {
        10 * digits_value(digits.drop_last()) + (digits.last() - 0x30)
    }
}

/// A number is written in digits that stand for it, without leading zeros.
pub proof fn law_decimal_reads_back(value: int)
    requires
        value >= 0,
    ensures
        digits_value(decimal(value)) == value,
        decimal(value).len() > 0,
        forall|i: int| 0 <= i < decimal(value).len() ==> 0x30 <= #[trigger] decimal(value)[i] <= 0x39,
        value >= 10 ==> decimal(value)[0] != 0x30,
        value == 0 ==> decimal(value) == seq![0x30u8],
    decreases value,
{
    if value < 10 {
        reveal_with_fuel(digits_value, 2);
        assert(decimal(value).drop_last() =~= Seq::empty());
    } else {
        law_decimal_reads_back(value / 10);
        let front = decimal(value / 10);
        assert(decimal(value).drop_last() =~= front);
        assert(decimal(value)[0] == front[0]);
        if value / 10 < 10 {
            assert(front[0] == 0x30 + value / 10);
        }
    }
}

/// Padding fills a number up to its width in front and never cuts it.
pub proof fn law_padding_fills_in_front(value: int, width: int, fill: u8)
    requires
        value >= 0,
    ensures
        ({
            let text = padded(value, width, fill);
            let digits = decimal(value);
            let room = text.len() - digits.len();
            &&& room >= 0
            &&& digits.len() >= width ==> room == 0
            &&& digits.len() < width ==> text.len() == width
            &&& text.skip(room) == digits
            &&& forall|i: int| 0 <= i < room ==> #[trigger] text[i] == fill
        }),
{
    let text = padded(value, width, fill);
    let digits = decimal(value);
    assert(text.skip(text.len() - digits.len()) =~= digits);
}

/// What is valid is shown as it is; each fault is shown as one replacement
/// character, and what is behind it is shown.
pub proof fn law_faults_are_replaced(bytes: Seq<u8>)
    ensures
        utf8_fault(bytes).is_none() ==> shown(bytes) == bytes,
        utf8_fault(bytes) matches Some(found) ==> (0 < fault_end(found) <= bytes.len()
            ==> shown(bytes) == bytes.take(found.0 as int) + seq![0xefu8, 0xbf, 0xbd] + shown(
            bytes.skip(fault_end(found)),
        )),
{
}

} // verus!
