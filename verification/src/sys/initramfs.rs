//! Initial RAM filesystem: reading and importing the userspace archive.

use vstd::prelude::*;
use vstd::utf8::valid_utf8;
use crate::bytes::{copy_all, copy_range, put_bytes, same_bytes};
use crate::fs;
use crate::lists::{first_where, lemma_first_where};
use crate::proc::path::{
    chained, combined, is_neutral, is_parent, parts, resolved, walk, walked, DOT, SLASH,
};
use crate::text::is_utf8;

verus! {

/// Size of a header and unit of payloads.
pub const TAR_BLOCK_SIZE: usize = 512;

/// Failure while reading or importing the archive.
#[derive(Copy, Clone, Debug, PartialEq, Eq, Structural)]
pub enum Error {
    /// The archive ended before a complete header or payload was available.
    Truncated,
    /// The archive did not contain a valid USTAR header.
    InvalidHeader,
    /// A header checksum did not match its contents.
    InvalidChecksum,
    /// A numeric header field was malformed or too large.
    InvalidNumber,
    /// An archive path was malformed, non-UTF-8, or escaped the archive root.
    InvalidPath,
    /// The archive contained the same path more than once.
    DuplicatePath,
    /// The archive ended without the required two zero blocks.
    MissingEndMarker,
    /// Non-zero bytes followed the archive end marker.
    TrailingData,
    /// The archive contains an entry type the importer does not materialize.
    UnsupportedEntry(u8),
    /// A hard-link target was not present in the imported archive.
    UnresolvedHardLink,
    /// The file system rejected an import operation.
    Filesystem(fs::Error),
}

/// What an archive entry is.
pub enum EntryKind {
    /// Regular file with its payload.
    Regular(Vec<u8>),
    /// Directory.
    Directory,
    /// Symbolic link with its target.
    Symlink(Vec<u8>),
    /// Hard link with its target.
    HardLink(Vec<u8>),
}

/// One archive entry.
pub struct Entry {
    /// Path relative to the archive root.
    pub path: Vec<u8>,
    /// Permission bits.
    pub mode: u16,
    /// What it is.
    pub kind: EntryKind,
}

/// What an archive entry is, as specifications see it.
pub enum KindModel {
    /// Regular file with its payload.
    Regular(Seq<u8>),
    /// Directory.
    Directory,
    /// Symbolic link with its target.
    Symlink(Seq<u8>),
    /// Hard link with its target.
    HardLink(Seq<u8>),
}

/// An archive entry as specifications see it.
#[verifier::ext_equal]
pub struct EntryModel {
    /// Path relative to the archive root.
    pub path: Seq<u8>,
    /// Permission bits.
    pub mode: u16,
    /// What it is.
    pub kind: KindModel,
}

impl View for EntryKind {
    type V = KindModel;

    open spec fn view(&self) -> KindModel {
        match self {
            EntryKind::Regular(data) => KindModel::Regular(data@),
            EntryKind::Directory => KindModel::Directory,
            EntryKind::Symlink(target) => KindModel::Symlink(target@),
            EntryKind::HardLink(target) => KindModel::HardLink(target@),
        }
    }
}

impl View for Entry {
    type V = EntryModel;

    open spec fn view(&self) -> EntryModel {
        EntryModel { path: self.path@, mode: self.mode, kind: self.kind@ }
    }
}

/// Whether a byte pads a number.
pub open spec fn is_pad(b: u8) -> bool {
    b == 0x20 || b == 0
}

/// Whether a byte is an octal digit.
pub open spec fn is_octal(b: u8) -> bool {
    0x30 <= b <= 0x37
}

/// The value of octal digits.
pub open spec fn octal_value(digits: Seq<u8>) -> int
    decreases digits.len(),
{
    if digits.len() == 0 {
        0
    } else {
        8 * octal_value(digits.drop_last()) + (digits.last() - 0x30)
    }
}

/// Where the digits of a numeric field start.
pub open spec fn digits_start(field: Seq<u8>) -> int {
    first_where(field, |b: u8| !is_pad(b), 0)
}

/// Where the digits of a numeric field end.
pub open spec fn digits_end(field: Seq<u8>) -> int {
    first_where(field, |b: u8| !is_octal(b), digits_start(field))
}

/// The number in a field: padding, octal digits, padding.
pub open spec fn octal_of(field: Seq<u8>) -> Result<u64, Error> {
    let value = octal_value(field.subrange(digits_start(field), digits_end(field)));
    if field.len() > 0 && field[0] >= 0x80 {
        Err(Error::InvalidNumber)
    } else if exists|i: int| digits_end(field) <= i < field.len() && !is_pad(field[i]) {
        Err(Error::InvalidNumber)
    } else if value > u64::MAX {
        Err(Error::InvalidNumber)
    } else {
        Ok(value as u64)
    }
}

proof fn lemma_octal_grows(digits: Seq<u8>, n: int)
    requires
        0 <= n <= digits.len(),
        forall|i: int| 0 <= i < digits.len() ==> is_octal(#[trigger] digits[i]),
    ensures
        0 <= octal_value(digits.take(n)) <= octal_value(digits),
    decreases digits.len() - n,
{
    lemma_octal_pos(digits.take(n));
    if n < digits.len() {
        let longer = digits.take(n + 1);
        assert(longer.drop_last() =~= digits.take(n));
        lemma_octal_grows(digits, n + 1);
    } else {
        assert(digits.take(n) =~= digits);
    }
}

proof fn lemma_octal_pos(digits: Seq<u8>)
    requires
        forall|i: int| 0 <= i < digits.len() ==> is_octal(#[trigger] digits[i]),
    ensures
        0 <= octal_value(digits),
    decreases digits.len(),
{
    if digits.len() > 0 {
        assert forall|i: int| 0 <= i < digits.drop_last().len() implies is_octal(
            #[trigger] digits.drop_last()[i],
        ) by {
            assert(digits.drop_last()[i] == digits[i]);
        }
        lemma_octal_pos(digits.drop_last());
        assert(is_octal(digits[digits.len() - 1]));
    }
}

/// Reads a numeric field.
pub fn parse_octal(field: &[u8]) -> (value: Result<u64, Error>)
    ensures
        value == octal_of(field@),
{
    if field.len() > 0 && field[0] >= 0x80 {
        return Err(Error::InvalidNumber);
    }
    let ghost not_pad = |b: u8| !is_pad(b);
    let ghost not_octal = |b: u8| !is_octal(b);
    let mut start: usize = 0;
    while start < field.len() && (field[start] == 0x20 || field[start] == 0)
        invariant
            not_pad == (|b: u8| !is_pad(b)),
            start <= field@.len(),
            first_where(field@, not_pad, 0) == first_where(field@, not_pad, start as int),
        decreases field@.len() - start,
    {
        start = start + 1;
    }
    assert(start == digits_start(field@));
    proof {
        lemma_first_where(field@, not_octal, start as int);
    }
    let ghost end = digits_end(field@);
    let ghost digits = field@.subrange(start as int, end);
    let mut at: usize = start;
    let mut value: u64 = 0;
    assert(digits.take(0) =~= Seq::empty());
    while at < field.len() && 0x30 <= field[at] && field[at] <= 0x37
        invariant
            not_octal == (|b: u8| !is_octal(b)),
            start == digits_start(field@),
            end == digits_end(field@),
            digits == field@.subrange(start as int, end),
            start <= at <= end <= field@.len(),
            forall|i: int| start <= i < end ==> is_octal(#[trigger] field@[i]),
            end < field@.len() ==> !is_octal(field@[end]),
            value == octal_value(digits.take(at - start)),
            field@.len() > 0 ==> field@[0] < 0x80,
        decreases field@.len() - at,
    {
        assert(at < end);
        proof {
            let longer = digits.take(at - start + 1);
            assert(longer.drop_last() =~= digits.take(at - start));
            assert(longer.last() == field@[at as int]);
            lemma_octal_grows(digits, at - start + 1);
        }
        let digit: u64 = (field[at] - 0x30) as u64;
        let scaled: u64 = match value.checked_mul(8) {
            Some(scaled) => scaled,
            None => {
                return Err(Error::InvalidNumber);
            },
        };
        value =
        match scaled.checked_add(digit) {
            Some(sum) => sum,
            None => {
                return Err(Error::InvalidNumber);
            },
        };
        at = at + 1;
    }
    assert(at == end);
    assert(digits.take(at - start) =~= digits);
    while at < field.len()
        invariant
            end == digits_end(field@),
            end <= at <= field@.len(),
            value == octal_value(field@.subrange(digits_start(field@), end)),
            forall|i: int| end <= i < at ==> is_pad(#[trigger] field@[i]),
            field@.len() > 0 ==> field@[0] < 0x80,
        decreases field@.len() - at,
    {
        if field[at] != 0x20 && field[at] != 0 {
            assert(!is_pad(field@[at as int]));
            return Err(Error::InvalidNumber);
        }
        at = at + 1;
    }
    Ok(value)
}

/// The bytes of a text field: up to the first zero.
pub open spec fn field_bytes(field: Seq<u8>) -> Seq<u8> {
    field.take(first_where(field, |b: u8| b == 0, 0))
}

/// The text in a field.
pub open spec fn field_text(field: Seq<u8>) -> Result<Seq<u8>, Error> {
    if valid_utf8(field_bytes(field)) {
        Ok(field_bytes(field))
    } else {
        Err(Error::InvalidPath)
    }
}

/// Reads a text field.
pub fn header_field(field: &[u8]) -> (text: Result<Vec<u8>, Error>)
    ensures
        match text {
            Ok(t) => field_text(field@) == Ok::<Seq<u8>, Error>(t@),
            Err(e) => field_text(field@) == Err::<Seq<u8>, Error>(e),
        },
{
    let ghost nul = |b: u8| b == 0;
    let mut end: usize = 0;
    while end < field.len() && field[end] != 0
        invariant
            nul == (|b: u8| b == 0),
            end <= field@.len(),
            first_where(field@, nul, 0) == first_where(field@, nul, end as int),
        decreases field@.len() - end,
    {
        end = end + 1;
    }
    let text = copy_range(field, 0, end);
    assert(text@ =~= field_bytes(field@));
    if !is_utf8(&text) {
        return Err(Error::InvalidPath);
    }
    Ok(text)
}

/// Whether a path component is allowed in the archive.
pub open spec fn component_ok(component: Seq<u8>) -> bool {
    !is_neutral(component) && !is_parent(component)
}

/// Whether all components from place `at` on are allowed, where `current` is
/// the component read so far.
pub open spec fn components_ok(path: Seq<u8>, at: int, current: Seq<u8>) -> bool
    decreases path.len() - at,
{
    if at >= path.len() {
        component_ok(current)
    } else if path[at] == SLASH {
        component_ok(current) && components_ok(path, at + 1, Seq::empty())
    } else {
        components_ok(path, at + 1, current.push(path[at]))
    }
}

/// The path without slashes at its end.
pub open spec fn trimmed(path: Seq<u8>) -> Seq<u8>
    decreases path.len(),
{
    if path.len() > 0 && path.last() == SLASH {
        trimmed(path.drop_last())
    } else {
        path
    }
}

/// A path of the archive: relative, without empty, `.` or `..` components.
pub open spec fn normalized(path: Seq<u8>) -> Result<Seq<u8>, Error> {
    if path.len() == 0 || path[0] == SLASH || path.contains(0) {
        Err(Error::InvalidPath)
    } else if trimmed(path).len() == 0 || !components_ok(trimmed(path), 0, Seq::empty()) {
        Err(Error::InvalidPath)
    } else {
        Ok(trimmed(path))
    }
}

fn component_allowed(component: &Vec<u8>) -> (allowed: bool)
    ensures
        allowed == component_ok(component@),
{
    let empty = component.len() == 0;
    let dot = component.len() == 1 && component[0] == DOT;
    let dots = component.len() == 2 && component[0] == DOT && component[1] == DOT;
    assert(dot == (component@ == seq![DOT])) by {
        if dot {
            assert(component@ =~= seq![DOT]);
        }
    }
    assert(dots == (component@ == seq![DOT, DOT])) by {
        if dots {
            assert(component@ =~= seq![DOT, DOT]);
        }
    }
    !empty && !dot && !dots
}

fn contains_nul(path: &[u8]) -> (found: bool)
    ensures
        found == path@.contains(0),
{
    let mut at: usize = 0;
    while at < path.len()
        invariant
            at <= path@.len(),
            forall|i: int| 0 <= i < at ==> path@[i] != 0,
        decreases path@.len() - at,
    {
        if path[at] == 0 {
            assert(path@[at as int] == 0);
            return true;
        }
        at = at + 1;
    }
    false
}

/// Checks a path of the archive and drops slashes at its end.
pub fn normalize_path(path: &[u8]) -> (result: Result<Vec<u8>, Error>)
    ensures
        match result {
            Ok(p) => normalized(path@) == Ok::<Seq<u8>, Error>(p@),
            Err(e) => normalized(path@) == Err::<Seq<u8>, Error>(e),
        },
{
    if path.len() == 0 || path[0] == SLASH || contains_nul(path) {
        return Err(Error::InvalidPath);
    }
    let mut end: usize = path.len();
    assert(path@.take(end as int) =~= path@);
    while end > 0 && path[end - 1] == SLASH
        invariant
            end <= path@.len(),
            trimmed(path@) == trimmed(path@.take(end as int)),
        decreases end,
    {
        assert(path@.take(end as int).drop_last() =~= path@.take(end - 1));
        end = end - 1;
    }
    let short = copy_range(path, 0, end);
    assert(short@ =~= path@.take(end as int));
    assert(short@ == trimmed(path@));
    if short.len() == 0 {
        return Err(Error::InvalidPath);
    }
    let mut current: Vec<u8> = Vec::new();
    let mut at: usize = 0;
    while at < short.len()
        invariant
            short@ == trimmed(path@),
            at <= short@.len(),
            components_ok(short@, 0, Seq::empty()) == components_ok(
                short@,
                at as int,
                current@,
            ),
        decreases short@.len() - at,
    {
        if short[at] == SLASH {
            if !component_allowed(&current) {
                return Err(Error::InvalidPath);
            }
            current = Vec::new();
        } else {
            current.push(short[at]);
        }
        at = at + 1;
    }
    if !component_allowed(&current) {
        return Err(Error::InvalidPath);
    }
    Ok(short)
}

/// The path that a prefix and a name stand for.
pub open spec fn entry_path(prefix: Seq<u8>, name: Seq<u8>) -> Result<Seq<u8>, Error> {
    if name.len() == 0 {
        Err(Error::InvalidPath)
    } else if prefix.len() == 0 {
        normalized(name)
    } else {
        normalized(prefix + seq![SLASH] + name)
    }
}

fn parse_entry_path(prefix: &Vec<u8>, name: &Vec<u8>) -> (path: Result<Vec<u8>, Error>)
    ensures
        match path {
            Ok(p) => entry_path(prefix@, name@) == Ok::<Seq<u8>, Error>(p@),
            Err(e) => entry_path(prefix@, name@) == Err::<Seq<u8>, Error>(e),
        },
{
    if name.len() == 0 {
        return Err(Error::InvalidPath);
    }
    if prefix.len() == 0 {
        return normalize_path(name);
    }
    let mut whole: Vec<u8> = copy_all(prefix);
    whole.push(SLASH);
    put_bytes(&mut whole, name);
    assert(whole@ =~= prefix@ + seq![SLASH] + name@);
    normalize_path(&whole)
}

/// Whether all bytes are zero.
pub open spec fn all_zero(bytes: Seq<u8>) -> bool {
    forall|i: int| 0 <= i < bytes.len() ==> #[trigger] bytes[i] == 0
}

fn is_zero(bytes: &[u8], start: usize, end: usize) -> (zero: bool)
    requires
        start <= end <= bytes@.len(),
    ensures
        zero == all_zero(bytes@.subrange(start as int, end as int)),
{
    let ghost part = bytes@.subrange(start as int, end as int);
    let mut at: usize = start;
    while at < end
        invariant
            start <= at <= end <= bytes@.len(),
            part == bytes@.subrange(start as int, end as int),
            forall|i: int| 0 <= i < at - start ==> #[trigger] part[i] == 0,
        decreases end - at,
    {
        if bytes[at] != 0 {
            assert(part[at - start] != 0);
            return false;
        }
        at = at + 1;
    }
    true
}

/// The sum of the first `n` bytes of a header, with spaces for its checksum.
pub open spec fn checksum(header: Seq<u8>, n: int) -> int
    decreases n,
{
    if n <= 0 {
        0
    } else {
        checksum(header, n - 1) + if 148 <= n - 1 < 156 {
            0x20
        } else {
            header[n - 1] as int
        }
    }
}

fn header_sum(header: &[u8]) -> (sum: u64)
    requires
        header@.len() == TAR_BLOCK_SIZE,
    ensures
        sum == checksum(header@, 512),
{
    let mut sum: u64 = 0;
    let mut at: usize = 0;
    while at < 512
        invariant
            at <= 512,
            header@.len() == 512,
            sum == checksum(header@, at as int),
            sum <= 255 * at,
        decreases 512 - at,
    {
        if 148 <= at && at < 156 {
            sum = sum + 0x20;
        } else {
            sum = sum + header[at] as u64;
        }
        at = at + 1;
    }
    sum
}

/// Whether a header is marked as such.
pub open spec fn magic_ok(header: Seq<u8>) -> bool {
    let magic = header.subrange(257, 263);
    magic == seq![0x75u8, 0x73, 0x74, 0x61, 0x72, 0x00] || magic == seq![
        0x75u8,
        0x73,
        0x74,
        0x61,
        0x72,
        0x20,
    ]
}

fn has_magic(header: &[u8]) -> (ok: bool)
    requires
        header@.len() == TAR_BLOCK_SIZE,
    ensures
        ok == magic_ok(header@),
{
    let magic = copy_range(header, 257, 263);
    let plain: Vec<u8> = vec![0x75u8, 0x73, 0x74, 0x61, 0x72, 0x00];
    let gnu: Vec<u8> = vec![0x75u8, 0x73, 0x74, 0x61, 0x72, 0x20];
    assert(plain@ =~= seq![0x75u8, 0x73, 0x74, 0x61, 0x72, 0x00]);
    assert(gnu@ =~= seq![0x75u8, 0x73, 0x74, 0x61, 0x72, 0x20]);
    same_bytes(&magic, &plain) || same_bytes(&magic, &gnu)
}

/// The target of a symbolic link.
pub open spec fn symlink_target(target: Seq<u8>) -> Result<Seq<u8>, Error> {
    if target.len() == 0 || target.contains(0) {
        Err(Error::InvalidPath)
    } else {
        Ok(target)
    }
}

/// What an entry of type `tag` is.
pub open spec fn kind_of(tag: u8, link: Seq<u8>, data: Seq<u8>) -> Result<KindModel, Error> {
    if tag == 0 || tag == 0x30 {
        Ok(KindModel::Regular(data))
    } else if tag == 0x31 {
        match field_text(link) {
            Err(error) => Err(error),
            Ok(text) => match normalized(text) {
                Err(error) => Err(error),
                Ok(target) => Ok(KindModel::HardLink(target)),
            },
        }
    } else if tag == 0x32 {
        match field_text(link) {
            Err(error) => Err(error),
            Ok(text) => match symlink_target(text) {
                Err(error) => Err(error),
                Ok(target) => Ok(KindModel::Symlink(target)),
            },
        }
    } else if tag == 0x35 {
        Ok(KindModel::Directory)
    } else {
        Err(Error::UnsupportedEntry(tag))
    }
}

fn parse_kind(tag: u8, link: &[u8], bytes: &[u8], start: usize, end: usize) -> (kind: Result<
    EntryKind,
    Error,
>)
    requires
        start <= end <= bytes@.len(),
    ensures
        match kind {
            Ok(k) => kind_of(tag, link@, bytes@.subrange(start as int, end as int)) == Ok::<
                KindModel,
                Error,
            >(k@),
            Err(e) => kind_of(tag, link@, bytes@.subrange(start as int, end as int)) == Err::<
                KindModel,
                Error,
            >(e),
        },
{
    if tag == 0 || tag == 0x30 {
        return Ok(EntryKind::Regular(copy_range(bytes, start, end)));
    }
    if tag == 0x35 {
        return Ok(EntryKind::Directory);
    }
    if tag != 0x31 && tag != 0x32 {
        return Err(Error::UnsupportedEntry(tag));
    }
    let text = match header_field(link) {
        Ok(text) => text,
        Err(error) => {
            return Err(error);
        },
    };
    if tag == 0x31 {
        match normalize_path(&text) {
            Ok(target) => Ok(EntryKind::HardLink(target)),
            Err(error) => Err(error),
        }
    } else {
        if text.len() == 0 || contains_nul(&text) {
            return Err(Error::InvalidPath);
        }
        Ok(EntryKind::Symlink(text))
    }
}

/// Path and mode in a header that is not all zero.
pub open spec fn named(header: Seq<u8>) -> Result<(Seq<u8>, u16, u64), Error> {
    let sum = octal_of(header.subrange(148, 156));
    let prefix = field_text(header.subrange(345, 500));
    let name = field_text(header.subrange(0, 100));
    let mode = octal_of(header.subrange(100, 108));
    let size = octal_of(header.subrange(124, 136));
    if !magic_ok(header) {
        Err(Error::InvalidHeader)
    } else if sum.is_err() {
        Err(sum->Err_0)
    } else if sum->Ok_0 != checksum(header, 512) {
        Err(Error::InvalidChecksum)
    } else if prefix.is_err() {
        Err(prefix->Err_0)
    } else if name.is_err() {
        Err(name->Err_0)
    } else {
        match entry_path(prefix->Ok_0, name->Ok_0) {
            Err(error) => Err(error),
            Ok(path) => if mode.is_err() {
                Err(mode->Err_0)
            } else if size.is_err() {
                Err(size->Err_0)
            } else {
                Ok((path, (mode->Ok_0 % 0o10000) as u16, size->Ok_0))
            },
        }
    }
}

fn parse_name(header: &[u8]) -> (result: Result<(Vec<u8>, u16, u64), Error>)
    requires
        header@.len() == TAR_BLOCK_SIZE,
    ensures
        match result {
            Ok((path, mode, size)) => named(header@) == Ok::<(Seq<u8>, u16, u64), Error>(
                (path@, mode, size),
            ),
            Err(e) => named(header@) == Err::<(Seq<u8>, u16, u64), Error>(e),
        },
{
    if !has_magic(header) {
        return Err(Error::InvalidHeader);
    }
    match parse_octal(&copy_range(header, 148, 156)) {
        Ok(expected) => {
            if expected != header_sum(header) {
                return Err(Error::InvalidChecksum);
            }
        },
        Err(error) => {
            return Err(error);
        },
    }
    let prefix = match header_field(&copy_range(header, 345, 500)) {
        Ok(prefix) => prefix,
        Err(error) => {
            return Err(error);
        },
    };
    let name = match header_field(&copy_range(header, 0, 100)) {
        Ok(name) => name,
        Err(error) => {
            return Err(error);
        },
    };
    let path = match parse_entry_path(&prefix, &name) {
        Ok(path) => path,
        Err(error) => {
            return Err(error);
        },
    };
    let mode: u64 = match parse_octal(&copy_range(header, 100, 108)) {
        Ok(mode) => mode,
        Err(error) => {
            return Err(error);
        },
    };
    let size: u64 = match parse_octal(&copy_range(header, 124, 136)) {
        Ok(size) => size,
        Err(error) => {
            return Err(error);
        },
    };
    Ok((path, (mode % 0o10000) as u16, size))
}

/// What reading an archive of `bytes` at `offset` gives, and where it goes on.
///
/// The end of the archive is marked by two zero blocks.
pub open spec fn archive_entry(bytes: Seq<u8>, offset: int) -> (
    Result<Option<EntryModel>, Error>,
    int,
) {
    let data_start = offset + 512;
    let header = bytes.subrange(offset, data_start);
    if data_start > bytes.len() {
        (Err(Error::Truncated), offset)
    } else if all_zero(header) {
        if data_start + 512 > bytes.len() || !all_zero(
            bytes.subrange(data_start, data_start + 512),
        ) {
            (Err(Error::MissingEndMarker), offset)
        } else if !all_zero(bytes.subrange(data_start + 512, bytes.len() as int)) {
            (Err(Error::TrailingData), offset)
        } else {
            (Ok(None), bytes.len() as int)
        }
    } else {
        match named(header) {
            Err(error) => (Err(error), offset),
            Ok((path, mode, size)) => {
                let data_end = data_start + size;
                let next = data_start + (size + 511) - (size + 511) % 512;
                if next > bytes.len() {
                    (Err(Error::Truncated), offset)
                } else {
                    (
                        match kind_of(
                            header[156],
                            header.subrange(157, 257),
                            bytes.subrange(data_start, data_end),
                        ) {
                            Ok(kind) => Ok(Some(EntryModel { path, mode, kind })),
                            Err(error) => Err(error),
                        },
                        next,
                    )
                }
            },
        }
    }
}

/// Reader of a USTAR archive.
pub struct TarArchive {
    bytes: Vec<u8>,
    offset: usize,
    finished: bool,
}

impl TarArchive {
    /// The archive.
    pub closed spec fn contents(self) -> Seq<u8> {
        self.bytes@
    }

    /// How far it was read.
    pub closed spec fn position(self) -> int {
        self.offset as int
    }

    /// Whether its end was reached.
    pub closed spec fn done(self) -> bool {
        self.finished
    }

    /// The position is inside the archive.
    pub open spec fn wf(self) -> bool {
        0 <= self.position() <= self.contents().len()
    }

    /// Starts to read an archive.
    pub fn new(bytes: Vec<u8>) -> (archive: Self)
        ensures
            archive.wf(),
            archive.contents() == bytes@,
            archive.position() == 0,
            !archive.done(),
    {
        TarArchive { bytes, offset: 0, finished: false }
    }

    /// Reads the next entry; there is none at the end of the archive.
    pub fn next(&mut self) -> (entry: Result<Option<Entry>, Error>)
        requires
            old(self).wf(),
        ensures
            final(self).wf(),
            final(self).contents() == old(self).contents(),
            old(self).done() ==> (entry matches Ok(None)) && *final(self) == *old(self),
            !old(self).done() ==> {
                let (expected, next) = archive_entry(old(self).contents(), old(self).position());
                &&& final(self).position() == next
                &&& match (entry, expected) {
                    (Ok(Some(found)), Ok(Some(wanted))) => found@ == wanted && !final(self).done(),
                    (Ok(None), Ok(None)) => final(self).done(),
                    (Err(e), Err(wanted)) => e == wanted && !final(self).done(),
                    _ => false,
                }
            },
    {
        if self.finished {
            return Ok(None);
        }
        let length: usize = self.bytes.len();
        if length - self.offset < TAR_BLOCK_SIZE {
            return Err(Error::Truncated);
        }
        let data_start: usize = self.offset + TAR_BLOCK_SIZE;
        let ghost header_bytes = self.bytes@.subrange(self.offset as int, data_start as int);
        if is_zero(&self.bytes, self.offset, data_start) {
            if length - data_start < TAR_BLOCK_SIZE || !is_zero(
                &self.bytes,
                data_start,
                data_start + TAR_BLOCK_SIZE,
            ) {
                return Err(Error::MissingEndMarker);
            }
            if !is_zero(&self.bytes, data_start + TAR_BLOCK_SIZE, length) {
                return Err(Error::TrailingData);
            }
            self.finished = true;
            self.offset = length;
            return Ok(None);
        }
        let header = copy_range(&self.bytes, self.offset, data_start);
        let (path, mode, size) = match parse_name(&header) {
            Ok(parsed) => parsed,
            Err(error) => {
                return Err(error);
            },
        };
        let room: usize = length - data_start;
        if size > room as u64 {
            return Err(Error::Truncated);
        }
        let size: usize = size as usize;
        let tail: usize = size % TAR_BLOCK_SIZE;
        let padding: usize = if tail == 0 {
            0
        } else {
            TAR_BLOCK_SIZE - tail
        };
        if padding > room - size {
            return Err(Error::Truncated);
        }
        let data_end: usize = data_start + size;
        self.offset = data_end + padding;
        let link = copy_range(&header, 157, 257);
        match parse_kind(header[156], &link, &self.bytes, data_start, data_end) {
            Ok(kind) => Ok(Some(Entry { path, mode, kind })),
            Err(error) => Err(error),
        }
    }
}


/// What the next regular file of an archive is, and where reading goes on.
pub open spec fn regular_entry(bytes: Seq<u8>, offset: int) -> (
    Result<Option<(Seq<u8>, Seq<u8>)>, Error>,
    int,
)
    decreases bytes.len() - offset,
{
    let (entry, next) = archive_entry(bytes, offset);
    match entry {
        Err(error) => (Err(error), next),
        Ok(None) => (Ok(None), next),
        Ok(Some(found)) => match found.kind {
            KindModel::Regular(data) => (Ok(Some((found.path, data))), next),
            _ => if offset < next <= bytes.len() {
                regular_entry(bytes, next)
            } else {
                (Ok(None), next)
            },
        },
    }
}

/// Reader of the regular files in an archive.
pub struct RegularFileIter {
    archive: TarArchive,
    failed: bool,
}

impl RegularFileIter {
    /// The archive behind it.
    pub closed spec fn reader(self) -> TarArchive {
        self.archive
    }

    /// Whether an entry was refused.
    pub closed spec fn has_failed(self) -> bool {
        self.failed
    }

    /// Starts to read the regular files of an archive.
    pub fn new(bytes: Vec<u8>) -> (files: Self)
        ensures
            files.reader().wf(),
            files.reader().contents() == bytes@,
            files.reader().position() == 0,
            !files.reader().done(),
            !files.has_failed(),
    {
        RegularFileIter { archive: TarArchive::new(bytes), failed: false }
    }

    /// Reads path and payload of the next regular file.
    ///
    /// The first refused entry is told once and ends the files.
    pub fn next(&mut self) -> (file: Option<Result<(Vec<u8>, Vec<u8>), Error>>)
        requires
            old(self).reader().wf(),
        ensures
            final(self).reader().wf(),
            final(self).reader().contents() == old(self).reader().contents(),
            old(self).has_failed() || old(self).reader().done() ==> file.is_none()
                && final(self).reader() == old(self).reader() && final(self).has_failed() == old(self).has_failed(),
            !old(self).has_failed() && !old(self).reader().done() ==> {
                let (expected, next) = regular_entry(
                    old(self).reader().contents(),
                    old(self).reader().position(),
                );
                &&& final(self).reader().position() == next
                &&& final(self).has_failed() == expected.is_err()
                &&& final(self).reader().done() == (expected == Ok::<
                    Option<(Seq<u8>, Seq<u8>)>,
                    Error,
                >(None))
                &&& match (file, expected) {
                    (Some(Ok((path, data))), Ok(Some((p, d)))) => path@ == p && data@ == d,
                    (Some(Err(e)), Err(wanted)) => e == wanted,
                    (None, Ok(None)) => true,
                    _ => false,
                }
            },
    {
        if self.failed || self.archive.finished {
            return None;
        }
        loop
            invariant
                !self.failed,
                !self.archive.finished,
                !old(self).has_failed(),
                !old(self).reader().done(),
                self.archive.wf(),
                self.archive.contents() == old(self).reader().contents(),
                regular_entry(self.archive.contents(), self.archive.position())
                    == regular_entry(
                    old(self).reader().contents(),
                    old(self).reader().position(),
                ),
            decreases self.archive.contents().len() - self.archive.position(),
        {
            match self.archive.next() {
                Ok(Some(entry)) => {
                    if let EntryKind::Regular(data) = entry.kind {
                        return Some(Ok((entry.path, data)));
                    }
                },
                Ok(None) => {
                    return None;
                },
                Err(error) => {
                    self.failed = true;
                    return Some(Err(error));
                },
            }
        }
    }
}

/// `path` below the root.
pub open spec fn below_root(path: Seq<u8>) -> Seq<u8> {
    seq![SLASH] + path
}

/// Makes an archive path absolute.
pub fn absolute_path(path: &[u8]) -> (absolute: Vec<u8>)
    ensures
        absolute@ == below_root(path@),
{
    let mut absolute: Vec<u8> = Vec::new();
    absolute.push(SLASH);
    put_bytes(&mut absolute, path);
    assert(absolute@ =~= below_root(path@));
    absolute
}

/// The directories above an absolute path that end before place `n`, without
/// the root.
pub open spec fn ancestors(path: Seq<u8>, n: int) -> Seq<Seq<u8>>
    decreases n,
{
    if n <= 1 {
        Seq::empty()
    } else if path[n - 1] == SLASH {
        ancestors(path, n - 1).push(path.take(n - 1))
    } else {
        ancestors(path, n - 1)
    }
}

/// The entries of `wanted` that `known` lacks.
pub open spec fn lacking(wanted: Seq<Seq<u8>>, known: Seq<Seq<u8>>) -> Seq<Seq<u8>>
    decreases wanted.len(),
{
    if wanted.len() == 0 {
        Seq::empty()
    } else {
        let before = lacking(wanted.drop_last(), known);
        if known.contains(wanted.last()) {
            before
        } else {
            before.push(wanted.last())
        }
    }
}

/// A hard link whose target may not exist yet.
pub struct PendingLink {
    /// Absolute path of the target.
    pub target: Vec<u8>,
    /// Absolute path of the link.
    pub path: Vec<u8>,
}

impl View for PendingLink {
    type V = (Seq<u8>, Seq<u8>);

    open spec fn view(&self) -> (Seq<u8>, Seq<u8>) {
        (self.target@, self.path@)
    }
}

/// Pending links, deeply viewed.
pub open spec fn link_views(links: Seq<PendingLink>) -> Seq<(Seq<u8>, Seq<u8>)> {
    links.map_values(|l: PendingLink| l@)
}

/// What the file system has to create for an entry.
pub enum Creation {
    /// A file with this payload and mode.
    File(Vec<u8>, u16),
    /// A directory with this mode; that it exists already is no failure.
    Directory(u16),
    /// A symbolic link to this target.
    Symlink(Vec<u8>),
    /// Nothing yet: hard links come last.
    Later,
}

/// Mode of a directory that the archive leaves out.
pub const PARENT_MODE: u16 = 0o755;

/// What the file system has to do for an entry.
pub struct ImportStep {
    /// Directories that have to exist first, from the root on; those that do
    /// not are created with `PARENT_MODE`.
    pub parents: Vec<Vec<u8>>,
    /// Absolute path of the entry.
    pub path: Vec<u8>,
    /// What is created there.
    pub creation: Creation,
}

/// An import step as specifications see it.
#[verifier::ext_equal]
pub struct StepModel {
    /// Directories that have to exist first.
    pub parents: Seq<Seq<u8>>,
    /// Absolute path of the entry.
    pub path: Seq<u8>,
    /// The entry.
    pub entry: EntryModel,
}

impl ImportStep {
    /// Whether it does what `model` says.
    pub open spec fn follows(self, model: StepModel) -> bool {
        &&& parts(self.parents@) == model.parents
        &&& self.path@ == model.path
        &&& match (self.creation, model.entry.kind) {
            (Creation::File(data, mode), KindModel::Regular(payload)) => data@ == payload && mode
                == model.entry.mode,
            (Creation::Directory(mode), KindModel::Directory) => mode == model.entry.mode,
            (Creation::Symlink(target), KindModel::Symlink(wanted)) => target@ == wanted,
            (Creation::Later, KindModel::HardLink(_)) => true,
            _ => false,
        }
    }
}

/// What an import holds.
#[verifier::ext_equal]
pub struct ImportModel {
    /// Archive paths seen so far.
    pub imported: Seq<Seq<u8>>,
    /// Directories known to exist, without the root.
    pub known: Seq<Seq<u8>>,
    /// Hard links to make at the end.
    pub links: Seq<(Seq<u8>, Seq<u8>)>,
}

impl ImportModel {
    /// What importing `entry` asks for.
    pub open spec fn step(self, entry: EntryModel) -> StepModel {
        let path = below_root(entry.path);
        StepModel {
            parents: if entry.kind is HardLink {
                Seq::empty()
            } else {
                lacking(ancestors(path, path.len() as int), self.known)
            },
            path,
            entry,
        }
    }

    /// The import after `entry`.
    pub open spec fn after(self, entry: EntryModel) -> ImportModel {
        let step = self.step(entry);
        ImportModel {
            imported: self.imported.push(entry.path),
            known: match entry.kind {
                KindModel::Directory => (self.known + step.parents).push(step.path),
                _ => self.known + step.parents,
            },
            links: match entry.kind {
                KindModel::HardLink(target) => self.links.push((below_root(target), step.path)),
                _ => self.links,
            },
        }
    }

    /// Whether `entry` is refused as a duplicate.
    pub open spec fn refuses(self, entry: EntryModel) -> bool {
        self.imported.contains(entry.path)
    }
}

/// Import of an archive into the root file system.
pub struct Importer {
    imported: Vec<Vec<u8>>,
    known: Vec<Vec<u8>>,
    links: Vec<PendingLink>,
}

impl View for Importer {
    type V = ImportModel;

    closed spec fn view(&self) -> ImportModel {
        ImportModel {
            imported: parts(self.imported@),
            known: parts(self.known@),
            links: link_views(self.links@),
        }
    }
}

fn holds(paths: &Vec<Vec<u8>>, path: &[u8]) -> (found: bool)
    ensures
        found == parts(paths@).contains(path@),
{
    let ghost views = parts(paths@);
    let mut at: usize = 0;
    while at < paths.len()
        invariant
            at <= paths@.len(),
            views == parts(paths@),
            forall|i: int| 0 <= i < at ==> #[trigger] views[i] != path@,
        decreases paths@.len() - at,
    {
        assert(views[at as int] == paths@[at as int]@);
        if same_bytes(&paths[at], path) {
            return true;
        }
        at = at + 1;
    }
    false
}

fn missing_ancestors(path: &Vec<u8>, known: &Vec<Vec<u8>>) -> (missing: Vec<Vec<u8>>)
    requires
        path@.len() > 0,
    ensures
        parts(missing@) == lacking(
            ancestors(path@, path@.len() as int),
            parts(known@),
        ),
{
    let mut missing: Vec<Vec<u8>> = Vec::new();
    let ghost views = parts(known@);
    assert(ancestors(path@, 1) =~= Seq::empty());
    assert(parts(missing@) =~= lacking(ancestors(path@, 1), views));
    let mut at: usize = 1;
    while at < path.len()
        invariant
            1 <= at <= path@.len(),
            views == parts(known@),
            parts(missing@) == lacking(ancestors(path@, at as int), views),
        decreases path@.len() - at,
    {
        if path[at] == SLASH {
            let directory = copy_range(path, 0, at);
            assert(directory@ =~= path@.take(at as int));
            let ghost before = ancestors(path@, at as int);
            assert(before.push(directory@).drop_last() =~= before);
            assert(ancestors(path@, at + 1) == before.push(directory@));
            if !holds(known, &directory) {
                let ghost earlier = missing@;
                missing.push(directory);
                assert(parts(missing@) =~= parts(
                    earlier,
                ).push(directory@));
            }
        }
        at = at + 1;
    }
    missing
}

fn copy_paths(paths: &Vec<Vec<u8>>, into: &mut Vec<Vec<u8>>)
    ensures
        parts(final(into)@) == parts(old(into)@)
            + parts(paths@),
{
    let ghost start = parts(into@);
    let ghost all = parts(paths@);
    assert(start + all.take(0) =~= start);
    let mut at: usize = 0;
    while at < paths.len()
        invariant
            at <= paths@.len(),
            all == parts(paths@),
            parts(into@) == start + all.take(at as int),
        decreases paths@.len() - at,
    {
        let ghost before = into@;
        into.push(copy_all(&paths[at]));
        assert(parts(into@) =~= parts(before).push(
            all[at as int],
        ));
        assert(parts(into@) =~= start + all.take(at + 1));
        at = at + 1;
    }
    assert(all.take(at as int) =~= all);
}

impl Importer {
    /// An import that has seen nothing.
    pub fn new() -> (import: Self)
        ensures
            import@ == (ImportModel {
                imported: Seq::empty(),
                known: Seq::empty(),
                links: Seq::empty(),
            }),
    {
        let import = Importer { imported: Vec::new(), known: Vec::new(), links: Vec::new() };
        assert(import@.imported =~= Seq::empty());
        assert(import@.known =~= Seq::empty());
        assert(import@.links =~= Seq::empty());
        import
    }

    /// How many entries were imported.
    pub fn count(&self) -> (count: usize)
        ensures
            count == self@.imported.len(),
    {
        self.imported.len()
    }

    /// Takes the next entry of the archive, and says what to create for it.
    pub fn import(&mut self, entry: Entry) -> (step: Result<ImportStep, Error>)
        ensures
            old(self)@.refuses(entry@) ==> step matches Err(Error::DuplicatePath),
            old(self)@.refuses(entry@) ==> final(self)@ == old(self)@,
            !old(self)@.refuses(entry@) ==> {
                &&& step matches Ok(found)
                &&& found.follows(old(self)@.step(entry@))
                &&& final(self)@ == old(self)@.after(entry@)
            },
    {
        if holds(&self.imported, &entry.path) {
            return Err(Error::DuplicatePath);
        }
        let ghost before = *self;
        let path = absolute_path(&entry.path);
        let ghost wanted = self@.step(entry@);
        let parents: Vec<Vec<u8>> = match &entry.kind {
            EntryKind::HardLink(target) => {
                let link = PendingLink { target: absolute_path(target), path: copy_all(&path) };
                self.links.push(link);
                assert(link_views(self.links@) =~= link_views(before.links@).push(link@));
                Vec::new()
            },
            _ => missing_ancestors(&path, &self.known),
        };
        assert(parts(parents@) =~= wanted.parents);
        copy_paths(&parents, &mut self.known);
        self.imported.push(copy_all(&entry.path));
        assert(parts(self.imported@) =~= parts(
            before.imported@,
        ).push(entry.path@));
        let creation = match entry.kind {
            EntryKind::Regular(data) => Creation::File(data, entry.mode),
            EntryKind::Directory => {
                let ghost earlier = self.known@;
                self.known.push(copy_all(&path));
                assert(parts(self.known@) =~= parts(
                    earlier,
                ).push(path@));
                Creation::Directory(entry.mode)
            },
            EntryKind::Symlink(target) => Creation::Symlink(target),
            EntryKind::HardLink(_) => Creation::Later,
        };
        assert(self@ =~= before@.after(entry@));
        Ok(ImportStep { parents, path, creation })
    }

    /// Hands out the hard links, once all other entries exist.
    pub fn into_links(self) -> (links: Vec<PendingLink>)
        ensures
            link_views(links@) == self@.links,
    {
        self.links
    }
}

/// The import of an archive.
pub struct ImportPlan {
    /// What the file system has to do, in this order.
    pub steps: Vec<ImportStep>,
    /// Hard links to make after that.
    pub links: Vec<PendingLink>,
    /// Number of entries, or why the import ends after the steps.
    pub outcome: Result<usize, Error>,
}

/// The import of an archive as specifications see it.
#[verifier::ext_equal]
pub struct PlanModel {
    /// What the file system has to do.
    pub steps: Seq<StepModel>,
    /// Hard links to make after that.
    pub links: Seq<(Seq<u8>, Seq<u8>)>,
    /// Number of entries, or why the import ends after the steps.
    pub outcome: Result<nat, Error>,
}

/// What importing the rest of an archive asks for.
pub open spec fn planned(bytes: Seq<u8>, offset: int, import: ImportModel) -> PlanModel
    decreases bytes.len() - offset,
{
    let (entry, next) = archive_entry(bytes, offset);
    match entry {
        Err(error) => PlanModel {
            steps: Seq::empty(),
            links: import.links,
            outcome: Err(error),
        },
        Ok(None) => PlanModel {
            steps: Seq::empty(),
            links: import.links,
            outcome: Ok(import.imported.len()),
        },
        Ok(Some(found)) => if import.refuses(found) || !(offset < next <= bytes.len()) {
            PlanModel {
                steps: Seq::empty(),
                links: import.links,
                outcome: Err(Error::DuplicatePath),
            }
        } else {
            let rest = planned(bytes, next, import.after(found));
            PlanModel { steps: seq![import.step(found)] + rest.steps, ..rest }
        },
    }
}

/// An import that has seen nothing.
pub open spec fn fresh_import() -> ImportModel {
    ImportModel { imported: Seq::empty(), known: Seq::empty(), links: Seq::empty() }
}

impl ImportPlan {
    /// Whether it does what `model` says.
    pub open spec fn follows(self, model: PlanModel) -> bool {
        &&& steps_follow(self.steps@, model.steps)
        &&& link_views(self.links@) == model.links
        &&& match (self.outcome, model.outcome) {
            (Ok(count), Ok(wanted)) => count == wanted,
            (Err(error), Err(wanted)) => error == wanted,
            _ => false,
        }
    }
}

/// Whether steps do what their models say.
pub open spec fn steps_follow(steps: Seq<ImportStep>, models: Seq<StepModel>) -> bool {
    &&& steps.len() == models.len()
    &&& forall|i: int| 0 <= i < steps.len() ==> (#[trigger] steps[i]).follows(models[i])
}

/// Plans the import of an archive.
pub fn populate(bytes: Vec<u8>) -> (plan: ImportPlan)
    ensures
        plan.follows(planned(bytes@, 0, fresh_import())),
{
    let ghost contents = bytes@;
    let ghost whole = planned(contents, 0, fresh_import());
    let mut archive = TarArchive::new(bytes);
    let mut importer = Importer::new();
    let mut steps: Vec<ImportStep> = Vec::new();
    let ghost mut done: Seq<StepModel> = Seq::empty();
    assert(done + whole.steps =~= whole.steps);
    loop
        invariant
            archive.wf(),
            !archive.done(),
            archive.contents() == contents,
            contents == bytes@,
            steps_follow(steps@, done),
            whole == (PlanModel {
                steps: done + planned(contents, archive.position(), importer@).steps,
                ..planned(contents, archive.position(), importer@)
            }),
            whole == planned(contents, 0, fresh_import()),
        decreases contents.len() - archive.position(),
    {
        let ghost offset = archive.position();
        let ghost import = importer@;
        let outcome: Result<usize, Error> = match archive.next() {
            Err(error) => Err(error),
            Ok(None) => Ok(importer.count()),
            Ok(Some(entry)) => {
                let ghost found = entry@;
                match importer.import(entry) {
                    Err(error) => Err(error),
                    Ok(step) => {
                        let ghost before = steps@;
                        steps.push(step);
                        proof {
                            let rest = planned(contents, archive.position(), importer@);
                            assert(done + (seq![import.step(found)] + rest.steps) =~= done.push(
                                import.step(found),
                            ) + rest.steps);
                            done = done.push(import.step(found));
                            assert(steps_follow(steps@, done));
                        }
                        continue ;
                    },
                }
            },
        };
        let links = importer.into_links();
        assert(done + Seq::<StepModel>::empty() =~= done);
        return ImportPlan { steps, links, outcome };
    }
}

/// Splits an absolute path into its parent directory and its last component.
pub fn split_parent(path: &[u8]) -> (split: (Vec<u8>, Vec<u8>))
    requires
        path@.len() > 0,
        path@[0] == SLASH,
    ensures
        split.1@.contains(SLASH) == false,
        split.0@ == seq![SLASH] || split.0@.len() > 0,
        split.0@ == seq![SLASH] && path@ == split.0@ + split.1@ || path@ == split.0@
            + seq![SLASH] + split.1@,
{
    let mut at: usize = path.len() - 1;
    while path[at] != SLASH
        invariant
            at < path@.len(),
            path@.len() > 0,
            path@[0] == SLASH,
            forall|i: int| at < i < path@.len() ==> path@[i] != SLASH,
        decreases at,
    {
        at = at - 1;
    }
    let name = copy_range(path, at + 1, path.len());
    assert forall|i: int| 0 <= i < name@.len() implies name@[i] != SLASH by {
        assert(name@[i] == path@[at + 1 + i]);
    }
    if at == 0 {
        let mut root: Vec<u8> = Vec::new();
        root.push(SLASH);
        assert(root@ =~= seq![SLASH]);
        assert(path@ =~= root@ + name@);
        (root, name)
    } else {
        let parent = copy_range(path, 0, at);
        assert(path@ =~= parent@ + seq![SLASH] + name@);
        (parent, name)
    }
}

/// What follows a write of file data: the place to go on at.
///
/// A file system that writes nothing has failed.
pub fn write_progress(offset: usize, length: usize, written: usize) -> (next: Result<usize, Error>)
    requires
        offset <= length,
        written <= length - offset,
    ensures
        written == 0 ==> next == Err::<usize, Error>(Error::Filesystem(fs::Error::Io)),
        written > 0 ==> next == Ok::<usize, Error>((offset + written) as usize),
{
    if written == 0 {
        return Err(Error::Filesystem(fs::Error::Io));
    }
    Ok(offset + written)
}

/// Whether an attempt to make a hard link ended the import.
pub open spec fn is_fatal(outcome: Result<(), fs::Error>) -> bool {
    outcome matches Err(error) && error != fs::Error::NotFound
}

/// The links among the first `n` whose target was not found.
pub open spec fn unresolved(
    pending: Seq<PendingLink>,
    outcomes: Seq<Result<(), fs::Error>>,
    n: int,
) -> Seq<(Seq<u8>, Seq<u8>)>
    decreases n,
{
    if n <= 0 {
        Seq::empty()
    } else if outcomes[n - 1].is_err() {
        unresolved(pending, outcomes, n - 1).push(pending[n - 1]@)
    } else {
        unresolved(pending, outcomes, n - 1)
    }
}

/// What follows one attempt at every pending hard link.
///
/// Links whose target is missing are tried again, as long as some link could be
/// made. Attempts stop at the first that failed for another reason.
pub fn resolve_hard_links(
    pending: Vec<PendingLink>,
    outcomes: &Vec<Result<(), fs::Error>>,
) -> (next: Result<Vec<PendingLink>, Error>)
    requires
        outcomes@.len() <= pending@.len(),
        forall|i: int|
            0 <= i < outcomes@.len() && is_fatal(#[trigger] outcomes@[i]) ==> i == outcomes@.len()
                - 1,
        outcomes@.len() < pending@.len() ==> outcomes@.len() > 0 && is_fatal(outcomes@.last()),
    ensures
        outcomes@.len() > 0 && is_fatal(outcomes@.last()) ==> (next matches Err(
            Error::Filesystem(error),
        ) && outcomes@.last() == Err::<(), fs::Error>(error)),
        !(outcomes@.len() > 0 && is_fatal(outcomes@.last())) ==> {
            let rest = unresolved(pending@, outcomes@, pending@.len() as int);
            if rest.len() > 0 && rest.len() == pending@.len() {
                next matches Err(Error::UnresolvedHardLink)
            } else {
                next matches Ok(links) && link_views(links@) == rest && (rest.len() == 0
                    || rest.len() < pending@.len())
            }
        },
{
    if outcomes.len() > 0 {
        if let Err(error) = outcomes[outcomes.len() - 1] {
            if error != fs::Error::NotFound {
                return Err(Error::Filesystem(error));
            }
        }
    }
    let total: usize = pending.len();
    let ghost rest = unresolved(pending@, outcomes@, total as int);
    let mut links: Vec<PendingLink> = Vec::new();
    assert(link_views(links@) =~= unresolved(pending@, outcomes@, 0));
    let mut at: usize = 0;
    while at < total
        invariant
            at <= total == pending@.len() == outcomes@.len(),
            link_views(links@) == unresolved(pending@, outcomes@, at as int),
            links@.len() <= at,
        decreases total - at,
    {
        if outcomes[at].is_err() {
            let link = PendingLink {
                target: copy_all(&pending[at].target),
                path: copy_all(&pending[at].path),
            };
            let ghost before = links@;
            links.push(link);
            assert(link_views(links@) =~= link_views(before).push(pending@[at as int]@));
        }
        at = at + 1;
    }
    assert(links@.len() == rest.len());
    if links.len() > 0 && links.len() == total {
        return Err(Error::UnresolvedHardLink);
    }
    Ok(links)
}

/// The name under which the boot loader hands over the archive.
pub open spec fn archive_name() -> Seq<u8> {
    seq![0x69u8, 0x6e, 0x69, 0x74, 0x72, 0x61, 0x6d, 0x66, 0x73]
}

/// Finds the archive among the boot modules by their names.
pub fn archive_module(names: &Vec<Vec<u8>>) -> (found: Option<usize>)
    ensures
        match found {
            Some(i) => i < names@.len() && names@[i as int]@ == archive_name() && forall|j: int|
                0 <= j < i ==> (#[trigger] names@[j])@ != archive_name(),
            None => forall|j: int|
                0 <= j < names@.len() ==> (#[trigger] names@[j])@ != archive_name(),
        },
{
    let wanted: Vec<u8> = vec![0x69u8, 0x6e, 0x69, 0x74, 0x72, 0x61, 0x6d, 0x66, 0x73];
    assert(wanted@ =~= archive_name());
    let mut at: usize = 0;
    while at < names.len()
        invariant
            at <= names@.len(),
            wanted@ == archive_name(),
            forall|j: int| 0 <= j < at ==> (#[trigger] names@[j])@ != archive_name(),
        decreases names@.len() - at,
    {
        if same_bytes(&names[at], &wanted) {
            return Some(at);
        }
        at = at + 1;
    }
    None
}

proof fn lemma_trimmed(path: Seq<u8>)
    ensures
        trimmed(path).len() <= path.len(),
        trimmed(path) == path.take(trimmed(path).len() as int),
        trimmed(path).len() > 0 ==> trimmed(path).last() != SLASH,
    decreases path.len(),
{
    if path.len() > 0 && path.last() == SLASH {
        lemma_trimmed(path.drop_last());
        let n = trimmed(path).len() as int;
        assert(path.drop_last().take(n) =~= path.take(n));
    } else {
        assert(path.take(path.len() as int) =~= path);
    }
}

proof fn lemma_walk_keeps(path: Seq<u8>, at: int, current: Seq<u8>, stack: Seq<Seq<u8>>)
    requires
        0 <= at <= path.len(),
        components_ok(path, at, current),
    ensures
        walk(path, at, current, stack).len() > 0,
        chained(walk(path, at, current, stack)) == chained(stack) + seq![SLASH] + current
            + path.skip(at),
    decreases path.len() - at,
{
    if at >= path.len() {
        assert(stack.push(current).drop_last() =~= stack);
        assert(chained(stack) + seq![SLASH] + current + path.skip(at) =~= chained(stack)
            + seq![SLASH] + current);
    } else if path[at] == SLASH {
        assert(stack.push(current).drop_last() =~= stack);
        lemma_walk_keeps(path, at + 1, Seq::empty(), stack.push(current));
        assert(chained(stack) + seq![SLASH] + current + seq![SLASH] + Seq::<u8>::empty()
            + path.skip(at + 1) =~= chained(stack) + seq![SLASH] + current + path.skip(at));
    } else {
        lemma_walk_keeps(path, at + 1, current.push(path[at]), stack);
        assert(chained(stack) + seq![SLASH] + current.push(path[at]) + path.skip(at + 1)
            =~= chained(stack) + seq![SLASH] + current + path.skip(at));
    }
}

/// An accepted path stays below the root: it resolves to itself, behind one
/// slash.
pub proof fn law_archive_path_stays_inside(path: Seq<u8>)
    requires
        normalized(path).is_ok(),
    ensures
        resolved(seq![SLASH], normalized(path)->Ok_0) == below_root(normalized(path)->Ok_0),
{
    let short = trimmed(path);
    lemma_trimmed(path);
    assert(short[0] == path[0]);
    let whole = combined(seq![SLASH], short);
    assert(whole == seq![SLASH] + short);
    lemma_components_shift(short, 0, Seq::empty());
    assert(whole[0] == SLASH);
    assert(walk(whole, 0, Seq::empty(), Seq::empty()) == walk(
        whole,
        1,
        Seq::empty(),
        walked(Seq::empty(), Seq::empty()),
    ));
    lemma_walk_keeps(whole, 1, Seq::empty(), Seq::empty());
    assert(Seq::<u8>::empty() + seq![SLASH] + Seq::<u8>::empty() + whole.skip(1) =~= below_root(
        short,
    ));
}

proof fn lemma_components_shift(path: Seq<u8>, at: int, current: Seq<u8>)
    requires
        0 <= at <= path.len(),
        components_ok(path, at, current),
    ensures
        components_ok(seq![SLASH] + path, at + 1, current),
    decreases path.len() - at,
{
    let whole = seq![SLASH] + path;
    if at < path.len() {
        assert(whole[at + 1] == path[at]);
        if path[at] == SLASH {
            lemma_components_shift(path, at + 1, Seq::empty());
        } else {
            lemma_components_shift(path, at + 1, current.push(path[at]));
        }
    }
}

/// The path of every entry that an archive holds stays below the root.
pub proof fn law_entry_stays_inside(bytes: Seq<u8>, offset: int)
    requires
        0 <= offset <= bytes.len(),
        archive_entry(bytes, offset).0 matches Ok(Some(_)),
    ensures
        ({
            let entry = archive_entry(bytes, offset).0->Ok_0->Some_0;
            resolved(seq![SLASH], entry.path) == below_root(entry.path)
        }),
{
    let header = bytes.subrange(offset, offset + 512);
    let prefix = field_text(header.subrange(345, 500))->Ok_0;
    let name = field_text(header.subrange(0, 100))->Ok_0;
    if prefix.len() == 0 {
        law_archive_path_stays_inside(name);
    } else {
        law_archive_path_stays_inside(prefix + seq![SLASH] + name);
    }
}

proof fn lemma_lacking(wanted: Seq<Seq<u8>>, known: Seq<Seq<u8>>, path: Seq<u8>)
    requires
        wanted.contains(path),
    ensures
        known.contains(path) || lacking(wanted, known).contains(path),
    decreases wanted.len(),
{
    let i = choose|i: int| 0 <= i < wanted.len() && wanted[i] == path;
    let before = lacking(wanted.drop_last(), known);
    if i < wanted.len() - 1 {
        assert(wanted.drop_last()[i] == path);
        assert(wanted.drop_last().contains(path));
        lemma_lacking(wanted.drop_last(), known, path);
        if before.contains(path) && !known.contains(wanted.last()) {
            let j = choose|j: int| 0 <= j < before.len() && before[j] == path;
            assert(before.push(wanted.last())[j] == path);
        }
    } else if !known.contains(path) {
        assert(before.push(path).last() == path);
        assert(before.push(path)[before.len() as int] == path);
    }
}

/// Every directory above a created entry exists: it was known before, or it is
/// made first.
pub proof fn law_parents_come_first(import: ImportModel, entry: EntryModel, directory: Seq<u8>)
    requires
        !(entry.kind is HardLink),
        ancestors(below_root(entry.path), below_root(entry.path).len() as int).contains(directory),
    ensures
        import.known.contains(directory) || import.step(entry).parents.contains(directory),
        import.after(entry).known.contains(directory),
{
    let wanted = ancestors(below_root(entry.path), below_root(entry.path).len() as int);
    lemma_lacking(wanted, import.known, directory);
    let parents = import.step(entry).parents;
    let all = import.known + parents;
    let i = if import.known.contains(directory) {
        choose|i: int| 0 <= i < import.known.len() && import.known[i] == directory
    } else {
        import.known.len() + choose|i: int| 0 <= i < parents.len() && parents[i] == directory
    };
    assert(all[i] == directory);
    assert(all.push(import.step(entry).path)[i] == directory);
}

/// A path is imported once: after an entry, another of the same path is
/// refused.
pub proof fn law_path_is_imported_once(import: ImportModel, entry: EntryModel, again: EntryModel)
    requires
        again.path == entry.path,
    ensures
        import.after(entry).refuses(again),
{
    assert(import.after(entry).imported.last() == entry.path);
    assert(import.after(entry).imported[import.imported.len() as int] == entry.path);
}

/// An octal number is read digit by digit.
pub proof fn law_octal_digits_count(digits: Seq<u8>, digit: u8)
    requires
        0x30 <= digit <= 0x37,
    ensures
        octal_value(Seq::empty()) == 0,
        octal_value(digits.push(digit)) == 8 * octal_value(digits) + (digit - 0x30),
{
    assert(digits.push(digit).drop_last() =~= digits);
}

/// The checksum adds up the bytes of a header, its own eight bytes taken as
/// spaces: changing any other byte changes it by as much.
pub proof fn law_checksum_adds_bytes(header: Seq<u8>, n: int, at: int, byte: u8)
    requires
        0 <= at < header.len(),
        n <= header.len(),
    ensures
        checksum(header.update(at, byte), n) - checksum(header, n) == if at < n && !(148 <= at
            < 156) {
            byte - header[at]
        } else {
            0
        },
        n == 512 && all_zero(header) ==> checksum(header, n) == 256,
    decreases n,
{
    if n > 0 {
        law_checksum_adds_bytes(header, n - 1, at, byte);
    }
    if n == 512 && all_zero(header) {
        lemma_blank_checksum(header, 512);
    }
}

proof fn lemma_blank_checksum(header: Seq<u8>, n: int)
    requires
        0 <= n <= header.len(),
        all_zero(header),
    ensures
        checksum(header, n) == if n <= 148 {
            0
        } else if n < 156 {
            0x20 * (n - 148)
        } else {
            0x100
        },
    decreases n,
{
    if n > 0 {
        lemma_blank_checksum(header, n - 1);
        assert(header[n - 1] == 0);
    }
}

/// An entry is its header and as many bytes behind it as the header says, up to
/// a whole block; a file holds exactly these bytes, with its mode bits.
pub proof fn law_entry_holds_its_bytes(bytes: Seq<u8>, offset: int)
    requires
        0 <= offset,
        archive_entry(bytes, offset).0.is_ok(),
        archive_entry(bytes, offset).0->Ok_0.is_some(),
    ensures
        ({
            let (found, next) = archive_entry(bytes, offset);
            let entry = found->Ok_0->0;
            let header = bytes.subrange(offset, offset + 512);
            let size = octal_of(header.subrange(124, 136))->Ok_0;
            &&& offset + 512 + size <= next <= bytes.len()
            &&& (next - offset) % 512 == 0
            &&& next < offset + 1024 + size
            &&& entry.mode < 0o10000
            &&& entry.mode as int % 0o10000 == octal_of(header.subrange(100, 108))->Ok_0 as int
                % 0o10000
            &&& octal_of(header.subrange(148, 156))->Ok_0 == checksum(header, 512)
            &&& entry.kind matches KindModel::Regular(data) ==> (header[156] == 0 || header[156]
                == 0x30) && data == bytes.subrange(offset + 512, offset + 512 + size)
            &&& entry.kind is Directory ==> header[156] == 0x35
            &&& entry.kind is Symlink ==> header[156] == 0x32
            &&& entry.kind is HardLink ==> header[156] == 0x31
            &&& entry.kind matches KindModel::Symlink(target) ==> target == field_bytes(
                header.subrange(157, 257),
            )
        }),
{
}

/// The directories above a path are what stands in front of each of its later
/// slashes.
pub proof fn law_ancestors_stand_before_slashes(path: Seq<u8>, n: int, above: Seq<u8>)
    requires
        0 <= n <= path.len(),
    ensures
        ancestors(path, n).contains(above) <==> exists|k: int|
            1 <= k < n && #[trigger] path[k] == 0x2f && above == path.take(k),
    decreases n,
{
    if n > 1 {
        law_ancestors_stand_before_slashes(path, n - 1, above);
        let before = ancestors(path, n - 1);
        let all = ancestors(path, n);
        if before.contains(above) {
            let i = choose|i: int| 0 <= i < before.len() && before[i] == above;
            assert(all[i] == above);
        }
        if all.contains(above) {
            let i = choose|i: int| 0 <= i < all.len() && all[i] == above;
            if i < before.len() {
                assert(before[i] == above);
            } else {
                assert(path[n - 1] == 0x2f);
            }
        }
        if path[n - 1] == 0x2f && above == path.take(n - 1) {
            assert(all[all.len() - 1] == above);
        }
    }
}

/// The directories that are made for an entry are those above it that are not
/// there yet.
pub proof fn law_missing_directories_are_made(
    wanted: Seq<Seq<u8>>,
    known: Seq<Seq<u8>>,
    path: Seq<u8>,
)
    ensures
        lacking(wanted, known).contains(path) <==> wanted.contains(path) && !known.contains(path),
    decreases wanted.len(),
{
    if wanted.len() > 0 {
        let rest = wanted.drop_last();
        law_missing_directories_are_made(rest, known, path);
        let before = lacking(rest, known);
        let all = lacking(wanted, known);
        if before.contains(path) {
            let i = choose|i: int| 0 <= i < before.len() && before[i] == path;
            assert(all[i] == path);
        }
        if all.contains(path) {
            let i = choose|i: int| 0 <= i < all.len() && all[i] == path;
            if i < before.len() {
                assert(before[i] == path);
            } else {
                assert(wanted[wanted.len() - 1] == path);
            }
        }
        if rest.contains(path) {
            let i = choose|i: int| 0 <= i < rest.len() && rest[i] == path;
            assert(wanted[i] == path);
        }
        if wanted.contains(path) && !known.contains(path) {
            let i = choose|i: int| 0 <= i < wanted.len() && wanted[i] == path;
            if i < rest.len() {
                assert(rest[i] == path);
            } else {
                assert(all[all.len() - 1] == path);
            }
        }
    }
}

/// A text field of a header ends at its first zero byte.
pub proof fn law_field_ends_at_zero(field: Seq<u8>, i: int)
    requires
        0 <= i < field.len(),
    ensures
        ({
            let text = field_bytes(field);
            &&& text.len() <= field.len()
            &&& i < text.len() ==> text[i] == field[i] && field[i] != 0
            &&& i == text.len() ==> field[i] == 0
        }),
{
    lemma_first_where(field, |b: u8| b == 0, 0);
}

} // verus!
