//! Symbols of the kernel's own executable file.

use vstd::prelude::*;
use vstd::utf8::{decode_utf8, encode_utf8, valid_utf8};
use xmas_elf::symbol_table::Entry;
use crate::aligned::AlignedBytes;
use crate::bytes::{
    copy_range, get_u16, get_u32, get_u64, same_bytes, u16_at, u32_at, u64_at,
};
use crate::lists::{first_where, lemma_first_where};
use crate::num::cap_u64;
use crate::proc::elf::{header_fault, header_of, read_header};
use crate::text::{is_utf8, utf8_string};

verus! {

/// Section indices from here on are reserved.
pub const FIRST_RESERVED: u16 = 0xff00;

/// What is read of a section header.
#[derive(Copy, Clone, Debug, PartialEq, Eq, Structural)]
pub struct Section {
    /// Whether the section is a symbol table.
    pub is_symbols: bool,
    /// Place in the file.
    pub offset: u64,
    /// Size in the file.
    pub size: u64,
}

/// What is read of a symbol.
#[derive(Copy, Clone, Debug, PartialEq, Eq, Structural)]
pub struct Symbol {
    /// Place of its name in the string table.
    pub name: u32,
    /// Address.
    pub value: u64,
    /// Size.
    pub size: u64,
}

/// Place of the section header table.
pub open spec fn table_offset(file: Seq<u8>) -> u64 {
    u64_at(file, 40)
}

/// Size of a section header.
pub open spec fn entry_size(file: Seq<u8>) -> u16 {
    u16_at(file, 58)
}

/// Number of section headers.
pub open spec fn section_count(file: Seq<u8>) -> u16 {
    u16_at(file, 60)
}

/// Index of the section that holds the names of sections.
pub open spec fn names_index(file: Seq<u8>) -> u16 {
    u16_at(file, 62)
}

/// Place of a section header.
pub open spec fn section_place(file: Seq<u8>, index: int) -> int {
    table_offset(file) + index * entry_size(file)
}

/// Whether a section header is in the file.
pub open spec fn holds_section(file: Seq<u8>, index: int) -> bool {
    section_place(file, index) + entry_size(file) <= file.len()
}

/// The kind number of a section.
pub open spec fn section_kind(file: Seq<u8>, index: int) -> u32 {
    u32_at(file, section_place(file, index) + 4)
}

/// The place of a section's contents.
pub open spec fn section_start(file: Seq<u8>, index: int) -> u64 {
    u64_at(file, section_place(file, index) + 24)
}

/// The size of a section's contents.
pub open spec fn section_size(file: Seq<u8>, index: int) -> u64 {
    u64_at(file, section_place(file, index) + 32)
}

/// Whether a kind number is known.
pub open spec fn is_kind(number: u32) -> bool {
    number <= 11 || 14 <= number <= 18 || number >= 0x6000_0000
}

/// Whether the section headers of a 64-bit file can be read.
pub open spec fn has_sections(file: Seq<u8>) -> bool {
    &&& header_fault(file).is_none()
    &&& header_of(file).sixty_four
    &&& entry_size(file) >= 64
    &&& entry_size(file) % 8 == 0
    &&& table_offset(file) % 8 == 0
    &&& section_count(file) <= FIRST_RESERVED
    &&& table_offset(file) + 0x1_0000 * entry_size(file) <= usize::MAX
}

/// What is read of a section header.
pub open spec fn section_at(file: Seq<u8>, index: int) -> Section {
    Section {
        is_symbols: section_kind(file, index) == 2,
        offset: section_start(file, index),
        size: section_size(file, index),
    }
}

/// The symbol at a place.
pub open spec fn symbol_at(file: Seq<u8>, at: int) -> Symbol {
    Symbol { name: u32_at(file, at), value: u64_at(file, at + 8), size: u64_at(file, at + 16) }
}

/// Reads one section header of a 64-bit ELF file.
///
/// Calls `xmas_elf::ElfFile::section_header` and the getters of its result. The
/// crate refuses an entry that ends behind the file, and panics on a reserved
/// index, and where an entry is shorter than a section header or does not start
/// on a word boundary.
#[verifier::external_body]
fn read_section(bytes: &AlignedBytes, index: u16) -> (section: Result<Section, &'static str>)
    requires
        has_sections(bytes@),
        index < FIRST_RESERVED,
    ensures
        section == if holds_section(bytes@, index as int) {
            Ok(section_at(bytes@, index as int))
        } else {
            Err("File is shorter than section header offset")
        },
{
    let file = xmas_elf::ElfFile::new(bytes.as_slice())?;
    let section = file.section_header(index)?;
    let kind = section.get_type();
    let is_symbols = matches!(kind, Ok(xmas_elf::sections::ShType::SymTab));
    Ok(Section { is_symbols, offset: section.offset(), size: section.size() })
}

/// Whether a section's symbols can be read.
pub open spec fn has_symbols(file: Seq<u8>, index: int) -> bool {
    &&& section_start(file, index) % 8 == 0
    &&& section_size(file, index) % 24 == 0
    &&& section_start(file, index) + section_size(file, index) <= file.len()
}

/// Reads one symbol of a 64-bit ELF file.
///
/// Calls `xmas_elf::sections::SectionHeader::get_data` on a symbol table and
/// the getters of one of its entries. The crate panics where the table is not
/// in the file, does not start on a word boundary, or does not hold a whole
/// number of symbols.
#[verifier::external_body]
fn read_symbol(bytes: &AlignedBytes, section: u16, index: usize) -> (symbol: Result<
    Symbol,
    &'static str,
>)
    requires
        has_sections(bytes@),
        section < FIRST_RESERVED,
        holds_section(bytes@, section as int),
        section_kind(bytes@, section as int) == 2,
        has_symbols(bytes@, section as int),
        index < section_size(bytes@, section as int) / 24,
    ensures
        symbol.is_ok(),
        symbol->Ok_0 == symbol_at(bytes@, section_start(bytes@, section as int) + 24 * index),
{
    let file = xmas_elf::ElfFile::new(bytes.as_slice())?;
    match file.section_header(section)?.get_data(&file)? {
        xmas_elf::sections::SectionData::SymbolTable64(table) => {
            let entry = &table[index];
            Ok(Symbol { name: entry.name(), value: entry.value(), size: entry.size() })
        },
        _ => Err("Not a symbol table"),
    }
}

/// Where the text at a place ends: before the next zero.
pub open spec fn text_end(bytes: Seq<u8>, at: int) -> int {
    first_where(bytes, |b: u8| b == 0, at)
}

/// The text at a place.
pub open spec fn text_at(bytes: Seq<u8>, at: int) -> Seq<u8> {
    bytes.subrange(at, text_end(bytes, at))
}

/// Whether there is text at a place.
pub open spec fn reads_text(bytes: Seq<u8>, at: int) -> bool {
    &&& 0 <= at <= bytes.len()
    &&& text_end(bytes, at) < bytes.len()
    &&& valid_utf8(text_at(bytes, at))
}

/// Whether the file has a section header of this index.
pub open spec fn in_reach(file: Seq<u8>, index: int) -> bool {
    0 <= index < section_count(file) && holds_section(file, index)
}

/// Where the names of sections begin, if the file says so.
pub open spec fn names_start(file: Seq<u8>) -> Option<int> {
    if holds_section(file, names_index(file) as int) && section_start(
        file,
        names_index(file) as int,
    ) <= file.len() {
        Some(section_start(file, names_index(file) as int) as int)
    } else {
        None
    }
}

/// Whether a section has a name.
pub open spec fn is_named(file: Seq<u8>, index: int) -> bool {
    names_start(file).is_some() && is_looked_up(file, index)
}

/// Where a section's name lies behind the start of names.
pub open spec fn name_place(file: Seq<u8>, index: int) -> int {
    u32_at(file, section_place(file, index)) as int
}

/// The name of a section.
pub open spec fn section_name(file: Seq<u8>, index: int) -> Seq<u8> {
    text_at(file.skip(names_start(file)->Some_0), name_place(file, index))
}

/// The name of the section that holds the names of symbols.
pub open spec fn strtab() -> Seq<u8> {
    seq![0x2eu8, 0x73, 0x74, 0x72, 0x74, 0x61, 0x62]
}

/// Whether the name of a section is looked up, because its kind is known.
pub open spec fn is_looked_up(file: Seq<u8>, index: int) -> bool {
    section_kind(file, index) != 0 && is_kind(section_kind(file, index))
}

/// Whether the names of sections from `index` on can be read, up to the one
/// that holds the names of symbols.
pub open spec fn names_read(file: Seq<u8>, index: int) -> bool
    decreases section_count(file) - index,
{
    if !in_reach(file, index) {
        true
    } else if is_looked_up(file, index) && names_index(file) >= FIRST_RESERVED {
        false
    } else if is_named(file, index) {
        &&& reads_text(file.skip(names_start(file)->Some_0), name_place(file, index))
        &&& section_name(file, index) == strtab() || names_read(file, index + 1)
    } else {
        names_read(file, index + 1)
    }
}

/// The first section from `index` on that holds the names of symbols.
pub open spec fn find_strings(file: Seq<u8>, index: int) -> Option<int>
    decreases section_count(file) - index,
{
    if !in_reach(file, index) {
        None
    } else if is_named(file, index) && section_name(file, index) == strtab() {
        Some(index)
    } else {
        find_strings(file, index + 1)
    }
}

/// The names of symbols.
pub open spec fn strings(file: Seq<u8>, index: int) -> Seq<u8> {
    file.subrange(
        section_start(file, index) as int,
        section_start(file, index) + section_size(file, index),
    )
}

/// Whether the name of a symbol can be read.
pub open spec fn has_string(file: Seq<u8>, name: u32) -> bool {
    &&& has_sections(file)
    &&& names_read(file, 0)
    &&& match find_strings(file, 0) {
        None => true,
        Some(index) => section_kind(file, index) == 3 ==> {
            &&& section_start(file, index) + section_size(file, index) <= file.len()
            &&& reads_text(strings(file, index), name as int)
        },
    }
}

/// The name of a symbol, if the file holds it.
pub open spec fn string_of(file: Seq<u8>, name: u32) -> Option<Seq<u8>> {
    match find_strings(file, 0) {
        None => None,
        Some(index) => if section_kind(file, index) == 3 {
            Some(text_at(strings(file, index), name as int))
        } else {
            None
        },
    }
}

/// Reads the name of a symbol.
///
/// Calls `xmas_elf::ElfFile::get_string`. The crate looks for the first section
/// named `.strtab`, and reads the text at the given place in it. It panics on a
/// reserved index of the section names, and where a name that it looks at, or
/// the text itself, does not end in the file or is not UTF-8.
#[verifier::external_body]
fn read_string(bytes: &AlignedBytes, name: u32) -> (text: Option<Vec<u8>>)
    requires
        has_string(bytes@, name),
    ensures
        match text {
            Some(text) => string_of(bytes@, name) == Some(text@),
            None => string_of(bytes@, name).is_none(),
        },
{
    let file = xmas_elf::ElfFile::new(bytes.as_slice()).ok()?;
    let text = file.get_string(name).ok()?;
    Some(text.as_bytes().to_vec())
}

/// What `rustc_demangle::demangle` makes of a symbol, printed without its hash.
pub uninterp spec fn demangled(symbol: Seq<char>) -> Seq<char>;

/// Turns a mangled symbol into a readable name.
///
/// Calls `rustc_demangle::demangle` and prints its result in the alternate
/// form, which leaves out the trailing hash. The text depends on the symbol
/// alone; which text it is, is not stated.
#[verifier::external_body]
fn demangle(symbol: &str) -> (text: String)
    ensures
        text@ == demangled(symbol@),
{
    format!("{:#}", rustc_demangle::demangle(symbol))
}

/// Tells whether the section headers of an executable file can be read.
pub fn check_sections(bytes: &AlignedBytes) -> (sound: bool)
    ensures
        sound == has_sections(bytes@),
{
    match read_header(bytes) {
        Ok(header) => {
            if !header.sixty_four {
                return false;
            }
            let file = bytes.as_slice();
            let size: u16 = get_u16(file, 58);
            let count: u16 = get_u16(file, 60);
            let offset: u64 = get_u64(file, 40);
            if size < 64 || size % 8 != 0 || offset % 8 != 0 || count > FIRST_RESERVED {
                return false;
            }
            let room: u64 = 0x1_0000 * size as u64;
            room <= usize::MAX as u64 && offset <= usize::MAX as u64 - room
        },
        Err(_) => false,
    }
}

/// The first symbol table from section `index` on.
pub open spec fn find_symbols(file: Seq<u8>, index: int) -> Option<int>
    decreases section_count(file) - index,
{
    if !in_reach(file, index) {
        None
    } else if section_kind(file, index) == 2 {
        Some(index)
    } else {
        find_symbols(file, index + 1)
    }
}

/// Finds the symbol table.
pub fn symbol_section(bytes: &AlignedBytes) -> (found: Option<(u16, Section)>)
    requires
        has_sections(bytes@),
    ensures
        match found {
            Some((index, section)) => {
                &&& find_symbols(bytes@, 0) == Some(index as int)
                &&& section == section_at(bytes@, index as int)
                &&& in_reach(bytes@, index as int)
                &&& section_kind(bytes@, index as int) == 2
            },
            None => find_symbols(bytes@, 0).is_none(),
        },
{
    let count: u16 = get_u16(bytes.as_slice(), 60);
    let mut index: u16 = 0;
    while index < count
        invariant
            has_sections(bytes@),
            count == section_count(bytes@),
            index <= count,
            find_symbols(bytes@, 0) == find_symbols(bytes@, index as int),
        decreases count - index,
    {
        match read_section(bytes, index) {
            Ok(section) => {
                if section.is_symbols {
                    return Some((index, section));
                }
            },
            Err(_) => {
                return None;
            },
        }
        index = index + 1;
    }
    None
}

/// The first `n` symbols of a table.
pub open spec fn symbols_of(file: Seq<u8>, index: int, n: nat) -> Seq<Symbol> {
    Seq::new(n, |i: int| symbol_at(file, section_start(file, index) + 24 * i))
}

/// Reads the symbols of an executable file, if it has a symbol table.
pub fn load_symbols(bytes: &AlignedBytes) -> (symbols: Option<Vec<Symbol>>)
    requires
        has_sections(bytes@),
        find_symbols(bytes@, 0) matches Some(index) ==> has_symbols(bytes@, index),
    ensures
        match symbols {
            Some(list) => {
                &&& find_symbols(bytes@, 0) matches Some(index)
                &&& list@ == symbols_of(
                    bytes@,
                    index,
                    (section_size(bytes@, index) / 24) as nat,
                )
            },
            None => find_symbols(bytes@, 0).is_none(),
        },
{
    let (index, section) = match symbol_section(bytes) {
        Some(found) => found,
        None => {
            return None;
        },
    };
    let count: u64 = section.size / 24;
    let length: usize = bytes.as_slice().len();
    let mut symbols: Vec<Symbol> = Vec::new();
    while (symbols.len() as u64) < count
        invariant
            has_sections(bytes@),
            in_reach(bytes@, index as int),
            find_symbols(bytes@, 0) == Some(index as int),
            section_kind(bytes@, index as int) == 2,
            has_symbols(bytes@, index as int),
            count == section_size(bytes@, index as int) / 24,
            length == bytes@.len(),
            symbols@.len() <= count,
            symbols@ == symbols_of(bytes@, index as int, symbols@.len()),
        decreases count - symbols@.len(),
    {
        let at: usize = symbols.len();
        match read_symbol(bytes, index, at) {
            Ok(symbol) => {
                symbols.push(symbol);
                assert(symbols@ =~= symbols_of(bytes@, index as int, symbols@.len()));
            },
            Err(_) => {
                return None;
            },
        }
    }
    Some(symbols)
}

/// Tells whether the symbols of an executable file can be read.
pub fn check_symbols(bytes: &AlignedBytes) -> (sound: bool)
    requires
        has_sections(bytes@),
    ensures
        sound == (find_symbols(bytes@, 0) matches Some(index) ==> has_symbols(bytes@, index)),
{
    match symbol_section(bytes) {
        Some((_, section)) => {
            let length: u64 = bytes.as_slice().len() as u64;
            section.offset % 8 == 0 && section.size % 24 == 0 && section.offset <= length
                && section.size <= length - section.offset
        },
        None => true,
    }
}

/// Whether an address lies in a symbol.
pub open spec fn encloses(symbol: Symbol, address: u64) -> bool {
    symbol.value <= address < cap_u64(symbol.value + symbol.size)
}

/// Which symbols hold an address.
pub open spec fn around(address: u64) -> spec_fn(Symbol) -> bool {
    |s: Symbol| encloses(s, address)
}

/// Finds the first symbol that an address lies in.
pub fn find_symbol(symbols: &Vec<Symbol>, address: u64) -> (found: Option<Symbol>)
    ensures
        ({
            let at = first_where(symbols@, around(address), 0);
            found == if at < symbols@.len() {
                Some(symbols@[at])
            } else {
                None
            }
        }),
{
    let mut at: usize = 0;
    while at < symbols.len()
        invariant
            at <= symbols@.len(),
            first_where(symbols@, around(address), 0) == first_where(
                symbols@,
                around(address),
                at as int,
            ),
        decreases symbols@.len() - at,
    {
        let symbol = symbols[at];
        let end: u64 = symbol.value.saturating_add(symbol.size);
        if address >= symbol.value && address < end {
            return Some(symbol);
        }
        at = at + 1;
    }
    None
}

fn check_text(bytes: &[u8], at: usize) -> (sound: bool)
    ensures
        sound == reads_text(bytes@, at as int),
{
    if at > bytes.len() {
        return false;
    }
    let ghost zero = |b: u8| b == 0;
    let mut end: usize = at;
    while end < bytes.len() && bytes[end] != 0
        invariant
            at <= end <= bytes@.len(),
            zero == (|b: u8| b == 0),
            first_where(bytes@, zero, at as int) == first_where(bytes@, zero, end as int),
        decreases bytes@.len() - end,
    {
        end = end + 1;
    }
    if end == bytes.len() {
        return false;
    }
    let text = copy_range(bytes, at, end);
    assert(text@ =~= text_at(bytes@, at as int));
    is_utf8(&text)
}

fn read_text(bytes: &[u8], at: usize) -> (text: Vec<u8>)
    requires
        reads_text(bytes@, at as int),
    ensures
        text@ == text_at(bytes@, at as int),
{
    let ghost zero = |b: u8| b == 0;
    proof {
        lemma_first_where(bytes@, zero, at as int);
    }
    let mut end: usize = at;
    while end < bytes.len() && bytes[end] != 0
        invariant
            at <= end <= bytes@.len(),
            zero == (|b: u8| b == 0),
            first_where(bytes@, zero, at as int) == first_where(bytes@, zero, end as int),
        decreases bytes@.len() - end,
    {
        end = end + 1;
    }
    let text = copy_range(bytes, at, end);
    assert(text@ =~= text_at(bytes@, at as int));
    text
}

proof fn lemma_section_bounds(file: Seq<u8>, index: int)
    requires
        has_sections(file),
        0 <= index < 0x1_0000,
    ensures
        0 <= section_place(file, index),
        section_place(file, index) + entry_size(file) <= usize::MAX,
        section_place(file, index) == table_offset(file) + index * entry_size(file),
{
    let size = entry_size(file) as int;
    assert(index * size + size <= 0x1_0000 * size && index * size >= 0) by (nonlinear_arith)
        requires
            0 <= index < 0x1_0000,
            size >= 0,
    ;
}

/// Place of a section header, if it is in the file.
fn locate_section(bytes: &[u8], index: u16) -> (place: Option<usize>)
    requires
        has_sections(bytes@),
    ensures
        match place {
            Some(at) => holds_section(bytes@, index as int) && at == section_place(
                bytes@,
                index as int,
            ) && at + 64 <= bytes@.len(),
            None => !holds_section(bytes@, index as int),
        },
{
    proof {
        lemma_section_bounds(bytes@, index as int);
    }
    let size: usize = get_u16(bytes, 58) as usize;
    let offset: usize = get_u64(bytes, 40) as usize;
    assert(bytes@.len() == bytes.len());
    assert(index * size <= 0xffff * 0xffff) by (nonlinear_arith)
        requires
            0 <= index <= 0xffff,
            0 <= size <= 0xffff,
    ;
    assert(0 <= index * size) by (nonlinear_arith)
        requires
            0 <= index,
            0 <= size,
    ;
    let at: usize = offset + index as usize * size;
    if size <= bytes.len() && at <= bytes.len() - size {
        Some(at)
    } else {
        None
    }
}

/// Tells whether the name of a symbol can be read.
pub fn check_string(bytes: &AlignedBytes, name: u32) -> (sound: bool)
    requires
        has_sections(bytes@),
    ensures
        sound == has_string(bytes@, name),
{
    let file = bytes.as_slice();
    let length: usize = file.len();
    assert(file@.len() == length);
    let names: u16 = get_u16(file, 62);
    let start: Option<usize> = match locate_section(file, names) {
        Some(at) => {
            let offset: u64 = get_u64(file, at + 24);
            if offset <= file.len() as u64 {
                Some(offset as usize)
            } else {
                None
            }
        },
        None => None,
    };
    assert(match start {
        Some(offset) => names_start(file@) == Some(offset as int),
        None => names_start(file@).is_none(),
    });
    let table: Vec<u8> = match start {
        Some(offset) => copy_range(file, offset, file.len()),
        None => Vec::new(),
    };
    assert(start matches Some(offset) ==> table@ =~= file@.skip(offset as int));
    let wanted: Vec<u8> = vec![0x2eu8, 0x73, 0x74, 0x72, 0x74, 0x61, 0x62];
    assert(wanted@ =~= strtab());
    let count: u16 = get_u16(file, 60);
    let mut index: u16 = 0;
    while index < count
        invariant
            has_sections(file@),
            file@ == bytes@,
            file@.len() == length,
            names == names_index(file@),
            count == section_count(file@),
            index <= count,
            wanted@ == strtab(),
            match start {
                Some(offset) => names_start(file@) == Some(offset as int) && table@ == file@.skip(
                    offset as int,
                ),
                None => names_start(file@).is_none(),
            },
            names_read(file@, 0) == names_read(file@, index as int),
            find_strings(file@, 0) == find_strings(file@, index as int),
        decreases count - index,
    {
        let at: usize = match locate_section(file, index) {
            Some(at) => at,
            None => {
                assert(!in_reach(file@, index as int));
                return true;
            },
        };
        assert(in_reach(file@, index as int));
        let kind: u32 = get_u32(file, at + 4);
        let known: bool = kind != 0 && (kind <= 11 || (14 <= kind && kind <= 18) || kind
            >= 0x6000_0000);
        assert(known == is_looked_up(file@, index as int));
        if known {
            if names >= FIRST_RESERVED {
                return false;
            }
            if start.is_some() {
                let place: u32 = get_u32(file, at);
                if !check_text(&table, place as usize) {
                    assert(!reads_text(table@, name_place(file@, index as int)));
                    return false;
                }
                assert(reads_text(table@, name_place(file@, index as int)));
                let text = read_text(&table, place as usize);
                if same_bytes(&text, &wanted) {
                    return check_strings_section(file, name, at, Ghost(index as int));
                }
            }
        }
        index = index + 1;
    }
    true
}

fn check_strings_section(file: &[u8], name: u32, at: usize, Ghost(index): Ghost<int>) -> (sound: bool)
    requires
        has_sections(file@),
        names_read(file@, 0),
        find_strings(file@, 0) == Some(index),
        at == section_place(file@, index),
        at + 64 <= file@.len(),
    ensures
        sound == has_string(file@, name),
{
    let length: u64 = file.len() as u64;
    if get_u32(file, at + 4) != 3 {
        return true;
    }
    let start: u64 = get_u64(file, at + 24);
    let size: u64 = get_u64(file, at + 32);
    if start > length || size > length - start {
        return false;
    }
    let text = copy_range(file, start as usize, (start + size) as usize);
    assert(text@ =~= strings(file@, index));
    if name as u64 > size {
        return false;
    }
    check_text(&text, name as usize)
}

/// The readable name of a symbol, if the file holds its name.
pub open spec fn readable_name(file: Seq<u8>, name: u32) -> Option<Seq<u8>> {
    match string_of(file, name) {
        Some(text) => Some(encode_utf8(demangled(decode_utf8(text)))),
        None => None,
    }
}

/// The readable name of a symbol, if the file holds its name.
pub fn symbol_name(bytes: &AlignedBytes, name: u32) -> (text: Option<Vec<u8>>)
    requires
        has_string(bytes@, name),
    ensures
        match text {
            Some(text) => readable_name(bytes@, name) == Some(text@),
            None => readable_name(bytes@, name).is_none(),
        },
{
    let raw = match read_string(bytes, name) {
        Some(raw) => raw,
        None => {
            return None;
        },
    };
    assert(valid_utf8(raw@));
    match utf8_string(raw) {
        Some(symbol) => {
            let shown = demangle(symbol.as_str());
            let encoded = shown.as_str().as_bytes();
            Some(copy_range(encoded, 0, encoded.len()))
        },
        None => None,
    }
}

/// A symbol covers the addresses from its value on, as many as it has bytes.
pub proof fn law_symbol_covers_its_bytes(symbol: Symbol, address: u64)
    requires
        symbol.value + symbol.size <= u64::MAX,
    ensures
        encloses(symbol, address) <==> symbol.value <= address && address - symbol.value
            < symbol.size,
        symbol.size == 0 ==> !encloses(symbol, address),
        around(address)(symbol) == encloses(symbol, address),
{
}

/// A symbol is read from its 24 bytes: its name, its address and its size.
pub proof fn law_symbol_is_read(file: Seq<u8>, index: int, n: nat, i: int)
    requires
        0 <= i < n,
    ensures
        ({
            let at = section_start(file, index) + 24 * i;
            let symbol = symbols_of(file, index, n)[i];
            &&& symbol.name == u32_at(file, at)
            &&& symbol.value == u64_at(file, at + 8)
            &&& symbol.size == u64_at(file, at + 16)
        }),
{
}

/// The symbols are those of the first section of the kind for them.
pub proof fn law_first_symbol_section_is_used(file: Seq<u8>, index: int)
    requires
        0 <= index,
    ensures
        match find_symbols(file, index) {
            Some(found) => index <= found < section_count(file) && section_kind(file, found) == 2
                && forall|i: int| index <= i < found ==> #[trigger] section_kind(file, i) != 2,
            None => true,
        },
    decreases section_count(file) - index,
{
    if in_reach(file, index) && section_kind(file, index) != 2 {
        law_first_symbol_section_is_used(file, index + 1);
    }
}

} // verus!
