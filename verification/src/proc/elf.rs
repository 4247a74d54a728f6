//! ELF loading and initial userspace stack construction.

use vstd::prelude::*;
use vstd::utf8::valid_utf8;
use xmas_elf::program::Type;
use crate::aligned::AlignedBytes;
use crate::bytes::{
    copy_range, get_u64, lemma_u64_at, lemma_words, lemma_words_len, put_u64, put_zeros, u16_at, u32_at, u64_at,
    words_bytes, zeros,
};
use crate::mem::{align_down, UserRange, VmProtection};
use crate::proc::Error;
use crate::sys::thread::PAGE_SIZE;
use crate::text::is_utf8;
use crate::Arch;

verus! {

/// Size of one entry of a 64-bit program header table.
pub const PROGRAM_HEADER_SIZE: u16 = 56;

/// What the loader reads of an ELF file's headers.
#[derive(Copy, Clone, Debug, PartialEq, Eq, Structural)]
pub struct ElfHeader {
    /// Whether the file is 64-bit.
    pub sixty_four: bool,
    /// Whether the file is little-endian.
    pub little_endian: bool,
    /// Instruction set, if it is a supported one.
    pub machine: Option<Arch>,
    /// Kind of file.
    pub image_type: u16,
    /// Address of the first instruction.
    pub entry: u64,
    /// Place of the program header table.
    pub ph_offset: u64,
    /// Size of a program header.
    pub ph_entry_size: u16,
    /// Number of program headers.
    pub ph_count: u16,
}

/// Image type of a program with fixed addresses.
pub const ET_EXEC: u16 = 2;

/// Image type of a program or library with relative addresses.
pub const ET_DYN: u16 = 3;

/// Kind of a program header that the loader distinguishes.
#[derive(Copy, Clone, Debug, PartialEq, Eq, Structural)]
pub enum SegmentKind {
    /// Part of the program.
    Load,
    /// Path of the interpreter.
    Interp,
    /// Reserved.
    ShLib,
    /// The program header table itself.
    Phdr,
    /// Any other valid kind.
    Other,
}

/// One program header.
#[derive(Copy, Clone, Debug)]
pub struct ProgramHeader {
    /// Kind, or why there is none.
    pub kind: Result<SegmentKind, &'static str>,
    /// Access flags.
    pub flags: u32,
    /// Place in the file.
    pub offset: u64,
    /// Address in memory.
    pub virtual_addr: u64,
    /// Size in the file.
    pub file_size: u64,
    /// Size in memory.
    pub mem_size: u64,
    /// Alignment in memory.
    pub align: u64,
}

/// The machine that a machine number stands for.
pub open spec fn machine_of(number: u16) -> Option<Arch> {
    if number == 0x3E {
        Some(Arch::X86_64)
    } else if number == 0xF3 {
        Some(Arch::Riscv64)
    } else {
        None
    }
}

/// Why `bytes` have no ELF header, if so.
pub open spec fn header_fault(bytes: Seq<u8>) -> Option<&'static str> {
    if bytes.len() < 16 {
        Some("File is shorter than the first ELF header part")
    } else if bytes.take(4) != seq![0x7fu8, 0x45, 0x4c, 0x46] {
        Some("Did not find ELF magic number")
    } else if bytes[4] != 1 && bytes[4] != 2 {
        Some("Invalid ELF class")
    } else if bytes.len() < if bytes[4] == 2 {
        64int
    } else {
        52
    } {
        Some("File is shorter than ELF headers")
    } else {
        None
    }
}

/// The header at the start of `bytes`.
pub open spec fn header_of(bytes: Seq<u8>) -> ElfHeader {
    let wide = bytes[4] == 2;
    ElfHeader {
        sixty_four: wide,
        little_endian: bytes[5] == 1,
        machine: machine_of(u16_at(bytes, 18)),
        image_type: u16_at(bytes, 16),
        entry: if wide {
            u64_at(bytes, 24)
        } else {
            u32_at(bytes, 24) as u64
        },
        ph_offset: if wide {
            u64_at(bytes, 32)
        } else {
            u32_at(bytes, 28) as u64
        },
        ph_entry_size: u16_at(bytes, if wide {
            54
        } else {
            42
        }),
        ph_count: u16_at(bytes, if wide {
            56
        } else {
            44
        }),
    }
}

/// The kind that a kind number stands for.
pub open spec fn kind_of(number: u32) -> Result<SegmentKind, &'static str> {
    if number == 1 {
        Ok(SegmentKind::Load)
    } else if number == 3 {
        Ok(SegmentKind::Interp)
    } else if number == 5 {
        Ok(SegmentKind::ShLib)
    } else if number == 6 {
        Ok(SegmentKind::Phdr)
    } else if number <= 7 || 0x6000_0000 <= number <= 0x7fff_ffff {
        Ok(SegmentKind::Other)
    } else {
        Err("Invalid type")
    }
}

/// The 64-bit program header at `at`.
pub open spec fn program_header_at(bytes: Seq<u8>, at: int) -> ProgramHeader {
    ProgramHeader {
        kind: kind_of(u32_at(bytes, at)),
        flags: u32_at(bytes, at + 4),
        offset: u64_at(bytes, at + 8),
        virtual_addr: u64_at(bytes, at + 16),
        file_size: u64_at(bytes, at + 32),
        mem_size: u64_at(bytes, at + 40),
        align: u64_at(bytes, at + 48),
    }
}

/// Reads the headers of an ELF file.
///
/// Calls `xmas_elf::ElfFile::new` and the getters of its header. The crate
/// checks the length, the magic number and the class, and reads every field in
/// the byte order of the machine, which is little-endian on both supported
/// instruction sets. It needs the bytes on a word boundary, where [`AlignedBytes`]
/// are.
#[verifier::external_body]
pub(crate) fn read_header(bytes: &AlignedBytes) -> (header: Result<ElfHeader, &'static str>)
    ensures
        header == match header_fault(bytes@) {
            Some(fault) => Err(fault),
            None => Ok(header_of(bytes@)),
        },
{
    let header = xmas_elf::ElfFile::new(bytes.as_slice())?.header;
    Ok(ElfHeader {
        sixty_four: matches!(header.pt1.class(), xmas_elf::header::Class::SixtyFour),
        little_endian: matches!(header.pt1.data(), xmas_elf::header::Data::LittleEndian),
        machine: match header.pt2.machine().as_machine() {
            xmas_elf::header::Machine::X86_64 => Some(Arch::X86_64),
            xmas_elf::header::Machine::RISC_V => Some(Arch::Riscv64),
            _ => None,
        },
        image_type: header.pt2.type_().0,
        entry: header.pt2.entry_point(), ph_offset: header.pt2.ph_offset(),
        ph_entry_size: header.pt2.ph_entry_size(), ph_count: header.pt2.ph_count(),
    })
}

/// Reads one program header of a 64-bit ELF file.
///
/// Calls `xmas_elf::ElfFile::program_header` and the getters of its result.
/// The crate refuses a table at the start of the file, and panics where an
/// entry is not in the file, is shorter than a program header, or does not
/// start on a word boundary.
#[verifier::external_body]
fn read_program_header(bytes: &AlignedBytes, index: u16) -> (header: Result<
    ProgramHeader,
    &'static str,
>)
    requires
        header_fault(bytes@).is_none(),
        header_of(bytes@).sixty_four,
        header_of(bytes@).ph_entry_size == PROGRAM_HEADER_SIZE,
        index < header_of(bytes@).ph_count,
        header_of(bytes@).ph_offset % 8 == 0,
        header_of(bytes@).ph_offset + PROGRAM_HEADER_SIZE * (index + 1) <= bytes@.len(),
    ensures
        header == if header_of(bytes@).ph_offset == 0 {
            Err("There are no program headers in this file")
        } else {
            Ok(
                program_header_at(
                    bytes@,
                    header_of(bytes@).ph_offset + PROGRAM_HEADER_SIZE * index,
                ),
            )
        },
{
    let header = xmas_elf::ElfFile::new(bytes.as_slice())?.program_header(index)?;
    let kind = match header.get_type() {
        Ok(Type::Load) => Ok(SegmentKind::Load),
        Ok(Type::Interp) => Ok(SegmentKind::Interp),
        Ok(Type::ShLib) => Ok(SegmentKind::ShLib),
        Ok(Type::Phdr) => Ok(SegmentKind::Phdr),
        Ok(_) => Ok(SegmentKind::Other),
        Err(fault) => Err(fault),
    };
    let (flags, offset, virtual_addr) = (header.flags().0, header.offset(), header.virtual_addr());
    let (file_size, mem_size, align) = (header.file_size(), header.mem_size(), header.align());
    Ok(ProgramHeader { kind, flags, offset, virtual_addr, file_size, mem_size, align })
}

/// One part of a program that is loaded.
#[derive(Copy, Clone, Debug, PartialEq, Eq, Structural)]
pub struct Segment {
    /// Address in memory.
    pub virtual_address: u64,
    /// Place in the file.
    pub file_offset: u64,
    /// Size in the file.
    pub file_size: u64,
    /// Size in memory.
    pub memory_size: u64,
    /// Access flags.
    pub flags: u32,
}

/// What a loader needs to know of an ELF file.
pub struct ElfSpec {
    /// Kind of file.
    pub image_type: u16,
    /// Address of the first instruction.
    pub entry: u64,
    /// Address of the program headers, where the file tells it.
    pub program_header_address: Option<u64>,
    /// Place of the program headers.
    pub program_header_offset: u64,
    /// Size of a program header.
    pub program_header_size: u16,
    /// Number of program headers.
    pub program_header_count: u16,
    /// Path of the interpreter.
    pub interpreter: Option<Vec<u8>>,
    /// Parts to load.
    pub segments: Vec<Segment>,
}

/// What program headers told so far.
#[verifier::ext_equal]
pub struct Survey {
    /// Parts to load.
    pub segments: Seq<Segment>,
    /// Path of the interpreter.
    pub interpreter: Option<Seq<u8>>,
    /// Address of the program headers.
    pub phdr: Option<u64>,
}

/// What an ELF file tells a loader.
#[verifier::ext_equal]
pub struct Image {
    /// Kind of file.
    pub image_type: u16,
    /// Address of the first instruction.
    pub entry: u64,
    /// Place of the program headers.
    pub header_offset: u64,
    /// Size of a program header.
    pub header_size: u16,
    /// Number of program headers.
    pub header_count: u16,
    /// What the program headers told.
    pub found: Survey,
}

/// What a file with these headers tells.
pub open spec fn image_of(header: ElfHeader, found: Survey) -> Image {
    Image {
        image_type: header.image_type,
        entry: header.entry,
        header_offset: header.ph_offset,
        header_size: header.ph_entry_size,
        header_count: header.ph_count,
        found,
    }
}

/// Whether `n` is a power of two.
pub open spec fn is_power_of_two(n: u64) -> bool {
    n != 0 && n & ((n - 1) as u64) == 0
}

/// Place of the first zero byte, or the length.
pub open spec fn first_nul(data: Seq<u8>, at: int) -> int
    decreases data.len() - at,
{
    if at >= data.len() || data[at] == 0 {
        at
    } else {
        first_nul(data, at + 1)
    }
}

/// The interpreter path in `data`: text, then nothing but zero bytes.
pub open spec fn interpreter_in(data: Seq<u8>) -> Result<Seq<u8>, Error> {
    let nul = first_nul(data, 0);
    if nul >= data.len() {
        Err(Error::InvalidElf("unterminated interpreter path"))
    } else if exists|i: int| nul < i < data.len() && data[i] != 0 {
        Err(Error::InvalidElf("invalid interpreter path"))
    } else if !valid_utf8(data.take(nul)) {
        Err(Error::InvalidElf("non-UTF-8 interpreter path"))
    } else {
        Ok(data.take(nul))
    }
}

/// What is known after program header `header`.
pub open spec fn surveyed(bytes: Seq<u8>, before: Survey, header: ProgramHeader) -> Result<
    Survey,
    Error,
> {
    let file_end = header.offset + header.file_size;
    if file_end > u64::MAX {
        Err(Error::InvalidElf("segment file range overflow"))
    } else if file_end > bytes.len() {
        Err(Error::InvalidElf("segment data outside file"))
    } else if header.align > 1 && (!is_power_of_two(header.align) || header.virtual_addr
        % header.align != header.offset % header.align) {
        Err(Error::InvalidElf("invalid segment alignment"))
    } else {
        match header.kind {
            Err(fault) => Err(Error::InvalidElf(fault)),
            Ok(SegmentKind::Load) => if header.file_size > header.mem_size {
                Err(Error::InvalidElf("load segment file size exceeds memory size"))
            } else {
                Ok(
                    Survey {
                        segments: before.segments.push(
                            Segment {
                                virtual_address: header.virtual_addr,
                                file_offset: header.offset,
                                file_size: header.file_size,
                                memory_size: header.mem_size,
                                flags: header.flags,
                            },
                        ),
                        ..before
                    },
                )
            },
            Ok(SegmentKind::Interp) => if before.interpreter.is_some() {
                Err(Error::InvalidElf("multiple interpreters"))
            } else {
                match interpreter_in(bytes.subrange(header.offset as int, file_end)) {
                    Ok(path) => Ok(Survey { interpreter: Some(path), ..before }),
                    Err(error) => Err(error),
                }
            },
            Ok(SegmentKind::Phdr) => Ok(Survey { phdr: Some(header.virtual_addr), ..before }),
            Ok(SegmentKind::ShLib) => Err(Error::UnsupportedElf),
            Ok(SegmentKind::Other) => Ok(before),
        }
    }
}

/// What the first `count` program headers tell.
pub open spec fn survey(bytes: Seq<u8>, count: int) -> Result<Survey, Error>
    decreases count,
{
    if count <= 0 {
        Ok(Survey { segments: Seq::empty(), interpreter: None, phdr: None })
    } else {
        match survey(bytes, count - 1) {
            Err(error) => Err(error),
            Ok(before) => if header_of(bytes).ph_offset == 0 {
                Err(Error::InvalidElf("There are no program headers in this file"))
            } else {
                surveyed(
                    bytes,
                    before,
                    program_header_at(
                        bytes,
                        header_of(bytes).ph_offset + PROGRAM_HEADER_SIZE * (count - 1),
                    ),
                )
            },
        }
    }
}

/// Where the program header table ends.
pub open spec fn table_end(header: ElfHeader) -> int {
    header.ph_offset + header.ph_entry_size * header.ph_count
}

/// Why the headers of an ELF file for `arch` cannot be used, if so.
pub open spec fn header_error(bytes: Seq<u8>, arch: Arch) -> Option<Error> {
    let header = header_of(bytes);
    if header_fault(bytes).is_some() {
        Some(Error::InvalidElf(header_fault(bytes)->0))
    } else if !header.sixty_four || !header.little_endian || header.ph_entry_size
        != PROGRAM_HEADER_SIZE || header.machine != Some(arch) || (header.image_type != ET_EXEC
        && header.image_type != ET_DYN) {
        Some(Error::UnsupportedElf)
    } else if table_end(header) > u64::MAX {
        Some(Error::InvalidElf("program header table overflow"))
    } else if table_end(header) > bytes.len() {
        Some(Error::InvalidElf("program header table outside file"))
    } else {
        None
    }
}

/// Whether the program headers, where there are any to read, start on a word
/// boundary.
pub open spec fn headers_aligned(bytes: Seq<u8>, arch: Arch) -> bool {
    header_error(bytes, arch).is_none() ==> header_of(bytes).ph_count == 0 || header_of(
        bytes,
    ).ph_offset % 8 == 0
}

/// Checks that the program headers of a 64-bit file start on a word boundary.
pub fn check_alignment(bytes: &[u8], arch: Arch) -> (aligned: bool)
    ensures
        aligned == (bytes@.len() < 64 || u64_at(bytes@, 32) % 8 == 0),
        aligned ==> headers_aligned(bytes@, arch),
{
    bytes.len() < 64 || get_u64(bytes, 32) % 8 == 0
}

/// What an ELF file for `arch` tells, or why it cannot be loaded.
pub open spec fn parsed(bytes: Seq<u8>, arch: Arch) -> Result<Image, Error> {
    match header_error(bytes, arch) {
        Some(error) => Err(error),
        None => match survey(bytes, header_of(bytes).ph_count as int) {
            Err(error) => Err(error),
            Ok(found) => if found.segments.len() == 0 {
                Err(Error::InvalidElf("no loadable segments"))
            } else {
                Ok(image_of(header_of(bytes), found))
            },
        },
    }
}

impl View for ElfSpec {
    type V = Image;

    open spec fn view(&self) -> Image {
        Image {
            image_type: self.image_type,
            entry: self.entry,
            header_offset: self.program_header_offset,
            header_size: self.program_header_size,
            header_count: self.program_header_count,
            found: Survey {
                segments: self.segments@,
                interpreter: match self.interpreter {
                    Some(path) => Some(path@),
                    None => None,
                },
                phdr: self.program_header_address,
            },
        }
    }
}

/// Every part stands in a file of `length` bytes and is no larger there than
/// in memory.
pub open spec fn segments_fit(segments: Seq<Segment>, length: nat) -> bool {
    forall|i: int|
        0 <= i < segments.len() ==> (#[trigger] segments[i]).file_offset + segments[i].file_size
            <= length && segments[i].file_size <= segments[i].memory_size
}

proof fn lemma_survey_fits(bytes: Seq<u8>, count: int)
    ensures
        survey(bytes, count) matches Ok(found) ==> segments_fit(found.segments, bytes.len()),
    decreases count,
{
    if count > 0 {
        lemma_survey_fits(bytes, count - 1);
    }
}

/// A failure at one program header is a failure of the file.
proof fn lemma_survey_stops(bytes: Seq<u8>, count: int, total: int)
    requires
        0 <= count <= total,
        survey(bytes, count).is_err(),
    ensures
        survey(bytes, total) == survey(bytes, count),
    decreases total - count,
{
    if count < total {
        lemma_survey_stops(bytes, count, total - 1);
    }
}

fn power_of_two(n: u64) -> (result: bool)
    ensures
        result == is_power_of_two(n),
{
    n != 0 && n & (n - 1) == 0
}

fn read_interpreter(data: &[u8]) -> (path: Result<Vec<u8>, Error>)
    ensures
        match path {
            Ok(p) => interpreter_in(data@) == Ok::<Seq<u8>, Error>(p@),
            Err(e) => interpreter_in(data@) == Err::<Seq<u8>, Error>(e),
        },
{
    let mut nul: usize = 0;
    while nul < data.len() && data[nul] != 0
        invariant
            nul <= data@.len(),
            first_nul(data@, 0) == first_nul(data@, nul as int),
        decreases data@.len() - nul,
    {
        nul = nul + 1;
    }
    if nul >= data.len() {
        return Err(Error::InvalidElf("unterminated interpreter path"));
    }
    let mut at: usize = nul + 1;
    while at < data.len()
        invariant
            nul < at <= data@.len(),
            nul == first_nul(data@, 0),
            forall|i: int| nul < i < at ==> data@[i] == 0,
        decreases data@.len() - at,
    {
        if data[at] != 0 {
            assert(data@[at as int] != 0);
            return Err(Error::InvalidElf("invalid interpreter path"));
        }
        at = at + 1;
    }
    let path = copy_range(data, 0, nul);
    assert(path@ =~= data@.take(nul as int));
    if !is_utf8(&path) {
        return Err(Error::InvalidElf("non-UTF-8 interpreter path"));
    }
    Ok(path)
}

struct Findings {
    segments: Vec<Segment>,
    interpreter: Option<Vec<u8>>,
    phdr: Option<u64>,
}

impl View for Findings {
    type V = Survey;

    closed spec fn view(&self) -> Survey {
        Survey {
            segments: self.segments@,
            interpreter: match self.interpreter {
                Some(path) => Some(path@),
                None => None,
            },
            phdr: self.phdr,
        }
    }
}

fn survey_header(bytes: &[u8], found: &mut Findings, header: ProgramHeader) -> (result: Result<
    (),
    Error,
>)
    ensures
        match result {
            Ok(_) => surveyed(bytes@, old(found)@, header) == Ok::<Survey, Error>(final(found)@),
            Err(e) => surveyed(bytes@, old(found)@, header) == Err::<Survey, Error>(e),
        },
{
    let file_end: u64 = match header.offset.checked_add(header.file_size) {
        Some(end) => end,
        None => {
            return Err(Error::InvalidElf("segment file range overflow"));
        },
    };
    if file_end > bytes.len() as u64 {
        return Err(Error::InvalidElf("segment data outside file"));
    }
    if header.align > 1 && (!power_of_two(header.align) || header.virtual_addr % header.align
        != header.offset % header.align) {
        return Err(Error::InvalidElf("invalid segment alignment"));
    }
    match header.kind {
        Err(fault) => {
            return Err(Error::InvalidElf(fault));
        },
        Ok(SegmentKind::Load) => {
            if header.file_size > header.mem_size {
                return Err(Error::InvalidElf("load segment file size exceeds memory size"));
            }
            found.segments.push(
                Segment {
                    virtual_address: header.virtual_addr,
                    file_offset: header.offset,
                    file_size: header.file_size,
                    memory_size: header.mem_size,
                    flags: header.flags,
                },
            );
        },
        Ok(SegmentKind::Interp) => {
            if found.interpreter.is_some() {
                return Err(Error::InvalidElf("multiple interpreters"));
            }
            let data = copy_range(bytes, header.offset as usize, file_end as usize);
            match read_interpreter(&data) {
                Ok(path) => {
                    found.interpreter = Some(path);
                },
                Err(error) => {
                    return Err(error);
                },
            }
        },
        Ok(SegmentKind::Phdr) => {
            found.phdr = Some(header.virtual_addr);
        },
        Ok(SegmentKind::ShLib) => {
            return Err(Error::UnsupportedElf);
        },
        Ok(SegmentKind::Other) => {},
    }
    assert(Ok::<Survey, Error>(found@) == surveyed(bytes@, old(found)@, header));
    Ok(())
}

/// Reads what a loader needs to know of an ELF file for `arch`.
///
/// The program headers of a file that passes all header checks must start on a
/// word boundary.
pub fn parse_elf(bytes: &[u8], arch: Arch) -> (spec: Result<ElfSpec, Error>)
    requires
        headers_aligned(bytes@, arch),
    ensures
        match spec {
            Ok(s) => {
                &&& parsed(bytes@, arch) == Ok::<Image, Error>(s@)
                &&& segments_fit(s.segments@, bytes@.len())
            },
            Err(e) => parsed(bytes@, arch) == Err::<Image, Error>(e),
        },
{
    let shared = AlignedBytes::new(bytes);
    let header = match read_header(&shared) {
        Ok(header) => header,
        Err(fault) => {
            return Err(Error::InvalidElf(fault));
        },
    };
    if !header.sixty_four || !header.little_endian || header.ph_entry_size != PROGRAM_HEADER_SIZE {
        return Err(Error::UnsupportedElf);
    }
    if header.machine != Some(arch) {
        return Err(Error::UnsupportedElf);
    }
    if header.image_type != ET_EXEC && header.image_type != ET_DYN {
        return Err(Error::UnsupportedElf);
    }
    assert(header.ph_entry_size * header.ph_count <= 56 * 0xffff) by (nonlinear_arith)
        requires
            header.ph_entry_size == 56,
            header.ph_count <= 0xffff,
    ;
    let table_size: u64 = header.ph_entry_size as u64 * header.ph_count as u64;
    match header.ph_offset.checked_add(table_size) {
        None => {
            return Err(Error::InvalidElf("program header table overflow"));
        },
        Some(end) => {
            if end > bytes.len() as u64 {
                return Err(Error::InvalidElf("program header table outside file"));
            }
        },
    }
    let mut found = Findings { segments: Vec::new(), interpreter: None, phdr: None };
    let mut index: u16 = 0;
    while index < header.ph_count
        invariant
            index <= header.ph_count,
            header_error(bytes@, arch).is_none(),
            header == header_of(bytes@),
            header.ph_count == 0 || header.ph_offset % 8 == 0,
            shared@ == bytes@,
            survey(bytes@, index as int) == Ok::<Survey, Error>(found@),
        decreases header.ph_count - index,
    {
        assert(header.ph_entry_size * header.ph_count == 56 * header.ph_count);
        match read_program_header(&shared, index) {
            Err(fault) => {
                proof {
                    lemma_survey_stops(bytes@, index + 1, header.ph_count as int);
                }
                return Err(Error::InvalidElf(fault));
            },
            Ok(entry) => {
                let ghost before = found@;
                match survey_header(bytes, &mut found, entry) {
                    Ok(_) => {},
                    Err(error) => {
                        proof {
                            lemma_survey_stops(bytes@, index + 1, header.ph_count as int);
                        }
                        return Err(error);
                    },
                }
            },
        }
        index = index + 1;
    }
    proof {
        lemma_survey_fits(bytes@, header.ph_count as int);
    }
    if found.segments.len() == 0 {
        return Err(Error::InvalidElf("no loadable segments"));
    }
    Ok(
        ElfSpec {
            image_type: header.image_type,
            entry: header.entry,
            program_header_address: found.phdr,
            program_header_offset: header.ph_offset,
            program_header_size: header.ph_entry_size,
            program_header_count: header.ph_count,
            interpreter: found.interpreter,
            segments: found.segments,
        },
    )
}

/// Where an interpreter is loaded.
pub const INTERPRETER_BASE: u64 = 0x4000_0000;

/// Where a program with relative addresses is loaded.
pub const PIE_BASE: u64 = 0x2000_0000;

/// Memory to map for one part of a program: anonymous, private on fork, and
/// filled with part of the file.
#[derive(Copy, Clone, Debug, PartialEq, Eq, Structural)]
pub struct Mapping {
    /// Address of the first page.
    pub start: u64,
    /// Length in bytes.
    pub length: u64,
    /// Where in the mapping the file's bytes go.
    pub page_offset: u64,
    /// First byte of the file.
    pub file_start: usize,
    /// First byte of the file that is not loaded.
    pub file_end: usize,
    /// What the mapping allows.
    pub protection: VmProtection,
}

/// A program in memory.
#[derive(Copy, Clone, Debug, PartialEq, Eq, Structural)]
pub struct LoadedElf {
    /// Address of the first instruction.
    pub entry: u64,
    /// How far the program was moved.
    pub bias: u64,
    /// Address of the program headers.
    pub program_headers: u64,
    /// Size of a program header.
    pub program_header_size: u16,
    /// Number of program headers.
    pub program_header_count: u16,
}

/// Rounds down to a page.
pub open spec fn page_of(address: int) -> int {
    address - address % (PAGE_SIZE as int)
}

/// First page of the program.
pub open spec fn lowest_page(segments: Seq<Segment>) -> int
    decreases segments.len(),
{
    let last = page_of(segments.last().virtual_address as int);
    if segments.len() <= 1 {
        last
    } else {
        let rest = lowest_page(segments.drop_last());
        if last < rest {
            last
        } else {
            rest
        }
    }
}

/// How far a program that asks for `base` is moved.
pub open spec fn bias_of(image_type: u16, segments: Seq<Segment>, base: u64) -> Result<u64, Error> {
    if segments.len() == 0 {
        Err(Error::InvalidElf("no loadable segments"))
    } else if image_type == ET_EXEC {
        Ok(0)
    } else if image_type == ET_DYN {
        if base < lowest_page(segments) {
            Err(Error::InvalidElf("invalid load base"))
        } else {
            Ok((base - lowest_page(segments)) as u64)
        }
    } else {
        Err(Error::UnsupportedElf)
    }
}

/// What flags allow.
pub open spec fn protection_of(flags: u32) -> VmProtection {
    VmProtection {
        read: (flags / 4) % 2 == 1,
        write: (flags / 2) % 2 == 1,
        execute: flags % 2 == 1,
    }
}

/// The mapping for one part, if it needs memory.
pub open spec fn mapping_of(segment: Segment, bias: u64) -> Result<Option<Mapping>, Error> {
    let address = segment.virtual_address + bias;
    let page_offset = address % (PAGE_SIZE as int);
    let needed = page_offset + segment.memory_size;
    if segment.memory_size == 0 {
        Ok(None)
    } else if segment.virtual_address % PAGE_SIZE != segment.file_offset % PAGE_SIZE {
        Err(Error::InvalidElf("load segment page offsets differ"))
    } else if address > u64::MAX {
        Err(Error::InvalidElf("segment address overflow"))
    } else if needed > u64::MAX {
        Err(Error::InvalidElf("segment length overflow"))
    } else if needed + PAGE_SIZE - 1 > u64::MAX {
        Err(Error::InvalidElf("alignment overflow"))
    } else {
        Ok(
            Some(
                Mapping {
                    start: page_of(address) as u64,
                    length: page_of(needed + PAGE_SIZE - 1) as u64,
                    page_offset: page_offset as u64,
                    file_start: segment.file_offset as usize,
                    file_end: (segment.file_offset + segment.file_size) as usize,
                    protection: protection_of(segment.flags),
                },
            ),
        )
    }
}

/// The mappings for the parts of a program.
pub open spec fn mappings_of(segments: Seq<Segment>, bias: u64) -> Result<Seq<Mapping>, Error>
    decreases segments.len(),
{
    if segments.len() == 0 {
        Ok(Seq::empty())
    } else {
        match mappings_of(segments.drop_last(), bias) {
            Err(error) => Err(error),
            Ok(before) => match mapping_of(segments.last(), bias) {
                Err(error) => Err(error),
                Ok(None) => Ok(before),
                Ok(Some(mapping)) => Ok(before.push(mapping)),
            },
        }
    }
}

/// Where the part that holds the program headers puts them.
pub open spec fn derived_headers(
    segments: Seq<Segment>,
    offset: u64,
    bias: u64,
    at: int,
) -> Result<u64, Error>
    decreases segments.len() - at,
{
    if at >= segments.len() {
        Err(Error::InvalidElf("program headers are not loadable"))
    } else {
        let segment = segments[at];
        let end = segment.file_offset + segment.file_size;
        if end > u64::MAX {
            Err(Error::InvalidElf("segment range overflow"))
        } else if segment.file_offset <= offset < end {
            if bias + segment.virtual_address + (offset - segment.file_offset) > u64::MAX {
                Err(Error::InvalidElf("program header address overflow"))
            } else {
                Ok((bias + segment.virtual_address + (offset - segment.file_offset)) as u64)
            }
        } else {
            derived_headers(segments, offset, bias, at + 1)
        }
    }
}

impl Image {
    /// Where the program headers are in memory.
    pub open spec fn headers_at(self, bias: u64) -> Result<u64, Error> {
        match self.found.phdr {
            Some(address) => if address + bias > u64::MAX {
                Err(Error::InvalidElf("program header address overflow"))
            } else {
                Ok((address + bias) as u64)
            },
            None => derived_headers(self.found.segments, self.header_offset, bias, 0),
        }
    }

    /// The program in memory and its mappings.
    pub open spec fn mapped(self, base: u64) -> Result<(LoadedElf, Seq<Mapping>), Error> {
        match bias_of(self.image_type, self.found.segments, base) {
            Err(error) => Err(error),
            Ok(bias) => match mappings_of(self.found.segments, bias) {
                Err(error) => Err(error),
                Ok(mappings) => match self.headers_at(bias) {
                    Err(error) => Err(error),
                    Ok(program_headers) => if self.entry + bias > u64::MAX {
                        Err(Error::InvalidElf("entry address overflow"))
                    } else {
                        Ok(
                            (
                                LoadedElf {
                                    entry: (self.entry + bias) as u64,
                                    bias,
                                    program_headers,
                                    program_header_size: self.header_size,
                                    program_header_count: self.header_count,
                                },
                                mappings,
                            ),
                        )
                    },
                },
            },
        }
    }
}

proof fn lemma_mappings_stop(segments: Seq<Segment>, bias: u64, count: int)
    requires
        0 <= count <= segments.len(),
        mappings_of(segments.take(count), bias).is_err(),
    ensures
        mappings_of(segments, bias) == mappings_of(segments.take(count), bias),
    decreases segments.len() - count,
{
    if count < segments.len() {
        let longer = segments.take(count + 1);
        assert(longer.drop_last() =~= segments.take(count));
        lemma_mappings_stop(segments, bias, count + 1);
    } else {
        assert(segments.take(count) =~= segments);
    }
}

proof fn lemma_flags(flags: u32)
    ensures
        (flags & 4 == 4) == ((flags / 4) % 2 == 1),
        (flags & 2 == 2) == ((flags / 2) % 2 == 1),
        (flags & 1 == 1) == (flags % 2 == 1),
{
    assert((flags & 4 == 4) == ((flags / 4) % 2 == 1) && (flags & 2 == 2) == ((flags / 2) % 2 == 1)
        && (flags & 1 == 1) == (flags % 2 == 1)) by (bit_vector);
}

fn protection_from_flags(flags: u32) -> (protection: VmProtection)
    ensures
        protection == protection_of(flags),
{
    proof {
        lemma_flags(flags);
    }
    VmProtection { read: flags & 4 == 4, write: flags & 2 == 2, execute: flags & 1 == 1 }
}

fn checked_align_up(value: u64) -> (aligned: Result<u64, Error>)
    ensures
        aligned == if value + PAGE_SIZE - 1 > u64::MAX {
            Err::<u64, Error>(Error::InvalidElf("alignment overflow"))
        } else {
            Ok(page_of(value + PAGE_SIZE - 1) as u64)
        },
{
    match value.checked_add(PAGE_SIZE - 1) {
        Some(sum) => Ok(align_down(sum)),
        None => Err(Error::InvalidElf("alignment overflow")),
    }
}

fn map_segment(segment: &Segment, bias: u64) -> (mapping: Result<Option<Mapping>, Error>)
    requires
        segment.file_offset + segment.file_size <= usize::MAX,
    ensures
        mapping == mapping_of(*segment, bias),
{
    if segment.memory_size == 0 {
        return Ok(None);
    }
    if segment.virtual_address % PAGE_SIZE != segment.file_offset % PAGE_SIZE {
        return Err(Error::InvalidElf("load segment page offsets differ"));
    }
    let virtual_address: u64 = match segment.virtual_address.checked_add(bias) {
        Some(address) => address,
        None => {
            return Err(Error::InvalidElf("segment address overflow"));
        },
    };
    let start: u64 = align_down(virtual_address);
    let page_offset: u64 = virtual_address - start;
    let needed: u64 = match page_offset.checked_add(segment.memory_size) {
        Some(needed) => needed,
        None => {
            return Err(Error::InvalidElf("segment length overflow"));
        },
    };
    let length: u64 = match checked_align_up(needed) {
        Ok(length) => length,
        Err(error) => {
            return Err(error);
        },
    };
    Ok(
        Some(
            Mapping {
                start,
                length,
                page_offset,
                file_start: segment.file_offset as usize,
                file_end: (segment.file_offset + segment.file_size) as usize,
                protection: protection_from_flags(segment.flags),
            },
        ),
    )
}

fn load_bias(spec: &ElfSpec, requested_base: u64) -> (bias: Result<u64, Error>)
    ensures
        bias == bias_of(spec.image_type, spec.segments@, requested_base),
{
    if spec.segments.len() == 0 {
        return Err(Error::InvalidElf("no loadable segments"));
    }
    let mut minimum: u64 = align_down(spec.segments[0].virtual_address);
    let mut at: usize = 1;
    proof {
        assert(spec.segments@.take(1).last() == spec.segments@[0]);
    }
    while at < spec.segments.len()
        invariant
            1 <= at <= spec.segments@.len(),
            minimum == lowest_page(spec.segments@.take(at as int)),
        decreases spec.segments@.len() - at,
    {
        let page: u64 = align_down(spec.segments[at].virtual_address);
        proof {
            let longer = spec.segments@.take(at + 1);
            assert(longer.drop_last() =~= spec.segments@.take(at as int));
            assert(longer.last() == spec.segments@[at as int]);
        }
        if page < minimum {
            minimum = page;
        }
        at = at + 1;
    }
    assert(spec.segments@.take(at as int) =~= spec.segments@);
    if spec.image_type == ET_EXEC {
        Ok(0)
    } else if spec.image_type == ET_DYN {
        match requested_base.checked_sub(minimum) {
            Some(bias) => Ok(bias),
            None => Err(Error::InvalidElf("invalid load base")),
        }
    } else {
        Err(Error::UnsupportedElf)
    }
}

fn derive_program_header_address(spec: &ElfSpec, bias: u64) -> (address: Result<u64, Error>)
    ensures
        address == derived_headers(spec.segments@, spec.program_header_offset, bias, 0),
{
    let mut at: usize = 0;
    while at < spec.segments.len()
        invariant
            at <= spec.segments@.len(),
            derived_headers(spec.segments@, spec.program_header_offset, bias, 0)
                == derived_headers(spec.segments@, spec.program_header_offset, bias, at as int),
        decreases spec.segments@.len() - at,
    {
        let segment = spec.segments[at];
        let segment_end: u64 = match segment.file_offset.checked_add(segment.file_size) {
            Some(end) => end,
            None => {
                return Err(Error::InvalidElf("segment range overflow"));
            },
        };
        if spec.program_header_offset >= segment.file_offset && spec.program_header_offset
            < segment_end {
            if let Some(base) = bias.checked_add(segment.virtual_address) {
                if let Some(address) = base.checked_add(
                    spec.program_header_offset - segment.file_offset,
                ) {
                    return Ok(address);
                }
            }
            return Err(Error::InvalidElf("program header address overflow"));
        }
        at = at + 1;
    }
    Err(Error::InvalidElf("program headers are not loadable"))
}

/// Places a program in memory.
///
/// Returns where it is and what has to be mapped.
pub fn map_elf(spec: &ElfSpec, requested_base: u64) -> (loaded: Result<
    (LoadedElf, Vec<Mapping>),
    Error,
>)
    requires
        segments_fit(spec.segments@, usize::MAX as nat),
    ensures
        match loaded {
            Ok((program, mappings)) => spec@.mapped(requested_base) == Ok::<
                (LoadedElf, Seq<Mapping>),
                Error,
            >((program, mappings@)),
            Err(e) => spec@.mapped(requested_base) == Err::<(LoadedElf, Seq<Mapping>), Error>(e),
        },
{
    let bias: u64 = match load_bias(spec, requested_base) {
        Ok(bias) => bias,
        Err(error) => {
            return Err(error);
        },
    };
    let mut mappings: Vec<Mapping> = Vec::new();
    let mut at: usize = 0;
    while at < spec.segments.len()
        invariant
            at <= spec.segments@.len(),
            segments_fit(spec.segments@, usize::MAX as nat),
            bias_of(spec.image_type, spec.segments@, requested_base) == Ok::<u64, Error>(bias),
            mappings_of(spec.segments@.take(at as int), bias) == Ok::<Seq<Mapping>, Error>(
                mappings@,
            ),
        decreases spec.segments@.len() - at,
    {
        let ghost longer = spec.segments@.take(at + 1);
        proof {
            assert(longer.drop_last() =~= spec.segments@.take(at as int));
            assert(longer.last() == spec.segments@[at as int]);
        }
        match map_segment(&spec.segments[at], bias) {
            Err(error) => {
                proof {
                    lemma_mappings_stop(spec.segments@, bias, at + 1);
                }
                return Err(error);
            },
            Ok(None) => {},
            Ok(Some(mapping)) => {
                mappings.push(mapping);
            },
        }
        at = at + 1;
    }
    assert(spec.segments@.take(at as int) =~= spec.segments@);
    let program_headers: u64 = match spec.program_header_address {
        Some(address) => match address.checked_add(bias) {
            Some(moved) => moved,
            None => {
                return Err(Error::InvalidElf("program header address overflow"));
            },
        },
        None => match derive_program_header_address(spec, bias) {
            Ok(address) => address,
            Err(error) => {
                return Err(error);
            },
        },
    };
    match spec.entry.checked_add(bias) {
        Some(entry) => Ok(
            (
                LoadedElf {
                    entry,
                    bias,
                    program_headers,
                    program_header_size: spec.program_header_size,
                    program_header_count: spec.program_header_count,
                },
                mappings,
            ),
        ),
        None => Err(Error::InvalidElf("entry address overflow")),
    }
}

/// A mapping starts and ends on page boundaries and has room for the part's
/// bytes at the place where the program expects them.
pub proof fn law_mapping_holds_segment(segment: Segment, bias: u64, mapping: Mapping)
    requires
        segment.file_size <= segment.memory_size,
        mapping_of(segment, bias) == Ok::<Option<Mapping>, Error>(Some(mapping)),
    ensures
        mapping.start % PAGE_SIZE == 0,
        mapping.length % PAGE_SIZE == 0,
        mapping.start + mapping.page_offset == segment.virtual_address + bias,
        mapping.page_offset + segment.memory_size <= mapping.length,
        mapping.length < mapping.page_offset + segment.memory_size + PAGE_SIZE,
        mapping.page_offset < PAGE_SIZE,
{
}

/// Size of the initial stack.
pub const STACK_SIZE: u64 = 1024 * 1024;

/// Alignment of the stack pointer and of the random bytes.
pub const STACK_ALIGN: usize = 16;

/// Auxiliary entry: end of the vector.
pub const AT_NULL: u64 = 0;

/// Auxiliary entry: address of the program headers.
pub const AT_PHDR: u64 = 3;

/// Auxiliary entry: size of a program header.
pub const AT_PHENT: u64 = 4;

/// Auxiliary entry: number of program headers.
pub const AT_PHNUM: u64 = 5;

/// Auxiliary entry: page size.
pub const AT_PAGESZ: u64 = 6;

/// Auxiliary entry: how far the interpreter was moved.
pub const AT_BASE: u64 = 7;

/// Auxiliary entry: first instruction of the program.
pub const AT_ENTRY: u64 = 9;

/// Auxiliary entry: user.
pub const AT_UID: u64 = 11;

/// Auxiliary entry: effective user.
pub const AT_EUID: u64 = 12;

/// Auxiliary entry: group.
pub const AT_GID: u64 = 13;

/// Auxiliary entry: effective group.
pub const AT_EGID: u64 = 14;

/// Auxiliary entry: whether privileges were raised.
pub const AT_SECURE: u64 = 23;

/// Auxiliary entry: address of random bytes.
pub const AT_RANDOM: u64 = 25;

/// Auxiliary entry: address of the path of the program.
pub const AT_EXECFN: u64 = 31;

/// The used part of a stack after `value` and `padding` zero bytes were put on
/// top of `region`.
pub open spec fn on_top(region: Seq<u8>, value: Seq<u8>, padding: nat) -> Seq<u8> {
    value + zeros(padding) + region
}

/// The used part of a stack after a string was pushed.
pub open spec fn with_string(region: Seq<u8>, value: Seq<u8>) -> Seq<u8> {
    on_top(region, value, 1)
}

/// The used part of a stack after `value` was pushed to an aligned place.
pub open spec fn with_aligned(region: Seq<u8>, value: Seq<u8>) -> Seq<u8> {
    on_top(
        region,
        value,
        ((STACK_SIZE - region.len() - value.len()) % (STACK_ALIGN as int)) as nat,
    )
}

/// The used part of a stack after all strings were pushed in order.
pub open spec fn with_strings(region: Seq<u8>, values: Seq<Vec<u8>>) -> Seq<u8>
    decreases values.len(),
{
    if values.len() == 0 {
        region
    } else {
        with_string(with_strings(region, values.drop_last()), values.last()@)
    }
}

/// Address of the top of a stack with used part `region`.
pub open spec fn top_of(base: u64, region: Seq<u8>) -> u64 {
    (base + STACK_SIZE - region.len()) as u64
}

/// Address of each of the strings pushed on `region`.
pub open spec fn string_pointers(base: u64, region: Seq<u8>, values: Seq<Vec<u8>>) -> Seq<u64> {
    Seq::new(values.len(), |i: int| top_of(base, with_strings(region, values.take(i + 1))))
}

/// What the initial stack of a program is built from.
pub struct StackInput {
    /// Path of the program.
    pub executable: Vec<u8>,
    /// Arguments.
    pub arguments: Vec<Vec<u8>>,
    /// Environment.
    pub environment: Vec<Vec<u8>>,
    /// Where the program was loaded.
    pub main: LoadedElf,
    /// How far the interpreter was moved.
    pub interpreter_base: u64,
    /// Random bytes for the program.
    pub random: [u8; 16],
}

impl StackInput {
    /// The stack with the arguments.
    pub open spec fn argument_region(self) -> Seq<u8> {
        with_strings(Seq::empty(), self.arguments@)
    }

    /// The stack with the environment.
    pub open spec fn environment_region(self) -> Seq<u8> {
        with_strings(self.argument_region(), self.environment@)
    }

    /// The stack with the path of the program.
    pub open spec fn executable_region(self) -> Seq<u8> {
        with_string(self.environment_region(), self.executable@)
    }

    /// The stack with the random bytes.
    pub open spec fn random_region(self) -> Seq<u8> {
        with_aligned(self.executable_region(), self.random@)
    }

    /// The words on top of the stack of a program.
    pub open spec fn words(self, base: u64) -> Seq<u64> {
        seq![self.arguments@.len() as u64] + string_pointers(
            base,
            Seq::empty(),
            self.arguments@,
        ) + seq![0u64] + string_pointers(base, self.argument_region(), self.environment@)
            + seq![0u64] + self.auxiliary(base)
    }

    /// The auxiliary vector of a program.
    pub open spec fn auxiliary(self, base: u64) -> Seq<u64> {
        seq![
            AT_PHDR,
            self.main.program_headers,
            AT_PHENT,
            self.main.program_header_size as u64,
            AT_PHNUM,
            self.main.program_header_count as u64,
            AT_PAGESZ,
            PAGE_SIZE,
            AT_BASE,
            self.interpreter_base,
            AT_ENTRY,
            self.main.entry,
            AT_UID,
            0,
            AT_EUID,
            0,
            AT_GID,
            0,
            AT_EGID,
            0,
            AT_SECURE,
            0,
            AT_RANDOM,
            top_of(base, self.random_region()),
            AT_EXECFN,
            top_of(base, self.executable_region()),
            AT_NULL,
            0,
        ]
    }

    /// The used part of the initial stack.
    pub open spec fn stack_region(self, base: u64) -> Seq<u8> {
        with_aligned(self.random_region(), words_bytes(self.words(base)))
    }

    /// Whether a program can be started with this stack below `range.max`.
    pub open spec fn can_start(self, range: UserRange) -> bool {
        &&& self.arguments@.len() > 0
        &&& range.max - PAGE_SIZE >= STACK_SIZE
        &&& self.stack_region(stack_base(range)).len() <= STACK_SIZE
    }
}

/// Address of the stack: one page below the end of the user addresses.
pub open spec fn stack_base(range: UserRange) -> u64 {
    (range.max - PAGE_SIZE - STACK_SIZE) as u64
}

/// The initial stack of a program: readable, writable, private on fork.
pub struct StackImage {
    /// Address of the stack.
    pub base: u64,
    /// Length of the stack.
    pub length: u64,
    /// Initial stack pointer.
    pub pointer: u64,
    /// Bytes from the stack pointer to the end of the stack.
    pub bytes: Vec<u8>,
}

/// A stack whose used part is `region`.
spec fn holds(stack: Seq<u8>, region: Seq<u8>) -> bool {
    &&& stack.len() == STACK_SIZE
    &&& region.len() <= STACK_SIZE
    &&& stack == zeros((STACK_SIZE - region.len()) as nat) + region
}

proof fn lemma_strings_grow(region: Seq<u8>, values: Seq<Vec<u8>>, count: int)
    requires
        0 <= count <= values.len(),
    ensures
        with_strings(region, values.take(count)).len() <= with_strings(region, values).len(),
    decreases values.len() - count,
{
    if count == values.len() {
        assert(values.take(count) =~= values);
    } else {
        let longer = values.take(count + 1);
        assert(longer.drop_last() =~= values.take(count));
        lemma_strings_grow(region, values, count + 1);
    }
}

proof fn lemma_stack_grows(input: StackInput, base: u64)
    ensures
        input.argument_region().len() <= input.environment_region().len()
            <= input.executable_region().len() <= input.random_region().len()
            <= input.stack_region(base).len(),
{
    lemma_strings_grow(input.argument_region(), input.environment@, 0);
    assert(input.environment@.take(0) =~= Seq::empty());
}

fn push_bytes(
    stack: &mut Vec<u8>,
    cursor: usize,
    value: &[u8],
    padding: usize,
    Ghost(region): Ghost<Seq<u8>>,
) -> (top: usize)
    requires
        holds(old(stack)@, region),
        cursor == STACK_SIZE - region.len(),
        padding + value@.len() <= cursor,
    ensures
        holds(final(stack)@, on_top(region, value@, padding as nat)),
        top == STACK_SIZE - on_top(region, value@, padding as nat).len(),
{
    let top: usize = cursor - padding - value.len();
    let mut at: usize = 0;
    while at < value.len()
        invariant
            at <= value@.len(),
            top + value@.len() + padding == cursor,
            cursor == STACK_SIZE - region.len(),
            stack@.len() == STACK_SIZE,
            region.len() <= STACK_SIZE,
            stack@ == zeros(top as nat) + value@.take(at as int) + zeros(
                (padding + value@.len() - at) as nat,
            ) + region,
        decreases value@.len() - at,
    {
        stack.set(top + at, value[at]);
        at = at + 1;
        assert(stack@ =~= zeros(top as nat) + value@.take(at as int) + zeros(
            (padding + value@.len() - at) as nat,
        ) + region);
    }
    assert(value@.take(at as int) =~= value@);
    assert(stack@ =~= zeros(top as nat) + on_top(region, value@, padding as nat));
    top
}

fn push_strings(
    stack: &mut Vec<u8>,
    cursor: usize,
    stack_base: u64,
    values: &Vec<Vec<u8>>,
    Ghost(region): Ghost<Seq<u8>>,
) -> (pushed: Option<(usize, Vec<u64>)>)
    requires
        holds(old(stack)@, region),
        cursor == STACK_SIZE - region.len(),
        stack_base + STACK_SIZE <= u64::MAX,
    ensures
        pushed.is_some() == (with_strings(region, values@).len() <= STACK_SIZE),
        pushed matches Some((top, pointers)) ==> {
            &&& holds(final(stack)@, with_strings(region, values@))
            &&& top == STACK_SIZE - with_strings(region, values@).len()
            &&& pointers@ == string_pointers(stack_base, region, values@)
        },
{
    let mut top: usize = cursor;
    let mut pointers: Vec<u64> = Vec::new();
    let mut at: usize = 0;
    assert(values@.take(0) =~= Seq::empty());
    while at < values.len()
        invariant
            at <= values@.len(),
            stack_base + STACK_SIZE <= u64::MAX,
            holds(stack@, with_strings(region, values@.take(at as int))),
            top == STACK_SIZE - with_strings(region, values@.take(at as int)).len(),
            pointers@ =~= string_pointers(stack_base, region, values@).take(at as int),
        decreases values@.len() - at,
    {
        let ghost longer = values@.take(at + 1);
        proof {
            assert(longer.drop_last() =~= values@.take(at as int));
            assert(longer.last() == values@[at as int]);
        }
        let value = &values[at];
        if value.len() >= top {
            proof {
                lemma_strings_grow(region, values@, at + 1);
            }
            return None;
        }
        top = push_bytes(
            stack,
            top,
            value,
            1,
            Ghost(with_strings(region, values@.take(at as int))),
        );
        pointers.push(stack_base + top as u64);
        at = at + 1;
    }
    assert(values@.take(at as int) =~= values@);
    Some((top, pointers))
}

fn stack_words(
    input: &StackInput,
    base: u64,
    argument_pointers: &Vec<u64>,
    environment_pointers: &Vec<u64>,
    random_pointer: u64,
    executable_pointer: u64,
) -> (bytes: Vec<u8>)
    requires
        argument_pointers@ == string_pointers(base, Seq::empty(), input.arguments@),
        environment_pointers@ == string_pointers(
            base,
            input.argument_region(),
            input.environment@,
        ),
        random_pointer == top_of(base, input.random_region()),
        executable_pointer == top_of(base, input.executable_region()),
    ensures
        bytes@ == words_bytes(input.words(base)),
{
    let mut words: Vec<u64> = Vec::new();
    words.push(input.arguments.len() as u64);
    push_words(&mut words, argument_pointers);
    words.push(0);
    push_words(&mut words, environment_pointers);
    words.push(0);
    let auxiliary: [u64; 28] = [
        AT_PHDR,
        input.main.program_headers,
        AT_PHENT,
        input.main.program_header_size as u64,
        AT_PHNUM,
        input.main.program_header_count as u64,
        AT_PAGESZ,
        PAGE_SIZE,
        AT_BASE,
        input.interpreter_base,
        AT_ENTRY,
        input.main.entry,
        AT_UID,
        0,
        AT_EUID,
        0,
        AT_GID,
        0,
        AT_EGID,
        0,
        AT_SECURE,
        0,
        AT_RANDOM,
        random_pointer,
        AT_EXECFN,
        executable_pointer,
        AT_NULL,
        0,
    ];
    push_words(&mut words, &auxiliary);
    assert(auxiliary@ =~= input.auxiliary(base));
    assert(words@ =~= input.words(base));
    let mut bytes: Vec<u8> = Vec::new();
    let mut at: usize = 0;
    while at < words.len()
        invariant
            at <= words@.len(),
            bytes@ == words_bytes(words@.take(at as int)),
        decreases words@.len() - at,
    {
        proof {
            let longer = words@.take(at + 1);
            assert(longer.drop_last() =~= words@.take(at as int));
            assert(longer.last() == words@[at as int]);
        }
        put_u64(&mut bytes, words[at]);
        at = at + 1;
    }
    assert(words@.take(at as int) =~= words@);
    bytes
}

fn push_words(words: &mut Vec<u64>, more: &[u64])
    ensures
        final(words)@ == old(words)@ + more@,
{
    let mut at: usize = 0;
    while at < more.len()
        invariant
            at <= more@.len(),
            words@ =~= old(words)@ + more@.take(at as int),
        decreases more@.len() - at,
    {
        words.push(more[at]);
        at = at + 1;
    }
    assert(more@.take(at as int) =~= more@);
}

/// Builds the initial stack of a program: argument count, arguments,
/// environment and auxiliary vector on top of the strings they point to.
pub fn build_stack(input: &StackInput, range: &UserRange) -> (image: Result<StackImage, Error>)
    requires
        range.wf(),
    ensures
        image.is_ok() == input.can_start(*range),
        image matches Err(e) ==> e == Error::InvalidArgument,
        image matches Ok(stack) ==> {
            &&& stack.base == stack_base(*range)
            &&& stack.length == STACK_SIZE
            &&& stack.bytes@ == input.stack_region(stack.base)
            &&& stack.pointer == top_of(stack.base, stack.bytes@)
            &&& stack.pointer % 16 == stack.base % 16
        },
{
    if input.arguments.len() == 0 {
        return Err(Error::InvalidArgument);
    }
    let base: u64 = match (range.max - PAGE_SIZE).checked_sub(STACK_SIZE) {
        Some(base) => base,
        None => {
            return Err(Error::InvalidArgument);
        },
    };
    proof {
        lemma_stack_grows(*input, base);
    }
    let mut stack: Vec<u8> = Vec::new();
    put_zeros(&mut stack, STACK_SIZE as usize);
    assert(stack@ =~= zeros(STACK_SIZE as nat) + Seq::<u8>::empty());
    let (cursor, argument_pointers) = match push_strings(
        &mut stack,
        STACK_SIZE as usize,
        base,
        &input.arguments,
        Ghost(Seq::empty()),
    ) {
        Some(pushed) => pushed,
        None => {
            return Err(Error::InvalidArgument);
        },
    };
    let (cursor, environment_pointers) = match push_strings(
        &mut stack,
        cursor,
        base,
        &input.environment,
        Ghost(input.argument_region()),
    ) {
        Some(pushed) => pushed,
        None => {
            return Err(Error::InvalidArgument);
        },
    };
    if input.executable.len() >= cursor {
        return Err(Error::InvalidArgument);
    }
    let cursor: usize = push_bytes(
        &mut stack,
        cursor,
        &input.executable,
        1,
        Ghost(input.environment_region()),
    );
    let executable_pointer: u64 = base + cursor as u64;
    if cursor < 16 {
        assert(input.random_region().len() >= input.executable_region().len() + 16);
        return Err(Error::InvalidArgument);
    }
    let cursor: usize = push_bytes(
        &mut stack,
        cursor,
        &input.random,
        (cursor - 16) % STACK_ALIGN,
        Ghost(input.executable_region()),
    );
    let random_pointer: u64 = base + cursor as u64;
    let words = stack_words(
        input,
        base,
        &argument_pointers,
        &environment_pointers,
        random_pointer,
        executable_pointer,
    );
    if words.len() > cursor {
        return Err(Error::InvalidArgument);
    }
    let padding: usize = (cursor - words.len()) % STACK_ALIGN;
    let cursor: usize = push_bytes(
        &mut stack,
        cursor,
        &words,
        padding,
        Ghost(input.random_region()),
    );
    let bytes = copy_range(&stack, cursor, STACK_SIZE as usize);
    assert(bytes@ =~= input.stack_region(base));
    Ok(StackImage { base, length: STACK_SIZE, pointer: base + cursor as u64, bytes })
}

/// The end of a stack is what was there before more was pushed.
spec fn ends_with(region: Seq<u8>, end: Seq<u8>) -> bool {
    end.len() <= region.len() && region.skip(region.len() - end.len()) == end
}

proof fn lemma_ends_trans(a: Seq<u8>, b: Seq<u8>, c: Seq<u8>)
    requires
        ends_with(a, b),
        ends_with(b, c),
    ensures
        ends_with(a, c),
{
    assert(a.skip(a.len() - c.len()) =~= b.skip(b.len() - c.len()));
}

proof fn lemma_on_top_ends(region: Seq<u8>, value: Seq<u8>, padding: nat)
    ensures
        ends_with(on_top(region, value, padding), region),
        on_top(region, value, padding).take(value.len() as int) == value,
{
    let whole = on_top(region, value, padding);
    assert(whole.skip(whole.len() - region.len()) =~= region);
    assert(whole.take(value.len() as int) =~= value);
}

proof fn lemma_strings_end(region: Seq<u8>, values: Seq<Vec<u8>>, count: int)
    requires
        0 <= count <= values.len(),
    ensures
        ends_with(with_strings(region, values), with_strings(region, values.take(count))),
    decreases values.len() - count,
{
    if count == values.len() {
        assert(values.take(count) =~= values);
        let whole = with_strings(region, values);
        assert(whole.skip(0) =~= whole);
    } else {
        let longer = values.take(count + 1);
        assert(longer.drop_last() =~= values.take(count));
        lemma_on_top_ends(with_strings(region, values.take(count)), longer.last()@, 1);
        lemma_strings_end(region, values, count + 1);
        lemma_ends_trans(
            with_strings(region, values),
            with_strings(region, longer),
            with_strings(region, values.take(count)),
        );
    }
}

proof fn lemma_stack_ends(input: StackInput, base: u64)
    ensures
        ends_with(input.stack_region(base), input.environment_region()),
        ends_with(input.stack_region(base), input.argument_region()),
        input.stack_region(base).take(words_bytes(input.words(base)).len() as int) == words_bytes(
            input.words(base),
        ),
        words_bytes(input.words(base)).len() <= input.stack_region(base).len(),
{
    let arguments = input.argument_region();
    let environment = input.environment_region();
    let executable = input.executable_region();
    let random = input.random_region();
    let whole = input.stack_region(base);
    lemma_strings_end(arguments, input.environment@, 0);
    assert(input.environment@.take(0) =~= Seq::empty());
    lemma_on_top_ends(environment, input.executable@, 1);
    lemma_on_top_ends(
        executable,
        input.random@,
        ((STACK_SIZE - executable.len() - input.random@.len()) % (STACK_ALIGN as int)) as nat,
    );
    let words = words_bytes(input.words(base));
    lemma_on_top_ends(
        random,
        words,
        ((STACK_SIZE - random.len() - words.len()) % (STACK_ALIGN as int)) as nat,
    );
    lemma_ends_trans(whole, random, executable);
    lemma_ends_trans(whole, executable, environment);
    lemma_ends_trans(whole, environment, arguments);
}

proof fn lemma_string_in(whole: Seq<u8>, base: u64, region: Seq<u8>, values: Seq<Vec<u8>>, i: int)
    requires
        ends_with(whole, with_strings(region, values)),
        whole.len() <= STACK_SIZE,
        base + STACK_SIZE <= u64::MAX,
        0 <= i < values.len(),
    ensures
        ({
            let offset = string_pointers(base, region, values)[i] - top_of(base, whole);
            &&& 0 <= offset
            &&& offset + values[i]@.len() < whole.len()
            &&& whole.subrange(offset, offset + values[i]@.len()) == values[i]@
            &&& whole[offset + values[i]@.len()] == 0
        }),
{
    let own = with_strings(region, values.take(i + 1));
    lemma_strings_end(region, values, i + 1);
    lemma_ends_trans(whole, with_strings(region, values), own);
    let before = values.take(i + 1).drop_last();
    let below = with_strings(region, before);
    assert(values.take(i + 1).last() == values[i]);
    assert(own == on_top(below, values[i]@, 1));
    let offset = whole.len() - own.len();
    let text = values[i]@;
    assert(whole.skip(offset) == own);
    assert(whole.subrange(offset, offset + text.len()) =~= text) by {
        assert forall|k: int| 0 <= k < text.len() implies whole[offset + k] == text[k] by {
            assert(whole.skip(offset)[k] == own[k]);
        }
    }
    assert(whole.skip(offset)[text.len() as int] == own[text.len() as int]);
}

/// A program finds each of its arguments: the argument count is on top of the
/// stack, the pointers follow, and each points to its zero-terminated string.
pub proof fn law_arguments_are_on_stack(input: StackInput, range: UserRange, i: int)
    requires
        range.wf(),
        input.can_start(range),
        0 <= i < input.arguments@.len(),
    ensures
        ({
            let base = stack_base(range);
            let stack = input.stack_region(base);
            let text = input.arguments@[i]@;
            let offset = u64_at(stack, 8 * (i + 1)) - top_of(base, stack);
            &&& u64_at(stack, 0) == input.arguments@.len()
            &&& 0 <= offset
            &&& offset + text.len() < stack.len()
            &&& stack.subrange(offset, offset + text.len()) == text
            &&& stack[offset + text.len()] == 0
        }),
{
    let base = stack_base(range);
    let stack = input.stack_region(base);
    let words = input.words(base);
    lemma_stack_ends(input, base);
    lemma_word(input, base, 0);
    lemma_word(input, base, i + 1);
    lemma_words_len(words);
    lemma_string_in(stack, base, Seq::empty(), input.arguments@, i);
    assert(words[i + 1] == string_pointers(base, Seq::empty(), input.arguments@)[i]);
    assert(input.arguments@.len() <= words.len());
}

/// A program finds each of its environment strings behind the arguments.
pub proof fn law_environment_is_on_stack(input: StackInput, range: UserRange, i: int)
    requires
        range.wf(),
        input.can_start(range),
        0 <= i < input.environment@.len(),
    ensures
        ({
            let base = stack_base(range);
            let stack = input.stack_region(base);
            let text = input.environment@[i]@;
            let place = 8 * (input.arguments@.len() as int + 2 + i);
            let offset = u64_at(stack, place) - top_of(base, stack);
            &&& u64_at(stack, 8 * (input.arguments@.len() as int + 1)) == 0
            &&& 0 <= offset
            &&& offset + text.len() < stack.len()
            &&& stack.subrange(offset, offset + text.len()) == text
            &&& stack[offset + text.len()] == 0
        }),
{
    let base = stack_base(range);
    let stack = input.stack_region(base);
    let words = input.words(base);
    let count = input.arguments@.len() as int;
    lemma_stack_ends(input, base);
    lemma_word(input, base, count + 1);
    lemma_word(input, base, count + 2 + i);
    lemma_string_in(stack, base, input.argument_region(), input.environment@, i);
    assert(words[count + 2 + i] == string_pointers(
        base,
        input.argument_region(),
        input.environment@,
    )[i]);
}

proof fn lemma_word(input: StackInput, base: u64, i: int)
    requires
        0 <= i < input.words(base).len(),
    ensures
        u64_at(input.stack_region(base), 8 * i) == input.words(base)[i],
{
    let stack = input.stack_region(base);
    let words = input.words(base);
    lemma_stack_ends(input, base);
    lemma_words(words, i);
    let head = stack.take(words_bytes(words).len() as int);
    assert(stack.subrange(8 * i, 8 * i + 8) =~= head.subrange(8 * i, 8 * i + 8));
    lemma_u64_at(stack, 8 * i, words[i]);
}

/// What loading a program starts from.
pub struct LoadInput {
    /// Path of the program.
    pub path: Vec<u8>,
    /// Arguments.
    pub arguments: Vec<Vec<u8>>,
    /// Environment.
    pub environment: Vec<Vec<u8>>,
    /// Random bytes for the program.
    pub random: [u8; 16],
}

/// A program with its mappings, before its interpreter and stack are known.
pub struct MainImage {
    /// Where the program is.
    pub loaded: LoadedElf,
    /// What has to be mapped.
    pub mappings: Vec<Mapping>,
    /// Path of the interpreter, whose file has to be read next.
    pub interpreter: Option<Vec<u8>>,
}

/// A program that can be started once its memory is mapped.
pub struct LoadedProgram {
    /// First instruction.
    pub entry: u64,
    /// Initial stack.
    pub stack: StackImage,
}

/// Where a program of this kind is loaded.
pub open spec fn base_for(image: Image) -> u64 {
    if image.image_type == ET_DYN {
        PIE_BASE
    } else {
        0
    }
}

/// The program in memory, its mappings and the path of its interpreter.
pub open spec fn main_image(bytes: Seq<u8>, arch: Arch) -> Result<
    (LoadedElf, Seq<Mapping>, Option<Seq<u8>>),
    Error,
> {
    match parsed(bytes, arch) {
        Err(error) => Err(error),
        Ok(image) => match image.mapped(base_for(image)) {
            Err(error) => Err(error),
            Ok((loaded, mappings)) => Ok((loaded, mappings, image.found.interpreter)),
        },
    }
}

/// The interpreter in memory and its mappings.
pub open spec fn interpreter_image(bytes: Seq<u8>, arch: Arch) -> Result<
    (LoadedElf, Seq<Mapping>),
    Error,
> {
    match parsed(bytes, arch) {
        Err(error) => Err(error),
        Ok(image) => if image.image_type != ET_DYN {
            Err(Error::UnsupportedElf)
        } else {
            image.mapped(INTERPRETER_BASE)
        },
    }
}

/// Loads the file of a program.
pub fn load_main(bytes: &[u8], arch: Arch) -> (image: Result<MainImage, Error>)
    requires
        headers_aligned(bytes@, arch),
    ensures
        match image {
            Ok(main) => main_image(bytes@, arch) == Ok::<
                (LoadedElf, Seq<Mapping>, Option<Seq<u8>>),
                Error,
            >(
                (
                    main.loaded,
                    main.mappings@,
                    match main.interpreter {
                        Some(path) => Some(path@),
                        None => None,
                    },
                ),
            ),
            Err(e) => main_image(bytes@, arch) == Err::<
                (LoadedElf, Seq<Mapping>, Option<Seq<u8>>),
                Error,
            >(e),
        },
{
    assert(bytes@.len() <= usize::MAX) by {
        assert(bytes@.len() == bytes.len());
    }
    match parse_elf(bytes, arch) {
        Err(error) => Err(error),
        Ok(spec) => {
            let base: u64 = if spec.image_type == ET_DYN {
                PIE_BASE
            } else {
                0
            };
            match map_elf(&spec, base) {
                Err(error) => Err(error),
                Ok((loaded, mappings)) => Ok(
                    MainImage { loaded, mappings, interpreter: spec.interpreter },
                ),
            }
        },
    }
}

/// Loads the file of an interpreter.
pub fn load_interpreter(bytes: &[u8], arch: Arch) -> (image: Result<
    (LoadedElf, Vec<Mapping>),
    Error,
>)
    requires
        headers_aligned(bytes@, arch),
    ensures
        match image {
            Ok((loaded, mappings)) => interpreter_image(bytes@, arch) == Ok::<
                (LoadedElf, Seq<Mapping>),
                Error,
            >((loaded, mappings@)),
            Err(e) => interpreter_image(bytes@, arch) == Err::<(LoadedElf, Seq<Mapping>), Error>(
                e,
            ),
        },
{
    assert(bytes@.len() <= usize::MAX) by {
        assert(bytes@.len() == bytes.len());
    }
    match parse_elf(bytes, arch) {
        Err(error) => Err(error),
        Ok(spec) => {
            if spec.image_type != ET_DYN {
                return Err(Error::UnsupportedElf);
            }
            map_elf(&spec, INTERPRETER_BASE)
        },
    }
}

/// Whether this is what loading a program comes to: it starts in its
/// interpreter, if it has one, and finds its arguments on the stack.
pub open spec fn completes(
    program: Result<LoadedProgram, Error>,
    input: LoadInput,
    main: LoadedElf,
    interpreter: Option<LoadedElf>,
    range: UserRange,
) -> bool {
    let stack = StackInput {
        executable: input.path,
        arguments: input.arguments,
        environment: input.environment,
        main,
        interpreter_base: match interpreter {
            Some(i) => i.bias,
            None => 0,
        },
        random: input.random,
    };
    &&& program.is_ok() == stack.can_start(range)
    &&& program matches Err(e) ==> e == Error::InvalidArgument
    &&& program matches Ok(p) ==> {
        &&& p.entry == match interpreter {
            Some(i) => i.entry,
            None => main.entry,
        }
        &&& p.stack.base == stack_base(range)
        &&& p.stack.length == STACK_SIZE
        &&& p.stack.bytes@ == stack.stack_region(p.stack.base)
        &&& p.stack.pointer == top_of(p.stack.base, p.stack.bytes@)
    }
}

/// Completes a loaded program: it starts in its interpreter, if it has one,
/// and finds its arguments on the stack.
pub fn load(
    input: LoadInput,
    main: &LoadedElf,
    interpreter: Option<&LoadedElf>,
    range: &UserRange,
) -> (program: Result<LoadedProgram, Error>)
    requires
        range.wf(),
    ensures
        completes(
            program,
            input,
            *main,
            match interpreter {
                Some(i) => Some(*i),
                None => None,
            },
            *range,
        ),
{
    let (entry, interpreter_base) = match interpreter {
        Some(loaded) => (loaded.entry, loaded.bias),
        None => (main.entry, 0),
    };
    let stack = StackInput {
        executable: input.path,
        arguments: input.arguments,
        environment: input.environment,
        main: *main,
        interpreter_base,
        random: input.random,
    };
    match build_stack(&stack, range) {
        Ok(stack) => Ok(LoadedProgram { entry, stack }),
        Err(error) => Err(error),
    }
}

/// How far a file has been read.
#[derive(Copy, Clone, Debug, PartialEq, Eq, Structural)]
pub enum ReadStep {
    /// Read on at this place.
    More(usize),
    /// All is read.
    Done,
}

/// Continues reading a file of `size` bytes after `read` bytes came at
/// `offset`; a file that ends early is refused.
pub fn read_file(size: usize, offset: usize, read: usize) -> (step: Result<ReadStep, Error>)
    requires
        offset < size,
        offset + read <= size,
    ensures
        step == if read == 0 {
            Err::<ReadStep, Error>(Error::InvalidElf("unexpected end of file"))
        } else if offset + read == size {
            Ok(ReadStep::Done)
        } else {
            Ok(ReadStep::More((offset + read) as usize))
        },
{
    if read == 0 {
        return Err(Error::InvalidElf("unexpected end of file"));
    }
    if offset + read == size {
        Ok(ReadStep::Done)
    } else {
        Ok(ReadStep::More(offset + read))
    }
}

/// Whether a mapping puts a segment where it belongs: on whole pages around its
/// address, with its bytes of the file and with the access that its flags give.
pub open spec fn lays_out(mapping: Mapping, segment: Segment, bias: u64) -> bool {
    &&& mapping.start % 4096 == 0
    &&& mapping.length % 4096 == 0
    &&& mapping.start <= segment.virtual_address + bias
    &&& segment.virtual_address + bias + segment.memory_size <= mapping.start + mapping.length
    &&& mapping.length < mapping.page_offset + segment.memory_size + 4096
    &&& mapping.page_offset == segment.virtual_address + bias - mapping.start
    &&& mapping.page_offset < 4096
    &&& mapping.file_start == segment.file_offset
    &&& mapping.file_end - mapping.file_start == segment.file_size
    &&& mapping.protection.read <==> segment.flags & 4 != 0
    &&& mapping.protection.write <==> segment.flags & 2 != 0
    &&& mapping.protection.execute <==> segment.flags & 1 != 0
}

proof fn lemma_flag_bits(flags: u32)
    by (bit_vector)
    ensures
        (flags / 4) % 2 == 1 <==> flags & 4 != 0,
        (flags / 2) % 2 == 1 <==> flags & 2 != 0,
        flags % 2 == 1 <==> flags & 1 != 0,
{
}

/// A mapped segment can be read, written and executed exactly as its flags
/// say, and holds exactly its bytes of the file at its address. Only a segment
/// without memory is not mapped.
pub proof fn law_mapping_follows_segment(segment: Segment, bias: u64)
    requires
        segment.file_offset + segment.file_size <= usize::MAX,
        mapping_of(segment, bias).is_ok(),
    ensures
        mapping_of(segment, bias)->Ok_0.is_none() <==> segment.memory_size == 0,
        mapping_of(segment, bias)->Ok_0 matches Some(mapping) ==> lays_out(mapping, segment, bias)
            && (mapping.protection.write <==> segment.flags & 2 != 0) && (mapping.protection.read
            <==> segment.flags & 4 != 0) && (mapping.protection.execute <==> segment.flags & 1
            != 0),
{
    let flags = segment.flags;
    lemma_flag_bits(flags);
}

/// A segment is refused only if its file and memory pages do not agree or it
/// does not fit into the address space.
pub proof fn law_ordinary_segment_is_mapped(segment: Segment, bias: u64)
    requires
        segment.virtual_address % 4096 == segment.file_offset % 4096,
        segment.virtual_address + bias + segment.memory_size + 8192 <= u64::MAX,
    ensures
        mapping_of(segment, bias).is_ok(),
{
}

/// Every segment of a program that takes memory has its mapping.
pub proof fn law_every_segment_is_mapped(segments: Seq<Segment>, bias: u64, i: int)
    requires
        segments_fit(segments, usize::MAX as nat),
        mappings_of(segments, bias).is_ok(),
        0 <= i < segments.len(),
        segments[i].memory_size > 0,
    ensures
        exists|j: int|
            0 <= j < mappings_of(segments, bias)->Ok_0.len() && lays_out(
                #[trigger] mappings_of(segments, bias)->Ok_0[j],
                segments[i],
                bias,
            ),
{
    let mappings = mappings_of(segments, bias)->Ok_0;
    lemma_mapping_of_each(segments, bias, i);
    let mapping = mapping_of(segments[i], bias)->Ok_0->0;
    let j = choose|j: int| 0 <= j < mappings.len() && mappings[j] == mapping;
    law_mapping_follows_segment(segments[i], bias);
    assert(lays_out(mappings[j], segments[i], bias));
}

proof fn lemma_mapping_of_each(segments: Seq<Segment>, bias: u64, i: int)
    requires
        mappings_of(segments, bias).is_ok(),
        0 <= i < segments.len(),
        segments[i].memory_size > 0,
    ensures
        mapping_of(segments[i], bias).is_ok(),
        mapping_of(segments[i], bias)->Ok_0.is_some(),
        mappings_of(segments, bias)->Ok_0.contains(mapping_of(segments[i], bias)->Ok_0->0),
    decreases segments.len(),
{
    let rest = segments.drop_last();
    let before = mappings_of(rest, bias)->Ok_0;
    let mappings = mappings_of(segments, bias)->Ok_0;
    if i < rest.len() {
        lemma_mapping_of_each(rest, bias, i);
        let mapping = mapping_of(segments[i], bias)->Ok_0->0;
        let j = choose|j: int| 0 <= j < before.len() && before[j] == mapping;
        assert(mappings[j] == mapping);
    } else {
        assert(mappings[mappings.len() - 1] == mapping_of(segments[i], bias)->Ok_0->0);
    }
}

/// A program has no mapping but those of its segments.
pub proof fn law_mapping_is_of_segment(segments: Seq<Segment>, bias: u64, j: int)
    requires
        segments_fit(segments, usize::MAX as nat),
        mappings_of(segments, bias).is_ok(),
        0 <= j < mappings_of(segments, bias)->Ok_0.len(),
    ensures
        mappings_of(segments, bias)->Ok_0.len() <= segments.len(),
        exists|i: int|
            0 <= i < segments.len() && lays_out(
                mappings_of(segments, bias)->Ok_0[j],
                #[trigger] segments[i],
                bias,
            ),
{
    lemma_segment_of_each(segments, bias, j);
    let i = choose|i: int|
        0 <= i < segments.len() && mapping_of(#[trigger] segments[i], bias) == Ok::<
            Option<Mapping>,
            Error,
        >(Some(mappings_of(segments, bias)->Ok_0[j]));
    law_mapping_follows_segment(segments[i], bias);
    assert(lays_out(mappings_of(segments, bias)->Ok_0[j], segments[i], bias));
}

proof fn lemma_segment_of_each(segments: Seq<Segment>, bias: u64, j: int)
    requires
        mappings_of(segments, bias).is_ok(),
        0 <= j < mappings_of(segments, bias)->Ok_0.len(),
    ensures
        mappings_of(segments, bias)->Ok_0.len() <= segments.len(),
        exists|i: int|
            0 <= i < segments.len() && mapping_of(#[trigger] segments[i], bias) == Ok::<
                Option<Mapping>,
                Error,
            >(Some(mappings_of(segments, bias)->Ok_0[j])),
    decreases segments.len(),
{
    let rest = segments.drop_last();
    let before = mappings_of(rest, bias)->Ok_0;
    let mappings = mappings_of(segments, bias)->Ok_0;
    if before.len() > 0 {
        lemma_segment_of_each(rest, bias, 0);
    }
    if j < before.len() {
        lemma_segment_of_each(rest, bias, j);
        let i = choose|i: int|
            0 <= i < rest.len() && mapping_of(#[trigger] rest[i], bias) == Ok::<
                Option<Mapping>,
                Error,
            >(Some(before[j]));
        assert(segments[i] == rest[i]);
    } else {
        assert(segments[segments.len() - 1] == segments.last());
    }
}

/// A program at fixed addresses is not moved. One that can be moved is moved
/// so that the page of its lowest segment is at the base asked for.
pub proof fn law_program_starts_at_base(image_type: u16, segments: Seq<Segment>, base: u64)
    requires
        bias_of(image_type, segments, base).is_ok(),
    ensures
        ({
            let bias = bias_of(image_type, segments, base)->Ok_0;
            &&& image_type == 2 || image_type == 3
            &&& image_type == 2 ==> bias == 0
            &&& image_type == 3 ==> {
                &&& forall|i: int|
                    0 <= i < segments.len() ==> (#[trigger] segments[i]).virtual_address + bias
                        >= base
                &&& exists|i: int|
                    0 <= i < segments.len() && base <= (#[trigger] segments[i]).virtual_address
                        + bias < base + 4096
            }
        }),
{
    lemma_lowest_page(segments);
    let bias = bias_of(image_type, segments, base)->Ok_0;
    if image_type == 3 {
        let low = choose|i: int|
            0 <= i < segments.len() && page_of(
                (#[trigger] segments[i]).virtual_address as int,
            ) == lowest_page(segments);
        assert(base <= segments[low].virtual_address + bias < base + 4096);
    }
}

proof fn lemma_lowest_page(segments: Seq<Segment>)
    requires
        segments.len() > 0,
    ensures
        forall|i: int|
            0 <= i < segments.len() ==> lowest_page(segments) <= page_of(
                (#[trigger] segments[i]).virtual_address as int,
            ),
        exists|i: int|
            0 <= i < segments.len() && page_of((#[trigger] segments[i]).virtual_address as int)
                == lowest_page(segments),
    decreases segments.len(),
{
    let rest = segments.drop_last();
    let last = segments.len() - 1;
    assert(segments[last] == segments.last());
    if segments.len() > 1 {
        lemma_lowest_page(rest);
        assert forall|i: int| 0 <= i < segments.len() implies lowest_page(segments) <= page_of(
            (#[trigger] segments[i]).virtual_address as int,
        ) by {
            if i < last {
                assert(rest[i] == segments[i]);
            }
        }
        let low = choose|i: int|
            0 <= i < rest.len() && page_of((#[trigger] rest[i]).virtual_address as int)
                == lowest_page(rest);
        assert(segments[low] == rest[low]);
    }
}

/// A mapped program is entered at its entry point, moved as its segments are,
/// and its program headers are where their bytes are mapped.
pub proof fn law_mapped_program_moves_as_one(image: Image, base: u64)
    requires
        image.mapped(base).is_ok(),
    ensures
        ({
            let (loaded, mappings) = image.mapped(base)->Ok_0;
            &&& bias_of(image.image_type, image.found.segments, base) == Ok::<u64, Error>(
                loaded.bias,
            )
            &&& mappings_of(image.found.segments, loaded.bias) == Ok::<Seq<Mapping>, Error>(
                mappings,
            )
            &&& loaded.entry - loaded.bias == image.entry
            &&& image.image_type == 2 ==> loaded.entry == image.entry
            &&& loaded.program_header_size == image.header_size
            &&& loaded.program_header_count == image.header_count
            &&& image.found.phdr matches Some(address) ==> loaded.program_headers - loaded.bias
                == address
            &&& image.found.phdr.is_none() ==> exists|i: int|
                0 <= i < image.found.segments.len() && {
                    let segment = #[trigger] image.found.segments[i];
                    &&& segment.file_offset <= image.header_offset < segment.file_offset
                        + segment.file_size
                    &&& loaded.program_headers - loaded.bias - segment.virtual_address
                        == image.header_offset - segment.file_offset
                }
        }),
{
    let (loaded, mappings) = image.mapped(base)->Ok_0;
    if image.found.phdr.is_none() {
        lemma_derived_headers(image.found.segments, image.header_offset, loaded.bias, 0);
    }
}

proof fn lemma_derived_headers(segments: Seq<Segment>, offset: u64, bias: u64, at: int)
    requires
        0 <= at,
        derived_headers(segments, offset, bias, at).is_ok(),
    ensures
        exists|i: int|
            at <= i < segments.len() && {
                let segment = #[trigger] segments[i];
                &&& segment.file_offset <= offset < segment.file_offset + segment.file_size
                &&& derived_headers(segments, offset, bias, at)->Ok_0 - bias
                    - segment.virtual_address == offset - segment.file_offset
            },
    decreases segments.len() - at,
{
    if at < segments.len() {
        let segment = segments[at];
        if segment.file_offset <= offset < segment.file_offset + segment.file_size {
            assert(segments[at].file_offset <= offset);
        } else {
            lemma_derived_headers(segments, offset, bias, at + 1);
        }
    }
}

/// A parsed program is a little-endian 64-bit one for the machine, fixed or
/// movable, and its entry point and program header table are the ones that its
/// header names.
pub proof fn law_parsed_program_is_for_machine(bytes: Seq<u8>, arch: Arch)
    requires
        parsed(bytes, arch).is_ok(),
    ensures
        ({
            let image = parsed(bytes, arch)->Ok_0;
            &&& bytes.len() >= 64
            &&& bytes[0] == 0x7f && bytes[1] == 0x45 && bytes[2] == 0x4c && bytes[3] == 0x46
            &&& bytes[4] == 2 && bytes[5] == 1
            &&& u16_at(bytes, 18) == match arch {
                Arch::X86_64 => 62u16,
                Arch::Riscv64 => 243u16,
            }
            &&& image.image_type == u16_at(bytes, 16)
            &&& image.image_type == 2 || image.image_type == 3
            &&& image.entry == u64_at(bytes, 24)
            &&& image.header_offset == u64_at(bytes, 32)
            &&& image.header_size == 56
            &&& image.header_count == u16_at(bytes, 56)
            &&& image.header_offset + 56 * image.header_count <= bytes.len()
            &&& survey(bytes, image.header_count as int) == Ok::<Survey, Error>(image.found)
            &&& image.found.segments.len() > 0
        }),
{
    let magic = bytes.take(4);
    assert(magic[0] == bytes[0] && magic[1] == bytes[1] && magic[2] == bytes[2] && magic[3]
        == bytes[3]);
}

/// Every loadable segment of the program header table is found, with its
/// address, its bytes of the file, its size in memory and its flags.
pub proof fn law_loadable_segment_is_found(bytes: Seq<u8>, count: int, k: int)
    requires
        survey(bytes, count).is_ok(),
        0 <= k < count,
        bytes[4] == 2,
        u32_at(bytes, u64_at(bytes, 32) + 56 * k) == 1,
    ensures
        exists|i: int|
            0 <= i < survey(bytes, count)->Ok_0.segments.len() && is_described(
                #[trigger] survey(bytes, count)->Ok_0.segments[i],
                bytes,
                u64_at(bytes, 32) + 56 * k,
            ),
    decreases count,
{
    let before = survey(bytes, count - 1)->Ok_0;
    let found = survey(bytes, count)->Ok_0;
    let at = u64_at(bytes, 32) + 56 * k;
    if k < count - 1 {
        law_loadable_segment_is_found(bytes, count - 1, k);
        let i = choose|i: int|
            0 <= i < before.segments.len() && is_described(
                #[trigger] before.segments[i],
                bytes,
                at,
            );
        assert(found.segments[i] == before.segments[i]);
    } else {
        let header = program_header_at(bytes, at);
        assert(surveyed(bytes, before, header).is_ok());
        let i = found.segments.len() - 1;
        assert(is_described(found.segments[i], bytes, at));
    }
}

/// A segment that is found is a loadable one of the program header table.
pub proof fn law_found_segment_is_loadable(bytes: Seq<u8>, count: int, i: int)
    requires
        survey(bytes, count).is_ok(),
        0 <= i < survey(bytes, count)->Ok_0.segments.len(),
        bytes[4] == 2,
    ensures
        exists|at: int|
            #[trigger] is_described(survey(bytes, count)->Ok_0.segments[i], bytes, at) && u32_at(
                bytes,
                at,
            ) == 1 && u64_at(bytes, 32) <= at < u64_at(bytes, 32) + 56 * count && (at - u64_at(
                bytes,
                32,
            )) % 56 == 0,
    decreases count,
{
    let found = survey(bytes, count)->Ok_0;
    if count > 0 {
        let before = survey(bytes, count - 1)->Ok_0;
        let at = u64_at(bytes, 32) + 56 * (count - 1);
        if i < before.segments.len() {
            law_found_segment_is_loadable(bytes, count - 1, i);
            assert(found.segments[i] == before.segments[i]);
        } else {
            let header = program_header_at(bytes, at);
            assert(surveyed(bytes, before, header).is_ok());
            assert(is_described(found.segments[i], bytes, at));
            assert(u32_at(bytes, at) == 1);
        }
    }
}

/// Whether the program header at `at` describes a segment.
pub open spec fn is_described(segment: Segment, bytes: Seq<u8>, at: int) -> bool {
    &&& segment.flags == u32_at(bytes, at + 4)
    &&& segment.file_offset == u64_at(bytes, at + 8)
    &&& segment.virtual_address == u64_at(bytes, at + 16)
    &&& segment.file_size == u64_at(bytes, at + 32)
    &&& segment.memory_size == u64_at(bytes, at + 40)
}

/// The path of the interpreter is the text in front of the only zero bytes of
/// its segment.
pub proof fn law_interpreter_path_is_terminated(data: Seq<u8>)
    ensures
        match interpreter_in(data) {
            Ok(path) => {
                &&& path.len() < data.len()
                &&& data.take(path.len() as int) == path
                &&& forall|i: int| 0 <= i < path.len() ==> #[trigger] path[i] != 0
                &&& forall|i: int| path.len() <= i < data.len() ==> #[trigger] data[i] == 0
                &&& valid_utf8(path)
            },
            Err(_) => true,
        },
        (forall|i: int| 0 <= i < data.len() ==> #[trigger] data[i] != 0) ==> interpreter_in(
            data,
        ).is_err(),
{
    lemma_first_nul(data, 0);
    let nul = first_nul(data, 0);
    if interpreter_in(data).is_ok() {
        assert forall|i: int| nul <= i < data.len() implies #[trigger] data[i] == 0 by {
            if i > nul && data[i] != 0 {
                assert(nul < i < data.len() && data[i] != 0);
            }
        }
    }
}

proof fn lemma_first_nul(data: Seq<u8>, at: int)
    requires
        0 <= at <= data.len(),
    ensures
        at <= first_nul(data, at) <= data.len(),
        first_nul(data, at) < data.len() ==> data[first_nul(data, at)] == 0,
        forall|i: int| at <= i < first_nul(data, at) ==> #[trigger] data[i] != 0,
    decreases data.len() - at,
{
    if at < data.len() && data[at] != 0 {
        lemma_first_nul(data, at + 1);
    }
}

/// Where the description of a program starts on its stack.
pub open spec fn description_at(input: StackInput) -> int {
    8 * (input.arguments@.len() + input.environment@.len() + 3) as int
}

proof fn lemma_description_word(input: StackInput, base: u64, i: int)
    requires
        -1 <= i < 28,
    ensures
        u64_at(input.stack_region(base), description_at(input) + 8 * i) == if i < 0 {
            0
        } else {
            input.auxiliary(base)[i]
        },
{
    let first = (input.arguments@.len() + input.environment@.len() + 3) as int;
    let words = input.words(base);
    assert(words.len() == first + 28);
    lemma_word(input, base, first + i);
    if i >= 0 {
        assert(words[first + i] == input.auxiliary(base)[i]);
    }
}

/// A program is told behind its environment where its program headers are, how
/// large and how many they are, and how large a page is.
pub proof fn law_program_finds_its_headers(input: StackInput, base: u64)
    ensures
        ({
            let stack = input.stack_region(base);
            let aux = description_at(input);
            &&& u64_at(stack, aux - 8) == 0
            &&& u64_at(stack, aux) == 3
            &&& u64_at(stack, aux + 8) == input.main.program_headers
            &&& u64_at(stack, aux + 16) == 4
            &&& u64_at(stack, aux + 24) == input.main.program_header_size
            &&& u64_at(stack, aux + 32) == 5
            &&& u64_at(stack, aux + 40) == input.main.program_header_count
            &&& u64_at(stack, aux + 48) == 6
            &&& u64_at(stack, aux + 56) == 4096
        }),
{
    lemma_description_word(input, base, -1);
    lemma_description_word(input, base, 0);
    lemma_description_word(input, base, 1);
    lemma_description_word(input, base, 2);
    lemma_description_word(input, base, 3);
    lemma_description_word(input, base, 4);
    lemma_description_word(input, base, 5);
    lemma_description_word(input, base, 6);
    lemma_description_word(input, base, 7);
}

/// A program is told where its interpreter is and where it starts itself.
pub proof fn law_program_finds_its_entry(input: StackInput, base: u64)
    ensures
        ({
            let stack = input.stack_region(base);
            let aux = description_at(input);
            &&& u64_at(stack, aux + 64) == 7
            &&& u64_at(stack, aux + 72) == input.interpreter_base
            &&& u64_at(stack, aux + 80) == 9
            &&& u64_at(stack, aux + 88) == input.main.entry
        }),
{
    lemma_description_word(input, base, 8);
    lemma_description_word(input, base, 9);
    lemma_description_word(input, base, 10);
    lemma_description_word(input, base, 11);
}

/// A program is told that it runs as the first user and group, in fact and in
/// effect, and that nobody with fewer rights started it.
pub proof fn law_program_finds_its_user(input: StackInput, base: u64)
    ensures
        ({
            let stack = input.stack_region(base);
            let aux = description_at(input);
            &&& u64_at(stack, aux + 96) == 11 && u64_at(stack, aux + 104) == 0
            &&& u64_at(stack, aux + 112) == 12 && u64_at(stack, aux + 120) == 0
            &&& u64_at(stack, aux + 128) == 13 && u64_at(stack, aux + 136) == 0
            &&& u64_at(stack, aux + 144) == 14 && u64_at(stack, aux + 152) == 0
            &&& u64_at(stack, aux + 160) == 23 && u64_at(stack, aux + 168) == 0
        }),
{
    lemma_description_word(input, base, 12);
    lemma_description_word(input, base, 13);
    lemma_description_word(input, base, 14);
    lemma_description_word(input, base, 15);
    lemma_description_word(input, base, 16);
    lemma_description_word(input, base, 17);
    lemma_description_word(input, base, 18);
    lemma_description_word(input, base, 19);
    lemma_description_word(input, base, 20);
    lemma_description_word(input, base, 21);
}

proof fn lemma_deeper_regions(input: StackInput, base: u64)
    ensures
        ends_with(input.stack_region(base), input.random_region()),
        ends_with(input.stack_region(base), input.executable_region()),
        input.random_region().take(16) == input.random@,
        input.executable_region().take(input.executable@.len() as int) == input.executable@,
        input.executable_region().len() > input.executable@.len(),
        input.executable_region()[input.executable@.len() as int] == 0,
        input.random_region().len() >= 16,
{
    let words = input.words(base);
    let environment = input.environment_region();
    let executable = input.executable_region();
    let random = input.random_region();
    let stack = input.stack_region(base);
    let padding = ((STACK_SIZE - executable.len() - input.random@.len()) % (
    STACK_ALIGN as int)) as nat;
    lemma_on_top_ends(environment, input.executable@, 1);
    lemma_on_top_ends(executable, input.random@, padding);
    let written = words_bytes(words);
    lemma_on_top_ends(
        random,
        written,
        ((STACK_SIZE - random.len() - written.len()) % (STACK_ALIGN as int)) as nat,
    );
    lemma_ends_trans(stack, random, executable);
    assert(input.random@.len() == 16);
}

/// A program finds its sixteen random bytes.
#[verifier::spinoff_prover]
#[verifier::rlimit(40)]
pub proof fn law_program_finds_random_bytes(input: StackInput, range: UserRange)
    requires
        range.wf(),
        input.can_start(range),
    ensures
        ({
            let base = stack_base(range);
            let stack = input.stack_region(base);
            let aux = description_at(input);
            let offset = u64_at(stack, aux + 184) - top_of(base, stack);
            &&& u64_at(stack, aux + 176) == 25
            &&& 0 <= offset && offset + 16 <= stack.len()
            &&& stack.subrange(offset, offset + 16) == input.random@
        }),
{
    let base = stack_base(range);
    let stack = input.stack_region(base);
    lemma_description_word(input, base, 22);
    lemma_description_word(input, base, 23);
    lemma_deeper_regions(input, base);
    let random = input.random_region();
    let offset = stack.len() - random.len();
    assert(stack.subrange(offset, offset + 16) =~= random.take(16)) by {
        assert forall|i: int| 0 <= i < 16 implies stack[offset + i] == random[i] by {
            assert(stack.skip(offset)[i] == random[i]);
        }
    }
}

/// A program finds its path, and the description ends behind it.
#[verifier::spinoff_prover]
#[verifier::rlimit(40)]
pub proof fn law_program_finds_its_path(input: StackInput, range: UserRange)
    requires
        range.wf(),
        input.can_start(range),
    ensures
        ({
            let base = stack_base(range);
            let stack = input.stack_region(base);
            let aux = description_at(input);
            let path = input.executable@;
            let offset = u64_at(stack, aux + 200) - top_of(base, stack);
            &&& u64_at(stack, aux + 192) == 31
            &&& 0 <= offset && offset + path.len() < stack.len()
            &&& stack.subrange(offset, offset + path.len()) == path
            &&& stack[offset + path.len()] == 0
            &&& u64_at(stack, aux + 208) == 0
            &&& u64_at(stack, aux + 216) == 0
        }),
{
    let base = stack_base(range);
    let stack = input.stack_region(base);
    lemma_description_word(input, base, 24);
    lemma_description_word(input, base, 25);
    lemma_description_word(input, base, 26);
    lemma_description_word(input, base, 27);
    lemma_deeper_regions(input, base);
    let region = input.executable_region();
    let path = input.executable@;
    let offset = stack.len() - region.len();
    assert(stack.subrange(offset, offset + path.len()) =~= region.take(path.len() as int)) by {
        assert forall|i: int| 0 <= i < path.len() implies stack[offset + i] == region[i] by {
            assert(stack.skip(offset)[i] == region[i]);
        }
    }
    assert(stack.skip(offset)[path.len() as int] == region[path.len() as int]);
}

/// A program is started at its interpreter if it has one, which is told where
/// it is itself, and at its own entry point otherwise. Its stack is one
/// megabyte, one page below the end of the user range, and in use from its
/// pointer to its end.
pub proof fn law_program_starts_at_interpreter(
    program: Result<LoadedProgram, Error>,
    input: LoadInput,
    main: LoadedElf,
    interpreter: Option<LoadedElf>,
    range: UserRange,
)
    requires
        range.wf(),
        completes(program, input, main, interpreter, range),
        program.is_ok(),
    ensures
        ({
            let started = program->Ok_0;
            let stack = started.stack.bytes@;
            let aux = 8 * (input.arguments@.len() + input.environment@.len() + 3) as int;
            &&& interpreter matches Some(i) ==> started.entry == i.entry && u64_at(stack, aux + 72)
                == i.bias
            &&& interpreter.is_none() ==> started.entry == main.entry && u64_at(stack, aux + 72)
                == 0
            &&& u64_at(stack, aux + 88) == main.entry
            &&& u64_at(stack, 0) == input.arguments@.len()
            &&& started.stack.length == 0x10_0000
            &&& started.stack.base + started.stack.length + 4096 == range.max
            &&& started.stack.pointer + stack.len() == started.stack.base + started.stack.length
            &&& started.stack.pointer >= started.stack.base
        }),
{
    let input = StackInput {
        executable: input.path,
        arguments: input.arguments,
        environment: input.environment,
        main,
        interpreter_base: match interpreter {
            Some(i) => i.bias,
            None => 0,
        },
        random: input.random,
    };
    law_program_finds_its_entry(input, stack_base(range));
    law_arguments_are_on_stack(input, range, 0);
}

/// A program that can be moved is placed at 512 MiB and its interpreter at
/// 1 GiB; an interpreter has to be one that can be moved.
pub proof fn law_images_are_apart(bytes: Seq<u8>, arch: Arch)
    ensures
        main_image(bytes, arch) matches Ok((loaded, mappings, path)) ==> {
            let image = parsed(bytes, arch)->Ok_0;
            &&& parsed(bytes, arch).is_ok()
            &&& path == image.found.interpreter
            &&& image.image_type == 2 ==> loaded.bias == 0
            &&& image.image_type == 3 ==> Ok::<(LoadedElf, Seq<Mapping>), Error>((loaded, mappings))
                == image.mapped(0x2000_0000)
        },
        interpreter_image(bytes, arch) matches Ok(loaded) ==> {
            let image = parsed(bytes, arch)->Ok_0;
            &&& parsed(bytes, arch).is_ok()
            &&& image.image_type == 3
            &&& Ok::<(LoadedElf, Seq<Mapping>), Error>(loaded) == image.mapped(0x4000_0000)
        },
{
}

} // verus!
