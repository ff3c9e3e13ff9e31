use vstd::prelude::*;
use crate::bytes::{le16, le32, le64, read16, read32, read64};

verus! {

/// "\x7FELF" read as a little-endian 32-bit value.
pub const ELF_MAGIC: u32 = 0x464C457F;
/// Executable file.
pub const ET_EXEC: u16 = 2;
/// Shared object file.
pub const ET_DYN: u16 = 3;
/// AMD x86-64.
pub const EM_X86_64: u16 = 62;
/// Loadable segment.
pub const PT_LOAD: u32 = 1;
pub const PF_X: u32 = 1;
pub const PF_W: u32 = 2;
pub const PF_R: u32 = 4;
/// Size of an ELF header.
pub const ELF_HEADER_SIZE: usize = 64;
/// Size of a program header.
pub const PROGRAM_HEADER_SIZE: usize = 56;

/// An ELF-64 file header.
#[derive(Debug, Clone, Copy)]
pub struct ElfHeader {
    pub magic: u32,
    pub elf: [u8; 12],
    pub type_: u16,
    pub machine: u16,
    pub version: u32,
    pub entry: u64,
    pub phoff: u64,
    pub shoff: u64,
    pub flags: u32,
    pub ehsize: u16,
    pub phentsize: u16,
    pub phnum: u16,
    pub shentsize: u16,
    pub shnum: u16,
    pub shstrndx: u16,
}

/// An ELF-64 program header.
#[derive(Debug, Clone, Copy)]
pub struct ProgramHeader {
    pub type_: u32,
    pub flags: u32,
    pub off: u64,
    pub vaddr: u64,
    pub paddr: u64,
    pub filesz: u64,
    pub memsz: u64,
    pub align: u64,
}

/// The ELF header laid out at the start of `b`.
pub open spec fn elf_header_fields(b: Seq<u8>, h: ElfHeader) -> bool {
    &&& h.magic == le32(b, 0)
    &&& h.elf@ == b.subrange(4, 16)
    &&& h.type_ == le16(b, 16)
    &&& h.machine == le16(b, 18)
    &&& h.version == le32(b, 20)
    &&& h.entry == le64(b, 24)
    &&& h.phoff == le64(b, 32)
    &&& h.shoff == le64(b, 40)
    &&& h.flags == le32(b, 48)
    &&& h.ehsize == le16(b, 52)
    &&& h.phentsize == le16(b, 54)
    &&& h.phnum == le16(b, 56)
    &&& h.shentsize == le16(b, 58)
    &&& h.shnum == le16(b, 60)
    &&& h.shstrndx == le16(b, 62)
}

/// Decode an ELF header from the first 64 bytes of a file.
pub fn parse_elf_header(b: &[u8]) -> (r: ElfHeader)
    requires
        b@.len() >= ELF_HEADER_SIZE,
    ensures
        elf_header_fields(b@, r),
{
    let _len = b.len();
    let mut elf = [0u8; 12];
    let mut i: usize = 0;
    while i < 12
        invariant
            b@.len() >= 64,
            i <= 12,
            forall|k: int| 0 <= k < i ==> elf@[k] == b@[4 + k],
        decreases 12 - i,
    {
        elf[i] = b[4 + i];
        i = i + 1;
    }
    assert(elf@ =~= b@.subrange(4, 16));
    ElfHeader {
        magic: read32(b, 0),
        elf,
        type_: read16(b, 16),
        machine: read16(b, 18),
        version: read32(b, 20),
        entry: read64(b, 24),
        phoff: read64(b, 32),
        shoff: read64(b, 40),
        flags: read32(b, 48),
        ehsize: read16(b, 52),
        phentsize: read16(b, 54),
        phnum: read16(b, 56),
        shentsize: read16(b, 58),
        shnum: read16(b, 60),
        shstrndx: read16(b, 62),
    }
}

/// The program header laid out at the start of `b`.
pub open spec fn program_header_of(b: Seq<u8>) -> ProgramHeader {
    ProgramHeader {
        type_: le32(b, 0),
        flags: le32(b, 4),
        off: le64(b, 8),
        vaddr: le64(b, 16),
        paddr: le64(b, 24),
        filesz: le64(b, 32),
        memsz: le64(b, 40),
        align: le64(b, 48),
    }
}

/// Decode a program header from its 56 bytes.
pub fn parse_program_header(b: &[u8]) -> (r: ProgramHeader)
    requires
        b@.len() >= PROGRAM_HEADER_SIZE,
    ensures
        r == program_header_of(b@),
{
    let _len = b.len();
    ProgramHeader {
        type_: read32(b, 0),
        flags: read32(b, 4),
        off: read64(b, 8),
        vaddr: read64(b, 16),
        paddr: read64(b, 24),
        filesz: read64(b, 32),
        memsz: read64(b, 40),
        align: read64(b, 48),
    }
}

/// What `exec` does with a program header.
#[derive(PartialEq, Eq, Structural, Debug)]
pub enum Segment {
    /// Not a loadable segment: skip it.
    Skip,
    /// A malformed segment: `exec` fails.
    Bad,
    /// Load the segment.
    Load,
}

/// Classify a program header: non-loadable segments are skipped; a loadable
/// segment is malformed when it holds more file bytes than memory bytes, or
/// when its memory range wraps around the address space.
pub fn check_segment(ph: &ProgramHeader) -> (r: Segment)
    ensures
        r == (if ph.type_ != PT_LOAD {
            Segment::Skip
        } else if ph.memsz < ph.filesz || ph.vaddr + ph.memsz > u64::MAX {
            Segment::Bad
        } else {
            Segment::Load
        }),
{
    if ph.type_ != PT_LOAD {
        return Segment::Skip;
    }
    if ph.memsz < ph.filesz {
        return Segment::Bad;
    }
    if ph.vaddr > u64::MAX - ph.memsz {
        return Segment::Bad;
    }
    Segment::Load
}

}
