//! Reading the fields this kernel needs from a 64-bit little-endian
//! executable image: the magic, the program-header table, and each
//! header's type, flags, addresses and sizes. Only `Load`-type headers
//! are ever acted on.

use vstd::prelude::*;
use crate::addr::VA_LIMIT;

verus! {

/// Program-header type tag for a loadable region.
pub const PH_TYPE_LOAD: u32 = 1;

/// Size in bytes of one entry of the program-header table.
pub const PH_ENTRY_SIZE: u64 = 56;

/// The value of the two bytes at `off` read little-endian.
pub open spec fn le16(b: Seq<u8>, off: int) -> int {
    b[off] + b[off + 1] * 0x100
}

/// The value of the four bytes at `off` read little-endian.
pub open spec fn le32(b: Seq<u8>, off: int) -> int {
    le16(b, off) + le16(b, off + 2) * 0x10000
}

/// The value of the eight bytes at `off` read little-endian.
pub open spec fn le64(b: Seq<u8>, off: int) -> int {
    le32(b, off) + le32(b, off + 4) * 0x1_0000_0000
}

/// The fields of one program header that loading consumes.
#[derive(Clone, Copy, Debug, PartialEq, Eq, Structural)]
pub struct ProgramHeader {
    pub ph_type: u32,
    pub flags: u32,
    pub offset: u64,
    pub vaddr: u64,
    pub file_size: u64,
    pub mem_size: u64,
}

/// Byte offset of the `i`-th program-header entry.
pub open spec fn spec_ph_base(b: Seq<u8>, i: int) -> int {
    le64(b, 32) + i * (PH_ENTRY_SIZE as int)
}

/// The program header decoded from the entry at byte offset `base`.
pub open spec fn spec_ph_at(b: Seq<u8>, base: int) -> ProgramHeader {
    ProgramHeader {
        ph_type: le32(b, base) as u32,
        flags: le32(b, base + 4) as u32,
        offset: le64(b, base + 8) as u64,
        vaddr: le64(b, base + 16) as u64,
        file_size: le64(b, base + 32) as u64,
        mem_size: le64(b, base + 40) as u64,
    }
}

/// The `i`-th program header of the image.
pub open spec fn spec_ph(b: Seq<u8>, i: int) -> ProgramHeader {
    spec_ph_at(b, spec_ph_base(b, i))
}

/// Number of program headers the image declares.
pub open spec fn spec_ph_count(b: Seq<u8>) -> int {
    le16(b, 56)
}

/// A well-formed image header: the magic bytes, the 64-bit class tag,
/// the expected entry size, and a program-header table that lies inside
/// the image.
pub open spec fn elf_header_ok(b: Seq<u8>) -> bool {
    &&& b.len() >= 64
    &&& b[0] == 0x7fu8 && b[1] == 0x45u8 && b[2] == 0x4cu8 && b[3] == 0x46u8
    &&& b[4] == 2u8
    &&& le16(b, 54) == PH_ENTRY_SIZE
    &&& le64(b, 32) + spec_ph_count(b) * (PH_ENTRY_SIZE as int) <= b.len()
}

/// A loadable header the kernel can act on: its file bytes lie inside the
/// image, the file part fits in the memory part, and the region fits the
/// virtual address width with room for the stack page above it.
pub open spec fn ph_ok_for_load(b: Seq<u8>, ph: ProgramHeader) -> bool {
    &&& ph.file_size <= ph.mem_size
    &&& ph.offset + ph.file_size <= b.len()
    &&& ph.vaddr + ph.mem_size + crate::addr::PAGE_BYTES <= VA_LIMIT
}

/// Every check loading relies on: a well-formed header whose loadable
/// entries are all acceptable.
pub open spec fn elf_load_ok(b: Seq<u8>) -> bool {
    &&& elf_header_ok(b)
    &&& forall|i: int|
        0 <= i < spec_ph_count(b) && (#[trigger] spec_ph(b, i)).ph_type == PH_TYPE_LOAD
            ==> ph_ok_for_load(b, spec_ph(b, i))
}

/// Read two bytes little-endian.
pub fn read_u16(b: &[u8], off: usize) -> (r: u16)
    requires
        off + 2 <= b@.len(),
    ensures
        r == le16(b@, off as int),
{
    let n = b.len();
    proof {
        assert(off + 2 <= n);
    }
    (b[off] as u16) + (b[off + 1] as u16) * 0x100
}

/// Read four bytes little-endian.
pub fn read_u32(b: &[u8], off: usize) -> (r: u32)
    requires
        off + 4 <= b@.len(),
    ensures
        r == le32(b@, off as int),
{
    let n = b.len();
    proof {
        assert(off + 4 <= n);
    }
    (read_u16(b, off) as u32) + (read_u16(b, off + 2) as u32) * 0x10000
}

/// Read eight bytes little-endian.
pub fn read_u64(b: &[u8], off: usize) -> (r: u64)
    requires
        off + 8 <= b@.len(),
    ensures
        r == le64(b@, off as int),
{
    let n = b.len();
    proof {
        assert(off + 8 <= n);
    }
    (read_u32(b, off) as u64) + (read_u32(b, off + 4) as u64) * 0x1_0000_0000
}

/// Check the image header; the number of program headers when it is
/// well formed, nothing otherwise.
pub fn parse_elf_header(b: &[u8]) -> (r: Option<u16>)
    ensures
        r is Some <==> elf_header_ok(b@),
        r matches Some(n) ==> n == spec_ph_count(b@),
{
    if b.len() < 64 {
        return None;
    }
    if !(b[0] == 0x7f && b[1] == 0x45 && b[2] == 0x4c && b[3] == 0x46) {
        return None;
    }
    if b[4] != 2 {
        return None;
    }
    if read_u16(b, 54) != 56 {
        return None;
    }
    let phoff = read_u64(b, 32);
    let count = read_u16(b, 56);
    proof {
        assert(le16(b@, 56) < 0x10000);
        assert(le64(b@, 32) >= 0);
    }
    if phoff > b.len() as u64 {
        return None;
    }
    if (count as u64) * PH_ENTRY_SIZE > b.len() as u64 - phoff {
        return None;
    }
    Some(count)
}

/// Read the `i`-th program header of a well-formed image.
pub fn read_program_header(b: &[u8], i: u16) -> (r: ProgramHeader)
    requires
        elf_header_ok(b@),
        i < spec_ph_count(b@),
    ensures
        r == spec_ph(b@, i as int),
{
    let n = b.len();
    let phoff = read_u64(b, 32);
    proof {
        assert((i as int) * (PH_ENTRY_SIZE as int) + (PH_ENTRY_SIZE as int) <= spec_ph_count(b@)
            * (PH_ENTRY_SIZE as int)) by (nonlinear_arith)
            requires
                0 <= i as int, i as int + 1 <= spec_ph_count(b@),
        ;
        assert(le64(b@, 32) + (i as int) * (PH_ENTRY_SIZE as int) + (PH_ENTRY_SIZE as int) <= n);
    }
    let base = (phoff + (i as u64) * PH_ENTRY_SIZE) as usize;
    ProgramHeader {
        ph_type: read_u32(b, base),
        flags: read_u32(b, base + 4),
        offset: read_u64(b, base + 8),
        vaddr: read_u64(b, base + 16),
        file_size: read_u64(b, base + 32),
        mem_size: read_u64(b, base + 40),
    }
}

} // verus!
