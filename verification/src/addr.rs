//! Page-granular address arithmetic for the sv39 paging scheme: byte
//! addresses, page numbers, and the conversions between them.
//!
//! Addresses and page numbers are 64-bit machine words. Virtual addresses
//! are 39 bits wide and physical addresses 56 bits wide; the bits above
//! those widths are truncated on conversion from a raw word.

use vstd::prelude::*;

verus! {

/// Size of one page in bytes, as an address quantity.
pub const PAGE_BYTES: u64 = 0x1000;

/// Width of a virtual address in bits.
pub const VA_WIDTH: u64 = 39;

/// Width of a physical address in bits.
pub const PA_WIDTH: u64 = 56;

/// Width of a virtual page number in bits.
pub const VPN_WIDTH: u64 = 27;

/// Width of a physical page number in bits.
pub const PPN_WIDTH: u64 = 44;

/// One past the largest virtual address (1 << 39).
pub const VA_LIMIT: u64 = 0x80_0000_0000;

/// One past the largest physical address (1 << 56).
pub const PA_LIMIT: u64 = 0x100_0000_0000_0000;

/// One past the largest virtual page number (1 << 27).
pub const VPN_LIMIT: u64 = 0x800_0000;

/// One past the largest physical page number (1 << 44).
pub const PPN_LIMIT: u64 = 0x1000_0000_0000;

/// Number of entries in one page-table node (1 << 9).
pub const ENTRY_COUNT: usize = 512;

/// A byte-granular virtual address.
#[derive(Clone, Copy, Debug, PartialEq, Eq, Structural)]
pub struct VirtAddr(pub u64);

/// A byte-granular physical address.
#[derive(Clone, Copy, Debug, PartialEq, Eq, Structural)]
pub struct PhysAddr(pub u64);

/// A virtual page number: a virtual address shifted right by the page bits.
#[derive(Clone, Copy, Debug, PartialEq, Eq, Structural)]
pub struct VirtPageNum(pub u64);

/// A physical page number: a physical address shifted right by the page bits.
#[derive(Clone, Copy, Debug, PartialEq, Eq, Structural)]
pub struct PhysPageNum(pub u64);

impl VirtAddr {
    /// The page containing this address.
    pub fn floor(self) -> (r: VirtPageNum)
        ensures
            r.0 == self.0 / PAGE_BYTES,
    {
        VirtPageNum(self.0 / PAGE_BYTES)
    }

    /// The first page boundary at or above this address.
    pub fn ceil(self) -> (r: VirtPageNum)
        requires
            self.0 + PAGE_BYTES - 1 <= u64::MAX,
        ensures
            r.0 == (self.0 + PAGE_BYTES - 1) / (PAGE_BYTES as int),
    {
        VirtPageNum((self.0 + (PAGE_BYTES - 1)) / PAGE_BYTES)
    }

    /// The offset of this address within its page.
    pub fn page_offset(self) -> (r: u64)
        ensures
            r == self.0 % PAGE_BYTES,
    {
        self.0 % PAGE_BYTES
    }

    /// Whether this address sits exactly on a page boundary.
    pub fn aligned(self) -> (r: bool)
        ensures
            r == (self.0 % PAGE_BYTES == 0),
    {
        self.0 % PAGE_BYTES == 0
    }
}

impl PhysAddr {
    /// The page containing this address.
    pub fn floor(self) -> (r: PhysPageNum)
        ensures
            r.0 == self.0 / PAGE_BYTES,
    {
        PhysPageNum(self.0 / PAGE_BYTES)
    }

    /// The first page boundary at or above this address.
    pub fn ceil(self) -> (r: PhysPageNum)
        requires
            self.0 + PAGE_BYTES - 1 <= u64::MAX,
        ensures
            r.0 == (self.0 + PAGE_BYTES - 1) / (PAGE_BYTES as int),
    {
        PhysPageNum((self.0 + (PAGE_BYTES - 1)) / PAGE_BYTES)
    }

    /// The offset of this address within its page.
    pub fn page_offset(self) -> (r: u64)
        ensures
            r == self.0 % PAGE_BYTES,
    {
        self.0 % PAGE_BYTES
    }
}

impl VirtPageNum {
    /// The three 9-bit slices of the page number, most significant first,
    /// used to index the three levels of a page table.
    pub fn indexes(self) -> (r: (usize, usize, usize))
        ensures
            r.0 == (self.0 / 0x40000) % 512,
            r.1 == (self.0 / 0x200) % 512,
            r.2 == self.0 % 512,
            r.0 < 512 && r.1 < 512 && r.2 < 512,
    {
        (
            (((self.0 / 0x40000) % 512) as usize),
            (((self.0 / 0x200) % 512) as usize),
            ((self.0 % 512) as usize),
        )
    }

    /// Advance to the next page number.
    pub fn step(&mut self)
        requires
            old(self).0 < u64::MAX,
        ensures
            final(self).0 == old(self).0 + 1,
    {
        self.0 = self.0 + 1;
    }
}

impl From<u64> for VirtAddr {
    /// Truncates the raw word to the virtual-address width.
    fn from(v: u64) -> (r: Self) {
        VirtAddr(v % VA_LIMIT)
    }
}

impl vstd::std_specs::convert::FromSpecImpl<u64> for VirtAddr {
    open spec fn obeys_from_spec() -> bool {
        true
    }

    open spec fn from_spec(v: u64) -> Self {
        VirtAddr((v % VA_LIMIT) as u64)
    }
}

impl From<u64> for PhysAddr {
    /// Truncates the raw word to the physical-address width.
    fn from(v: u64) -> (r: Self) {
        PhysAddr(v % PA_LIMIT)
    }
}

impl vstd::std_specs::convert::FromSpecImpl<u64> for PhysAddr {
    open spec fn obeys_from_spec() -> bool {
        true
    }

    open spec fn from_spec(v: u64) -> Self {
        PhysAddr((v % PA_LIMIT) as u64)
    }
}

impl From<u64> for VirtPageNum {
    /// Truncates the raw word to the virtual-page-number width.
    fn from(v: u64) -> (r: Self) {
        VirtPageNum(v % VPN_LIMIT)
    }
}

impl vstd::std_specs::convert::FromSpecImpl<u64> for VirtPageNum {
    open spec fn obeys_from_spec() -> bool {
        true
    }

    open spec fn from_spec(v: u64) -> Self {
        VirtPageNum((v % VPN_LIMIT) as u64)
    }
}

impl From<u64> for PhysPageNum {
    /// Truncates the raw word to the physical-page-number width.
    fn from(v: u64) -> (r: Self) {
        PhysPageNum(v % PPN_LIMIT)
    }
}

impl vstd::std_specs::convert::FromSpecImpl<u64> for PhysPageNum {
    open spec fn obeys_from_spec() -> bool {
        true
    }

    open spec fn from_spec(v: u64) -> Self {
        PhysPageNum((v % PPN_LIMIT) as u64)
    }
}

impl From<VirtAddr> for VirtPageNum {
    /// The page containing the address.
    fn from(v: VirtAddr) -> (r: Self) {
        v.floor()
    }
}

impl vstd::std_specs::convert::FromSpecImpl<VirtAddr> for VirtPageNum {
    open spec fn obeys_from_spec() -> bool {
        true
    }

    open spec fn from_spec(v: VirtAddr) -> Self {
        VirtPageNum((v.0 / PAGE_BYTES) as u64)
    }
}

impl From<VirtPageNum> for VirtAddr {
    /// The first byte address of the page.
    fn from(v: VirtPageNum) -> (r: Self) {
        VirtAddr((v.0 % VPN_LIMIT) * PAGE_BYTES)
    }
}

impl vstd::std_specs::convert::FromSpecImpl<VirtPageNum> for VirtAddr {
    open spec fn obeys_from_spec() -> bool {
        true
    }

    open spec fn from_spec(v: VirtPageNum) -> Self {
        VirtAddr(((v.0 % VPN_LIMIT) * PAGE_BYTES) as u64)
    }
}

impl From<PhysAddr> for PhysPageNum {
    /// The page containing the address.
    fn from(v: PhysAddr) -> (r: Self) {
        v.floor()
    }
}

impl vstd::std_specs::convert::FromSpecImpl<PhysAddr> for PhysPageNum {
    open spec fn obeys_from_spec() -> bool {
        true
    }

    open spec fn from_spec(v: PhysAddr) -> Self {
        PhysPageNum((v.0 / PAGE_BYTES) as u64)
    }
}

impl From<PhysPageNum> for PhysAddr {
    /// The first byte address of the page.
    fn from(v: PhysPageNum) -> (r: Self) {
        PhysAddr((v.0 % PPN_LIMIT) * PAGE_BYTES)
    }
}

impl vstd::std_specs::convert::FromSpecImpl<PhysPageNum> for PhysAddr {
    open spec fn obeys_from_spec() -> bool {
        true
    }

    open spec fn from_spec(v: PhysPageNum) -> Self {
        PhysAddr(((v.0 % PPN_LIMIT) * PAGE_BYTES) as u64)
    }
}

/// A half-open range of virtual page numbers.
#[derive(Clone, Copy, Debug, PartialEq, Eq, Structural)]
pub struct VpnRange {
    pub start: VirtPageNum,
    pub end: VirtPageNum,
}

impl VpnRange {
    pub fn new(start: VirtPageNum, end: VirtPageNum) -> (r: Self)
        requires
            start.0 <= end.0,
        ensures
            r.start == start && r.end == end,
    {
        VpnRange { start, end }
    }

    pub fn get_start(self) -> (r: VirtPageNum)
        ensures
            r == self.start,
    {
        self.start
    }

    pub fn get_end(self) -> (r: VirtPageNum)
        ensures
            r == self.end,
    {
        self.end
    }

    /// The first page number of the range.
    pub open spec fn start_spec(self) -> nat {
        self.start.0 as nat
    }

    /// One past the last page number of the range.
    pub open spec fn end_spec(self) -> nat {
        self.end.0 as nat
    }

    /// Whether a page number falls inside the range.
    pub open spec fn covers(self, vpn: nat) -> bool {
        self.start_spec() <= vpn < self.end_spec()
    }
}

/// Converting an address to its page and back to an address never changes
/// which page the result falls in: floor-to-page composed with page-to-address
/// is idempotent under a further floor.
pub proof fn lemma_addr_round_trip(a: VirtAddr)
    requires
        a.0 < VA_LIMIT,
    ensures
        <VirtPageNum as vstd::std_specs::convert::FromSpec<VirtAddr>>::from_spec(
            <VirtAddr as vstd::std_specs::convert::FromSpec<VirtPageNum>>::from_spec(
                <VirtPageNum as vstd::std_specs::convert::FromSpec<VirtAddr>>::from_spec(a),
            ),
        ) == <VirtPageNum as vstd::std_specs::convert::FromSpec<VirtAddr>>::from_spec(a),
{
    let p = (a.0 / PAGE_BYTES) as u64;
    assert(p < VPN_LIMIT);
    assert(p % VPN_LIMIT == p);
    assert(p * PAGE_BYTES < VA_LIMIT) by (nonlinear_arith)
        requires
            p < VPN_LIMIT,
    ;
    assert((p * PAGE_BYTES) / (PAGE_BYTES as int) == p) by (nonlinear_arith);
}

} // verus!
