//! The three-level sv39 page table: maps virtual page numbers to physical
//! page numbers with permission bits, owning the frames that back its
//! internal nodes.
//!
//! The table is modelled as the radix tree the hardware would walk: a root
//! node of 512 slots, middle nodes of 512 slots, and leaf nodes of 512 raw
//! entries. Each node records the physical frame that backs it, so frame
//! ownership is accounted exactly as in the running kernel.

use vstd::prelude::*;
use vstd::arithmetic::div_mod::lemma_div_denominator;
use crate::frame::{FrameAllocator, FrameHandle};
use crate::addr::{PhysPageNum, VirtPageNum, PPN_LIMIT, VPN_LIMIT};

verus! {

/// Entry flag: valid.
pub const PTE_V: u8 = 1;

/// Entry flag: readable.
pub const PTE_R: u8 = 2;

/// Entry flag: writable.
pub const PTE_W: u8 = 4;

/// Entry flag: executable.
pub const PTE_X: u8 = 8;

/// Entry flag: user-accessible.
pub const PTE_U: u8 = 16;

/// Entry flag: global.
pub const PTE_G: u8 = 32;

/// Entry flag: accessed.
pub const PTE_A: u8 = 64;

/// Entry flag: dirty.
pub const PTE_D: u8 = 128;

/// The paging-mode tag written into the high bits of the translation
/// register: sv39 is mode 8, held in bits 60..64.
pub const SATP_MODE_SV39: u64 = 0x8000_0000_0000_0000;

/// One leaf or internal entry of the page table, in the hardware layout:
/// the physical page number in bits 10..54 and the flag bits at the bottom.
#[derive(Clone, Copy, Debug, PartialEq, Eq, Structural)]
pub struct PageTableEntry {
    pub bits: u64,
}

impl PageTableEntry {
    /// The flags of this entry.
    pub open spec fn spec_flags(&self) -> u8 {
        (self.bits % 256) as u8
    }

    /// The physical page number of this entry. Meaningful only when the
    /// entry is valid.
    pub open spec fn spec_ppn(&self) -> u64 {
        ((self.bits / 1024) % PPN_LIMIT) as u64
    }

    /// Whether the valid bit is set.
    pub open spec fn spec_valid(&self) -> bool {
        self.bits % 2 == 1
    }

    /// Encode an entry from a page number and flag bits.
    pub fn new(ppn: PhysPageNum, flags: u8) -> (r: Self)
        requires
            ppn.0 < PPN_LIMIT,
        ensures
            r.bits == ppn.0 * 1024 + flags,
            r.spec_ppn() == ppn.0,
            r.spec_flags() == flags,
    {
        proof {
            lemma_pte_fields(ppn.0, flags);
        }
        PageTableEntry { bits: ppn.0 * 1024 + flags as u64 }
    }

    /// An all-zero (invalid) entry.
    pub fn empty() -> (r: Self)
        ensures
            r.bits == 0,
            !r.spec_valid(),
    {
        PageTableEntry { bits: 0 }
    }

    pub fn ppn(&self) -> (r: PhysPageNum)
        ensures
            r.0 == self.spec_ppn(),
    {
        PhysPageNum((self.bits / 1024) % PPN_LIMIT)
    }

    pub fn flags(&self) -> (r: u8)
        ensures
            r == self.spec_flags(),
    {
        (self.bits % 256) as u8
    }

    pub fn is_valid(&self) -> (r: bool)
        ensures
            r == self.spec_valid(),
    {
        self.bits % 2 == 1
    }

    pub fn readable(&self) -> (r: bool)
        ensures
            r == ((self.bits / 2) % 2 == 1),
    {
        (self.bits / 2) % 2 == 1
    }

    pub fn writable(&self) -> (r: bool)
        ensures
            r == ((self.bits / 4) % 2 == 1),
    {
        (self.bits / 4) % 2 == 1
    }

    pub fn executable(&self) -> (r: bool)
        ensures
            r == ((self.bits / 8) % 2 == 1),
    {
        (self.bits / 8) % 2 == 1
    }
}

/// Decoding an encoded entry gives back the page number and flags it was
/// built from.
pub proof fn lemma_pte_fields(ppn: u64, flags: u8)
    requires
        ppn < PPN_LIMIT,
    ensures
        (ppn * 1024 + flags) / 1024 == ppn,
        ((ppn * 1024 + flags) / 1024) % (PPN_LIMIT as int) == ppn,
        (ppn * 1024 + flags) % 256 == flags,
        flags % 2 == 1 ==> (ppn * 1024 + flags) % 2 == 1,
{
    assert((ppn * 1024 + flags) / 1024 == ppn) by (nonlinear_arith)
        requires
            ppn < PPN_LIMIT,
    ;
    assert((ppn * 1024 + flags) % 256 == flags) by (nonlinear_arith);
    assert(flags % 2 == 1 ==> (ppn * 1024 + flags) % 2 == 1) by (nonlinear_arith);
}

/// The given flag byte with the valid bit set.
pub open spec fn spec_with_valid(flags: u8) -> u8 {
    if flags % 2 == 1 {
        flags
    } else {
        (flags + 1) as u8
    }
}

/// Reasons `map` can fail.
#[derive(Clone, Copy, Debug, PartialEq, Eq, Structural)]
pub enum MapError {
    /// The page is already mapped.
    AlreadyMapped,
    /// The frame pool ran dry while creating a node.
    OutOfFrames,
}

struct LeafNode {
    frame: FrameHandle,
    entries: Vec<PageTableEntry>,
}

struct MidNode {
    frame: FrameHandle,
    slots: Vec<Option<Box<LeafNode>>>,
}

/// The page table: a root node plus lazily created middle and leaf nodes.
pub struct PageTable {
    root_frame: FrameHandle,
    slots: Vec<Option<Box<MidNode>>>,
}

spec fn leaf_wf(l: LeafNode) -> bool {
    l.frame.wf() && l.entries@.len() == 512
}

spec fn mid_wf(m: MidNode) -> bool {
    &&& m.frame.wf()
    &&& m.slots@.len() == 512
    &&& forall|i: int|
        0 <= i < 512 ==> match #[trigger] m.slots@[i] {
            Some(l) => leaf_wf(*l),
            None => true,
        }
}

/// The root-node index of a virtual page number.
pub open spec fn idx2(v: u64) -> int {
    (v as int / 0x40000) % 512
}

/// The middle-node index of a virtual page number.
pub open spec fn idx1(v: u64) -> int {
    (v as int / 0x200) % 512
}

/// The leaf-node index of a virtual page number.
pub open spec fn idx0(v: u64) -> int {
    v as int % 512
}

/// Two page numbers below the sv39 width with the same three indices are
/// the same page number.
pub proof fn lemma_vpn_index_injective(v: u64, w: u64)
    requires
        v < VPN_LIMIT,
        w < VPN_LIMIT,
        idx2(v) == idx2(w),
        idx1(v) == idx1(w),
        idx0(v) == idx0(w),
    ensures
        v == w,
{
    lemma_vpn_decompose(v);
    lemma_vpn_decompose(w);
}

/// A page number below the sv39 width is exactly the weighted sum of its
/// three 9-bit indices.
pub proof fn lemma_vpn_decompose(v: u64)
    requires
        v < VPN_LIMIT,
    ensures
        v == idx2(v) * 0x40000 + idx1(v) * 0x200 + idx0(v),
{
    let x = v as int;
    assert(x / 0x40000 < 512) by (nonlinear_arith)
        requires
            0 <= x < VPN_LIMIT,
    ;
    assert((x / 0x40000) % 512 == x / 0x40000);
    lemma_div_denominator(x, 0x200, 0x200);
    assert((x / 0x200) / 0x200 == x / 0x40000);
    assert(x / 0x200 == ((x / 0x200) / 0x200) * 0x200 + (x / 0x200) % 0x200) by (nonlinear_arith);
    assert(x == (x / 0x200) * 0x200 + x % 0x200) by (nonlinear_arith);
    assert(x == (x / 0x40000) * 0x40000 + ((x / 0x200) % 0x200) * 0x200 + x % 0x200)
        by (nonlinear_arith)
        requires
            (x / 0x200) / 0x200 == x / 0x40000,
            x / 0x200 == ((x / 0x200) / 0x200) * 0x200 + (x / 0x200) % 0x200,
            x == (x / 0x200) * 0x200 + x % 0x200,
    ;
}

impl PageTable {
    /// Structural well-formedness: every node holds 512 slots and a
    /// well-formed backing frame.
    pub closed spec fn wf(&self) -> bool {
        &&& self.root_frame.wf()
        &&& self.slots@.len() == 512
        &&& forall|i: int|
            0 <= i < 512 ==> match #[trigger] self.slots@[i] {
                Some(m) => mid_wf(*m),
                None => true,
            }
    }

    /// The physical page number of the root node.
    pub closed spec fn root_ppn_spec(&self) -> u64 {
        self.root_frame.ppn_spec()
    }

    /// The raw leaf entry reached by walking the three indices of `v`;
    /// an all-zero entry when the walk hits a missing node.
    pub closed spec fn entry_at(&self, v: u64) -> PageTableEntry {
        match self.slots@[idx2(v)] {
            Some(m) => match m.slots@[idx1(v)] {
                Some(l) => l.entries@[idx0(v)],
                None => PageTableEntry { bits: 0 },
            },
            None => PageTableEntry { bits: 0 },
        }
    }

    /// Whether `v` has a valid leaf entry.
    pub closed spec fn is_mapped(&self, v: u64) -> bool {
        v < VPN_LIMIT && self.entry_at(v).spec_valid()
    }

    /// The mapping this table encodes: each mapped virtual page number to
    /// its leaf entry.
    pub open spec fn mapping(&self) -> Map<u64, PageTableEntry> {
        Map::new(|v: u64| self.is_mapped(v), |v: u64| self.entry_at(v))
    }

    /// A fresh table with an allocated root node and no mappings. Fails
    /// exactly when the frame pool is empty.
    pub fn new(alloc: &mut FrameAllocator) -> (r: Result<PageTable, MapError>)
        requires
            old(alloc).wf(),
        ensures
            final(alloc).wf(),
            final(alloc).base_spec() == old(alloc).base_spec(),
            final(alloc).end_spec() == old(alloc).end_spec(),
            forall|p: u64| old(alloc).is_live(p) ==> final(alloc).is_live(p),
            r matches Err(e) ==> e == MapError::OutOfFrames && old(alloc).free_count() == 0
                && final(alloc).free_count() == 0,
            r is Err <==> old(alloc).free_count() == 0,
            r matches Ok(pt) ==> {
                &&& pt.wf()
                &&& pt.mapping() =~= Map::<u64, PageTableEntry>::empty()
                &&& final(alloc).is_live(pt.root_ppn_spec())
                &&& !old(alloc).is_live(pt.root_ppn_spec())
            },
    {
        let f = match alloc.alloc_frame() {
            Some(f) => f,
            None => {
                return Err(MapError::OutOfFrames);
            },
        };
        let pt = PageTable { root_frame: f, slots: empty_root_slots() };
        proof {
            assert forall|v: u64| !pt.is_mapped(v) by {
                assert(pt.slots@[idx2(v)] is None);
            }
            assert(pt.mapping() =~= Map::<u64, PageTableEntry>::empty());
        }
        Ok(pt)
    }

    /// The value to write into the translation-control register to
    /// activate this table: the sv39 mode tag plus the root page number.
    pub fn token(&self) -> (r: u64)
        requires
            self.wf(),
        ensures
            r == SATP_MODE_SV39 + self.root_ppn_spec(),
    {
        SATP_MODE_SV39 + self.root_frame.ppn().0
    }

    /// Install the leaf entry `vpn -> ppn | flags | V`, creating up to two
    /// intermediate nodes. On success the mapping gains exactly that entry;
    /// mapping an already mapped page, or running out of frames for a node,
    /// fails and leaves the mapping as it was.
    pub fn map(
        &mut self,
        vpn: VirtPageNum,
        ppn: PhysPageNum,
        flags: u8,
        alloc: &mut FrameAllocator,
    ) -> (r: Result<(), MapError>)
        requires
            old(self).wf(),
            old(alloc).wf(),
            vpn.0 < VPN_LIMIT,
            ppn.0 < PPN_LIMIT,
        ensures
            final(self).wf(),
            final(alloc).wf(),
            final(alloc).base_spec() == old(alloc).base_spec(),
            final(alloc).end_spec() == old(alloc).end_spec(),
            forall|p: u64| old(alloc).is_live(p) ==> final(alloc).is_live(p),
            final(self).root_ppn_spec() == old(self).root_ppn_spec(),
            match r {
                Ok(()) => {
                    &&& !old(self).is_mapped(vpn.0)
                    &&& final(self).mapping() =~= old(self).mapping().insert(
                        vpn.0,
                        PageTableEntry { bits: (ppn.0 * 1024 + spec_with_valid(flags)) as u64 },
                    )
                },
                Err(MapError::AlreadyMapped) => {
                    &&& old(self).is_mapped(vpn.0)
                    &&& final(self).mapping() =~= old(self).mapping()
                    &&& final(alloc).free_count() == old(alloc).free_count()
                },
                Err(MapError::OutOfFrames) => {
                    &&& final(self).mapping() =~= old(self).mapping()
                    &&& final(alloc).free_count() == 0
                },
            },
    {
        let (i2, i1, i0) = vpn.indexes();
        let ghost pre = *self;
        // Take the root slot out, leaving None in its place.
        let mut slot2: Option<Box<MidNode>> = None;
        core::mem::swap(&mut slot2, &mut self.slots[i2]);
        let ghost had_mid = slot2 is Some;
        let mut mid: Box<MidNode> = match slot2 {
            Some(m) => m,
            None => {
                match alloc.alloc_frame() {
                    Some(f) => Box::new(MidNode { frame: f, slots: empty_mid_slots() }),
                    None => {
                        proof {
                            assert(self.slots@ =~= pre.slots@);
                        }
                        return Err(MapError::OutOfFrames);
                    },
                }
            },
        };
        let mut slot1: Option<Box<LeafNode>> = None;
        core::mem::swap(&mut slot1, &mut mid.slots[i1]);
        let ghost had_leaf = slot1 is Some;
        let mut leaf: Box<LeafNode> = match slot1 {
            Some(l) => l,
            None => {
                match alloc.alloc_frame() {
                    Some(f) => Box::new(LeafNode { frame: f, entries: empty_leaf_entries() }),
                    None => {
                        // Put the (possibly fresh) middle node back before
                        // reporting exhaustion; no leaf entry has changed.
                        mid.slots.set(i1, None);
                        self.slots.set(i2, Some(mid));
                        proof {
                            lemma_unchanged_outside_path(pre, *self, vpn.0, i2 as int, i1 as int);
                            assert(self.entry_at(vpn.0).bits == 0 && pre.entry_at(vpn.0).bits
                                == 0);
                            assert(self.mapping() =~= pre.mapping());
                        }
                        return Err(MapError::OutOfFrames);
                    },
                }
            },
        };
        let e = leaf.entries[i0];
        if e.is_valid() {
            // Both nodes pre-existed (a fresh leaf holds only zero
            // entries), so nothing was allocated; restore and report.
            mid.slots.set(i1, Some(leaf));
            self.slots.set(i2, Some(mid));
            proof {
                assert(had_mid && had_leaf);
                lemma_unchanged_outside_path(pre, *self, vpn.0, i2 as int, i1 as int);
                assert(self.entry_at(vpn.0) == pre.entry_at(vpn.0));
                assert(pre.is_mapped(vpn.0));
                assert(self.mapping() =~= pre.mapping());
            }
            return Err(MapError::AlreadyMapped);
        }
        let pte = PageTableEntry::new(ppn, if flags % 2 == 1 {
            flags
        } else {
            flags + 1
        });
        leaf.entries.set(i0, pte);
        mid.slots.set(i1, Some(leaf));
        self.slots.set(i2, Some(mid));
        proof {
            lemma_unchanged_outside_path(pre, *self, vpn.0, i2 as int, i1 as int);
            assert(self.entry_at(vpn.0) == pte);
            assert(pte.spec_valid()) by {
                lemma_pte_fields(ppn.0, spec_with_valid(flags));
            }
            assert(!pre.is_mapped(vpn.0));
            assert(self.mapping() =~= pre.mapping().insert(vpn.0, pte));
        }
        Ok(())
    }

    /// Clear the leaf entry of `vpn`. Reports whether the page was mapped;
    /// intermediate nodes are not reclaimed.
    pub fn unmap(&mut self, vpn: VirtPageNum) -> (r: bool)
        requires
            old(self).wf(),
            vpn.0 < VPN_LIMIT,
        ensures
            final(self).wf(),
            final(self).root_ppn_spec() == old(self).root_ppn_spec(),
            r == old(self).is_mapped(vpn.0),
            r ==> final(self).mapping() =~= old(self).mapping().remove(vpn.0),
            !r ==> final(self).mapping() =~= old(self).mapping(),
    {
        let (i2, i1, i0) = vpn.indexes();
        let ghost pre = *self;
        let mut slot2: Option<Box<MidNode>> = None;
        core::mem::swap(&mut slot2, &mut self.slots[i2]);
        let mut mid: Box<MidNode> = match slot2 {
            Some(m) => m,
            None => {
                self.slots.set(i2, None);
                proof {
                    assert(self.slots@ =~= pre.slots@);
                    assert(!pre.is_mapped(vpn.0));
                }
                return false;
            },
        };
        let mut slot1: Option<Box<LeafNode>> = None;
        core::mem::swap(&mut slot1, &mut mid.slots[i1]);
        let mut leaf: Box<LeafNode> = match slot1 {
            Some(l) => l,
            None => {
                mid.slots.set(i1, None);
                self.slots.set(i2, Some(mid));
                proof {
                    lemma_unchanged_outside_path(pre, *self, vpn.0, i2 as int, i1 as int);
                    assert(self.entry_at(vpn.0).bits == 0 && pre.entry_at(vpn.0).bits == 0);
                    assert(!pre.is_mapped(vpn.0));
                    assert(self.mapping() =~= pre.mapping());
                }
                return false;
            },
        };
        let e = leaf.entries[i0];
        if !e.is_valid() {
            mid.slots.set(i1, Some(leaf));
            self.slots.set(i2, Some(mid));
            proof {
                lemma_unchanged_outside_path(pre, *self, vpn.0, i2 as int, i1 as int);
                assert(self.entry_at(vpn.0) == pre.entry_at(vpn.0));
                assert(!pre.is_mapped(vpn.0));
                assert(self.mapping() =~= pre.mapping());
            }
            return false;
        }
        leaf.entries.set(i0, PageTableEntry::empty());
        mid.slots.set(i1, Some(leaf));
        self.slots.set(i2, Some(mid));
        proof {
            lemma_unchanged_outside_path(pre, *self, vpn.0, i2 as int, i1 as int);
            assert(self.entry_at(vpn.0).bits == 0);
            assert(pre.is_mapped(vpn.0));
            assert(self.mapping() =~= pre.mapping().remove(vpn.0));
        }
        true
    }

    /// Walk the table for `vpn`: the leaf entry when the walk resolves to
    /// a valid entry, nothing otherwise.
    pub fn translate(&self, vpn: VirtPageNum) -> (r: Option<PageTableEntry>)
        requires
            self.wf(),
            vpn.0 < VPN_LIMIT,
        ensures
            r == if self.is_mapped(vpn.0) {
                Some(self.entry_at(vpn.0))
            } else {
                None::<PageTableEntry>
            },
    {
        let (i2, i1, i0) = vpn.indexes();
        match &self.slots[i2] {
            None => None,
            Some(m) => match &m.slots[i1] {
                None => None,
                Some(l) => {
                    let e = l.entries[i0];
                    if e.is_valid() {
                        Some(e)
                    } else {
                        None
                    }
                },
            },
        }
    }
}

/// If two tables differ only in the node chain of `v` at root index `a2`
/// and middle index `a1`, every page number whose walk leaves that chain
/// reads the same entry in both.
proof fn lemma_unchanged_outside_path(pre: PageTable, post: PageTable, v: u64, a2: int, a1: int)
    requires
        pre.wf(),
        post.wf(),
        v < VPN_LIMIT,
        a2 == idx2(v),
        a1 == idx1(v),
        forall|j: int| 0 <= j < 512 && j != a2 ==> post.slots@[j] == pre.slots@[j],
        post.slots@[a2] is Some,
        match (pre.slots@[a2], post.slots@[a2]) {
            (Some(m0), Some(m1)) => forall|j: int|
                0 <= j < 512 && j != a1 ==> m1.slots@[j] == m0.slots@[j],
            (None, Some(m1)) => forall|j: int| 0 <= j < 512 && j != a1 ==> m1.slots@[j] is None,
            _ => false,
        },
        match (pre.slots@[a2], post.slots@[a2]) {
            (Some(m0), Some(m1)) => match (m0.slots@[a1], m1.slots@[a1]) {
                (Some(l0), Some(l1)) => forall|j: int|
                    0 <= j < 512 && j != idx0(v) ==> l1.entries@[j] == l0.entries@[j],
                (None, Some(l1)) => forall|j: int|
                    0 <= j < 512 && j != idx0(v) ==> l1.entries@[j].bits == 0,
                (None, None) => true,
                _ => false,
            },
            (None, Some(m1)) => match m1.slots@[a1] {
                Some(l1) => forall|j: int|
                    0 <= j < 512 && j != idx0(v) ==> l1.entries@[j].bits == 0,
                None => true,
            },
            _ => false,
        },
    ensures
        forall|w: u64| w != v && w < VPN_LIMIT ==> post.entry_at(w) == pre.entry_at(w),
        forall|w: u64| w != v ==> post.is_mapped(w) == pre.is_mapped(w),
{
    assert forall|w: u64| w != v && w < VPN_LIMIT implies post.entry_at(w) == pre.entry_at(
        w,
    ) by {
        if idx2(w) == a2 && idx1(w) == a1 && idx0(w) == idx0(v) {
            lemma_vpn_index_injective(v, w);
        }
    }
    assert forall|w: u64| w != v implies post.is_mapped(w) == pre.is_mapped(w) by {}
}


/// Installing `vpn -> ppn | flags` puts exactly that entry at `vpn`, and
/// it decodes back to the same page number and flags with the valid bit
/// set; clearing `vpn` leaves nothing there. Together with the mapping
/// clauses of `map`, `unmap` and `translate`, this pins the walk's
/// result after each operation.
pub proof fn lemma_map_translate_consistency(
    m: Map<u64, PageTableEntry>,
    vpn: u64,
    ppn: u64,
    flags: u8,
)
    requires
        ppn < PPN_LIMIT,
    ensures
        m.insert(
            vpn,
            PageTableEntry { bits: (ppn * 1024 + spec_with_valid(flags)) as u64 },
        ).contains_key(vpn),
        m.insert(vpn, PageTableEntry { bits: (ppn * 1024 + spec_with_valid(flags)) as u64 })[
            vpn].spec_ppn() == ppn,
        m.insert(vpn, PageTableEntry { bits: (ppn * 1024 + spec_with_valid(flags)) as u64 })[
            vpn].spec_flags() == spec_with_valid(flags),
        m.insert(vpn, PageTableEntry { bits: (ppn * 1024 + spec_with_valid(flags)) as u64 })[
            vpn].spec_valid(),
        !m.remove(vpn).contains_key(vpn),
{
    lemma_pte_fields(ppn, spec_with_valid(flags));
}

fn empty_root_slots() -> (r: Vec<Option<Box<MidNode>>>)
    ensures
        r@.len() == 512,
        forall|i: int| 0 <= i < 512 ==> r@[i] is None,
{
    let mut v: Vec<Option<Box<MidNode>>> = Vec::new();
    let mut i: usize = 0;
    while i < 512
        invariant
            i <= 512,
            v@.len() == i,
            forall|j: int| 0 <= j < i ==> v@[j] is None,
        decreases 512 - i,
    {
        v.push(None);
        i = i + 1;
    }
    v
}

fn empty_mid_slots() -> (r: Vec<Option<Box<LeafNode>>>)
    ensures
        r@.len() == 512,
        forall|i: int| 0 <= i < 512 ==> r@[i] is None,
{
    let mut v: Vec<Option<Box<LeafNode>>> = Vec::new();
    let mut i: usize = 0;
    while i < 512
        invariant
            i <= 512,
            v@.len() == i,
            forall|j: int| 0 <= j < i ==> v@[j] is None,
        decreases 512 - i,
    {
        v.push(None);
        i = i + 1;
    }
    v
}

fn empty_leaf_entries() -> (r: Vec<PageTableEntry>)
    ensures
        r@.len() == 512,
        forall|i: int| 0 <= i < 512 ==> r@[i].bits == 0,
    {
    let mut v: Vec<PageTableEntry> = Vec::new();
    let mut i: usize = 0;
    while i < 512
        invariant
            i <= 512,
            v@.len() == i,
            forall|j: int| 0 <= j < i ==> v@[j].bits == 0,
        decreases 512 - i,
    {
        v.push(PageTableEntry::empty());
        i = i + 1;
    }
    v
}

} // verus!
