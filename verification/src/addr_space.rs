//! Segments and address spaces: a segment is one contiguous virtual-page
//! range with a mapping policy and permission set; an address space is a
//! page table plus an ordered collection of segments, the complete memory
//! view of one execution context.

use vstd::prelude::*;
use vstd::arithmetic::div_mod::lemma_fundamental_div_mod;
use crate::PAGE_SIZE;
use crate::MEMORY_END;
use crate::addr::{VirtAddr, VirtPageNum, PhysPageNum, VpnRange, PAGE_BYTES, VA_LIMIT, VPN_LIMIT,
    PPN_LIMIT};
use crate::frame::{FrameAllocator, FrameHandle};
use crate::page_table::{PageTable, PageTableEntry, MapError, spec_with_valid};
use crate::elf::{ProgramHeader, spec_ph, spec_ph_count, elf_header_ok, elf_load_ok, ph_ok_for_load,
    parse_elf_header, read_program_header, PH_TYPE_LOAD};

verus! {

/// Permission bit: readable (matches the page-table entry layout).
pub const MAP_PERM_R: u8 = 2;

/// Permission bit: writable.
pub const MAP_PERM_W: u8 = 4;

/// Permission bit: executable.
pub const MAP_PERM_X: u8 = 8;

/// Permission bit: user-accessible.
pub const MAP_PERM_U: u8 = 16;

/// A permission byte holds only the four permission bits, so adding the
/// constants together never carries and the valid bit stays clear.
pub open spec fn perm_wf(p: u8) -> bool {
    p % 2 == 0 && p < 32
}

/// How a segment derives a physical page number from a virtual one.
#[derive(Clone, Copy, Debug, PartialEq, Eq, Structural)]
pub enum MapType {
    /// Physical page number equals the virtual page number.
    Identical,
    /// A fresh exclusively-owned frame backs each page.
    Framed,
    /// Physical page number is the virtual one plus a fixed offset.
    Linear(i64),
}

/// Reasons a mapping operation can fail.
#[derive(Clone, Copy, Debug, PartialEq, Eq, Structural)]
pub enum MemError {
    /// A page in the requested range is already mapped.
    AlreadyMapped,
    /// The frame pool ran dry.
    OutOfFrames,
    /// A linear mapping left the physical page-number width.
    LinearOutOfRange,
}

/// The leaf entry that mapping `target` with permissions `perm` installs.
pub open spec fn spec_pte_for(target: u64, perm: u8) -> PageTableEntry {
    PageTableEntry { bits: (target * 1024 + spec_with_valid(perm)) as u64 }
}

/// One mapping region: a half-open page range, its policy, its permission
/// bits, and (for framed mappings) the owned frame behind each page.
pub struct Segment {
    vpn_range: VpnRange,
    frames: Vec<Option<FrameHandle>>,
    map_type: MapType,
    map_perm: u8,
}

impl Segment {
    /// First page number of the range.
    pub closed spec fn start_spec(&self) -> u64 {
        self.vpn_range.start.0
    }

    /// One past the last page number of the range.
    pub closed spec fn end_spec(&self) -> u64 {
        self.vpn_range.end.0
    }

    pub closed spec fn map_type_spec(&self) -> MapType {
        self.map_type
    }

    pub closed spec fn perm_spec(&self) -> u8 {
        self.map_perm
    }

    /// The owned frames, one slot per page of the range (framed only).
    pub closed spec fn frames_spec(&self) -> Seq<Option<FrameHandle>> {
        self.frames@
    }

    /// Whether a page number falls inside the range.
    pub open spec fn covers(&self, vpn: u64) -> bool {
        self.start_spec() <= vpn < self.end_spec()
    }

    pub open spec fn is_framed(&self) -> bool {
        self.map_type_spec() is Framed
    }

    pub open spec fn wf(&self) -> bool {
        &&& self.start_spec() <= self.end_spec() <= VPN_LIMIT
        &&& self.frames_spec().len() == if self.is_framed() {
            self.end_spec() - self.start_spec()
        } else {
            0int
        }
        &&& forall|k: int|
            0 <= k < self.frames_spec().len() ==> match #[trigger] self.frames_spec()[k] {
                Some(f) => f.wf(),
                None => true,
            }
        &&& perm_wf(self.perm_spec())
    }

    /// Whether every page of the range has its frame (framed segments).
    pub open spec fn fully_framed(&self) -> bool {
        forall|k: int| 0 <= k < self.frames_spec().len() ==> #[trigger] self.frames_spec()[k] is Some
    }

    /// The physical page number that backs `vpn` under this segment's
    /// policy, assuming (for framed segments) the frame is present.
    pub open spec fn target_ppn(&self, vpn: u64) -> int {
        match self.map_type_spec() {
            MapType::Identical => vpn as int,
            MapType::Framed => self.frames_spec()[vpn - self.start_spec()]->Some_0.ppn_spec() as int,
            MapType::Linear(off) => vpn + off,
        }
    }

    /// The byte this segment holds at virtual address `va` (framed only).
    pub open spec fn byte_at(&self, va: int) -> u8 {
        self.frames_spec()[va / (PAGE_BYTES as int) - self.start_spec()]->Some_0.bytes()[va % (
        PAGE_BYTES as int)]
    }

    /// A new, still unmapped segment covering the pages from the floor of
    /// `start_va` to the ceiling of `end_va`.
    pub fn new(start_va: VirtAddr, end_va: VirtAddr, map_type: MapType, map_perm: u8) -> (r: Self)
        requires
            start_va.0 <= end_va.0 <= VA_LIMIT,
            perm_wf(map_perm),
        ensures
            r.wf(),
            r.start_spec() == start_va.0 / PAGE_BYTES,
            r.end_spec() == (end_va.0 + PAGE_BYTES - 1) / (PAGE_BYTES as int),
            r.map_type_spec() == map_type,
            r.perm_spec() == map_perm,
            forall|k: int| 0 <= k < r.frames_spec().len() ==> #[trigger] r.frames_spec()[k] is None,
    {
        let start_vpn = start_va.floor();
        let end_vpn = end_va.ceil();
        let n: usize = if matches!(map_type, MapType::Framed) {
            (end_vpn.0 - start_vpn.0) as usize
        } else {
            0
        };
        let frames = none_frames(n);
        Segment {
            vpn_range: VpnRange::new(start_vpn, end_vpn),
            frames,
            map_type,
            map_perm,
        }
    }

    /// A fresh unmapped segment with the same range, policy and
    /// permissions as another.
    pub fn from_another(another: &Segment) -> (r: Self)
        requires
            another.wf(),
        ensures
            r.wf(),
            r.start_spec() == another.start_spec(),
            r.end_spec() == another.end_spec(),
            r.map_type_spec() == another.map_type_spec(),
            r.perm_spec() == another.perm_spec(),
            forall|k: int| 0 <= k < r.frames_spec().len() ==> #[trigger] r.frames_spec()[k] is None,
    {
        let start = another.vpn_range.get_start();
        let end = another.vpn_range.get_end();
        let n: usize = if matches!(another.map_type, MapType::Framed) {
            (end.0 - start.0) as usize
        } else {
            0
        };
        Segment {
            vpn_range: VpnRange::new(start, end),
            frames: none_frames(n),
            map_type: another.map_type,
            map_perm: another.map_perm,
        }
    }

    pub fn get_start(&self) -> (r: VirtPageNum)
        ensures
            r.0 == self.start_spec(),
    {
        self.vpn_range.get_start()
    }

    pub fn get_end(&self) -> (r: VirtPageNum)
        ensures
            r.0 == self.end_spec(),
    {
        self.vpn_range.get_end()
    }

    /// Install the mapping for one page of the range: identity or linear
    /// pages map by arithmetic, framed pages get a fresh zeroed frame that
    /// the segment then owns.
    pub fn map_one(
        &mut self,
        page_table: &mut PageTable,
        vpn: VirtPageNum,
        alloc: &mut FrameAllocator,
    ) -> (r: Result<(), MemError>)
        requires
            old(self).wf(),
            old(page_table).wf(),
            old(alloc).wf(),
            old(self).covers(vpn.0),
            !old(page_table).is_mapped(vpn.0),
            old(self).is_framed() ==> old(self).frames_spec()[vpn.0 - old(self).start_spec()]
                is None,
        ensures
            final(self).wf(),
            final(page_table).wf(),
            final(alloc).wf(),
            final(self).start_spec() == old(self).start_spec(),
            final(self).end_spec() == old(self).end_spec(),
            final(self).map_type_spec() == old(self).map_type_spec(),
            final(self).perm_spec() == old(self).perm_spec(),
            final(page_table).root_ppn_spec() == old(page_table).root_ppn_spec(),
            final(alloc).base_spec() == old(alloc).base_spec(),
            final(alloc).end_spec() == old(alloc).end_spec(),
            forall|p: u64| old(alloc).is_live(p) ==> final(alloc).is_live(p),
            match r {
                Ok(()) => {
                    &&& 0 <= final(self).target_ppn(vpn.0) < PPN_LIMIT
                    &&& final(page_table).mapping() =~= old(page_table).mapping().insert(
                        vpn.0,
                        spec_pte_for(final(self).target_ppn(vpn.0) as u64, old(self).perm_spec()),
                    )
                    &&& final(self).frames_spec().len() == old(self).frames_spec().len()
                    &&& forall|k: int|
                        0 <= k < final(self).frames_spec().len() && k != vpn.0 - old(self).start_spec() ==> final(self).frames_spec()[k] == old(self).frames_spec()[k]
                    &&& (old(self).is_framed() ==> {
                        &&& final(self).frames_spec()[vpn.0 - old(self).start_spec()] matches Some(
                            f,
                        )
                        &&& f.wf()
                        &&& f.bytes() =~= Seq::new(PAGE_SIZE as nat, |i: int| 0u8)
                        &&& !old(alloc).is_live(f.ppn_spec())
                        &&& final(alloc).is_live(f.ppn_spec())
                    })
                    &&& (!old(self).is_framed() ==> final(self).frames_spec() == old(self).frames_spec())
                },
                Err(MemError::OutOfFrames) => {
                    &&& final(page_table).mapping() =~= old(page_table).mapping()
                    &&& final(self).frames_spec() == old(self).frames_spec()
                    &&& final(alloc).free_count() <= 1
                },
                Err(MemError::LinearOutOfRange) => {
                    &&& old(self).map_type_spec() matches MapType::Linear(off) && !(0 <= vpn.0
                        + off < PPN_LIMIT)
                    &&& final(page_table).mapping() =~= old(page_table).mapping()
                    &&& final(self).frames_spec() == old(self).frames_spec()
                    &&& *final(alloc) == *old(alloc)
                },
                Err(MemError::AlreadyMapped) => false,
            },
    {
        let perm = self.map_perm;
        match self.map_type {
            MapType::Identical => {
                let target = PhysPageNum(vpn.0);
                match page_table.map(vpn, target, perm, alloc) {
                    Ok(()) => Ok(()),
                    Err(MapError::OutOfFrames) => Err(MemError::OutOfFrames),
                    Err(MapError::AlreadyMapped) => {
                        proof {
                            assert(false);
                        }
                        Err(MemError::AlreadyMapped)
                    },
                }
            },
            MapType::Linear(off) => {
                let ok: bool = if off >= 0 {
                    off as u64 <= u64::MAX - vpn.0 && vpn.0 + (off as u64) < PPN_LIMIT
                } else if off == i64::MIN {
                    false
                } else {
                    vpn.0 >= ((-off) as u64)
                };
                if !ok {
                    return Err(MemError::LinearOutOfRange);
                }
                let t: u64 = if off >= 0 {
                    vpn.0 + (off as u64)
                } else {
                    vpn.0 - ((-off) as u64)
                };
                let target = PhysPageNum(t);
                match page_table.map(vpn, target, perm, alloc) {
                    Ok(()) => Ok(()),
                    Err(MapError::OutOfFrames) => Err(MemError::OutOfFrames),
                    Err(MapError::AlreadyMapped) => {
                        proof {
                            assert(false);
                        }
                        Err(MemError::AlreadyMapped)
                    },
                }
            },
            MapType::Framed => {
                let f = match alloc.alloc_frame() {
                    Some(f) => f,
                    None => {
                        return Err(MemError::OutOfFrames);
                    },
                };
                let target = f.ppn();
                match page_table.map(vpn, target, perm, alloc) {
                    Ok(()) => {
                        let idx = (vpn.0 - self.vpn_range.get_start().0) as usize;
                        self.frames.set(idx, Some(f));
                        Ok(())
                    },
                    Err(MapError::OutOfFrames) => {
                        let released = alloc.release(f);
                        proof {
                            assert(released);
                        }
                        Err(MemError::OutOfFrames)
                    },
                    Err(MapError::AlreadyMapped) => {
                        proof {
                            assert(false);
                        }
                        Err(MemError::AlreadyMapped)
                    },
                }
            },
        }
    }

    /// Remove the mapping for one page: the page-table entry is cleared
    /// and, for framed segments, the owned frame goes back to the pool.
    pub fn unmap_one(
        &mut self,
        page_table: &mut PageTable,
        vpn: VirtPageNum,
        alloc: &mut FrameAllocator,
    )
        requires
            old(self).wf(),
            old(page_table).wf(),
            old(alloc).wf(),
            old(self).covers(vpn.0),
        ensures
            final(self).wf(),
            final(page_table).wf(),
            final(alloc).wf(),
            final(self).start_spec() == old(self).start_spec(),
            final(self).end_spec() == old(self).end_spec(),
            final(self).map_type_spec() == old(self).map_type_spec(),
            final(self).perm_spec() == old(self).perm_spec(),
            final(page_table).root_ppn_spec() == old(page_table).root_ppn_spec(),
            final(alloc).base_spec() == old(alloc).base_spec(),
            final(alloc).end_spec() == old(alloc).end_spec(),
            final(self).frames_spec().len() == old(self).frames_spec().len(),
            forall|k: int|
                0 <= k < final(self).frames_spec().len() && k != vpn.0 - old(self).start_spec()
                    ==> final(self).frames_spec()[k] == old(self).frames_spec()[k],
            old(self).is_framed() ==> final(self).frames_spec()[vpn.0 - old(self).start_spec()]
                is None,
            old(self).is_framed() ==> (old(self).frames_spec()[vpn.0 - old(self).start_spec()]
                matches Some(f) ==> !final(alloc).is_live(f.ppn_spec())),
            old(page_table).is_mapped(vpn.0) ==> final(page_table).mapping() =~= old(page_table).mapping().remove(vpn.0),
            !old(page_table).is_mapped(vpn.0) ==> final(page_table).mapping() =~= old(page_table).mapping(),
            forall|q: u64|
                final(alloc).is_live(q) ==> old(alloc).is_live(q),
            forall|q: u64|
                old(alloc).is_live(q) && !final(alloc).is_live(q) ==> (old(self).is_framed()
                    && (old(self).frames_spec()[vpn.0 - old(self).start_spec()] matches Some(f)
                        && q == f.ppn_spec())),
    {
        if matches!(self.map_type, MapType::Framed) {
            let idx = (vpn.0 - self.vpn_range.get_start().0) as usize;
            let mut slot: Option<FrameHandle> = None;
            core::mem::swap(&mut slot, &mut self.frames[idx]);
            match slot {
                Some(f) => {
                    let _ = alloc.release(f);
                },
                None => {},
            }
        }
        page_table.unmap(vpn);
    }

    /// Map every page of the range.
    pub fn map(&mut self, page_table: &mut PageTable, alloc: &mut FrameAllocator) -> (r: Result<
        (),
        MemError,
    >)
        requires
            old(self).wf(),
            old(page_table).wf(),
            old(alloc).wf(),
            forall|v: u64| old(self).covers(v) ==> !old(page_table).is_mapped(v),
            forall|k: int|
                0 <= k < old(self).frames_spec().len() ==> #[trigger] old(self).frames_spec()[k]
                    is None,
        ensures
            final(self).wf(),
            final(page_table).wf(),
            final(alloc).wf(),
            final(self).start_spec() == old(self).start_spec(),
            final(self).end_spec() == old(self).end_spec(),
            final(self).map_type_spec() == old(self).map_type_spec(),
            final(self).perm_spec() == old(self).perm_spec(),
            final(page_table).root_ppn_spec() == old(page_table).root_ppn_spec(),
            final(alloc).base_spec() == old(alloc).base_spec(),
            final(alloc).end_spec() == old(alloc).end_spec(),
            forall|p: u64| old(alloc).is_live(p) ==> final(alloc).is_live(p),
            match r {
                Ok(()) => {
                    &&& final(self).fully_framed()
                    &&& forall|v: u64|
                        final(self).covers(v) ==> #[trigger] final(page_table).is_mapped(v)
                            && 0 <= final(self).target_ppn(v) < PPN_LIMIT
                            && final(page_table).mapping()[v] == spec_pte_for(
                            final(self).target_ppn(v) as u64,
                            final(self).perm_spec(),
                        )
                    &&& forall|v: u64|
                        !final(self).covers(v) ==> #[trigger] final(page_table).is_mapped(v)
                            == old(page_table).is_mapped(v) && (old(page_table).is_mapped(v)
                            ==> final(page_table).mapping()[v] == old(page_table).mapping()[v])
                    &&& (final(self).is_framed() ==> forall|k: int|
                        0 <= k < final(self).frames_spec().len()
                            ==> ((#[trigger] final(self).frames_spec()[k]) matches Some(f)
                            && f.bytes() =~= Seq::new(PAGE_SIZE as nat, |i: int| 0u8)))
                },
                Err(e) => {
                    &&& e != MemError::AlreadyMapped
                    &&& (e == MemError::LinearOutOfRange ==> (old(self).map_type_spec()
                        matches MapType::Linear(off) && exists|v: u64|
                        #[trigger] old(self).covers(v) && !(0 <= v + off < PPN_LIMIT)))
                    &&& (e == MemError::OutOfFrames ==> final(alloc).free_count() <= 1)
                    &&& forall|v: u64|
                        !final(self).covers(v) ==> #[trigger] final(page_table).is_mapped(v)
                            == old(page_table).is_mapped(v) && (old(page_table).is_mapped(v)
                            ==> final(page_table).mapping()[v] == old(page_table).mapping()[v])
                },
            },
    {
        let start = self.vpn_range.get_start().0;
        let end = self.vpn_range.get_end().0;
        let ghost pt0 = *page_table;
        let mut cur: u64 = start;
        while cur < end
            invariant
                self.wf(),
                page_table.wf(),
                alloc.wf(),
                start == self.start_spec(),
                end == self.end_spec(),
                start <= cur <= end,
                self.start_spec() == old(self).start_spec(),
                self.end_spec() == old(self).end_spec(),
                self.map_type_spec() == old(self).map_type_spec(),
                self.perm_spec() == old(self).perm_spec(),
                page_table.root_ppn_spec() == old(page_table).root_ppn_spec(),
                alloc.base_spec() == old(alloc).base_spec(),
                alloc.end_spec() == old(alloc).end_spec(),
                pt0 == *old(page_table),
                forall|p: u64| old(alloc).is_live(p) ==> alloc.is_live(p),
                forall|v: u64| self.covers(v) && v >= cur ==> !page_table.is_mapped(v),
                forall|k: int|
                    cur - start <= k < self.frames_spec().len() ==> #[trigger] self.frames_spec()[k]
                        is None,
                forall|v: u64|
                    self.covers(v) && v < cur ==> #[trigger] page_table.is_mapped(v) && 0
                        <= self.target_ppn(v) < PPN_LIMIT && page_table.mapping()[v]
                        == spec_pte_for(self.target_ppn(v) as u64, self.perm_spec()),
                forall|v: u64|
                    !self.covers(v) ==> #[trigger] page_table.is_mapped(v) == pt0.is_mapped(v)
                        && (pt0.is_mapped(v) ==> page_table.mapping()[v] == pt0.mapping()[v]),
                self.is_framed() ==> forall|k: int|
                    0 <= k < cur - start ==> ((#[trigger] self.frames_spec()[k]) matches Some(f)
                        && f.bytes() =~= Seq::new(PAGE_SIZE as nat, |i: int| 0u8)),
            decreases end - cur,
        {
            let ghost prev = *self;
            let ghost pt_prev = *page_table;
            match self.map_one(page_table, VirtPageNum(cur), alloc) {
                Ok(()) => {},
                Err(e) => {
                    proof {
                        if e == MemError::LinearOutOfRange {
                            assert(old(self).covers(cur));
                        }
                        assert forall|v: u64|
                            !self.covers(v) implies #[trigger] page_table.is_mapped(v)
                                == pt0.is_mapped(v) && (pt0.is_mapped(v)
                                ==> page_table.mapping()[v] == pt0.mapping()[v]) by {
                            assert(page_table.mapping().contains_key(v)
                                == pt_prev.mapping().contains_key(v));
                            assert(page_table.is_mapped(v) == pt_prev.is_mapped(v));
                            if pt_prev.is_mapped(v) {
                                assert(page_table.mapping()[v] == pt_prev.mapping()[v]);
                            }
                        }
                    }
                    return Err(e);
                },
            }
            proof {
                let c = cur;
                let newpte = spec_pte_for(self.target_ppn(c) as u64, self.perm_spec());
                assert(page_table.mapping() =~= pt_prev.mapping().insert(c, newpte));
                assert(page_table.mapping().contains_key(c));
                assert(page_table.is_mapped(c));
                assert(page_table.mapping()[c] == newpte);
                assert forall|v: u64|
                    self.covers(v) && v < c implies #[trigger] page_table.is_mapped(v) && 0
                        <= self.target_ppn(v) < PPN_LIMIT && page_table.mapping()[v]
                        == spec_pte_for(self.target_ppn(v) as u64, self.perm_spec()) by {
                    assert(pt_prev.is_mapped(v));
                    assert(pt_prev.mapping().contains_key(v));
                    assert(page_table.mapping().contains_key(v));
                    assert(page_table.is_mapped(v));
                    assert(page_table.mapping()[v] == pt_prev.mapping()[v]);
                    assert(self.frames_spec()[v - self.start_spec()] == prev.frames_spec()[v
                        - prev.start_spec()]);
                    assert(self.target_ppn(v) == prev.target_ppn(v));
                }
                assert forall|v: u64| self.covers(v) && v >= c + 1 implies !page_table.is_mapped(
                    v,
                ) by {
                    assert(!pt_prev.is_mapped(v));
                    assert(!pt_prev.mapping().contains_key(v));
                    assert(!page_table.mapping().contains_key(v));
                }
                assert forall|v: u64|
                    !self.covers(v) implies #[trigger] page_table.is_mapped(v) == pt0.is_mapped(v)
                        && (pt0.is_mapped(v) ==> page_table.mapping()[v] == pt0.mapping()[v]) by {
                    assert(page_table.mapping().contains_key(v) == pt_prev.mapping().contains_key(
                        v,
                    ));
                    assert(page_table.is_mapped(v) == pt_prev.is_mapped(v));
                    if pt_prev.is_mapped(v) {
                        assert(page_table.mapping()[v] == pt_prev.mapping()[v]);
                    }
                }
            }
            cur = cur + 1;
        }
        Ok(())
    }

    /// Unmap every page of the range, returning owned frames to the pool.
    pub fn unmap(&mut self, page_table: &mut PageTable, alloc: &mut FrameAllocator)
        requires
            old(self).wf(),
            old(page_table).wf(),
            old(alloc).wf(),
        ensures
            final(self).wf(),
            final(page_table).wf(),
            final(alloc).wf(),
            final(self).start_spec() == old(self).start_spec(),
            final(self).end_spec() == old(self).end_spec(),
            final(self).map_type_spec() == old(self).map_type_spec(),
            final(self).perm_spec() == old(self).perm_spec(),
            final(page_table).root_ppn_spec() == old(page_table).root_ppn_spec(),
            final(alloc).base_spec() == old(alloc).base_spec(),
            final(alloc).end_spec() == old(alloc).end_spec(),
            forall|k: int|
                0 <= k < final(self).frames_spec().len() ==> #[trigger] final(self).frames_spec()[k]
                    is None,
            forall|k: int|
                0 <= k < old(self).frames_spec().len() ==> ((#[trigger] old(self).frames_spec()[
                    k]) matches Some(f) ==> !final(alloc).is_live(f.ppn_spec())),
            forall|v: u64| final(self).covers(v) ==> !final(page_table).is_mapped(v),
            forall|v: u64|
                !final(self).covers(v) ==> #[trigger] final(page_table).is_mapped(v) == old(page_table).is_mapped(v) && (old(page_table).is_mapped(v) ==> final(page_table).mapping()[v]
                    == old(page_table).mapping()[v]),
            forall|q: u64| final(alloc).is_live(q) ==> old(alloc).is_live(q),
    {
        let start = self.vpn_range.get_start().0;
        let end = self.vpn_range.get_end().0;
        let ghost pt0 = *page_table;
        let mut cur: u64 = start;
        while cur < end
            invariant
                self.wf(),
                page_table.wf(),
                alloc.wf(),
                start == self.start_spec(),
                end == self.end_spec(),
                start <= cur <= end,
                self.start_spec() == old(self).start_spec(),
                self.end_spec() == old(self).end_spec(),
                self.map_type_spec() == old(self).map_type_spec(),
                self.perm_spec() == old(self).perm_spec(),
                page_table.root_ppn_spec() == old(page_table).root_ppn_spec(),
                alloc.base_spec() == old(alloc).base_spec(),
                alloc.end_spec() == old(alloc).end_spec(),
                pt0 == *old(page_table),
                forall|k: int|
                    0 <= k < self.frames_spec().len() && k < cur - start
                        ==> #[trigger] self.frames_spec()[k] is None,
                forall|k: int|
                    cur - start <= k < self.frames_spec().len() ==> #[trigger] self.frames_spec()[
                        k] == old(self).frames_spec()[k],
                self.frames_spec().len() == old(self).frames_spec().len(),
                forall|k: int|
                    0 <= k < old(self).frames_spec().len() && k < cur - start ==> ((
                    #[trigger] old(self).frames_spec()[k]) matches Some(f) ==> !alloc.is_live(
                        f.ppn_spec(),
                    )),
                forall|v: u64| self.covers(v) && v < cur ==> !page_table.is_mapped(v),
                forall|v: u64|
                    !(self.covers(v) && v < cur) ==> #[trigger] page_table.is_mapped(v)
                        == pt0.is_mapped(v) && (pt0.is_mapped(v) ==> page_table.mapping()[v]
                        == pt0.mapping()[v]),
                forall|q: u64| alloc.is_live(q) ==> old(alloc).is_live(q),
            decreases end - cur,
        {
            let ghost prev = *self;
            let ghost pt_prev = *page_table;
            self.unmap_one(page_table, VirtPageNum(cur), alloc);
            proof {
                let c = cur;
                if pt_prev.is_mapped(c) {
                    assert(page_table.mapping() =~= pt_prev.mapping().remove(c));
                } else {
                    assert(page_table.mapping() =~= pt_prev.mapping());
                }
                assert(!page_table.mapping().contains_key(c));
                assert(!page_table.is_mapped(c));
                assert forall|v: u64| self.covers(v) && v < c implies !page_table.is_mapped(v) by {
                    assert(!pt_prev.is_mapped(v));
                    assert(!pt_prev.mapping().contains_key(v));
                    assert(!page_table.mapping().contains_key(v));
                }
                assert forall|v: u64|
                    !(self.covers(v) && v < c + 1) implies #[trigger] page_table.is_mapped(v)
                        == pt0.is_mapped(v) && (pt0.is_mapped(v) ==> page_table.mapping()[v]
                        == pt0.mapping()[v]) by {
                    assert(v != c);
                    assert(page_table.mapping().contains_key(v) == pt_prev.mapping().contains_key(
                        v,
                    ));
                    assert(page_table.is_mapped(v) == pt_prev.is_mapped(v));
                    if pt_prev.is_mapped(v) {
                        assert(page_table.mapping()[v] == pt_prev.mapping()[v]);
                    }
                }
            }
            cur = cur + 1;
        }
    }

    /// Whether the given page number falls inside this segment's range.
    pub fn covers_page(&self, vpn: u64) -> (r: bool)
        ensures
            r == self.covers(vpn),
    {
        self.vpn_range.get_start().0 <= vpn && vpn < self.vpn_range.get_end().0
    }

    /// Read the byte at virtual address `va`, if this segment is framed
    /// and the page's frame is present.
    pub fn read_byte_checked(&self, va: u64) -> (r: Option<u8>)
        requires
            self.wf(),
            self.covers(va / PAGE_BYTES),
        ensures
            r == if self.is_framed() && self.frames_spec()[va / PAGE_BYTES - self.start_spec()]
                is Some {
                Some(self.byte_at(va as int))
            } else {
                None::<u8>
            },
    {
        if !matches!(self.map_type, MapType::Framed) {
            return None;
        }
        let idx = (va / PAGE_BYTES - self.vpn_range.get_start().0) as usize;
        let off = (va % PAGE_BYTES) as usize;
        match &self.frames[idx] {
            Some(f) => Some(f.read_byte(off)),
            None => None,
        }
    }

    /// Write the byte at virtual address `va`, if this segment is framed
    /// and the page's frame is present; only that byte changes.
    pub fn write_byte_checked(&mut self, va: u64, b: u8) -> (ok: bool)
        requires
            old(self).wf(),
            old(self).covers(va / PAGE_BYTES),
        ensures
            final(self).wf(),
            ok == (old(self).is_framed() && old(self).frames_spec()[va / PAGE_BYTES - old(self).start_spec()] is Some),
            ok ==> {
                &&& final(self).start_spec() == old(self).start_spec()
                &&& final(self).end_spec() == old(self).end_spec()
                &&& final(self).map_type_spec() == old(self).map_type_spec()
                &&& final(self).perm_spec() == old(self).perm_spec()
                &&& Self::frames_identical(old(self).frames_spec(), final(self).frames_spec())
                &&& forall|k: int|
                    0 <= k < old(self).frames_spec().len() ==> ((#[trigger] final(self).frames_spec()[k]) is Some <==> old(self).frames_spec()[k] is Some)
                &&& final(self).byte_at(va as int) == b
                &&& forall|va2: int|
                    old(self).span_lo() <= va2 < old(self).span_hi() && va2 != va
                        ==> #[trigger] final(self).byte_at(va2) == old(self).byte_at(va2)
            },
            !ok ==> *final(self) == *old(self),
    {
        if !matches!(self.map_type, MapType::Framed) {
            return false;
        }
        let idx = (va / PAGE_BYTES - self.vpn_range.get_start().0) as usize;
        let off = (va % PAGE_BYTES) as usize;
        let ghost prev = *self;
        let present = self.frames[idx].is_some();
        if !present {
            return false;
        }
        proof {
            lemma_page_split(va as int, self.start_spec() as int, self.end_spec() as int);
        }
        match &mut self.frames[idx] {
            Some(f) => {
                f.write_byte(off, b);
            },
            None => {
                proof {
                    assert(false);
                }
            },
        }
        proof {
            assert(self.byte_at(va as int) == b);
            assert forall|va2: int|
                prev.span_lo() <= va2 < prev.span_hi() && va2 != va implies #[trigger] self.byte_at(
                va2,
            ) == prev.byte_at(va2) by {
                lemma_page_split(va2, self.start_spec() as int, self.end_spec() as int);
                if va2 / (PAGE_BYTES as int) - self.start_spec() == idx && va2 % (
                PAGE_BYTES as int) == off {
                    lemma_fundamental_div_mod(va2, PAGE_BYTES as int);
                    lemma_fundamental_div_mod(va as int, PAGE_BYTES as int);
                    assert(va2 == va);
                }
            }
        }
        true
    }

    /// Return every owned frame to the pool without touching any page
    /// table, as when a whole address space is discarded.
    pub fn release_frames(&mut self, alloc: &mut FrameAllocator)
        requires
            old(self).wf(),
            old(alloc).wf(),
        ensures
            final(self).wf(),
            final(alloc).wf(),
            final(alloc).base_spec() == old(alloc).base_spec(),
            final(alloc).end_spec() == old(alloc).end_spec(),
            forall|q: u64| final(alloc).is_live(q) ==> old(alloc).is_live(q),
            forall|k: int|
                0 <= k < final(self).frames_spec().len() ==> #[trigger] final(self).frames_spec()[k]
                    is None,
            forall|k: int|
                0 <= k < old(self).frames_spec().len() ==> ((#[trigger] old(self).frames_spec()[
                    k]) matches Some(f) ==> !final(alloc).is_live(f.ppn_spec())),
    {
        let mut k: usize = 0;
        while k < self.frames.len()
            invariant
                self.wf(),
                alloc.wf(),
                alloc.base_spec() == old(alloc).base_spec(),
                alloc.end_spec() == old(alloc).end_spec(),
                k <= self.frames@.len(),
                self.frames@.len() == old(self).frames_spec().len(),
                forall|q: u64| alloc.is_live(q) ==> old(alloc).is_live(q),
                forall|j: int| 0 <= j < k ==> #[trigger] self.frames@[j] is None,
                forall|j: int|
                    k <= j < self.frames@.len() ==> #[trigger] self.frames@[j] == old(
                        self,
                    ).frames_spec()[j],
                forall|j: int|
                    0 <= j < k ==> ((#[trigger] old(self).frames_spec()[j]) matches Some(f)
                        ==> !alloc.is_live(f.ppn_spec())),
                forall|j: int|
                    0 <= j < self.frames@.len() ==> match #[trigger] self.frames@[j] {
                        Some(f) => f.wf(),
                        None => true,
                    },
                self.start_spec() == old(self).start_spec(),
                self.end_spec() == old(self).end_spec(),
                self.map_type_spec() == old(self).map_type_spec(),
                self.perm_spec() == old(self).perm_spec(),
            decreases self.frames@.len() - k,
        {
            let mut slot: Option<FrameHandle> = None;
            core::mem::swap(&mut slot, &mut self.frames[k]);
            match slot {
                Some(f) => {
                    let _ = alloc.release(f);
                },
                None => {},
            }
            k = k + 1;
        }
    }

    /// The first byte address covered by the segment.
    pub open spec fn span_lo(&self) -> int {
        self.start_spec() * PAGE_BYTES
    }

    /// One past the last byte address covered by the segment.
    pub open spec fn span_hi(&self) -> int {
        self.end_spec() * PAGE_BYTES
    }

    /// Each frame keeps its identity: same presence and page number.
    pub open spec fn frames_identical(pre: Seq<Option<FrameHandle>>, post: Seq<
        Option<FrameHandle>,
    >) -> bool {
        post.len() == pre.len() && forall|k: int|
            0 <= k < pre.len() ==> ((#[trigger] post[k]) is Some == pre[k] is Some && (pre[k]
                is Some ==> post[k]->Some_0.ppn_spec() == pre[k]->Some_0.ppn_spec()))
    }

    /// Write `data` into the owned frames starting at virtual address
    /// `start`, splitting across page boundaries as needed.
    pub fn copy_data(&mut self, start: VirtAddr, data: &[u8])
        requires
            old(self).wf(),
            old(self).is_framed(),
            old(self).fully_framed(),
            old(self).span_lo() <= start.0,
            start.0 + data@.len() <= old(self).span_hi(),
        ensures
            final(self).wf(),
            final(self).start_spec() == old(self).start_spec(),
            final(self).end_spec() == old(self).end_spec(),
            final(self).map_type_spec() == old(self).map_type_spec(),
            final(self).perm_spec() == old(self).perm_spec(),
            final(self).fully_framed(),
            Self::frames_identical(old(self).frames_spec(), final(self).frames_spec()),
            forall|j: int|
                0 <= j < data@.len() ==> final(self).byte_at(start.0 + j) == data@[j],
            forall|va: int|
                old(self).span_lo() <= va < old(self).span_hi() && !(start.0 <= va < start.0
                    + data@.len()) ==> final(self).byte_at(va) == old(self).byte_at(va),
    {
        let start_vpn = self.vpn_range.get_start().0;
        let mut j: usize = 0;
        while j < data.len()
            invariant
                self.wf(),
                self.is_framed(),
                self.fully_framed(),
                self.start_spec() == old(self).start_spec(),
                self.end_spec() == old(self).end_spec(),
                self.map_type_spec() == old(self).map_type_spec(),
                self.perm_spec() == old(self).perm_spec(),
                Self::frames_identical(old(self).frames_spec(), self.frames_spec()),
                start_vpn == self.start_spec(),
                j <= data@.len(),
                self.span_lo() <= start.0,
                start.0 + data@.len() <= self.span_hi(),
                forall|t: int| 0 <= t < j ==> self.byte_at(start.0 + t) == data@[t],
                forall|va: int|
                    self.span_lo() <= va < self.span_hi() && !(start.0 <= va < start.0 + j)
                        ==> self.byte_at(va) == old(self).byte_at(va),
            decreases data@.len() - j,
        {
            let va: u64 = start.0 + j as u64;
            proof {
                lemma_page_split(va as int, self.start_spec() as int, self.end_spec() as int);
            }
            let idx = (va / PAGE_BYTES - start_vpn) as usize;
            let off = (va % PAGE_BYTES) as usize;
            let b = data[j];
            let ghost prev = *self;
            match &mut self.frames[idx] {
                Some(f) => {
                    f.write_byte(off, b);
                },
                None => {
                    proof {
                        assert(false);
                    }
                },
            }
            proof {
                assert(self.byte_at(va as int) == b);
                assert forall|va2: int|
                    self.span_lo() <= va2 < self.span_hi() && va2 != va implies self.byte_at(va2)
                        == prev.byte_at(va2) by {
                    lemma_page_split(va2, self.start_spec() as int, self.end_spec() as int);
                    if va2 / (PAGE_BYTES as int) - self.start_spec() == idx && va2 % (
                    PAGE_BYTES as int) == off {
                        lemma_fundamental_div_mod(va2, PAGE_BYTES as int);
                        lemma_fundamental_div_mod(va as int, PAGE_BYTES as int);
                        assert(va2 == va);
                    }
                }
            }
            j = j + 1;
        }
    }

    /// Fill `[start, start + size)` with zero bytes, as used to clear the
    /// uninitialized tail of a loaded segment.
    pub fn zero_out(&mut self, start: VirtAddr, size: usize)
        requires
            old(self).wf(),
            old(self).is_framed(),
            old(self).fully_framed(),
            old(self).span_lo() <= start.0,
            start.0 + size <= old(self).span_hi(),
        ensures
            final(self).wf(),
            final(self).start_spec() == old(self).start_spec(),
            final(self).end_spec() == old(self).end_spec(),
            final(self).map_type_spec() == old(self).map_type_spec(),
            final(self).perm_spec() == old(self).perm_spec(),
            final(self).fully_framed(),
            Self::frames_identical(old(self).frames_spec(), final(self).frames_spec()),
            forall|j: int| 0 <= j < size ==> #[trigger] final(self).byte_at(start.0 + j) == 0u8,
            forall|va: int|
                old(self).span_lo() <= va < old(self).span_hi() && !(start.0 <= va < start.0
                    + size) ==> final(self).byte_at(va) == old(self).byte_at(va),
    {
        let start_vpn = self.vpn_range.get_start().0;
        let mut j: usize = 0;
        while j < size
            invariant
                self.wf(),
                self.is_framed(),
                self.fully_framed(),
                self.start_spec() == old(self).start_spec(),
                self.end_spec() == old(self).end_spec(),
                self.map_type_spec() == old(self).map_type_spec(),
                self.perm_spec() == old(self).perm_spec(),
                Self::frames_identical(old(self).frames_spec(), self.frames_spec()),
                start_vpn == self.start_spec(),
                j <= size,
                self.span_lo() <= start.0,
                start.0 + size <= self.span_hi(),
                forall|t: int| 0 <= t < j ==> #[trigger] self.byte_at(start.0 + t) == 0u8,
                forall|va: int|
                    self.span_lo() <= va < self.span_hi() && !(start.0 <= va < start.0 + j)
                        ==> self.byte_at(va) == old(self).byte_at(va),
            decreases size - j,
        {
            let va: u64 = start.0 + j as u64;
            proof {
                lemma_page_split(va as int, self.start_spec() as int, self.end_spec() as int);
            }
            let idx = (va / PAGE_BYTES - start_vpn) as usize;
            let off = (va % PAGE_BYTES) as usize;
            let ghost prev = *self;
            match &mut self.frames[idx] {
                Some(f) => {
                    f.write_byte(off, 0u8);
                },
                None => {
                    proof {
                        assert(false);
                    }
                },
            }
            proof {
                assert(self.byte_at(va as int) == 0u8);
                assert forall|va2: int|
                    self.span_lo() <= va2 < self.span_hi() && va2 != va implies self.byte_at(va2)
                        == prev.byte_at(va2) by {
                    lemma_page_split(va2, self.start_spec() as int, self.end_spec() as int);
                    if va2 / (PAGE_BYTES as int) - self.start_spec() == idx && va2 % (
                    PAGE_BYTES as int) == off {
                        lemma_fundamental_div_mod(va2, PAGE_BYTES as int);
                        lemma_fundamental_div_mod(va as int, PAGE_BYTES as int);
                        assert(va2 == va);
                    }
                }
                assert forall|t: int| 0 <= t < j + 1 implies #[trigger] self.byte_at(start.0 + t)
                    == 0u8 by {
                    if t < j {
                        assert(self.byte_at(start.0 + t) == prev.byte_at(start.0 + t));
                    }
                }
            }
            j = j + 1;
        }
    }
}

/// An address inside a page span falls on a page of the span, at an
/// in-page offset.
proof fn lemma_page_split(va: int, start: int, end: int)
    requires
        0 <= start,
        start * PAGE_BYTES <= va < end * PAGE_BYTES,
    ensures
        start <= va / (PAGE_BYTES as int) < end,
        0 <= va % (PAGE_BYTES as int) < PAGE_BYTES,
{
    assert(start <= va / (PAGE_BYTES as int) < end) by (nonlinear_arith)
        requires
            0 <= start,
            start * PAGE_BYTES <= va < end * PAGE_BYTES,
    ;
    assert(0 <= va % (PAGE_BYTES as int) < PAGE_BYTES) by (nonlinear_arith)
        requires
            0 <= va,
    ;
}

fn none_frames(n: usize) -> (r: Vec<Option<FrameHandle>>)
    ensures
        r@.len() == n,
        forall|k: int| 0 <= k < n ==> r@[k] is None,
{
    let mut v: Vec<Option<FrameHandle>> = Vec::new();
    let mut i: usize = 0;
    while i < n
        invariant
            i <= n,
            v@.len() == i,
            forall|j: int| 0 <= j < i ==> v@[j] is None,
        decreases n - i,
    {
        v.push(None);
        i = i + 1;
    }
    v
}


/// The index of the first segment whose range covers `vpn`, or -1.
pub open spec fn seg_covering(segs: Seq<Segment>, vpn: u64) -> int
    decreases segs.len(),
{
    if segs.len() == 0 {
        -1
    } else if segs[0].covers(vpn) {
        0
    } else {
        let r = seg_covering(segs.drop_first(), vpn);
        if r < 0 {
            -1
        } else {
            r + 1
        }
    }
}

/// The first covering index is the one the linear search finds.
proof fn lemma_seg_covering_at(segs: Seq<Segment>, vpn: u64, i: int)
    requires
        0 <= i < segs.len(),
        segs[i].covers(vpn),
        forall|j: int| 0 <= j < i ==> !(#[trigger] segs[j]).covers(vpn),
    ensures
        seg_covering(segs, vpn) == i,
    decreases i,
{
    if i == 0 {
    } else {
        assert(!segs[0].covers(vpn));
        let rest = segs.drop_first();
        assert(rest[i - 1] == segs[i]);
        assert forall|j: int| 0 <= j < i - 1 implies !(#[trigger] rest[j]).covers(vpn) by {
            assert(rest[j] == segs[j + 1]);
        }
        lemma_seg_covering_at(rest, vpn, i - 1);
    }
}

/// When no segment covers the page, the search index is -1.
proof fn lemma_seg_covering_none(segs: Seq<Segment>, vpn: u64)
    requires
        forall|j: int| 0 <= j < segs.len() ==> !(#[trigger] segs[j]).covers(vpn),
    ensures
        seg_covering(segs, vpn) == -1,
    decreases segs.len(),
{
    if segs.len() > 0 {
        let rest = segs.drop_first();
        assert forall|j: int| 0 <= j < rest.len() implies !(#[trigger] rest[j]).covers(vpn) by {
            assert(rest[j] == segs[j + 1]);
        }
        lemma_seg_covering_none(rest, vpn);
    }
}

/// The search index is either -1 or a valid index of a covering segment.
proof fn lemma_seg_covering_range(segs: Seq<Segment>, vpn: u64)
    ensures
        seg_covering(segs, vpn) == -1 || (0 <= seg_covering(segs, vpn) < segs.len()
            && segs[seg_covering(segs, vpn)].covers(vpn)),
    decreases segs.len(),
{
    if segs.len() > 0 && !segs[0].covers(vpn) {
        lemma_seg_covering_range(segs.drop_first(), vpn);
    }
}

/// The search index depends only on the segments' page ranges.
proof fn lemma_seg_covering_same(a: Seq<Segment>, b: Seq<Segment>, vpn: u64)
    requires
        a.len() == b.len(),
        forall|j: int|
            0 <= j < a.len() ==> (#[trigger] a[j]).start_spec() == b[j].start_spec() && a[
                j].end_spec() == b[j].end_spec(),
    ensures
        seg_covering(a, vpn) == seg_covering(b, vpn),
    decreases a.len(),
{
    if a.len() > 0 {
        let ra = a.drop_first();
        let rb = b.drop_first();
        assert forall|j: int|
            0 <= j < ra.len() implies (#[trigger] ra[j]).start_spec() == rb[j].start_spec() && ra[
                j].end_spec() == rb[j].end_spec() by {
            assert(ra[j] == a[j + 1] && rb[j] == b[j + 1]);
        }
        lemma_seg_covering_same(ra, rb, vpn);
    }
}


/// The index of the first segment whose range starts at `vpn`, or -1.
pub open spec fn seg_with_start(segs: Seq<Segment>, vpn: u64) -> int
    decreases segs.len(),
{
    if segs.len() == 0 {
        -1
    } else if segs[0].start_spec() == vpn {
        0
    } else {
        let r = seg_with_start(segs.drop_first(), vpn);
        if r < 0 {
            -1
        } else {
            r + 1
        }
    }
}

proof fn lemma_seg_with_start_at(segs: Seq<Segment>, vpn: u64, i: int)
    requires
        0 <= i < segs.len(),
        segs[i].start_spec() == vpn,
        forall|j: int| 0 <= j < i ==> (#[trigger] segs[j]).start_spec() != vpn,
    ensures
        seg_with_start(segs, vpn) == i,
    decreases i,
{
    if i > 0 {
        assert(segs[0].start_spec() != vpn);
        let rest = segs.drop_first();
        assert(rest[i - 1] == segs[i]);
        assert forall|j: int| 0 <= j < i - 1 implies (#[trigger] rest[j]).start_spec() != vpn by {
            assert(rest[j] == segs[j + 1]);
        }
        lemma_seg_with_start_at(rest, vpn, i - 1);
    }
}

proof fn lemma_seg_with_start_none(segs: Seq<Segment>, vpn: u64)
    requires
        forall|j: int| 0 <= j < segs.len() ==> (#[trigger] segs[j]).start_spec() != vpn,
    ensures
        seg_with_start(segs, vpn) == -1,
    decreases segs.len(),
{
    if segs.len() > 0 {
        let rest = segs.drop_first();
        assert forall|j: int| 0 <= j < rest.len() implies (#[trigger] rest[j]).start_spec()
            != vpn by {
            assert(rest[j] == segs[j + 1]);
        }
        lemma_seg_with_start_none(rest, vpn);
    }
}



/// Segment `i`'s pages are installed in the address space's mapping,
/// each to the segment's own target with the segment's permissions.
pub open spec fn seg_mapped_in(a: AddrSpace, i: int) -> bool {
    forall|v: u64|
        (#[trigger] a.segments_spec()[i].covers(v)) ==> a.mapping().contains_key(v)
            && a.mapping()[v] == spec_pte_for(
            a.segments_spec()[i].target_ppn(v) as u64,
            a.segments_spec()[i].perm_spec(),
        )
}

/// Every segment from index `base` on has its pages installed.
#[verifier::opaque]
pub open spec fn segs_mapped_from(a: AddrSpace, base: int) -> bool {
    forall|i: int| base <= i < a.segments_spec().len() ==> #[trigger] seg_mapped_in(a, i)
}

/// A segment's installed pages survive a push of a disjoint, previously
/// unmapped page range `[rlo, rhi)`.
proof fn lemma_seg_mapped_preserved(pre: AddrSpace, post: AddrSpace, i: int, rlo: int, rhi: int)
    requires
        seg_mapped_in(pre, i),
        0 <= i < pre.segments_spec().len(),
        i < post.segments_spec().len(),
        post.segments_spec()[i] == pre.segments_spec()[i],
        forall|v: u64| rlo <= v < rhi ==> !(#[trigger] pre.mapping().contains_key(v)),
        forall|v: u64|
            !(rlo <= v < rhi) ==> #[trigger] post.mapping().contains_key(v)
                == pre.mapping().contains_key(v) && (pre.mapping().contains_key(v)
                ==> post.mapping()[v] == pre.mapping()[v]),
    ensures
        seg_mapped_in(post, i),
{
    assert forall|v: u64|
        (#[trigger] post.segments_spec()[i].covers(v)) implies post.mapping().contains_key(v)
        && post.mapping()[v] == spec_pte_for(
        post.segments_spec()[i].target_ppn(v) as u64,
        post.segments_spec()[i].perm_spec(),
    ) by {
        assert(pre.segments_spec()[i].covers(v));
        assert(pre.mapping().contains_key(v));
        assert(!(rlo <= v < rhi));
    }
}

/// Reasons loading an executable image can fail.
#[derive(Clone, Copy, Debug, PartialEq, Eq, Structural)]
pub enum LoadError {
    /// The image is not a well-formed loadable executable.
    BadImage,
    /// A loadable region overlaps an existing mapping.
    Overlap,
    /// The frame pool ran dry.
    OutOfFrames,
}

/// The permission bits a program header's flags ask for, plus
/// user-accessibility.
pub open spec fn perm_of_flags(f: u32) -> u8 {
    (MAP_PERM_U + (if (f / 4) % 2 == 1 {
        MAP_PERM_R
    } else {
        0
    }) + (if (f / 2) % 2 == 1 {
        MAP_PERM_W
    } else {
        0
    }) + (if f % 2 == 1 {
        MAP_PERM_X
    } else {
        0
    })) as u8
}

/// The shape of a segment: its page range, policy and permissions.
pub open spec fn seg_layout(s: Segment) -> (u64, u64, MapType, u8) {
    (s.start_spec(), s.end_spec(), s.map_type_spec(), s.perm_spec())
}

/// The loadable program headers among the first `n`, in order.
pub open spec fn spec_load_phs_upto(b: Seq<u8>, n: int) -> Seq<ProgramHeader>
    decreases n,
{
    if n <= 0 {
        Seq::empty()
    } else {
        let prev = spec_load_phs_upto(b, n - 1);
        if spec_ph(b, n - 1).ph_type == PH_TYPE_LOAD {
            prev.push(spec_ph(b, n - 1))
        } else {
            prev
        }
    }
}

/// All loadable program headers of the image, in order.
pub open spec fn spec_load_phs(b: Seq<u8>) -> Seq<ProgramHeader> {
    spec_load_phs_upto(b, spec_ph_count(b))
}

/// The segment shape that loading one header produces.
pub open spec fn ph_layout(ph: ProgramHeader) -> (u64, u64, MapType, u8) {
    (
        (ph.vaddr / PAGE_BYTES) as u64,
        ((ph.vaddr + ph.mem_size + PAGE_BYTES - 1) / (PAGE_BYTES as int)) as u64,
        MapType::Framed,
        perm_of_flags(ph.flags),
    )
}

/// One past the last page of the most recently loaded region, page zero
/// when the image has no loadable region.
pub open spec fn spec_last_end_vpn(b: Seq<u8>) -> u64 {
    let phs = spec_load_phs(b);
    if phs.len() == 0 {
        0u64
    } else {
        ph_layout(phs.last()).1
    }
}

/// The initial user stack pointer: the top of the stack page placed just
/// above the highest loaded region, minus a small alignment slack.
pub open spec fn spec_user_stack_base(b: Seq<u8>) -> u64 {
    (spec_last_end_vpn(b) * PAGE_BYTES + PAGE_BYTES - 0x10) as u64
}

/// The permission byte of the user stack: readable, writable,
/// user-accessible.
pub open spec fn stack_perm() -> u8 {
    (MAP_PERM_R + MAP_PERM_W + MAP_PERM_U) as u8
}

/// A segment holds exactly what a loadable header asks for: the file
/// bytes at the start, zero bytes across the rest of its memory size.
pub open spec fn ph_loaded(seg: Segment, ph: ProgramHeader, image: Seq<u8>) -> bool {
    &&& forall|j: int|
        0 <= j < ph.file_size ==> #[trigger] seg.byte_at(ph.vaddr + j) == image[ph.offset + j]
    &&& forall|j: int|
        ph.file_size <= j < ph.mem_size ==> #[trigger] seg.byte_at(ph.vaddr + j) == 0u8
}


/// The segments from `base` on match the loadable headers one for one:
/// same shape, fully framed, loaded with the header's bytes.
#[verifier::opaque]
pub open spec fn segs_match_phs(
    segs: Seq<Segment>,
    base: int,
    phs: Seq<ProgramHeader>,
    image: Seq<u8>,
) -> bool {
    forall|k: int|
        0 <= k < phs.len() ==> seg_layout(#[trigger] segs[base + k]) == ph_layout(phs[k]) && segs[
            base + k].fully_framed() && ph_loaded(segs[base + k], phs[k], image)
}

/// A page floor never exceeds the address.
proof fn lemma_floor_le(x: int)
    requires
        0 <= x,
    ensures
        (x / (PAGE_BYTES as int)) * PAGE_BYTES <= x,
{
    assert((x / (PAGE_BYTES as int)) * PAGE_BYTES <= x) by (nonlinear_arith)
        requires
            0 <= x,
    ;
}

/// A page ceiling never falls short of the address.
proof fn lemma_ceil_ge(x: int)
    requires
        0 <= x,
    ensures
        ((x + PAGE_BYTES - 1) / (PAGE_BYTES as int)) * PAGE_BYTES >= x,
{
    assert(((x + PAGE_BYTES - 1) / (PAGE_BYTES as int)) * PAGE_BYTES >= x) by (nonlinear_arith)
        requires
            0 <= x,
    ;
}




/// Page `v` lies in the `k`-th loadable region of the image.
pub open spec fn in_load_region(image: Seq<u8>, k: int, v: u64) -> bool {
    0 <= k < spec_load_phs(image).len() && ph_layout(spec_load_phs(image)[k]).0 <= v < ph_layout(
        spec_load_phs(image)[k],
    ).1
}

/// Page `v` lies in the region that loading installs as its `k`-th
/// push: a loadable region, or (for `k` one past them) the stack page.
pub open spec fn in_load_push_region(image: Seq<u8>, k: int, v: u64) -> bool {
    in_load_region(image, k, v) || (k == spec_load_phs(image).len() && spec_last_end_vpn(image)
        <= v < spec_last_end_vpn(image) + 1)
}

/// Why a load collided at page `v` during its `k`-th push: the page was
/// mapped before the load began, or an earlier region of the same image
/// already covers it.
pub open spec fn load_overlap_witness(
    m0: Map<u64, PageTableEntry>,
    image: Seq<u8>,
    v: u64,
    k: int,
) -> bool {
    in_load_push_region(image, k, v) && (m0.contains_key(v) || exists|j: int|
        0 <= j < k && #[trigger] in_load_region(image, j, v))
}

/// Every mapped page was mapped before the load began or lies in one of
/// the first `n` loadable regions.
#[verifier::opaque]
spec fn mapped_from_image(
    a: AddrSpace,
    m0: Map<u64, PageTableEntry>,
    image: Seq<u8>,
    n: int,
) -> bool {
    forall|v: u64|
        #[trigger] a.mapping().contains_key(v) ==> m0.contains_key(v) || exists|j: int|
            0 <= j < n && #[trigger] in_load_region(image, j, v)
}


/// Pushing the `n`-th loadable region keeps every mapped page accounted
/// for by the pages mapped before the load or the first `n + 1` regions.
proof fn lemma_mapped_from_image_step(
    pre: AddrSpace,
    post: AddrSpace,
    m0: Map<u64, PageTableEntry>,
    image: Seq<u8>,
    n: int,
)
    requires
        mapped_from_image(pre, m0, image, n),
        0 <= n < spec_load_phs(image).len(),
        forall|v: u64|
            #[trigger] post.mapping().contains_key(v) ==> pre.mapping().contains_key(v) || (
            ph_layout(spec_load_phs(image)[n]).0 <= v < ph_layout(spec_load_phs(image)[n]).1),
    ensures
        mapped_from_image(post, m0, image, n + 1),
{
    reveal(mapped_from_image);
    assert forall|v: u64|
        #[trigger] post.mapping().contains_key(v) implies m0.contains_key(v) || exists|j: int|
        0 <= j < n + 1 && #[trigger] in_load_region(image, j, v) by {
        if !pre.mapping().contains_key(v) {
            assert(in_load_region(image, n, v));
        }
    }
}

/// An already mapped page inside the `n`-th pushed region witnesses an
/// overlap: it was mapped before the load, or an earlier region covers it.
proof fn lemma_load_overlap_witness(
    pre: AddrSpace,
    m0: Map<u64, PageTableEntry>,
    image: Seq<u8>,
    n: int,
    v: u64,
)
    requires
        mapped_from_image(pre, m0, image, n),
        pre.mapping().contains_key(v),
        in_load_push_region(image, n, v),
    ensures
        load_overlap_witness(m0, image, v, n),
        exists|w: u64, k: int| #[trigger] load_overlap_witness(m0, image, w, k),
{
    reveal(mapped_from_image);
    assert(load_overlap_witness(m0, image, v, n));
}

/// The loadable regions appear in ascending page order: each one ends
/// at or before the next begins. Standard link editors lay images out
/// this way; it is what makes the regions non-overlapping.
pub open spec fn loads_ascending(image: Seq<u8>) -> bool {
    forall|k: int|
        0 <= k < spec_load_phs(image).len() - 1 ==> ph_layout(
            #[trigger] spec_load_phs(image)[k],
        ).1 <= ph_layout(spec_load_phs(image)[k + 1]).0
}

/// The loadable headers among the first `n` are a prefix of those among
/// the first `m`.
proof fn lemma_load_phs_prefix(b: Seq<u8>, n: int, m: int)
    requires
        0 <= n <= m,
    ensures
        spec_load_phs_upto(b, n).len() <= spec_load_phs_upto(b, m).len(),
        forall|k: int|
            0 <= k < spec_load_phs_upto(b, n).len() ==> #[trigger] spec_load_phs_upto(b, m)[k]
                == spec_load_phs_upto(b, n)[k],
    decreases m - n,
{
    if m > n {
        lemma_load_phs_prefix(b, n, m - 1);
    }
}

/// The segment shapes loading an image into an empty address space
/// produces: one per loadable header, then the user stack page.
pub open spec fn loaded_layout_of(image: Seq<u8>) -> Seq<(u64, u64, MapType, u8)> {
    spec_load_phs(image).map_values(|ph: ProgramHeader| ph_layout(ph)).push(
        (
            spec_last_end_vpn(image),
            (spec_last_end_vpn(image) + 1) as u64,
            MapType::Framed,
            stack_perm(),
        ),
    )
}

/// Whether an address space's segments have exactly the shapes loading
/// this image produces.
pub open spec fn has_loaded_layout(a: AddrSpace, image: Seq<u8>) -> bool {
    &&& a.segments_spec().len() == loaded_layout_of(image).len()
    &&& forall|k: int|
        0 <= k < a.segments_spec().len() ==> seg_layout(#[trigger] a.segments_spec()[k])
            == loaded_layout_of(image)[k]
}

/// Loading the same well-formed image into two independent empty address
/// spaces produces segments with identical virtual ranges, policies and
/// permissions (the physical frames behind them may differ).
pub proof fn lemma_load_elf_layout_deterministic(a: AddrSpace, b: AddrSpace, image: Seq<u8>)
    requires
        has_loaded_layout(a, image),
        has_loaded_layout(b, image),
    ensures
        a.segments_spec().len() == b.segments_spec().len(),
        forall|k: int|
            0 <= k < a.segments_spec().len() ==> seg_layout(#[trigger] a.segments_spec()[k])
                == seg_layout(b.segments_spec()[k]),
{
    assert forall|k: int|
        0 <= k < a.segments_spec().len() implies seg_layout(#[trigger] a.segments_spec()[k])
        == seg_layout(b.segments_spec()[k]) by {
        assert(seg_layout(a.segments_spec()[k]) == loaded_layout_of(image)[k]);
        assert(seg_layout(b.segments_spec()[k]) == loaded_layout_of(image)[k]);
    }
}

/// Where the kernel's own linked sections and the platform's memory lie:
/// the inputs to building the kernel's identity-mapped view.
pub struct KernelLayout {
    pub stext: u64,
    pub etext: u64,
    pub srodata: u64,
    pub erodata: u64,
    pub sdata: u64,
    pub edata: u64,
    pub sbss_with_stack: u64,
    pub ebss: u64,
    pub ekernel: u64,
    pub mmio: Vec<(u64, u64)>,
}

impl KernelLayout {
    pub open spec fn wf(&self) -> bool {
        &&& self.stext <= self.etext <= VA_LIMIT
        &&& self.srodata <= self.erodata <= VA_LIMIT
        &&& self.sdata <= self.edata <= VA_LIMIT
        &&& self.sbss_with_stack <= self.ebss <= VA_LIMIT
        &&& self.ekernel <= MEMORY_END
        &&& MEMORY_END <= VA_LIMIT
        &&& forall|k: int|
            0 <= k < self.mmio@.len() ==> (#[trigger] self.mmio@[k]).0 + self.mmio@[k].1
                <= VA_LIMIT
    }
}

/// The page range an identity segment for `[lo, hi)` covers.
pub open spec fn ident_range(lo: u64, hi: u64) -> (u64, u64) {
    ((lo / PAGE_BYTES) as u64, ((hi + PAGE_BYTES - 1) / (PAGE_BYTES as int)) as u64)
}


/// The identity page ranges the kernel view installs, in push order: the
/// four linked sections, the physical-memory window, then each
/// memory-mapped I/O range.
pub open spec fn kernel_ranges(layout: KernelLayout) -> Seq<(u64, u64)> {
    seq![
        ident_range(layout.stext, layout.etext),
        ident_range(layout.srodata, layout.erodata),
        ident_range(layout.sdata, layout.edata),
        ident_range(layout.sbss_with_stack, layout.ebss),
        ident_range(layout.ekernel, MEMORY_END),
    ] + layout.mmio@.map_values(|p: (u64, u64)| ident_range(p.0, (p.0 + p.1) as u64))
}

/// Whether the `i`-th kernel range covers page `v`.
pub open spec fn kernel_range_covers(layout: KernelLayout, i: int, v: u64) -> bool {
    0 <= i < kernel_ranges(layout).len() && kernel_ranges(layout)[i].0 <= v < kernel_ranges(
        layout,
    )[i].1
}

/// Two distinct kernel ranges both cover page `v`: the layout overlaps.
pub open spec fn kernel_ranges_overlap(layout: KernelLayout, i: int, j: int, v: u64) -> bool {
    i < j && kernel_range_covers(layout, i, v) && kernel_range_covers(layout, j, v)
}


/// Every page of the identity range `[lo, hi)` is mapped to itself with
/// the given permissions.
pub open spec fn ident_mapped(a: AddrSpace, lo: u64, hi: u64, perm: u8) -> bool {
    forall|v: u64|
        ident_range(lo, hi).0 <= v < ident_range(lo, hi).1 ==> #[trigger] a.mapping().contains_key(
            v,
        ) && a.mapping()[v] == spec_pte_for(v, perm)
}

/// An identity range's entries survive a push of a disjoint, previously
/// unmapped range.
proof fn lemma_ident_mapped_preserved(
    pre: AddrSpace,
    post: AddrSpace,
    lo: u64,
    hi: u64,
    perm: u8,
    pushed: Segment,
)
    requires
        ident_mapped(pre, lo, hi, perm),
        forall|v: u64| pushed.covers(v) ==> !(#[trigger] pre.mapping().contains_key(v)),
        forall|v: u64|
            !pushed.covers(v) ==> #[trigger] post.mapping().contains_key(v)
                == pre.mapping().contains_key(v) && (pre.mapping().contains_key(v)
                ==> post.mapping()[v] == pre.mapping()[v]),
    ensures
        ident_mapped(post, lo, hi, perm),
{
    assert forall|v: u64|
        ident_range(lo, hi).0 <= v < ident_range(lo, hi).1 implies #[trigger] post.mapping().contains_key(
        v,
    ) && post.mapping()[v] == spec_pte_for(v, perm) by {
        assert(pre.mapping().contains_key(v) && pre.mapping()[v] == spec_pte_for(v, perm)) by {
            assert(ident_mapped(pre, lo, hi, perm));
            assert(pre.mapping().contains_key(v));
        }
        assert(!pushed.covers(v));
        assert(post.mapping().contains_key(v) == pre.mapping().contains_key(v));
        assert(post.mapping()[v] == pre.mapping()[v]);
    }
}

/// Every mapped page is covered by one of the first `p` kernel ranges.
#[verifier::opaque]
spec fn mapped_by_first(space: AddrSpace, layout: KernelLayout, p: int) -> bool {
    forall|v: u64|
        #[trigger] space.mapping().contains_key(v) ==> exists|i: int|
            0 <= i < p && #[trigger] kernel_range_covers(layout, i, v)
}

/// Pushing the `p`-th kernel range keeps every mapped page covered by
/// one of the first `p + 1` ranges.
proof fn lemma_mapped_by_first_step(pre: AddrSpace, post: AddrSpace, layout: KernelLayout, p: int)
    requires
        0 <= p < kernel_ranges(layout).len(),
        mapped_by_first(pre, layout, p),
        forall|v: u64|
            !(kernel_ranges(layout)[p].0 <= v < kernel_ranges(layout)[p].1)
                ==> #[trigger] post.mapping().contains_key(v) == pre.mapping().contains_key(v),
    ensures
        mapped_by_first(post, layout, p + 1),
{
    reveal(mapped_by_first);
    assert forall|v: u64| #[trigger] post.mapping().contains_key(v) implies exists|i: int|
        0 <= i < p + 1 && #[trigger] kernel_range_covers(layout, i, v) by {
        if kernel_ranges(layout)[p].0 <= v < kernel_ranges(layout)[p].1 {
            assert(kernel_range_covers(layout, p, v));
        } else {
            assert(pre.mapping().contains_key(v));
        }
    }
}

/// A page of the `p`-th kernel range that is already mapped witnesses an
/// overlap between two of the layout's ranges.
proof fn lemma_kernel_overlap_witness(pre: AddrSpace, layout: KernelLayout, p: int, v: u64)
    requires
        0 <= p < kernel_ranges(layout).len(),
        mapped_by_first(pre, layout, p),
        pre.mapping().contains_key(v),
        kernel_ranges(layout)[p].0 <= v < kernel_ranges(layout)[p].1,
    ensures
        exists|i: int, j: int, w: u64| #[trigger] kernel_ranges_overlap(layout, i, j, w),
{
    reveal(mapped_by_first);
    let i = choose|i: int| 0 <= i < p && #[trigger] kernel_range_covers(layout, i, v);
    assert(kernel_ranges_overlap(layout, i, p, v));
}

/// A complete virtual memory view: one page table and the ordered list of
/// segments mapped through it.
pub struct AddrSpace {
    page_table: PageTable,
    segments: Vec<Segment>,
}

impl AddrSpace {
    pub closed spec fn pt_spec(&self) -> PageTable {
        self.page_table
    }

    pub closed spec fn segments_spec(&self) -> Seq<Segment> {
        self.segments@
    }

    pub open spec fn wf(&self) -> bool {
        &&& self.pt_spec().wf()
        &&& forall|i: int|
            0 <= i < self.segments_spec().len() ==> (#[trigger] self.segments_spec()[i]).wf()
    }

    /// The virtual-to-physical mapping the page table encodes.
    pub open spec fn mapping(&self) -> Map<u64, PageTableEntry> {
        self.pt_spec().mapping()
    }

    /// The byte a user access at `va` would reach: the byte of the owned
    /// frame of the first framed segment covering that page, if any.
    pub open spec fn user_byte(&self, va: int) -> Option<u8> {
        if 0 <= va < VA_LIMIT {
            let vpn = (va / (PAGE_BYTES as int)) as u64;
            let i = seg_covering(self.segments_spec(), vpn);
            if i >= 0 {
                let seg = self.segments_spec()[i];
                if seg.is_framed() && seg.frames_spec()[vpn - seg.start_spec()] is Some {
                    Some(seg.byte_at(va))
                } else {
                    None
                }
            } else {
                None
            }
        } else {
            None
        }
    }

    /// An empty address space: a fresh page table, no segments. Fails
    /// exactly when no frame is left for the root node.
    pub fn new_bare(alloc: &mut FrameAllocator) -> (r: Result<AddrSpace, MemError>)
        requires
            old(alloc).wf(),
        ensures
            final(alloc).wf(),
            final(alloc).base_spec() == old(alloc).base_spec(),
            final(alloc).end_spec() == old(alloc).end_spec(),
            forall|p: u64| old(alloc).is_live(p) ==> final(alloc).is_live(p),
            r is Err <==> old(alloc).free_count() == 0,
            r matches Err(e) ==> e == MemError::OutOfFrames && final(alloc).free_count() == 0,
            r matches Ok(a) ==> {
                &&& a.wf()
                &&& a.segments_spec().len() == 0
                &&& a.mapping() =~= Map::<u64, PageTableEntry>::empty()
            },
    {
        match PageTable::new(alloc) {
            Ok(pt) => Ok(AddrSpace { page_table: pt, segments: Vec::new() }),
            Err(_) => Err(MemError::OutOfFrames),
        }
    }

    /// The translation-register encoding for this address space.
    pub fn token(&self) -> (r: u64)
        requires
            self.wf(),
        ensures
            r == crate::page_table::SATP_MODE_SV39 + self.pt_spec().root_ppn_spec(),
    {
        self.page_table.token()
    }

    /// Look up the leaf entry for a virtual page number.
    pub fn translate(&self, vpn: VirtPageNum) -> (r: Option<PageTableEntry>)
        requires
            self.wf(),
            vpn.0 < VPN_LIMIT,
        ensures
            r == if self.mapping().contains_key(vpn.0) {
                Some(self.mapping()[vpn.0])
            } else {
                None::<PageTableEntry>
            },
    {
        self.page_table.translate(vpn)
    }

    /// Map a new segment and append it, copying `data` into its start if
    /// given. The caller promises a fresh (unmapped) segment; the range is
    /// checked against the page table, so overlapping an existing mapping
    /// is reported rather than assumed away.
    #[verifier::rlimit(100)]
    #[verifier::spinoff_prover]
    pub fn push(
        &mut self,
        map_area: Segment,
        data: Option<(VirtAddr, &[u8])>,
        alloc: &mut FrameAllocator,
    ) -> (r: Result<(), MemError>)
        requires
            old(self).wf(),
            old(alloc).wf(),
            map_area.wf(),
            forall|k: int|
                0 <= k < map_area.frames_spec().len() ==> #[trigger] map_area.frames_spec()[k]
                    is None,
            data matches Some((va, d)) ==> map_area.is_framed() && map_area.span_lo() <= va.0
                && va.0 + d@.len() <= map_area.span_hi(),
        ensures
            final(self).wf(),
            final(alloc).wf(),
            final(alloc).base_spec() == old(alloc).base_spec(),
            final(alloc).end_spec() == old(alloc).end_spec(),
            match r {
                Ok(()) => {
                    &&& forall|v: u64|
                        map_area.covers(v) ==> !(#[trigger] old(self).mapping().contains_key(v))
                    &&& final(self).segments_spec().len() == old(self).segments_spec().len() + 1
                    &&& forall|i: int|
                        0 <= i < old(self).segments_spec().len()
                            ==> #[trigger] final(self).segments_spec()[i] == old(self).segments_spec()[i]
                    &&& {
                        let sn = final(self).segments_spec().last();
                        &&& sn.wf()
                        &&& sn.start_spec() == map_area.start_spec()
                        &&& sn.end_spec() == map_area.end_spec()
                        &&& sn.map_type_spec() == map_area.map_type_spec()
                        &&& sn.perm_spec() == map_area.perm_spec()
                        &&& (sn.is_framed() ==> sn.fully_framed())
                        &&& forall|v: u64|
                            sn.covers(v) ==> #[trigger] final(self).mapping().contains_key(v)
                                && final(self).mapping()[v] == spec_pte_for(
                                sn.target_ppn(v) as u64,
                                sn.perm_spec(),
                            )
                        &&& (match data {
                            Some((va, d)) => {
                                &&& forall|j: int|
                                    0 <= j < d@.len() ==> #[trigger] sn.byte_at(va.0 + j) == d@[j]
                                &&& forall|va2: int|
                                    sn.span_lo() <= va2 < sn.span_hi() && !(va.0 <= va2 < va.0
                                        + d@.len()) ==> #[trigger] sn.byte_at(va2) == 0u8
                            },
                            None => sn.is_framed() ==> forall|va2: int|
                                sn.span_lo() <= va2 < sn.span_hi() ==> #[trigger] sn.byte_at(va2)
                                    == 0u8,
                        })
                    }
                    &&& forall|v: u64|
                        !map_area.covers(v) ==> #[trigger] final(self).mapping().contains_key(v)
                            == old(self).mapping().contains_key(v) && (old(self).mapping().contains_key(v) ==> final(self).mapping()[v] == old(self).mapping()[v])
                },
                Err(MemError::AlreadyMapped) => {
                    &&& exists|v: u64|
                        map_area.covers(v) && #[trigger] old(self).mapping().contains_key(v)
                    &&& *final(self) == *old(self)
                    &&& *final(alloc) == *old(alloc)
                },
                Err(e) => {
                    &&& final(self).segments_spec() == old(self).segments_spec()
                    &&& (e == MemError::LinearOutOfRange ==> (map_area.map_type_spec()
                        matches MapType::Linear(off) && exists|v: u64|
                        #[trigger] map_area.covers(v) && !(0 <= v + off < PPN_LIMIT)))
                    &&& (e == MemError::OutOfFrames ==> final(alloc).free_count() <= 1)
                    &&& forall|v: u64|
                        !map_area.covers(v) ==> #[trigger] final(self).mapping().contains_key(v)
                            == old(self).mapping().contains_key(v) && (old(self).mapping().contains_key(v) ==> final(self).mapping()[v] == old(self).mapping()[v])
                },
            },
    {
        let start = map_area.get_start().0;
        let end = map_area.get_end().0;
        let mut v: u64 = start;
        while v < end
            invariant
                start <= v <= end,
                *self == *old(self),
                *alloc == *old(alloc),
                alloc.wf(),
                self.wf(),
                start == map_area.start_spec(),
                end == map_area.end_spec(),
                end <= VPN_LIMIT,
                forall|w: u64| start <= w < v ==> !self.mapping().contains_key(w),
            decreases end - v,
        {
            if self.page_table.translate(VirtPageNum(v)).is_some() {
                proof {
                    assert(self.mapping().contains_key(v));
                }
                return Err(MemError::AlreadyMapped);
            }
            proof {
                assert(!self.pt_spec().is_mapped(v));
                assert(!self.mapping().contains_key(v));
            }
            v = v + 1;
        }
        let mut area = map_area;
        proof {
            assert forall|w: u64| area.covers(w) implies !self.pt_spec().is_mapped(w) by {
                assert(!self.mapping().contains_key(w));
            }
        }
        match area.map(&mut self.page_table, alloc) {
            Ok(()) => {},
            Err(e) => {
                proof {
                    assert(e != MemError::AlreadyMapped);
                }
                return Err(e);
            },
        }
        match data {
            Some((va, d)) => {
                area.copy_data(va, d);
            },
            None => {},
        }
        proof {
            assert forall|w: u64|
                area.covers(w) implies #[trigger] self.mapping().contains_key(w)
                && self.mapping()[w] == spec_pte_for(area.target_ppn(w) as u64, area.perm_spec())
                by {
                assert(self.pt_spec().is_mapped(w));
            }
        }
        self.segments.push(area);
        Ok(())
    }

    /// The kernel's own identity-mapped view: one segment per linked
    /// section, a read-write window over the rest of physical memory, and
    /// one segment per memory-mapped I/O range.
    #[verifier::rlimit(100)]
    #[verifier::spinoff_prover]
    pub fn new_with_kernel(layout: &KernelLayout, alloc: &mut FrameAllocator) -> (r: Result<
        AddrSpace,
        MemError,
    >)
        requires
            old(alloc).wf(),
            layout.wf(),
        ensures
            final(alloc).wf(),
            final(alloc).base_spec() == old(alloc).base_spec(),
            final(alloc).end_spec() == old(alloc).end_spec(),
            r is Err ==> r == Err::<AddrSpace, MemError>(MemError::AlreadyMapped) || r == Err::<
                AddrSpace,
                MemError,
            >(MemError::OutOfFrames),
            r == Err::<AddrSpace, MemError>(MemError::AlreadyMapped) ==> exists|i: int, j: int, v: u64|
                #[trigger] kernel_ranges_overlap(*layout, i, j, v),
            r == Err::<AddrSpace, MemError>(MemError::OutOfFrames) ==> final(alloc).free_count()
                <= 1,
            r matches Ok(a) ==> {
                let segs = a.segments_spec();
                &&& a.wf()
                &&& segs.len() == 5 + layout.mmio@.len()
                &&& seg_layout(segs[0]) == (
                    ident_range(layout.stext, layout.etext).0,
                    ident_range(layout.stext, layout.etext).1,
                    MapType::Identical,
                    (MAP_PERM_R + MAP_PERM_X) as u8,
                )
                &&& seg_layout(segs[1]) == (
                    ident_range(layout.srodata, layout.erodata).0,
                    ident_range(layout.srodata, layout.erodata).1,
                    MapType::Identical,
                    MAP_PERM_R,
                )
                &&& seg_layout(segs[2]) == (
                    ident_range(layout.sdata, layout.edata).0,
                    ident_range(layout.sdata, layout.edata).1,
                    MapType::Identical,
                    (MAP_PERM_R + MAP_PERM_W) as u8,
                )
                &&& seg_layout(segs[3]) == (
                    ident_range(layout.sbss_with_stack, layout.ebss).0,
                    ident_range(layout.sbss_with_stack, layout.ebss).1,
                    MapType::Identical,
                    (MAP_PERM_R + MAP_PERM_W) as u8,
                )
                &&& seg_layout(segs[4]) == (
                    ident_range(layout.ekernel, MEMORY_END).0,
                    ident_range(layout.ekernel, MEMORY_END).1,
                    MapType::Identical,
                    (MAP_PERM_R + MAP_PERM_W) as u8,
                )
                &&& forall|k: int|
                    0 <= k < layout.mmio@.len() ==> seg_layout(#[trigger] segs[5 + k]) == (
                        ident_range(layout.mmio@[k].0, (layout.mmio@[k].0 + layout.mmio@[k].1) as u64).0,
                        ident_range(layout.mmio@[k].0, (layout.mmio@[k].0 + layout.mmio@[k].1) as u64).1,
                        MapType::Identical,
                        (MAP_PERM_R + MAP_PERM_W) as u8,
                    )
                &&& ident_mapped(a, layout.stext, layout.etext, (MAP_PERM_R + MAP_PERM_X) as u8)
                &&& ident_mapped(a, layout.srodata, layout.erodata, MAP_PERM_R)
                &&& ident_mapped(a, layout.sdata, layout.edata, (MAP_PERM_R + MAP_PERM_W) as u8)
                &&& ident_mapped(
                    a,
                    layout.sbss_with_stack,
                    layout.ebss,
                    (MAP_PERM_R + MAP_PERM_W) as u8,
                )
                &&& ident_mapped(a, layout.ekernel, MEMORY_END, (MAP_PERM_R + MAP_PERM_W) as u8)
                &&& forall|k: int|
                    0 <= k < layout.mmio@.len() ==> ident_mapped(
                        a,
                        (#[trigger] layout.mmio@[k]).0,
                        (layout.mmio@[k].0 + layout.mmio@[k].1) as u64,
                        (MAP_PERM_R + MAP_PERM_W) as u8,
                    )
            },
    {
        let mut space = match AddrSpace::new_bare(alloc) {
            Ok(a) => a,
            Err(e) => {
                return Err(e);
            },
        };
        proof {
            reveal(mapped_by_first);
            assert(mapped_by_first(space, *layout, 0));
            assert(kernel_ranges(*layout).len() == 5 + layout.mmio@.len());
        }
        let seg = Segment::new(
            VirtAddr(layout.stext),
            VirtAddr(layout.etext),
            MapType::Identical,
            MAP_PERM_R + MAP_PERM_X,
        );
        let ghost seg_g = seg;
        let ghost pre_space = space;
        match space.push(seg, None, alloc) {
            Ok(()) => {
                proof {
                    assert(kernel_ranges(*layout)[0] == ident_range(layout.stext, layout.etext));
                    lemma_mapped_by_first_step(pre_space, space, *layout, 0);
                    assert(ident_mapped(space, layout.stext, layout.etext, (MAP_PERM_R + MAP_PERM_X) as u8)) by {
                        let sn = space.segments_spec().last();
                        assert(sn.start_spec() == seg_g.start_spec());
                        assert(sn.start_spec() == ident_range(layout.stext, layout.etext).0);
                        assert(sn.end_spec() == ident_range(layout.stext, layout.etext).1);
                        assert(sn.map_type_spec() is Identical);
                        assert(sn.perm_spec() == (MAP_PERM_R + MAP_PERM_X) as u8);
                        assert forall|v: u64|
                            ident_range(layout.stext, layout.etext).0 <= v < ident_range(layout.stext, layout.etext).1
                            implies #[trigger] space.mapping().contains_key(v)
                            && space.mapping()[v] == spec_pte_for(v, (MAP_PERM_R + MAP_PERM_X) as u8) by {
                            assert(sn.covers(v));
                            assert(sn.target_ppn(v) == v);
                            assert(space.mapping().contains_key(v));
                            assert(space.mapping()[v] == spec_pte_for(
                                sn.target_ppn(v) as u64,
                                sn.perm_spec(),
                            ));
                        }
                    }
                }
            },
            Err(e) => {
                proof {
                    if e == MemError::AlreadyMapped {
                        assert(kernel_ranges(*layout)[0] == ident_range(layout.stext, layout.etext));
                        let v = choose|v: u64|
                            seg_g.covers(v) && #[trigger] pre_space.mapping().contains_key(v);
                        lemma_kernel_overlap_witness(pre_space, *layout, 0, v);
                    }
                }
                return Err(e);
            },
        }
        let seg = Segment::new(
            VirtAddr(layout.srodata),
            VirtAddr(layout.erodata),
            MapType::Identical,
            MAP_PERM_R,
        );
        let ghost seg_g = seg;
        let ghost pre_space = space;
        match space.push(seg, None, alloc) {
            Ok(()) => {
                proof {
                    assert(kernel_ranges(*layout)[1] == ident_range(layout.srodata, layout.erodata));
                    lemma_mapped_by_first_step(pre_space, space, *layout, 1);
                    assert(ident_mapped(space, layout.srodata, layout.erodata, (MAP_PERM_R) as u8)) by {
                        let sn = space.segments_spec().last();
                        assert(sn.start_spec() == seg_g.start_spec());
                        assert(sn.start_spec() == ident_range(layout.srodata, layout.erodata).0);
                        assert(sn.end_spec() == ident_range(layout.srodata, layout.erodata).1);
                        assert(sn.map_type_spec() is Identical);
                        assert(sn.perm_spec() == (MAP_PERM_R) as u8);
                        assert forall|v: u64|
                            ident_range(layout.srodata, layout.erodata).0 <= v < ident_range(layout.srodata, layout.erodata).1
                            implies #[trigger] space.mapping().contains_key(v)
                            && space.mapping()[v] == spec_pte_for(v, (MAP_PERM_R) as u8) by {
                            assert(sn.covers(v));
                            assert(sn.target_ppn(v) == v);
                            assert(space.mapping().contains_key(v));
                            assert(space.mapping()[v] == spec_pte_for(
                                sn.target_ppn(v) as u64,
                                sn.perm_spec(),
                            ));
                        }
                    }
                    lemma_ident_mapped_preserved(
                        pre_space,
                        space,
                        layout.stext,
                        layout.etext,
                        (MAP_PERM_R + MAP_PERM_X) as u8,
                        seg_g,
                    );
                }
            },
            Err(e) => {
                proof {
                    if e == MemError::AlreadyMapped {
                        assert(kernel_ranges(*layout)[1] == ident_range(layout.srodata, layout.erodata));
                        let v = choose|v: u64|
                            seg_g.covers(v) && #[trigger] pre_space.mapping().contains_key(v);
                        lemma_kernel_overlap_witness(pre_space, *layout, 1, v);
                    }
                }
                return Err(e);
            },
        }
        let seg = Segment::new(
            VirtAddr(layout.sdata),
            VirtAddr(layout.edata),
            MapType::Identical,
            MAP_PERM_R + MAP_PERM_W,
        );
        let ghost seg_g = seg;
        let ghost pre_space = space;
        match space.push(seg, None, alloc) {
            Ok(()) => {
                proof {
                    assert(kernel_ranges(*layout)[2] == ident_range(layout.sdata, layout.edata));
                    lemma_mapped_by_first_step(pre_space, space, *layout, 2);
                    assert(ident_mapped(space, layout.sdata, layout.edata, (MAP_PERM_R + MAP_PERM_W) as u8)) by {
                        let sn = space.segments_spec().last();
                        assert(sn.start_spec() == seg_g.start_spec());
                        assert(sn.start_spec() == ident_range(layout.sdata, layout.edata).0);
                        assert(sn.end_spec() == ident_range(layout.sdata, layout.edata).1);
                        assert(sn.map_type_spec() is Identical);
                        assert(sn.perm_spec() == (MAP_PERM_R + MAP_PERM_W) as u8);
                        assert forall|v: u64|
                            ident_range(layout.sdata, layout.edata).0 <= v < ident_range(layout.sdata, layout.edata).1
                            implies #[trigger] space.mapping().contains_key(v)
                            && space.mapping()[v] == spec_pte_for(v, (MAP_PERM_R + MAP_PERM_W) as u8) by {
                            assert(sn.covers(v));
                            assert(sn.target_ppn(v) == v);
                            assert(space.mapping().contains_key(v));
                            assert(space.mapping()[v] == spec_pte_for(
                                sn.target_ppn(v) as u64,
                                sn.perm_spec(),
                            ));
                        }
                    }
                    lemma_ident_mapped_preserved(
                        pre_space,
                        space,
                        layout.stext,
                        layout.etext,
                        (MAP_PERM_R + MAP_PERM_X) as u8,
                        seg_g,
                    );
                    lemma_ident_mapped_preserved(
                        pre_space,
                        space,
                        layout.srodata,
                        layout.erodata,
                        (MAP_PERM_R) as u8,
                        seg_g,
                    );
                }
            },
            Err(e) => {
                proof {
                    if e == MemError::AlreadyMapped {
                        assert(kernel_ranges(*layout)[2] == ident_range(layout.sdata, layout.edata));
                        let v = choose|v: u64|
                            seg_g.covers(v) && #[trigger] pre_space.mapping().contains_key(v);
                        lemma_kernel_overlap_witness(pre_space, *layout, 2, v);
                    }
                }
                return Err(e);
            },
        }
        let seg = Segment::new(
            VirtAddr(layout.sbss_with_stack),
            VirtAddr(layout.ebss),
            MapType::Identical,
            MAP_PERM_R + MAP_PERM_W,
        );
        let ghost seg_g = seg;
        let ghost pre_space = space;
        match space.push(seg, None, alloc) {
            Ok(()) => {
                proof {
                    assert(kernel_ranges(*layout)[3] == ident_range(layout.sbss_with_stack, layout.ebss));
                    lemma_mapped_by_first_step(pre_space, space, *layout, 3);
                    assert(ident_mapped(space, layout.sbss_with_stack, layout.ebss, (MAP_PERM_R + MAP_PERM_W) as u8)) by {
                        let sn = space.segments_spec().last();
                        assert(sn.start_spec() == seg_g.start_spec());
                        assert(sn.start_spec() == ident_range(layout.sbss_with_stack, layout.ebss).0);
                        assert(sn.end_spec() == ident_range(layout.sbss_with_stack, layout.ebss).1);
                        assert(sn.map_type_spec() is Identical);
                        assert(sn.perm_spec() == (MAP_PERM_R + MAP_PERM_W) as u8);
                        assert forall|v: u64|
                            ident_range(layout.sbss_with_stack, layout.ebss).0 <= v < ident_range(layout.sbss_with_stack, layout.ebss).1
                            implies #[trigger] space.mapping().contains_key(v)
                            && space.mapping()[v] == spec_pte_for(v, (MAP_PERM_R + MAP_PERM_W) as u8) by {
                            assert(sn.covers(v));
                            assert(sn.target_ppn(v) == v);
                            assert(space.mapping().contains_key(v));
                            assert(space.mapping()[v] == spec_pte_for(
                                sn.target_ppn(v) as u64,
                                sn.perm_spec(),
                            ));
                        }
                    }
                    lemma_ident_mapped_preserved(
                        pre_space,
                        space,
                        layout.stext,
                        layout.etext,
                        (MAP_PERM_R + MAP_PERM_X) as u8,
                        seg_g,
                    );
                    lemma_ident_mapped_preserved(
                        pre_space,
                        space,
                        layout.srodata,
                        layout.erodata,
                        (MAP_PERM_R) as u8,
                        seg_g,
                    );
                    lemma_ident_mapped_preserved(
                        pre_space,
                        space,
                        layout.sdata,
                        layout.edata,
                        (MAP_PERM_R + MAP_PERM_W) as u8,
                        seg_g,
                    );
                }
            },
            Err(e) => {
                proof {
                    if e == MemError::AlreadyMapped {
                        assert(kernel_ranges(*layout)[3] == ident_range(layout.sbss_with_stack, layout.ebss));
                        let v = choose|v: u64|
                            seg_g.covers(v) && #[trigger] pre_space.mapping().contains_key(v);
                        lemma_kernel_overlap_witness(pre_space, *layout, 3, v);
                    }
                }
                return Err(e);
            },
        }
        let seg = Segment::new(
            VirtAddr(layout.ekernel),
            VirtAddr(MEMORY_END),
            MapType::Identical,
            MAP_PERM_R + MAP_PERM_W,
        );
        let ghost seg_g = seg;
        let ghost pre_space = space;
        match space.push(seg, None, alloc) {
            Ok(()) => {
                proof {
                    assert(kernel_ranges(*layout)[4] == ident_range(layout.ekernel, MEMORY_END));
                    lemma_mapped_by_first_step(pre_space, space, *layout, 4);
                    assert(ident_mapped(space, layout.ekernel, MEMORY_END, (MAP_PERM_R + MAP_PERM_W) as u8)) by {
                        let sn = space.segments_spec().last();
                        assert(sn.start_spec() == seg_g.start_spec());
                        assert(sn.start_spec() == ident_range(layout.ekernel, MEMORY_END).0);
                        assert(sn.end_spec() == ident_range(layout.ekernel, MEMORY_END).1);
                        assert(sn.map_type_spec() is Identical);
                        assert(sn.perm_spec() == (MAP_PERM_R + MAP_PERM_W) as u8);
                        assert forall|v: u64|
                            ident_range(layout.ekernel, MEMORY_END).0 <= v < ident_range(layout.ekernel, MEMORY_END).1
                            implies #[trigger] space.mapping().contains_key(v)
                            && space.mapping()[v] == spec_pte_for(v, (MAP_PERM_R + MAP_PERM_W) as u8) by {
                            assert(sn.covers(v));
                            assert(sn.target_ppn(v) == v);
                            assert(space.mapping().contains_key(v));
                            assert(space.mapping()[v] == spec_pte_for(
                                sn.target_ppn(v) as u64,
                                sn.perm_spec(),
                            ));
                        }
                    }
                    lemma_ident_mapped_preserved(
                        pre_space,
                        space,
                        layout.stext,
                        layout.etext,
                        (MAP_PERM_R + MAP_PERM_X) as u8,
                        seg_g,
                    );
                    lemma_ident_mapped_preserved(
                        pre_space,
                        space,
                        layout.srodata,
                        layout.erodata,
                        (MAP_PERM_R) as u8,
                        seg_g,
                    );
                    lemma_ident_mapped_preserved(
                        pre_space,
                        space,
                        layout.sdata,
                        layout.edata,
                        (MAP_PERM_R + MAP_PERM_W) as u8,
                        seg_g,
                    );
                    lemma_ident_mapped_preserved(
                        pre_space,
                        space,
                        layout.sbss_with_stack,
                        layout.ebss,
                        (MAP_PERM_R + MAP_PERM_W) as u8,
                        seg_g,
                    );
                }
            },
            Err(e) => {
                proof {
                    if e == MemError::AlreadyMapped {
                        assert(kernel_ranges(*layout)[4] == ident_range(layout.ekernel, MEMORY_END));
                        let v = choose|v: u64|
                            seg_g.covers(v) && #[trigger] pre_space.mapping().contains_key(v);
                        lemma_kernel_overlap_witness(pre_space, *layout, 4, v);
                    }
                }
                return Err(e);
            },
        }
        let ghost segs5 = space.segments_spec();
        let mut k: usize = 0;
        while k < layout.mmio.len()
            invariant
                space.wf(),
                alloc.wf(),
                alloc.base_spec() == old(alloc).base_spec(),
                alloc.end_spec() == old(alloc).end_spec(),
                layout.wf(),
                k <= layout.mmio@.len(),
                segs5.len() == 5,
                space.segments_spec().len() == 5 + k,
                kernel_ranges(*layout).len() == 5 + layout.mmio@.len(),
                mapped_by_first(space, *layout, 5 + k),
                ident_mapped(space, layout.stext, layout.etext, (MAP_PERM_R + MAP_PERM_X) as u8),
                ident_mapped(space, layout.srodata, layout.erodata, MAP_PERM_R),
                ident_mapped(space, layout.sdata, layout.edata, (MAP_PERM_R + MAP_PERM_W) as u8),
                ident_mapped(
                    space,
                    layout.sbss_with_stack,
                    layout.ebss,
                    (MAP_PERM_R + MAP_PERM_W) as u8,
                ),
                ident_mapped(space, layout.ekernel, MEMORY_END, (MAP_PERM_R + MAP_PERM_W) as u8),
                forall|j: int|
                    0 <= j < k ==> ident_mapped(
                        space,
                        (#[trigger] layout.mmio@[j]).0,
                        (layout.mmio@[j].0 + layout.mmio@[j].1) as u64,
                        (MAP_PERM_R + MAP_PERM_W) as u8,
                    ),
                forall|j: int|
                    0 <= j < 5 ==> #[trigger] space.segments_spec()[j] == segs5[j],
                forall|j: int|
                    0 <= j < k ==> seg_layout(#[trigger] space.segments_spec()[5 + j]) == (
                        ident_range(layout.mmio@[j].0, (layout.mmio@[j].0 + layout.mmio@[j].1) as u64).0,
                        ident_range(layout.mmio@[j].0, (layout.mmio@[j].0 + layout.mmio@[j].1) as u64).1,
                        MapType::Identical,
                        (MAP_PERM_R + MAP_PERM_W) as u8,
                    ),
            decreases layout.mmio@.len() - k,
        {
            let (base, size) = layout.mmio[k];
            let seg = Segment::new(
                VirtAddr(base),
                VirtAddr(base + size),
                MapType::Identical,
                MAP_PERM_R + MAP_PERM_W,
            );
            let ghost seg_g = seg;
            let ghost pre_space = space;
            let ghost pre_segs = space.segments_spec();
            proof {
                assert(kernel_ranges(*layout)[5 + k] == ident_range(
                    layout.mmio@[k as int].0,
                    (layout.mmio@[k as int].0 + layout.mmio@[k as int].1) as u64,
                ));
            }
            match space.push(seg, None, alloc) {
                Ok(()) => {
                    proof {
                        lemma_mapped_by_first_step(pre_space, space, *layout, 5 + k);
                    }
                },
                Err(e) => {
                    proof {
                        if e == MemError::AlreadyMapped {
                            let v = choose|v: u64|
                                seg_g.covers(v) && #[trigger] pre_space.mapping().contains_key(
                                    v,
                                );
                            lemma_kernel_overlap_witness(pre_space, *layout, 5 + k, v);
                        }
                    }
                    return Err(e);
                },
            }
            proof {
                lemma_ident_mapped_preserved(
                    pre_space,
                    space,
                    layout.stext,
                    layout.etext,
                    (MAP_PERM_R + MAP_PERM_X) as u8,
                    seg_g,
                );
                lemma_ident_mapped_preserved(
                    pre_space,
                    space,
                    layout.srodata,
                    layout.erodata,
                    MAP_PERM_R,
                    seg_g,
                );
                lemma_ident_mapped_preserved(
                    pre_space,
                    space,
                    layout.sdata,
                    layout.edata,
                    (MAP_PERM_R + MAP_PERM_W) as u8,
                    seg_g,
                );
                lemma_ident_mapped_preserved(
                    pre_space,
                    space,
                    layout.sbss_with_stack,
                    layout.ebss,
                    (MAP_PERM_R + MAP_PERM_W) as u8,
                    seg_g,
                );
                lemma_ident_mapped_preserved(
                    pre_space,
                    space,
                    layout.ekernel,
                    MEMORY_END,
                    (MAP_PERM_R + MAP_PERM_W) as u8,
                    seg_g,
                );
                assert forall|j: int|
                    0 <= j < k + 1 implies ident_mapped(
                        space,
                        (#[trigger] layout.mmio@[j]).0,
                        (layout.mmio@[j].0 + layout.mmio@[j].1) as u64,
                        (MAP_PERM_R + MAP_PERM_W) as u8,
                    ) by {
                    if j < k {
                        lemma_ident_mapped_preserved(
                            pre_space,
                            space,
                            layout.mmio@[j].0,
                            (layout.mmio@[j].0 + layout.mmio@[j].1) as u64,
                            (MAP_PERM_R + MAP_PERM_W) as u8,
                            seg_g,
                        );
                    } else {
                        let lo = layout.mmio@[j].0;
                        let hi = (layout.mmio@[j].0 + layout.mmio@[j].1) as u64;
                        let sn = space.segments_spec().last();
                        assert(sn.start_spec() == seg_g.start_spec());
                        assert(sn.start_spec() == ident_range(lo, hi).0);
                        assert(sn.end_spec() == ident_range(lo, hi).1);
                        assert(sn.map_type_spec() is Identical);
                        assert(sn.perm_spec() == (MAP_PERM_R + MAP_PERM_W) as u8);
                        assert forall|v: u64|
                            ident_range(lo, hi).0 <= v < ident_range(lo, hi).1
                            implies #[trigger] space.mapping().contains_key(v)
                            && space.mapping()[v] == spec_pte_for(
                            v,
                            (MAP_PERM_R + MAP_PERM_W) as u8,
                        ) by {
                            assert(sn.covers(v));
                            assert(sn.target_ppn(v) == v);
                            assert(space.mapping().contains_key(v));
                            assert(space.mapping()[v] == spec_pte_for(
                                sn.target_ppn(v) as u64,
                                sn.perm_spec(),
                            ));
                        }
                    }
                }
                assert forall|j: int| 0 <= j < 5 implies #[trigger] space.segments_spec()[j]
                    == segs5[j] by {
                    assert(space.segments_spec()[j] == pre_segs[j]);
                }
                assert forall|j: int|
                    0 <= j < k + 1 implies seg_layout(#[trigger] space.segments_spec()[5 + j]) == (
                        ident_range(layout.mmio@[j].0, (layout.mmio@[j].0 + layout.mmio@[j].1) as u64).0,
                        ident_range(layout.mmio@[j].0, (layout.mmio@[j].0 + layout.mmio@[j].1) as u64).1,
                        MapType::Identical,
                        (MAP_PERM_R + MAP_PERM_W) as u8,
                    ) by {
                    if j < k {
                        assert(space.segments_spec()[5 + j] == pre_segs[5 + j]);
                    }
                }
            }
            k = k + 1;
        }
        Ok(space)
    }

    /// Map one loadable program header as a fresh framed user segment and
    /// fill it: file bytes first, zero bytes across the rest.
    #[verifier::rlimit(100)]
    #[verifier::spinoff_prover]
    fn push_load_segment(&mut self, elf_data: &[u8], ph: ProgramHeader, alloc: &mut FrameAllocator)
        -> (r: Result<u64, LoadError>)
        requires
            old(self).wf(),
            old(alloc).wf(),
            ph_ok_for_load(elf_data@, ph),
        ensures
            final(self).wf(),
            final(alloc).wf(),
            final(alloc).base_spec() == old(alloc).base_spec(),
            final(alloc).end_spec() == old(alloc).end_spec(),
            r matches Ok(end_vpn) ==> {
                let sn = final(self).segments_spec().last();
                &&& final(self).segments_spec().len() == old(self).segments_spec().len() + 1
                &&& forall|k: int|
                    0 <= k < old(self).segments_spec().len() ==> #[trigger] final(self).segments_spec()[k] == old(self).segments_spec()[k]
                &&& seg_layout(sn) == ph_layout(ph)
                &&& sn.fully_framed()
                &&& ph_loaded(sn, ph, elf_data@)
                &&& end_vpn == ph_layout(ph).1
                &&& forall|v: u64|
                    #[trigger] final(self).mapping().contains_key(v) ==> old(self).mapping().contains_key(v) || (ph_layout(ph).0 <= v < ph_layout(ph).1)
                &&& forall|v: u64|
                    ph_layout(ph).0 <= v < ph_layout(ph).1 ==> !(#[trigger] old(self).mapping().contains_key(v))
                &&& forall|v: u64|
                    !(ph_layout(ph).0 <= v < ph_layout(ph).1) ==> #[trigger] final(self).mapping().contains_key(v) == old(self).mapping().contains_key(v) && (old(self).mapping().contains_key(v) ==> final(self).mapping()[v] == old(self).mapping()[v])
                &&& seg_mapped_in(*final(self), old(self).segments_spec().len() as int)
            },
            r is Err ==> r == Err::<u64, LoadError>(LoadError::Overlap) || r == Err::<
                u64,
                LoadError,
            >(LoadError::OutOfFrames),
            r == Err::<u64, LoadError>(LoadError::Overlap) ==> exists|v: u64|
                ph_layout(ph).0 <= v < ph_layout(ph).1 && #[trigger] old(self).mapping().contains_key(v),
            r == Err::<u64, LoadError>(LoadError::OutOfFrames) ==> final(alloc).free_count()
                <= 1,
    {
        let start_va = VirtAddr(ph.vaddr);
        let end_va = VirtAddr(ph.vaddr + ph.mem_size);
        let mut map_perm: u8 = MAP_PERM_U;
        if (ph.flags / 4) % 2 == 1 {
            map_perm = map_perm + MAP_PERM_R;
        }
        if (ph.flags / 2) % 2 == 1 {
            map_perm = map_perm + MAP_PERM_W;
        }
        if ph.flags % 2 == 1 {
            map_perm = map_perm + MAP_PERM_X;
        }
        proof {
            assert(map_perm == perm_of_flags(ph.flags));
            assert(perm_wf(map_perm));
        }
        let map_area = Segment::new(start_va, end_va, MapType::Framed, map_perm);
        let ghost area_g = map_area;
        let end_vpn = map_area.get_end().0;
        let image_len = elf_data.len();
        proof {
            assert(ph.offset + ph.file_size <= image_len);
        }
        let off = ph.offset as usize;
        let fsz = ph.file_size as usize;
        let data = vstd::slice::slice_subrange(elf_data, off, off + fsz);
        proof {
            lemma_floor_le(ph.vaddr as int);
            lemma_ceil_ge((ph.vaddr + ph.mem_size) as int);
        }
        match self.push(map_area, Some((start_va, data)), alloc) {
            Ok(()) => {},
            Err(MemError::AlreadyMapped) => {
                return Err(LoadError::Overlap);
            },
            Err(_) => {
                return Err(LoadError::OutOfFrames);
            },
        }
        proof {
            let sn = self.segments_spec().last();
            assert(seg_layout(sn) == ph_layout(ph));
            assert(data@.len() == ph.file_size);
            assert forall|j: int|
                0 <= j < ph.file_size implies #[trigger] sn.byte_at(ph.vaddr + j) == elf_data@[
                ph.offset + j] by {
                assert(sn.byte_at(start_va.0 + j) == data@[j]);
                assert(ph.vaddr + j == start_va.0 + j);
                assert(data@[j] == elf_data@[ph.offset + j]);
            }
            assert forall|j: int|
                ph.file_size <= j < ph.mem_size implies #[trigger] sn.byte_at(ph.vaddr + j)
                    == 0u8 by {
                assert(sn.span_lo() <= ph.vaddr + j < sn.span_hi());
            }
            assert(ph_loaded(sn, ph, elf_data@));
            assert(forall|v: u64|
                area_g.covers(v) <==> ph_layout(ph).0 <= v < ph_layout(ph).1);
            assert(seg_mapped_in(*self, old(self).segments_spec().len() as int)) by {
                let i = old(self).segments_spec().len() as int;
                assert(self.segments_spec()[i] == sn);
                assert forall|v: u64|
                    (#[trigger] self.segments_spec()[i].covers(v)) implies self.mapping().contains_key(
                    v,
                ) && self.mapping()[v] == spec_pte_for(
                    self.segments_spec()[i].target_ppn(v) as u64,
                    self.segments_spec()[i].perm_spec(),
                ) by {
                    assert(sn.covers(v));
                    assert(self.mapping().contains_key(v));
                    assert(self.mapping()[v] == spec_pte_for(
                        sn.target_ppn(v) as u64,
                        sn.perm_spec(),
                    ));
                }
            }
        }
        Ok(end_vpn)
    }

    /// Load an executable image: one framed user segment per loadable
    /// program header, with its file bytes copied in and its remaining
    /// memory size cleared, then one user stack page above the highest
    /// loaded region. Returns the initial stack pointer.
    #[verifier::rlimit(100)]
    #[verifier::spinoff_prover]
    pub fn load_elf(&mut self, elf_data: &[u8], alloc: &mut FrameAllocator) -> (r: Result<
        u64,
        LoadError,
    >)
        requires
            old(self).wf(),
            old(alloc).wf(),
        ensures
            final(self).wf(),
            final(alloc).wf(),
            final(alloc).base_spec() == old(alloc).base_spec(),
            final(alloc).end_spec() == old(alloc).end_spec(),
            r == Err::<u64, LoadError>(LoadError::BadImage) <==> !elf_load_ok(elf_data@),
            r == Err::<u64, LoadError>(LoadError::BadImage) ==> *final(self) == *old(self)
                && *final(alloc) == *old(alloc),
            r matches Ok(sp) ==> {
                let base = old(self).segments_spec().len() as int;
                let phs = spec_load_phs(elf_data@);
                &&& sp == spec_user_stack_base(elf_data@)
                &&& final(self).segments_spec().len() == base + phs.len() + 1
                &&& forall|k: int|
                    0 <= k < base ==> #[trigger] final(self).segments_spec()[k] == old(self).segments_spec()[k]
                &&& forall|k: int|
                    0 <= k < phs.len() ==> seg_layout(
                        #[trigger] final(self).segments_spec()[base + k],
                    ) == ph_layout(phs[k]) && final(self).segments_spec()[base + k].fully_framed()
                        && ph_loaded(final(self).segments_spec()[base + k], phs[k], elf_data@)
                &&& seg_layout(final(self).segments_spec().last()) == (
                    spec_last_end_vpn(elf_data@),
                    (spec_last_end_vpn(elf_data@) + 1) as u64,
                    MapType::Framed,
                    stack_perm(),
                )
                &&& final(self).segments_spec().last().fully_framed()
                &&& (old(self).segments_spec().len() == 0 ==> has_loaded_layout(
                    *final(self),
                    elf_data@,
                ))
                &&& segs_mapped_from(*final(self), old(self).segments_spec().len() as int)
            },
            (old(self).segments_spec().len() == 0 && old(self).mapping() =~= Map::<
                u64,
                PageTableEntry,
            >::empty() && loads_ascending(elf_data@)) ==> r != Err::<u64, LoadError>(
                LoadError::Overlap,
            ),
            r == Err::<u64, LoadError>(LoadError::OutOfFrames) ==> final(alloc).free_count()
                <= 1,
            r == Err::<u64, LoadError>(LoadError::Overlap) ==> exists|v: u64, k: int|
                #[trigger] load_overlap_witness(old(self).mapping(), elf_data@, v, k),
    {
        let image_len = elf_data.len();
        let count = match parse_elf_header(elf_data) {
            Some(c) => c,
            None => {
                return Err(LoadError::BadImage);
            },
        };
        // Validate every loadable header before touching any state, so a
        // malformed image is rejected whole.
        let mut i: u16 = 0;
        while i < count
            invariant
                *self == *old(self),
                *alloc == *old(alloc),
                self.wf(),
                alloc.wf(),
                i <= count,
                elf_header_ok(elf_data@),
                count == spec_ph_count(elf_data@),
                image_len == elf_data@.len(),
                forall|k: int|
                    0 <= k < i && (#[trigger] spec_ph(elf_data@, k)).ph_type == PH_TYPE_LOAD
                        ==> ph_ok_for_load(elf_data@, spec_ph(elf_data@, k)),
            decreases count - i,
        {
            let ph = read_program_header(elf_data, i);
            if ph.ph_type == PH_TYPE_LOAD {
                if ph.file_size > ph.mem_size {
                    return Err(LoadError::BadImage);
                }
                if ph.offset > image_len as u64 || ph.file_size > image_len as u64 - ph.offset {
                    return Err(LoadError::BadImage);
                }
                if ph.vaddr > VA_LIMIT - PAGE_BYTES || ph.mem_size > VA_LIMIT - PAGE_BYTES
                    - ph.vaddr {
                    return Err(LoadError::BadImage);
                }
            }
            i = i + 1;
        }
        proof {
            assert(elf_load_ok(elf_data@));
        }
        let ghost base = self.segments@.len() as int;
        let ghost image = elf_data@;
        let ghost fresh = base == 0 && old(self).mapping() =~= Map::<u64, PageTableEntry>::empty()
            && loads_ascending(image);
        proof {
            reveal(segs_match_phs);
            assert(segs_match_phs(self.segments_spec(), base, spec_load_phs_upto(image, 0), image));
            reveal(segs_mapped_from);
            assert(segs_mapped_from(*self, base));
            reveal(mapped_from_image);
            assert(mapped_from_image(*self, old(self).mapping(), image, 0));
        }
        let mut max_end_vpn: u64 = 0;
        let mut i: u16 = 0;
        while i < count
            invariant
                self.wf(),
                alloc.wf(),
                alloc.base_spec() == old(alloc).base_spec(),
                alloc.end_spec() == old(alloc).end_spec(),
                i <= count,
                elf_load_ok(image),
                image == elf_data@,
                count == spec_ph_count(image),
                image_len == image.len(),
                base == old(self).segments_spec().len(),
                self.segments_spec().len() == base + spec_load_phs_upto(image, i as int).len(),
                forall|k: int|
                    0 <= k < base ==> #[trigger] self.segments_spec()[k] == old(self).segments_spec()[k],
                segs_match_phs(
                    self.segments_spec(),
                    base,
                    spec_load_phs_upto(image, i as int),
                    image,
                ),
                segs_mapped_from(*self, base),
                mapped_from_image(
                    *self,
                    old(self).mapping(),
                    image,
                    spec_load_phs_upto(image, i as int).len() as int,
                ),
                max_end_vpn == if spec_load_phs_upto(image, i as int).len() == 0 {
                    0u64
                } else {
                    ph_layout(spec_load_phs_upto(image, i as int).last()).1
                },
                max_end_vpn < VPN_LIMIT,
                fresh == (base == 0 && old(self).mapping() =~= Map::<u64, PageTableEntry>::empty()
                    && loads_ascending(image)),
                fresh ==> forall|v: u64|
                    #[trigger] self.mapping().contains_key(v) ==> spec_load_phs_upto(
                        image,
                        i as int,
                    ).len() > 0 && v < ph_layout(spec_load_phs_upto(image, i as int).last()).1,
            decreases count - i,
        {
            let ph = read_program_header(elf_data, i);
            let ghost phs_pre = spec_load_phs_upto(image, i as int);
            proof {
                assert(spec_load_phs_upto(image, i as int + 1) == if spec_ph(
                    image,
                    i as int,
                ).ph_type == PH_TYPE_LOAD {
                    phs_pre.push(spec_ph(image, i as int))
                } else {
                    phs_pre
                });
            }
            if ph.ph_type == PH_TYPE_LOAD {
                proof {
                    assert(ph_ok_for_load(image, ph));
                }
                let ghost segs_pre = self.segments_spec();
                let ghost map_pre = self.mapping();
                let ghost self_pre = *self;
                proof {
                    lemma_load_phs_prefix(image, i as int + 1, spec_ph_count(image));
                    assert(spec_load_phs(image)[phs_pre.len() as int] == ph);
                    if fresh && phs_pre.len() > 0 {
                        assert(spec_load_phs(image)[phs_pre.len() - 1] == phs_pre.last());
                        assert(ph_layout(phs_pre.last()).1 <= ph_layout(ph).0);
                    }
                }
                match self.push_load_segment(elf_data, ph, alloc) {
                    Ok(end_vpn) => {
                        max_end_vpn = end_vpn;
                    },
                    Err(e) => {
                        proof {
                            if e == LoadError::Overlap {
                                let kx = phs_pre.len() as int;
                                let v = choose|v: u64|
                                    ph_layout(ph).0 <= v < ph_layout(ph).1
                                        && #[trigger] map_pre.contains_key(v);
                                if fresh {
                                    assert(false);
                                }
                                assert(self_pre.mapping().contains_key(v));
                                assert(in_load_region(image, kx, v));
                                lemma_load_overlap_witness(
                                    self_pre,
                                    old(self).mapping(),
                                    image,
                                    kx,
                                    v,
                                );
                            }
                        }
                        return Err(e);
                    },
                }
                proof {
                    if fresh {
                        assert forall|v: u64|
                            #[trigger] self.mapping().contains_key(v) implies v < ph_layout(
                            ph,
                        ).1 by {
                            if map_pre.contains_key(v) {
                                assert(phs_pre.len() > 0 && v < ph_layout(phs_pre.last()).1);
                            }
                        }
                    }
                    let sn = self.segments_spec().last();
                    assert(segs_match_phs(
                        self.segments_spec(),
                        base,
                        phs_pre.push(ph),
                        image,
                    )) by {
                        reveal(segs_match_phs);
                        assert forall|k: int|
                            0 <= k < phs_pre.push(ph).len() implies seg_layout(
                                #[trigger] self.segments_spec()[base + k],
                            ) == ph_layout(phs_pre.push(ph)[k]) && self.segments_spec()[base
                                + k].fully_framed() && ph_loaded(
                                self.segments_spec()[base + k],
                                phs_pre.push(ph)[k],
                                image,
                            ) by {
                            if k < phs_pre.len() {
                                assert(self.segments_spec()[base + k] == segs_pre[base + k]);
                                assert(phs_pre.push(ph)[k] == phs_pre[k]);
                            } else {
                                assert(phs_pre.push(ph)[k] == ph);
                                assert(self.segments_spec()[base + k] == sn);
                            }
                        }
                    }
                    assert(max_end_vpn < VPN_LIMIT);
                    assert(segs_mapped_from(*self, base)) by {
                        reveal(segs_mapped_from);
                        assert forall|i2: int|
                            base <= i2 < self.segments_spec().len() implies #[trigger] seg_mapped_in(
                            *self,
                            i2,
                        ) by {
                            if i2 < self.segments_spec().len() - 1 {
                                assert(seg_mapped_in(self_pre, i2));
                                lemma_seg_mapped_preserved(
                                    self_pre,
                                    *self,
                                    i2,
                                    ph_layout(ph).0 as int,
                                    ph_layout(ph).1 as int,
                                );
                            } else {
                                assert(i2 == self_pre.segments_spec().len());
                                assert(seg_mapped_in(*self, i2));
                            }
                        }
                    }
                    lemma_mapped_from_image_step(
                        self_pre,
                        *self,
                        old(self).mapping(),
                        image,
                        phs_pre.len() as int,
                    );
                }
            }
            i = i + 1;
        }
        // The user stack: one read-write user page just above the highest
        // mapped address, its top held back by the alignment slack.
        proof {
            assert(spec_load_phs_upto(image, count as int) == spec_load_phs(image));
        }
        let stack_bottom_va = VirtAddr(max_end_vpn * PAGE_BYTES);
        let stack_top = max_end_vpn * PAGE_BYTES + PAGE_BYTES - 0x10;
        let stack_area = Segment::new(
            stack_bottom_va,
            VirtAddr(stack_top),
            MapType::Framed,
            MAP_PERM_R + MAP_PERM_W + MAP_PERM_U,
        );
        proof {
            assert(stack_area.start_spec() == max_end_vpn) by (nonlinear_arith)
                requires
                    stack_area.start_spec() == (max_end_vpn * PAGE_BYTES) as int / (
                    PAGE_BYTES as int),
                    max_end_vpn < VPN_LIMIT,
            ;
            assert(stack_area.end_spec() == max_end_vpn + 1) by (nonlinear_arith)
                requires
                    stack_area.end_spec() == ((max_end_vpn * PAGE_BYTES + PAGE_BYTES - 0x10)
                        + PAGE_BYTES - 1) as int / (PAGE_BYTES as int),
                    max_end_vpn < VPN_LIMIT,
            ;
        }
        let ghost segs_pre = self.segments_spec();
        let ghost map_pre = self.mapping();
        let ghost self_pre = *self;
        let ghost stack_g = stack_area;
        match self.push(stack_area, None, alloc) {
            Ok(()) => {},
            Err(MemError::AlreadyMapped) => {
                proof {
                    let v = choose|v: u64|
                        stack_area.covers(v) && #[trigger] map_pre.contains_key(v);
                    if fresh {
                        assert(false);
                    }
                    let kx = spec_load_phs(image).len() as int;
                    assert(spec_load_phs_upto(image, count as int) == spec_load_phs(image));
                    assert(mapped_from_image(self_pre, old(self).mapping(), image, kx));
                    assert(self_pre.mapping().contains_key(v));
                    assert(in_load_push_region(image, kx, v));
                    lemma_load_overlap_witness(self_pre, old(self).mapping(), image, kx, v);
                }
                return Err(LoadError::Overlap);
            },
            Err(_) => {
                return Err(LoadError::OutOfFrames);
            },
        }
        proof {
            assert(segs_mapped_from(*self, base)) by {
                reveal(segs_mapped_from);
                assert forall|i2: int|
                    base <= i2 < self.segments_spec().len() implies #[trigger] seg_mapped_in(
                    *self,
                    i2,
                ) by {
                    if i2 < self.segments_spec().len() - 1 {
                        assert(seg_mapped_in(self_pre, i2));
                        lemma_seg_mapped_preserved(
                            self_pre,
                            *self,
                            i2,
                            stack_g.start_spec() as int,
                            stack_g.end_spec() as int,
                        );
                    } else {
                        let sn = self.segments_spec().last();
                        assert(self.segments_spec()[i2] == sn);
                        assert forall|v: u64|
                            (#[trigger] self.segments_spec()[i2].covers(v))
                            implies self.mapping().contains_key(v) && self.mapping()[v]
                            == spec_pte_for(
                            self.segments_spec()[i2].target_ppn(v) as u64,
                            self.segments_spec()[i2].perm_spec(),
                        ) by {
                            assert(sn.covers(v));
                            assert(self.mapping().contains_key(v));
                            assert(self.mapping()[v] == spec_pte_for(
                                sn.target_ppn(v) as u64,
                                sn.perm_spec(),
                            ));
                        }
                    }
                }
            }
            reveal(segs_match_phs);
            let phs = spec_load_phs(image);
            assert forall|k: int|
                0 <= k < phs.len() implies seg_layout(#[trigger] self.segments_spec()[base + k])
                    == ph_layout(phs[k]) && self.segments_spec()[base + k].fully_framed()
                    && ph_loaded(self.segments_spec()[base + k], phs[k], image) by {
                assert(self.segments_spec()[base + k] == segs_pre[base + k]);
            }
            assert forall|k: int|
                0 <= k < base implies #[trigger] self.segments_spec()[k] == old(
                self).segments_spec()[k] by {
                assert(self.segments_spec()[k] == segs_pre[k]);
            }
            if base == 0 {
                let lay = loaded_layout_of(image);
                assert(lay.len() == phs.len() + 1);
                assert(self.segments_spec().len() == lay.len());
                assert forall|k: int|
                    0 <= k < self.segments_spec().len() implies seg_layout(
                    #[trigger] self.segments_spec()[k]) == lay[k] by {
                    if k < phs.len() {
                        assert(lay[k] == phs.map_values(|ph: ProgramHeader| ph_layout(ph))[k]);
                        assert(phs.map_values(|ph: ProgramHeader| ph_layout(ph))[k] == ph_layout(
                            phs[k],
                        ));
                        assert(seg_layout(self.segments_spec()[base + k]) == ph_layout(phs[k]));
                    } else {
                        assert(k == phs.len());
                        assert(self.segments_spec()[k] == self.segments_spec().last());
                    }
                }
                assert(has_loaded_layout(*self, image));
            }
        }
        Ok(stack_top)
    }

    /// Unmap and drop the first segment whose range starts at the given
    /// page number; a start page that no segment carries is a silent no-op.
    pub fn remove_area_with_start_vpn(&mut self, start_vpn: VirtPageNum, alloc: &mut FrameAllocator)
        requires
            old(self).wf(),
            old(alloc).wf(),
        ensures
            final(self).wf(),
            final(alloc).wf(),
            final(alloc).base_spec() == old(alloc).base_spec(),
            final(alloc).end_spec() == old(alloc).end_spec(),
            forall|q: u64| final(alloc).is_live(q) ==> old(alloc).is_live(q),
            seg_with_start(old(self).segments_spec(), start_vpn.0) == -1 ==> *final(self) == *old(self) && *final(alloc) == *old(alloc),
            seg_with_start(old(self).segments_spec(), start_vpn.0) >= 0 ==> {
                let fi = seg_with_start(old(self).segments_spec(), start_vpn.0);
                let gone = old(self).segments_spec()[fi];
                &&& final(self).segments_spec().len() == old(self).segments_spec().len() - 1
                &&& forall|j: int|
                    0 <= j < fi ==> #[trigger] final(self).segments_spec()[j] == old(self).segments_spec()[j]
                &&& forall|j: int|
                    fi <= j < final(self).segments_spec().len() ==> #[trigger] final(self).segments_spec()[j] == old(self).segments_spec()[j + 1]
                &&& forall|v: u64| gone.covers(v) ==> !final(self).mapping().contains_key(v)
                &&& forall|k: int|
                    0 <= k < gone.frames_spec().len() ==> ((#[trigger] gone.frames_spec()[k])
                        matches Some(f) ==> !final(alloc).is_live(f.ppn_spec()))
                &&& forall|v: u64|
                    !gone.covers(v) ==> #[trigger] final(self).mapping().contains_key(v) == old(self).mapping().contains_key(v) && (old(self).mapping().contains_key(v) ==> final(self).mapping()[v] == old(self).mapping()[v])
            },
    {
        let mut i: usize = 0;
        while i < self.segments.len()
            invariant
                *self == *old(self),
                *alloc == *old(alloc),
                self.wf(),
                alloc.wf(),
                i <= self.segments_spec().len(),
                forall|j: int|
                    0 <= j < i ==> (#[trigger] self.segments_spec()[j]).start_spec() != start_vpn.0,
            decreases self.segments_spec().len() - i,
        {
            let hit = {
                let seg = &self.segments[i];
                seg.get_start().0 == start_vpn.0
            };
            if hit {
                proof {
                    lemma_seg_with_start_at(self.segments_spec(), start_vpn.0, i as int);
                }
                let mut seg = self.segments.remove(i);
                seg.unmap(&mut self.page_table, alloc);
                return ;
            }
            i = i + 1;
        }
        proof {
            lemma_seg_with_start_none(self.segments_spec(), start_vpn.0);
        }
    }

    /// Drop every segment, returning all owned frames to the pool. Page
    /// table entries are left as they are: the table itself is about to be
    /// discarded with the address space.
    pub fn recycle_data_pages(&mut self, alloc: &mut FrameAllocator)
        requires
            old(self).wf(),
            old(alloc).wf(),
        ensures
            final(self).wf(),
            final(alloc).wf(),
            final(alloc).base_spec() == old(alloc).base_spec(),
            final(alloc).end_spec() == old(alloc).end_spec(),
            forall|q: u64| final(alloc).is_live(q) ==> old(alloc).is_live(q),
            final(self).segments_spec().len() == 0,
            final(self).pt_spec() == old(self).pt_spec(),
            forall|i: int, k: int|
                0 <= i < old(self).segments_spec().len() && 0 <= k < old(self).segments_spec()[
                    i].frames_spec().len() ==> ((#[trigger] old(self).segments_spec()[
                    i].frames_spec()[k]) matches Some(f) ==> !final(alloc).is_live(f.ppn_spec())),
    {
        loop
            invariant
                self.wf(),
                alloc.wf(),
                alloc.base_spec() == old(alloc).base_spec(),
                alloc.end_spec() == old(alloc).end_spec(),
                forall|q: u64| alloc.is_live(q) ==> old(alloc).is_live(q),
                self.pt_spec() == old(self).pt_spec(),
                self.segments@.len() <= old(self).segments_spec().len(),
                forall|i: int|
                    0 <= i < self.segments@.len() ==> #[trigger] self.segments@[i] == old(
                        self,
                    ).segments_spec()[i],
                forall|i: int, k: int|
                    self.segments@.len() <= i < old(self).segments_spec().len() && 0 <= k < old(
                        self,
                    ).segments_spec()[i].frames_spec().len() ==> ((#[trigger] old(
                        self,
                    ).segments_spec()[i].frames_spec()[k]) matches Some(f) ==> !alloc.is_live(
                        f.ppn_spec(),
                    )),
            ensures
                self.segments@.len() == 0,
            decreases self.segments@.len(),
        {
            let ghost pre = *self;
            match self.segments.pop() {
                Some(mut seg) => {
                    proof {
                        assert(seg == pre.segments_spec()[pre.segments_spec().len() - 1]);
                        assert(seg.wf());
                        assert forall|j: int|
                            0 <= j < self.segments_spec().len() implies (
                            #[trigger] self.segments_spec()[j]).wf() by {
                            assert(self.segments_spec()[j] == pre.segments_spec()[j]);
                        }
                    }
                    seg.release_frames(alloc);
                },
                None => {
                    break ;
                },
            }
        }
    }

    /// Read the byte a user pointer reaches, if its page is backed by a
    /// framed segment.
    pub fn read_byte_at(&self, va: u64) -> (r: Option<u8>)
        requires
            self.wf(),
        ensures
            r == self.user_byte(va as int),
    {
        if va >= VA_LIMIT {
            return None;
        }
        let vpn = va / PAGE_BYTES;
        let mut i: usize = 0;
        while i < self.segments.len()
            invariant
                self.wf(),
                i <= self.segments_spec().len(),
                vpn == va / PAGE_BYTES,
                va < VA_LIMIT,
                forall|j: int| 0 <= j < i ==> !(#[trigger] self.segments_spec()[j]).covers(vpn),
            decreases self.segments_spec().len() - i,
        {
            let seg = &self.segments[i];
            if seg.covers_page(vpn) {
                proof {
                    lemma_seg_covering_at(self.segments_spec(), vpn, i as int);
                }
                return seg.read_byte_checked(va);
            }
            i = i + 1;
        }
        proof {
            lemma_seg_covering_none(self.segments_spec(), vpn);
        }
        None
    }

    /// Write the byte a user pointer reaches. Reports whether the page is
    /// backed by a framed segment; on success only that byte changes.
    pub fn write_byte_at(&mut self, va: u64, b: u8) -> (ok: bool)
        requires
            old(self).wf(),
        ensures
            final(self).wf(),
            ok == (old(self).user_byte(va as int) is Some),
            ok ==> {
                &&& final(self).user_byte(va as int) == Some(b)
                &&& forall|va2: int|
                    va2 != va ==> #[trigger] final(self).user_byte(va2) == old(self).user_byte(va2)
                &&& final(self).pt_spec() == old(self).pt_spec()
                &&& final(self).segments_spec().len() == old(self).segments_spec().len()
                &&& forall|i: int|
                    0 <= i < old(self).segments_spec().len() ==> {
                        let s0 = #[trigger] old(self).segments_spec()[i];
                        let s1 = final(self).segments_spec()[i];
                        s1.start_spec() == s0.start_spec() && s1.end_spec() == s0.end_spec()
                            && s1.map_type_spec() == s0.map_type_spec() && s1.perm_spec()
                            == s0.perm_spec()
                    }
            },
            !ok ==> final(self).pt_spec() == old(self).pt_spec() && final(self).segments_spec()
                =~= old(self).segments_spec(),
    {
        if va >= VA_LIMIT {
            return false;
        }
        let vpn = va / PAGE_BYTES;
        let mut i: usize = 0;
        while i < self.segments.len()
            invariant
                *self == *old(self),
                self.wf(),
                i <= self.segments_spec().len(),
                vpn == va / PAGE_BYTES,
                va < VA_LIMIT,
                forall|j: int| 0 <= j < i ==> !(#[trigger] self.segments_spec()[j]).covers(vpn),
            decreases self.segments_spec().len() - i,
        {
            let found = self.segments[i].covers_page(vpn);
            if found {
                proof {
                    lemma_seg_covering_at(self.segments_spec(), vpn, i as int);
                }
                let ghost pre = *self;
                let ok = self.segments[i].write_byte_checked(va, b);
                proof {
                    if !ok {
                        assert(self.segments_spec() =~= pre.segments_spec());
                    }
                    if ok {
                        lemma_seg_covering_same(pre.segments_spec(), self.segments_spec(), vpn);
                        assert(self.user_byte(va as int) == Some(b));
                        assert forall|va2: int|
                            va2 != va implies #[trigger] self.user_byte(va2) == pre.user_byte(
                            va2,
                        ) by {
                            if 0 <= va2 < VA_LIMIT {
                                let vpn2 = (va2 / (PAGE_BYTES as int)) as u64;
                                lemma_seg_covering_same(
                                    pre.segments_spec(),
                                    self.segments_spec(),
                                    vpn2,
                                );
                                lemma_seg_covering_range(pre.segments_spec(), vpn2);
                                let c = seg_covering(pre.segments_spec(), vpn2);
                                if c >= 0 && c != i {
                                    assert(self.segments_spec()[c] == pre.segments_spec()[c]);
                                } else if c == i {
                                    let s0 = pre.segments_spec()[c];
                                    assert(s0.covers(vpn2));
                                    assert(s0.span_lo() <= va2 < s0.span_hi())
                                        by (nonlinear_arith)
                                        requires
                                            s0.start_spec() <= va2 / (PAGE_BYTES as int)
                                                < s0.end_spec(),
                                            0 <= va2,
                                            s0.span_lo() == s0.start_spec() * PAGE_BYTES,
                                            s0.span_hi() == s0.end_spec() * PAGE_BYTES,
                                    ;
                                }
                            }
                        }
                    }
                }
                return ok;
            }
            i = i + 1;
        }
        proof {
            lemma_seg_covering_none(self.segments_spec(), vpn);
        }
        false
    }
}

} // verus!
