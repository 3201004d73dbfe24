//! The physical-frame allocator: hands out exclusively-owned page frames
//! drawn from the pool between the end of the kernel image and the end of
//! memory, and takes them back when their owner is done.
//!
//! Allocation follows a reuse-last-freed policy: a stack of recycled page
//! numbers is consulted before the high-water mark advances. A frame's
//! bytes are cleared at allocation time, not when it is freed.

use vstd::prelude::*;
use crate::PAGE_SIZE;
use crate::MEMORY_END;
use crate::addr::{PhysAddr, PhysPageNum, PPN_LIMIT, PAGE_BYTES};

verus! {

/// Exclusive ownership of one physical page frame, together with the
/// model of that frame's byte contents.
pub struct FrameHandle {
    ppn: PhysPageNum,
    data: Vec<u8>,
}

impl FrameHandle {
    /// The page number this handle owns.
    pub closed spec fn ppn_spec(&self) -> u64 {
        self.ppn.0
    }

    /// The bytes of the owned frame.
    pub closed spec fn bytes(&self) -> Seq<u8> {
        self.data@
    }

    /// A handle always carries a full page of modelled bytes and a page
    /// number inside the physical width.
    pub open spec fn wf(&self) -> bool {
        self.bytes().len() == PAGE_SIZE && self.ppn_spec() < PPN_LIMIT
    }

    pub fn ppn(&self) -> (r: PhysPageNum)
        ensures
            r.0 == self.ppn_spec(),
    {
        self.ppn
    }

    /// Read one byte of the frame.
    pub fn read_byte(&self, off: usize) -> (r: u8)
        requires
            self.wf(),
            off < PAGE_SIZE,
        ensures
            r == self.bytes()[off as int],
    {
        self.data[off]
    }

    /// Write one byte of the frame.
    pub fn write_byte(&mut self, off: usize, b: u8)
        requires
            old(self).wf(),
            off < PAGE_SIZE,
        ensures
            final(self).wf(),
            final(self).ppn_spec() == old(self).ppn_spec(),
            final(self).bytes() == old(self).bytes().update(off as int, b),
    {
        self.data.set(off, b);
    }
}

/// The pool of physical page frames in `[base, end)`, with a
/// reuse-last-freed stack of recycled page numbers.
pub struct FrameAllocator {
    base: u64,
    current: u64,
    end: u64,
    recycled: Vec<u64>,
}

impl FrameAllocator {
    /// First managed page number.
    pub closed spec fn base_spec(&self) -> u64 {
        self.base
    }

    /// Next never-yet-allocated page number.
    pub closed spec fn current_spec(&self) -> u64 {
        self.current
    }

    /// One past the last managed page number.
    pub closed spec fn end_spec(&self) -> u64 {
        self.end
    }

    /// The stack of recycled page numbers.
    pub closed spec fn recycled_spec(&self) -> Seq<u64> {
        self.recycled@
    }

    pub open spec fn wf(&self) -> bool {
        &&& self.base_spec() <= self.current_spec() <= self.end_spec() <= PPN_LIMIT
        &&& forall|i: int|
            0 <= i < self.recycled_spec().len() ==> self.base_spec() <= #[trigger] self.recycled_spec()[i]
                < self.current_spec()
        &&& forall|i: int, j: int|
            0 <= i < j < self.recycled_spec().len() ==> #[trigger] self.recycled_spec()[i]
                != #[trigger] self.recycled_spec()[j]
    }

    /// Whether page number `p` is currently handed out to some owner.
    pub open spec fn is_live(&self, p: u64) -> bool {
        self.base_spec() <= p < self.current_spec() && !self.recycled_spec().contains(p)
    }

    /// How many frames are still available.
    pub open spec fn free_count(&self) -> int {
        self.end_spec() - self.current_spec() + self.recycled_spec().len()
    }

    /// A fresh allocator managing page numbers `[base, end)`; nothing is
    /// live yet.
    pub fn new(base: PhysPageNum, end: PhysPageNum) -> (r: Self)
        requires
            base.0 <= end.0 <= PPN_LIMIT,
        ensures
            r.wf(),
            r.base_spec() == base.0,
            r.current_spec() == base.0,
            r.end_spec() == end.0,
            r.recycled_spec().len() == 0,
            forall|p: u64| !r.is_live(p),
            r.free_count() == end.0 - base.0,
    {
        FrameAllocator { base: base.0, current: base.0, end: end.0, recycled: Vec::new() }
    }

    /// Allocate one frame. The returned handle owns a page number that no
    /// other live handle reports, and its bytes are cleared. Returns
    /// nothing exactly when the pool is exhausted.
    pub fn alloc_frame(&mut self) -> (r: Option<FrameHandle>)
        requires
            old(self).wf(),
        ensures
            final(self).wf(),
            final(self).base_spec() == old(self).base_spec(),
            final(self).end_spec() == old(self).end_spec(),
            r is None <==> old(self).free_count() == 0,
            r is None ==> final(self).current_spec() == old(self).current_spec()
                && final(self).recycled_spec() == old(self).recycled_spec(),
            r matches Some(h) ==> {
                &&& h.wf()
                &&& !old(self).is_live(h.ppn_spec())
                &&& final(self).is_live(h.ppn_spec())
                &&& h.bytes() =~= Seq::new(PAGE_SIZE as nat, |i: int| 0u8)
                &&& forall|p: u64| old(self).is_live(p) ==> final(self).is_live(p)
                &&& forall|p: u64|
                    final(self).is_live(p) ==> old(self).is_live(p) || p == h.ppn_spec()
                &&& final(self).free_count() == old(self).free_count() - 1
            },
    {
        let ghost pre = *self;
        match self.recycled.pop() {
            Some(p) => {
                proof {
                    assert(pre.recycled_spec()[pre.recycled_spec().len() - 1] == p);
                    assert(pre.recycled_spec().contains(p));
                    assert(pre.base_spec() <= p < pre.current_spec());
                    assert(self.recycled_spec() == pre.recycled_spec().subrange(
                        0,
                        pre.recycled_spec().len() - 1,
                    ));
                    assert(forall|i: int|
                        0 <= i < self.recycled_spec().len() ==> #[trigger] self.recycled_spec()[i]
                            == pre.recycled_spec()[i]);
                    assert forall|q: u64| pre.is_live(q) implies self.is_live(q) by {
                        if self.recycled_spec().contains(q) {
                            let i = choose|i: int|
                                0 <= i < self.recycled_spec().len() && self.recycled_spec()[i]
                                    == q;
                            assert(pre.recycled_spec()[i] == q);
                        }
                    }
                    assert(!self.recycled_spec().contains(p)) by {
                        if self.recycled_spec().contains(p) {
                            let i = choose|i: int|
                                0 <= i < self.recycled_spec().len() && self.recycled_spec()[i]
                                    == p;
                            assert(pre.recycled_spec()[i] == pre.recycled_spec()[
                                pre.recycled_spec().len() - 1]);
                        }
                    }
                    assert forall|q: u64| self.is_live(q) implies pre.is_live(q) || q == p by {
                        if !pre.is_live(q) && q != p && self.is_live(q) {
                            let i = choose|i: int|
                                0 <= i < pre.recycled_spec().len() && pre.recycled_spec()[i]
                                    == q;
                            assert(self.recycled_spec()[i] == q);
                        }
                    }
                }
                Some(FrameHandle { ppn: PhysPageNum(p), data: alloc_zero_page() })
            },
            None => {
                if self.current < self.end {
                    let p = self.current;
                    self.current = self.current + 1;
                    Some(FrameHandle { ppn: PhysPageNum(p), data: alloc_zero_page() })
                } else {
                    None
                }
            },
        }
    }

    /// Return a frame to the pool. Succeeds exactly when the handle's page
    /// number is currently live in this allocator; a double free or a page
    /// outside the managed range is a hard error, reported as `false`,
    /// and changes nothing.
    pub fn release(&mut self, frame: FrameHandle) -> (r: bool)
        requires
            old(self).wf(),
        ensures
            final(self).wf(),
            final(self).base_spec() == old(self).base_spec(),
            final(self).end_spec() == old(self).end_spec(),
            final(self).current_spec() == old(self).current_spec(),
            r == old(self).is_live(frame.ppn_spec()),
            r ==> {
                &&& forall|p: u64|
                    #[trigger] final(self).is_live(p) <==> (old(self).is_live(p) && p
                        != frame.ppn_spec())
                &&& final(self).free_count() == old(self).free_count() + 1
            },
            !r ==> *final(self) == *old(self),
    {
        let p = frame.ppn().0;
        if !(self.base <= p && p < self.current) {
            return false;
        }
        let ghost pre0 = *self;
        let mut i: usize = 0;
        while i < self.recycled.len()
            invariant
                *self == pre0,
                pre0 == *old(self),
                p == frame.ppn_spec(),
                old(self).base_spec() <= p < old(self).current_spec(),
                self.wf(),
                i <= self.recycled@.len(),
                forall|j: int| 0 <= j < i ==> self.recycled@[j] != p,
            decreases self.recycled@.len() - i,
        {
            if self.recycled[i] == p {
                proof {
                    assert(self.recycled_spec()[i as int] == p);
                    assert(self.recycled_spec().contains(p));
                }
                return false;
            }
            i = i + 1;
        }
        proof {
            assert(forall|j: int|
                0 <= j < self.recycled_spec().len() ==> #[trigger] self.recycled_spec()[j] != p);
        }
        let ghost pre = *self;
        self.recycled.push(p);
        proof {
            assert(!pre.recycled_spec().contains(p));
            assert(self.recycled_spec() == pre.recycled_spec().push(p));
            assert forall|q: u64| #[trigger] self.is_live(q) implies pre.is_live(q) && q != p by {
                if self.is_live(q) {
                    assert(!self.recycled_spec().contains(q));
                    assert(self.recycled_spec()[self.recycled_spec().len() - 1] == p);
                    if pre.recycled_spec().contains(q) {
                        let i2 = choose|i2: int|
                            0 <= i2 < pre.recycled_spec().len() && pre.recycled_spec()[i2] == q;
                        assert(self.recycled_spec()[i2] == q);
                    }
                }
            }
            assert forall|q: u64| pre.is_live(q) && q != p implies self.is_live(q) by {
                if pre.is_live(q) && q != p && self.recycled_spec().contains(q) {
                    let i2 = choose|i2: int|
                        0 <= i2 < self.recycled_spec().len() && self.recycled_spec()[i2] == q;
                    if i2 < pre.recycled_spec().len() {
                        assert(pre.recycled_spec()[i2] == q);
                    }
                }
            }
        }
        true
    }
}

/// A page of zeroed bytes.
fn alloc_zero_page() -> (r: Vec<u8>)
    ensures
        r@ =~= Seq::new(PAGE_SIZE as nat, |i: int| 0u8),
{
    let mut v: Vec<u8> = Vec::new();
    let mut i: usize = 0;
    while i < PAGE_SIZE
        invariant
            i <= PAGE_SIZE,
            v@.len() == i,
            forall|j: int| 0 <= j < i ==> v@[j] == 0u8,
        decreases PAGE_SIZE - i,
    {
        v.push(0u8);
        i = i + 1;
    }
    v
}

/// Build the allocator that manages the frames from the end of the kernel
/// image up to the end of physical memory.
pub fn init(kernel_end: PhysAddr) -> (r: FrameAllocator)
    requires
        kernel_end.0 <= MEMORY_END,
    ensures
        r.wf(),
        r.base_spec() == (kernel_end.0 + PAGE_BYTES - 1) / (PAGE_BYTES as int),
        r.end_spec() == MEMORY_END / PAGE_BYTES,
        r.recycled_spec().len() == 0,
        forall|p: u64| !r.is_live(p),
{
    let base = kernel_end.ceil();
    let end = PhysAddr(MEMORY_END).floor();
    FrameAllocator::new(base, end)
}

/// An allocation hands out a page number that differs from every page
/// number live before it, while every previously live page stays live:
/// no two live handles ever report the same physical page.
pub proof fn lemma_frame_exclusivity(
    pre: FrameAllocator,
    post: FrameAllocator,
    fresh: u64,
    held: u64,
)
    requires
        !pre.is_live(fresh),
        post.is_live(fresh),
        forall|p: u64| pre.is_live(p) ==> post.is_live(p),
        pre.is_live(held),
    ensures
        fresh != held,
        post.is_live(held),
        post.is_live(fresh),
{
}

} // verus!
