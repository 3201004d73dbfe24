//! The virtual-memory side: address arithmetic, the frame allocator, the
//! page table, segments and address spaces, and the executable loader.

use runik::addr::{PhysAddr, PhysPageNum, VirtAddr, VirtPageNum};
use runik::addr_space::{AddrSpace, KernelLayout, MapType, Segment, MAP_PERM_R, MAP_PERM_U,
    MAP_PERM_W, MAP_PERM_X};
use runik::frame::{init, FrameAllocator, FrameHandle};
use runik::page_table::{PageTable, SATP_MODE_SV39};
use runik::kernel_stack::kernel_stack_position;

fn test_allocator() -> FrameAllocator {
    // A small pool: pages [0x80400, 0x80500).
    FrameAllocator::new(PhysPageNum(0x80400), PhysPageNum(0x80500))
}

#[test]
fn address_round_trip() {
    // Page-to-address-to-page composition never moves the page.
    for raw in [0u64, 0x1234, 0xfff, 0x1000, 0x7f_ffff_ffff] {
        let a = VirtAddr(raw);
        let once = VirtPageNum::from(a);
        let back = VirtAddr::from(once);
        let twice = VirtPageNum::from(back);
        assert_eq!(once, twice);
    }
}

#[test]
fn address_floor_ceil_offset() {
    let a = VirtAddr(0x12345);
    assert_eq!(a.floor(), VirtPageNum(0x12));
    assert_eq!(a.ceil(), VirtPageNum(0x13));
    assert_eq!(a.page_offset(), 0x345);
    assert!(!a.aligned());
    assert_eq!(VirtAddr(0x12000).ceil(), VirtPageNum(0x12));
    assert!(VirtAddr(0x12000).aligned());
    let p = PhysAddr(0x8040_0123);
    assert_eq!(p.floor(), PhysPageNum(0x80400));
    assert_eq!(p.ceil(), PhysPageNum(0x80401));
}

#[test]
fn address_truncates_high_bits() {
    // Bits beyond the addressable widths are dropped on conversion.
    assert_eq!(VirtAddr::from(0xffff_ffff_ffff_ffffu64).0, 0x7f_ffff_ffff);
    assert_eq!(VirtPageNum::from(0xffff_ffffu64).0, 0x7ff_ffff);
}

#[test]
fn vpn_indexes() {
    let vpn = VirtPageNum((1 << 18) * 3 + (1 << 9) * 5 + 7);
    assert_eq!(vpn.indexes(), (3, 5, 7));
}

#[test]
fn frame_alloc_exclusive() {
    // No two live handles ever report the same physical page.
    let mut alloc = test_allocator();
    let mut seen = Vec::new();
    let mut frames = Vec::new();
    for _ in 0..16 {
        let f = alloc.alloc_frame().unwrap();
        assert!(!seen.contains(&f.ppn().0));
        seen.push(f.ppn().0);
        frames.push(f);
    }
    for f in frames {
        assert!(alloc.release(f));
    }
}

#[test]
fn frame_reuse_last_freed() {
    let mut alloc = test_allocator();
    let a = alloc.alloc_frame().unwrap();
    let b = alloc.alloc_frame().unwrap();
    let freed = b.ppn().0;
    assert!(alloc.release(b));
    let c = alloc.alloc_frame().unwrap();
    assert_eq!(c.ppn().0, freed);
    assert!(alloc.release(a));
    assert!(alloc.release(c));
}

#[test]
fn frame_pool_exhaustion() {
    let mut alloc = FrameAllocator::new(PhysPageNum(0x80400), PhysPageNum(0x80402));
    let a = alloc.alloc_frame().unwrap();
    let b = alloc.alloc_frame().unwrap();
    assert!(alloc.alloc_frame().is_none());
    assert!(alloc.release(a));
    let c = alloc.alloc_frame().unwrap();
    assert!(alloc.alloc_frame().is_none());
    assert!(alloc.release(b));
    assert!(alloc.release(c));
}

#[test]
fn frame_release_foreign_refused() {
    // A frame of one allocator is not live in another: the release is
    // reported as the hard error it would be.
    let mut a = FrameAllocator::new(PhysPageNum(0x1000), PhysPageNum(0x1010));
    let mut b = FrameAllocator::new(PhysPageNum(0x2000), PhysPageNum(0x2010));
    let f = a.alloc_frame().unwrap();
    assert!(!b.release(f));
}

#[test]
fn frame_bytes_start_zeroed() {
    let mut alloc = test_allocator();
    let f = alloc.alloc_frame().unwrap();
    for off in [0usize, 1, 0x7ff, 0xfff] {
        assert_eq!(f.read_byte(off), 0);
    }
    let mut f: FrameHandle = f;
    f.write_byte(5, 0xab);
    assert_eq!(f.read_byte(5), 0xab);
    assert!(alloc.release(f));
}

#[test]
fn init_pool_range() {
    let alloc = init(PhysAddr(0x8040_0001));
    // The pool starts at the page ceiling of the kernel's end.
    let mut a = alloc;
    assert_eq!(a.alloc_frame().unwrap().ppn(), PhysPageNum(0x80401));
}

#[test]
fn map_translate_consistency() {
    // After map, translate returns exactly the installed entry; after
    // unmap, it returns nothing.
    let mut alloc = test_allocator();
    let mut pt = PageTable::new(&mut alloc).unwrap();
    let vpn = VirtPageNum(0x12345);
    let ppn = PhysPageNum(0x80444);
    let flags = MAP_PERM_R + MAP_PERM_W;
    assert!(pt.map(vpn, ppn, flags, &mut alloc).is_ok());
    let e = pt.translate(vpn).unwrap();
    assert_eq!(e.ppn(), ppn);
    assert_eq!(e.flags(), flags + 1); // the valid bit joins the flags
    assert!(e.is_valid());
    assert!(e.readable());
    assert!(e.writable());
    assert!(!e.executable());
    assert!(pt.unmap(vpn));
    assert!(pt.translate(vpn).is_none());
}

#[test]
fn map_rejects_remap() {
    let mut alloc = test_allocator();
    let mut pt = PageTable::new(&mut alloc).unwrap();
    let vpn = VirtPageNum(7);
    assert!(pt.map(vpn, PhysPageNum(0x80450), MAP_PERM_R, &mut alloc).is_ok());
    assert!(pt.map(vpn, PhysPageNum(0x80451), MAP_PERM_R, &mut alloc).is_err());
    // The first mapping is untouched.
    assert_eq!(pt.translate(vpn).unwrap().ppn(), PhysPageNum(0x80450));
}

#[test]
fn unmap_missing_is_reported() {
    let mut alloc = test_allocator();
    let mut pt = PageTable::new(&mut alloc).unwrap();
    assert!(!pt.unmap(VirtPageNum(42)));
}

#[test]
fn neighbour_mappings_do_not_interfere() {
    let mut alloc = test_allocator();
    let mut pt = PageTable::new(&mut alloc).unwrap();
    assert!(pt.map(VirtPageNum(10), PhysPageNum(0x80410), MAP_PERM_R, &mut alloc).is_ok());
    assert!(pt.map(VirtPageNum(11), PhysPageNum(0x80411), MAP_PERM_W, &mut alloc).is_ok());
    assert!(pt.unmap(VirtPageNum(10)));
    let e = pt.translate(VirtPageNum(11)).unwrap();
    assert_eq!(e.ppn(), PhysPageNum(0x80411));
    assert!(pt.translate(VirtPageNum(10)).is_none());
}

#[test]
fn page_table_token() {
    let mut alloc = test_allocator();
    let pt = PageTable::new(&mut alloc).unwrap();
    let token = pt.token();
    assert_eq!(token >> 60, 8);
    assert_eq!(token & 0xfff_ffff_ffff, token - SATP_MODE_SV39);
}

#[test]
fn segment_coverage() {
    // A framed segment covers every page of its range after map, none
    // after unmap.
    let mut alloc = test_allocator();
    let mut pt = PageTable::new(&mut alloc).unwrap();
    let mut seg = Segment::new(
        VirtAddr(0x10000),
        VirtAddr(0x13001),
        MapType::Framed,
        MAP_PERM_R + MAP_PERM_W,
    );
    assert_eq!(seg.get_start(), VirtPageNum(0x10));
    assert_eq!(seg.get_end(), VirtPageNum(0x14));
    assert!(seg.map(&mut pt, &mut alloc).is_ok());
    for v in 0x10u64..0x14 {
        assert!(pt.translate(VirtPageNum(v)).is_some());
    }
    seg.unmap(&mut pt, &mut alloc);
    for v in 0x10u64..0x14 {
        assert!(pt.translate(VirtPageNum(v)).is_none());
    }
}

#[test]
fn identical_segment_maps_same_ppn() {
    let mut alloc = test_allocator();
    let mut pt = PageTable::new(&mut alloc).unwrap();
    let mut seg = Segment::new(
        VirtAddr(0x8020_0000),
        VirtAddr(0x8020_2000),
        MapType::Identical,
        MAP_PERM_R + MAP_PERM_X,
    );
    assert!(seg.map(&mut pt, &mut alloc).is_ok());
    let e = pt.translate(VirtPageNum(0x80200)).unwrap();
    assert_eq!(e.ppn(), PhysPageNum(0x80200));
    assert!(e.executable());
}

#[test]
fn linear_segment_offset_and_bounds() {
    let mut alloc = test_allocator();
    let mut pt = PageTable::new(&mut alloc).unwrap();
    let mut seg = Segment::new(
        VirtAddr(0x1000),
        VirtAddr(0x2000),
        MapType::Linear(0x100),
        MAP_PERM_R,
    );
    assert!(seg.map(&mut pt, &mut alloc).is_ok());
    assert_eq!(pt.translate(VirtPageNum(1)).unwrap().ppn(), PhysPageNum(0x101));
    // An offset that leaves the physical width is refused.
    let mut pt2 = PageTable::new(&mut alloc).unwrap();
    let mut bad = Segment::new(VirtAddr(0x1000), VirtAddr(0x2000), MapType::Linear(-2), MAP_PERM_R);
    assert!(bad.map(&mut pt2, &mut alloc).is_err());
}

#[test]
fn copy_data_and_zero_out() {
    let mut alloc = test_allocator();
    let mut pt = PageTable::new(&mut alloc).unwrap();
    let mut seg = Segment::new(
        VirtAddr(0x10000),
        VirtAddr(0x12000),
        MapType::Framed,
        MAP_PERM_R + MAP_PERM_W,
    );
    assert!(seg.map(&mut pt, &mut alloc).is_ok());
    // Write across the page boundary, then clear part of it again.
    let data = [1u8, 2, 3, 4, 5, 6, 7, 8];
    seg.copy_data(VirtAddr(0x10ffc), &data);
    assert_eq!(seg.read_byte_checked(0x10ffc), Some(1));
    assert_eq!(seg.read_byte_checked(0x10fff), Some(4));
    assert_eq!(seg.read_byte_checked(0x11000), Some(5));
    assert_eq!(seg.read_byte_checked(0x11003), Some(8));
    seg.zero_out(VirtAddr(0x11000), 2);
    assert_eq!(seg.read_byte_checked(0x11000), Some(0));
    assert_eq!(seg.read_byte_checked(0x11001), Some(0));
    assert_eq!(seg.read_byte_checked(0x11002), Some(7));
}

#[test]
fn from_another_is_fresh() {
    let one = Segment::new(VirtAddr(0x5000), VirtAddr(0x7000), MapType::Framed, MAP_PERM_U);
    let two = Segment::from_another(&one);
    assert_eq!(two.get_start(), one.get_start());
    assert_eq!(two.get_end(), one.get_end());
    assert_eq!(two.read_byte_checked(0x5000), None); // no frames yet
}

#[test]
fn push_and_user_bytes() {
    let mut alloc = test_allocator();
    let mut space = AddrSpace::new_bare(&mut alloc).unwrap();
    let seg = Segment::new(
        VirtAddr(0x20000),
        VirtAddr(0x21000),
        MapType::Framed,
        MAP_PERM_R + MAP_PERM_W + MAP_PERM_U,
    );
    let payload = b"hello";
    assert!(space.push(seg, Some((VirtAddr(0x20000), payload)), &mut alloc).is_ok());
    assert_eq!(space.read_byte_at(0x20000), Some(b'h'));
    assert_eq!(space.read_byte_at(0x20004), Some(b'o'));
    assert_eq!(space.read_byte_at(0x20005), Some(0)); // fresh frame past the data
    assert_eq!(space.read_byte_at(0x30000), None); // unmapped
    assert!(space.write_byte_at(0x20001, b'a'));
    assert_eq!(space.read_byte_at(0x20001), Some(b'a'));
    assert!(!space.write_byte_at(0x30000, 1));
}

#[test]
fn push_rejects_overlap() {
    let mut alloc = test_allocator();
    let mut space = AddrSpace::new_bare(&mut alloc).unwrap();
    let a = Segment::new(VirtAddr(0x20000), VirtAddr(0x22000), MapType::Framed, MAP_PERM_U);
    assert!(space.push(a, None, &mut alloc).is_ok());
    let b = Segment::new(VirtAddr(0x21000), VirtAddr(0x23000), MapType::Framed, MAP_PERM_U);
    assert!(space.push(b, None, &mut alloc).is_err());
}

#[test]
fn remove_area_unmaps() {
    let mut alloc = test_allocator();
    let mut space = AddrSpace::new_bare(&mut alloc).unwrap();
    let seg = Segment::new(VirtAddr(0x20000), VirtAddr(0x21000), MapType::Framed, MAP_PERM_U);
    assert!(space.push(seg, None, &mut alloc).is_ok());
    assert!(space.translate(VirtPageNum(0x20)).is_some());
    space.remove_area_with_start_vpn(VirtPageNum(0x20), &mut alloc);
    assert!(space.translate(VirtPageNum(0x20)).is_none());
    // Removing an absent start page is a silent no-op.
    space.remove_area_with_start_vpn(VirtPageNum(0x99), &mut alloc);
}

#[test]
fn recycle_returns_frames() {
    let mut alloc = FrameAllocator::new(PhysPageNum(0x80400), PhysPageNum(0x80408));
    let mut space = AddrSpace::new_bare(&mut alloc).unwrap();
    let seg = Segment::new(VirtAddr(0x20000), VirtAddr(0x23000), MapType::Framed, MAP_PERM_U);
    assert!(space.push(seg, None, &mut alloc).is_ok());
    space.recycle_data_pages(&mut alloc);
    // The three data frames are back; only page-table nodes stay taken.
    let x = alloc.alloc_frame().unwrap();
    let y = alloc.alloc_frame().unwrap();
    let z = alloc.alloc_frame().unwrap();
    assert!(alloc.release(x));
    assert!(alloc.release(y));
    assert!(alloc.release(z));
}

/// A minimal 64-bit little-endian executable image: one loadable header
/// whose file bytes are `payload` and whose memory size adds `bss` zero
/// bytes, placed at `vaddr`.
fn tiny_elf(vaddr: u64, payload: &[u8], bss: u64) -> Vec<u8> {
    let mut b = vec![0u8; 120];
    b[0] = 0x7f;
    b[1] = 0x45;
    b[2] = 0x4c;
    b[3] = 0x46;
    b[4] = 2; // 64-bit
    b[32] = 64; // program-header table directly after the header
    b[54] = 56; // entry size
    b[56] = 1; // one entry
    // The entry itself, at offset 64.
    b[64] = 1; // Load
    b[68] = 6; // readable + writable
    b[72] = 120; // file bytes start after the tables
    let va = vaddr.to_le_bytes();
    b[80..88].copy_from_slice(&va);
    let fsz = (payload.len() as u64).to_le_bytes();
    b[96..104].copy_from_slice(&fsz);
    let msz = (payload.len() as u64 + bss).to_le_bytes();
    b[104..112].copy_from_slice(&msz);
    b.extend_from_slice(payload);
    b
}

#[test]
fn load_elf_bss_zero_fill() {
    // File bytes read back as written; the tail up to the memory size
    // reads back as zero.
    let image = tiny_elf(0x10000, b"ABCD", 4);
    let mut alloc = test_allocator();
    let mut space = AddrSpace::new_bare(&mut alloc).unwrap();
    let sp = space.load_elf(&image, &mut alloc).unwrap();
    assert_eq!(sp, 0x12000 - 0x10);
    for (k, c) in b"ABCD".iter().enumerate() {
        assert_eq!(space.read_byte_at(0x10000 + k as u64), Some(*c));
    }
    for k in 4u64..8 {
        assert_eq!(space.read_byte_at(0x10000 + k), Some(0));
    }
}

#[test]
fn load_elf_stack_placement() {
    let image = tiny_elf(0x10000, b"ABCD", 4);
    let mut alloc = test_allocator();
    let mut space = AddrSpace::new_bare(&mut alloc).unwrap();
    let sp = space.load_elf(&image, &mut alloc).unwrap();
    // One page above the loaded region, minus the alignment slack.
    assert_eq!(sp, 0x12000 - 0x10);
    // The stack page itself is mapped and zeroed.
    assert_eq!(space.read_byte_at(0x11000), Some(0));
    assert!(space.write_byte_at(sp - 1, 0x55));
    assert_eq!(space.read_byte_at(sp - 1), Some(0x55));
}

#[test]
fn load_elf_rejects_bad_magic() {
    let mut image = tiny_elf(0x10000, b"ABCD", 0);
    image[1] = b'X';
    let mut alloc = test_allocator();
    let mut space = AddrSpace::new_bare(&mut alloc).unwrap();
    assert!(space.load_elf(&image, &mut alloc).is_err());
}

#[test]
fn load_elf_idempotent_layout() {
    // The same image loaded into two independent spaces lands at the
    // same virtual pages with the same permissions.
    let image = tiny_elf(0x10000, b"ABCD", 4);
    let mut alloc = test_allocator();
    let mut s1 = AddrSpace::new_bare(&mut alloc).unwrap();
    let mut s2 = AddrSpace::new_bare(&mut alloc).unwrap();
    let sp1 = s1.load_elf(&image, &mut alloc).unwrap();
    let sp2 = s2.load_elf(&image, &mut alloc).unwrap();
    assert_eq!(sp1, sp2);
    for v in [0x10u64, 0x11] {
        let e1 = s1.translate(VirtPageNum(v)).unwrap();
        let e2 = s2.translate(VirtPageNum(v)).unwrap();
        assert_eq!(e1.flags(), e2.flags());
    }
    assert!(s1.translate(VirtPageNum(0x12)).is_none());
    assert!(s2.translate(VirtPageNum(0x12)).is_none());
}

#[test]
fn elf_header_parsing() {
    assert!(runik::elf::parse_elf_header(b"not an image").is_none());
    let image = tiny_elf(0x10000, b"AB", 0);
    assert_eq!(runik::elf::parse_elf_header(&image), Some(1));
    let ph = runik::elf::read_program_header(&image, 0);
    assert_eq!(ph.ph_type, 1);
    assert_eq!(ph.vaddr, 0x10000);
    assert_eq!(ph.file_size, 2);
    assert_eq!(ph.mem_size, 2);
    assert_eq!(ph.offset, 120);
    assert_eq!(ph.flags, 6);
}

#[test]
fn kernel_space_layout() {
    let layout = KernelLayout {
        stext: 0x8020_0000,
        etext: 0x8020_2000,
        srodata: 0x8020_2000,
        erodata: 0x8020_3000,
        sdata: 0x8020_3000,
        edata: 0x8020_4000,
        sbss_with_stack: 0x8020_4000,
        ebss: 0x8020_6000,
        ekernel: 0x8020_6000,
        mmio: vec![(0x1000_0000, 0x1000)],
    };
    let mut alloc = test_allocator();
    let space = AddrSpace::new_with_kernel(&layout, &mut alloc).unwrap();
    // The text pages are identity-mapped and executable.
    let e = space.translate(VirtPageNum(0x80200)).unwrap();
    assert_eq!(e.ppn(), PhysPageNum(0x80200));
    assert!(e.executable());
    assert!(!e.writable());
    // The physical window is writable, the device range mapped.
    assert!(space.translate(VirtPageNum(0x80206)).unwrap().writable());
    assert!(space.translate(VirtPageNum(0x10000)).is_some());
}

#[test]
fn kernel_stack_placement() {
    let (bottom, top) = kernel_stack_position();
    assert_eq!(top, 0x8800_0000 - 0x2000 - 0x1000);
    assert_eq!(bottom, top - 0x2000);
}

/// A two-region image: executable code low, writable data above it.
fn two_header_elf() -> Vec<u8> {
    let mut b = vec![0u8; 176];
    b[0] = 0x7f;
    b[1] = 0x45;
    b[2] = 0x4c;
    b[3] = 0x46;
    b[4] = 2;
    b[32] = 64;
    b[54] = 56;
    b[56] = 2;
    // code region: [0x10000, 0x10002), file bytes at 176
    b[64] = 1;
    b[68] = 5; // readable + executable
    b[72] = 176;
    b[80..88].copy_from_slice(&0x10000u64.to_le_bytes());
    b[96..104].copy_from_slice(&2u64.to_le_bytes());
    b[104..112].copy_from_slice(&2u64.to_le_bytes());
    // data region: [0x11000, 0x11004), file bytes at 178
    b[120] = 1;
    b[124] = 6; // readable + writable
    b[128] = 178;
    b[136..144].copy_from_slice(&0x11000u64.to_le_bytes());
    b[152..160].copy_from_slice(&2u64.to_le_bytes());
    b[160..168].copy_from_slice(&4u64.to_le_bytes());
    b.extend_from_slice(&[0xAA, 0xBB, 0xCC, 0xDD]);
    b
}

#[test]
fn load_elf_two_regions() {
    let image = two_header_elf();
    let mut alloc = test_allocator();
    let mut space = AddrSpace::new_bare(&mut alloc).unwrap();
    let sp = space.load_elf(&image, &mut alloc).unwrap();
    assert_eq!(sp, 0x13000 - 0x10);
    assert_eq!(space.read_byte_at(0x10000), Some(0xAA));
    assert_eq!(space.read_byte_at(0x10001), Some(0xBB));
    assert_eq!(space.read_byte_at(0x11000), Some(0xCC));
    assert_eq!(space.read_byte_at(0x11001), Some(0xDD));
    assert_eq!(space.read_byte_at(0x11002), Some(0)); // zero-filled tail
    assert_eq!(space.read_byte_at(0x11003), Some(0));
    let code = space.translate(VirtPageNum(0x10)).unwrap();
    assert!(code.executable() && !code.writable());
    let data = space.translate(VirtPageNum(0x11)).unwrap();
    assert!(data.writable() && !data.executable());
}

#[test]
fn load_elf_twice_into_same_space_overlaps() {
    let image = two_header_elf();
    let mut alloc = test_allocator();
    let mut space = AddrSpace::new_bare(&mut alloc).unwrap();
    assert!(space.load_elf(&image, &mut alloc).is_ok());
    assert!(space.load_elf(&image, &mut alloc).is_err());
}

#[test]
fn kernel_space_rejects_overlapping_sections() {
    // Two sections sharing a page make the identity view unbuildable.
    let layout = KernelLayout {
        stext: 0x8020_0000,
        etext: 0x8020_1800,
        srodata: 0x8020_1000, // same page as the end of .text
        erodata: 0x8020_2000,
        sdata: 0x8020_2000,
        edata: 0x8020_3000,
        sbss_with_stack: 0x8020_3000,
        ebss: 0x8020_4000,
        ekernel: 0x8020_4000,
        mmio: vec![],
    };
    let mut alloc = test_allocator();
    assert!(AddrSpace::new_with_kernel(&layout, &mut alloc).is_err());
}

#[test]
fn remove_area_returns_frames() {
    // The removed segment's frames go back to the pool and satisfy the
    // next allocations.
    let mut alloc = FrameAllocator::new(PhysPageNum(0x80400), PhysPageNum(0x80406));
    let mut space = AddrSpace::new_bare(&mut alloc).unwrap();
    let seg = Segment::new(VirtAddr(0x20000), VirtAddr(0x22000), MapType::Framed, MAP_PERM_U);
    assert!(space.push(seg, None, &mut alloc).is_ok());
    space.remove_area_with_start_vpn(VirtPageNum(0x20), &mut alloc);
    // Two data frames came back.
    let x = alloc.alloc_frame().unwrap();
    let y = alloc.alloc_frame().unwrap();
    assert!(alloc.release(x));
    assert!(alloc.release(y));
}
