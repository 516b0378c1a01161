use kernel_core::address::PhysPageNum;
use kernel_core::address::VirtPageNum;
use kernel_core::frame_allocator::StackFrameAllocator;
use kernel_core::page_table::MapError;
use kernel_core::page_table::PTEFlags;
use kernel_core::page_table::PTE_R;
use kernel_core::page_table::PTE_V;
use kernel_core::page_table::PTE_W;
use kernel_core::page_table::PTE_X;
use kernel_core::page_table::PageTable;
use kernel_core::page_table::PageTableEntry;
use kernel_core::page_table::UnmapError;

fn pool() -> StackFrameAllocator {
    let mut allocator = StackFrameAllocator::new();
    allocator.init(PhysPageNum(0x100), PhysPageNum(0x500));
    allocator
}

#[test]
fn entry_encoding_round_trip() {
    let e = PageTableEntry::new(PhysPageNum(0x80200), PTEFlags::from_bits(PTE_V | PTE_R));
    assert_eq!(e.ppn().0, 0x80200);
    assert_eq!(e.flags().bits, PTE_V | PTE_R);
    assert!(e.is_valid());
    assert_eq!(e.bits, (0x80200 << 10) | 0b11);
    let z = PageTableEntry::empty();
    assert_eq!(z.bits, 0);
    assert!(!z.is_valid());
    assert_eq!(z.ppn().0, 0);
}

#[test]
fn flag_set_operations() {
    let rw = PTEFlags::from_bits(PTE_R).union(PTEFlags::from_bits(PTE_W));
    assert_eq!(rw.bits, PTE_R | PTE_W);
    assert!(rw.contains(PTEFlags::from_bits(PTE_R)));
    assert!(!rw.contains(PTEFlags::from_bits(PTE_X)));
    assert_eq!(rw.intersect(PTEFlags::from_bits(PTE_R)).bits, PTE_R);
    assert!(PTEFlags::empty().is_empty());
    assert!(!rw.is_empty());
}

#[test]
fn map_translate_round_trip() {
    let mut allocator = pool();
    let mut pt = PageTable::new(&mut allocator).unwrap();
    let vpn = VirtPageNum(0x80200);
    let ppn = PhysPageNum(0x80200);
    let flags = PTEFlags::from_bits(PTE_R | PTE_X);
    assert_eq!(pt.map(vpn, ppn, flags, &mut allocator), Ok(()));
    let e = pt.translate(vpn).expect("a mapped page must translate");
    assert_eq!(e.ppn().0, ppn.0);
    assert!(e.is_valid());
    assert!(e.flags().contains(PTEFlags::from_bits(PTE_R | PTE_X | PTE_V)));
    assert!(!e.flags().contains(PTEFlags::from_bits(PTE_W)));
    assert_eq!(e.flags().bits, PTE_R | PTE_X | PTE_V);
}

#[test]
fn unmap_clears_mapping() {
    let mut allocator = pool();
    let mut pt = PageTable::new(&mut allocator).unwrap();
    let vpn = VirtPageNum(0x1234);
    assert_eq!(
        pt.map(vpn, PhysPageNum(0x200), PTEFlags::from_bits(PTE_R), &mut allocator),
        Ok(())
    );
    assert!(pt.translate(vpn).is_some());
    assert_eq!(pt.unmap(vpn), Ok(()));
    assert!(pt.translate(vpn).is_none());
}

#[test]
fn double_map_is_rejected() {
    let mut allocator = pool();
    let mut pt = PageTable::new(&mut allocator).unwrap();
    let vpn = VirtPageNum(0x42);
    assert_eq!(
        pt.map(vpn, PhysPageNum(0x300), PTEFlags::from_bits(PTE_R), &mut allocator),
        Ok(())
    );
    assert_eq!(
        pt.map(vpn, PhysPageNum(0x301), PTEFlags::from_bits(PTE_R), &mut allocator),
        Err(MapError::AlreadyMapped)
    );
    // the first mapping still stands
    assert_eq!(pt.translate(vpn).unwrap().ppn().0, 0x300);
}

#[test]
fn remap_after_unmap_succeeds() {
    let mut allocator = pool();
    let mut pt = PageTable::new(&mut allocator).unwrap();
    let vpn = VirtPageNum(0x42);
    assert_eq!(
        pt.map(vpn, PhysPageNum(0x300), PTEFlags::from_bits(PTE_R), &mut allocator),
        Ok(())
    );
    assert_eq!(pt.unmap(vpn), Ok(()));
    assert_eq!(
        pt.map(vpn, PhysPageNum(0x301), PTEFlags::from_bits(PTE_W), &mut allocator),
        Ok(())
    );
    assert_eq!(pt.translate(vpn).unwrap().ppn().0, 0x301);
}

#[test]
fn unmap_of_unmapped_is_rejected() {
    let mut allocator = pool();
    let mut pt = PageTable::new(&mut allocator).unwrap();
    assert_eq!(pt.unmap(VirtPageNum(0x9)), Err(UnmapError::NotMapped));
}

#[test]
fn new_fails_without_frames() {
    let mut allocator = StackFrameAllocator::new();
    assert_eq!(
        PageTable::new(&mut allocator).map(|_| ()),
        Err(MapError::FrameExhausted)
    );
}

#[test]
fn map_fails_when_frames_run_out() {
    let mut allocator = StackFrameAllocator::new();
    // room for the root only: any walk needing new nodes is refused
    allocator.init(PhysPageNum(0x100), PhysPageNum(0x101));
    let mut pt = PageTable::new(&mut allocator).unwrap();
    assert_eq!(
        pt.map(VirtPageNum(0x1), PhysPageNum(0x200), PTEFlags::from_bits(PTE_R), &mut allocator),
        Err(MapError::FrameExhausted)
    );
    assert!(pt.translate(VirtPageNum(0x1)).is_none());
}

#[test]
fn neighbouring_mappings_are_independent() {
    let mut allocator = pool();
    let mut pt = PageTable::new(&mut allocator).unwrap();
    let a = VirtPageNum(0x1000);
    let b = VirtPageNum(0x1001);
    // far page: different root slot
    let c = VirtPageNum(0x100000);
    assert_eq!(pt.map(a, PhysPageNum(0x10), PTEFlags::from_bits(PTE_R), &mut allocator), Ok(()));
    assert_eq!(pt.map(b, PhysPageNum(0x11), PTEFlags::from_bits(PTE_W), &mut allocator), Ok(()));
    assert_eq!(pt.map(c, PhysPageNum(0x12), PTEFlags::from_bits(PTE_X), &mut allocator), Ok(()));
    assert_eq!(pt.translate(a).unwrap().ppn().0, 0x10);
    assert_eq!(pt.translate(b).unwrap().ppn().0, 0x11);
    assert_eq!(pt.translate(c).unwrap().ppn().0, 0x12);
    assert_eq!(pt.unmap(b), Ok(()));
    assert!(pt.translate(b).is_none());
    assert_eq!(pt.translate(a).unwrap().ppn().0, 0x10);
    assert_eq!(pt.translate(c).unwrap().ppn().0, 0x12);
}

#[test]
fn token_encodes_mode_and_root() {
    let mut allocator = pool();
    let pt = PageTable::new(&mut allocator).unwrap();
    assert_eq!(pt.root_ppn().0, 0x100);
    assert_eq!(pt.token(), (8u64 << 60) | 0x100);
}
