use kernel_core::address::PhysPageNum;
use kernel_core::address::VirtAddr;
use kernel_core::address::VirtPageNum;
use kernel_core::frame_allocator::StackFrameAllocator;
use kernel_core::memory_set::KernelLayout;
use kernel_core::memory_set::MAP_PERM_EXE;
use kernel_core::memory_set::MAP_PERM_READ;
use kernel_core::memory_set::MAP_PERM_WRITE;
use kernel_core::memory_set::MapArea;
use kernel_core::memory_set::MapPermission;
use kernel_core::memory_set::MapType;
use kernel_core::memory_set::MemorySet;
use kernel_core::page_table::PTEFlags;
use kernel_core::page_table::PTE_R;
use kernel_core::page_table::PTE_V;
use kernel_core::page_table::PTE_W;
use kernel_core::page_table::PTE_X;
use kernel_core::page_table::PageTable;

fn pool() -> StackFrameAllocator {
    let mut allocator = StackFrameAllocator::new();
    allocator.init(PhysPageNum(0x88000), PhysPageNum(0x88000 + 1000));
    allocator
}

#[test]
fn identical_area_maps_every_page() {
    let mut allocator = pool();
    let mut pt = PageTable::new(&mut allocator).unwrap();
    let mut area = MapArea::new(
        VirtAddr(0x8020_0000),
        VirtAddr(0x8020_3000),
        MapType::Identical,
        MapPermission::from_bits(MAP_PERM_READ | MAP_PERM_EXE),
    );
    assert_eq!(area.map(&mut pt, &mut allocator), Ok(()));
    for vpn in 0x80200u64..0x80203 {
        let e = pt.translate(VirtPageNum(vpn)).expect("page in range must translate");
        assert_eq!(e.ppn().0, vpn);
        assert!(e.flags().contains(PTEFlags::from_bits(PTE_R | PTE_X | PTE_V)));
        assert!(!e.flags().contains(PTEFlags::from_bits(PTE_W)));
    }
    assert!(pt.translate(VirtPageNum(0x80203)).is_none());
}

#[test]
fn framed_area_leases_distinct_frames() {
    let mut allocator = pool();
    let mut pt = PageTable::new(&mut allocator).unwrap();
    let mut area = MapArea::new(
        VirtAddr(0x1000),
        VirtAddr(0x4000),
        MapType::Framed,
        MapPermission::from_bits(MAP_PERM_READ | MAP_PERM_WRITE),
    );
    assert_eq!(area.map(&mut pt, &mut allocator), Ok(()));
    let mut seen = Vec::new();
    for vpn in 1u64..4 {
        let e = pt.translate(VirtPageNum(vpn)).unwrap();
        let p = e.ppn().0;
        assert!((0x88000..0x88000 + 1000).contains(&p));
        assert!(!seen.contains(&p), "framed pages must own distinct frames");
        seen.push(p);
    }
}

#[test]
fn framed_area_unmap_returns_frames() {
    let mut allocator = pool();
    let mut pt = PageTable::new(&mut allocator).unwrap();
    let free_before = allocator.free_frames();
    let mut area = MapArea::new(
        VirtAddr(0x1000),
        VirtAddr(0x3000),
        MapType::Framed,
        MapPermission::from_bits(MAP_PERM_READ | MAP_PERM_WRITE),
    );
    assert_eq!(area.map(&mut pt, &mut allocator), Ok(()));
    area.unmap(&mut pt, &mut allocator);
    assert!(pt.translate(VirtPageNum(1)).is_none());
    assert!(pt.translate(VirtPageNum(2)).is_none());
    // the two data frames came back; the intermediate nodes stay with the table
    let free_after = allocator.free_frames();
    assert_eq!(free_before - free_after, 2);
}

#[test]
fn area_rounds_to_page_boundaries() {
    // floor(0x1001) = 1, ceil(0x2001) = 3: pages 1 and 2
    let mut area = MapArea::new(
        VirtAddr(0x1001),
        VirtAddr(0x2001),
        MapType::Identical,
        MapPermission::from_bits(MAP_PERM_READ),
    );
    let mut allocator = pool();
    let mut pt = PageTable::new(&mut allocator).unwrap();
    assert_eq!(area.map(&mut pt, &mut allocator), Ok(()));
    assert!(pt.translate(VirtPageNum(1)).is_some());
    assert!(pt.translate(VirtPageNum(2)).is_some());
    assert!(pt.translate(VirtPageNum(0)).is_none());
    assert!(pt.translate(VirtPageNum(3)).is_none());
}

#[test]
fn map_all_area_installs_every_pushed_area() {
    let mut allocator = pool();
    let mut ms = MemorySet::new_bare(&mut allocator).unwrap();
    ms.push(
        MapArea::new(
            VirtAddr(0x5000),
            VirtAddr(0x7000),
            MapType::Identical,
            MapPermission::from_bits(MAP_PERM_READ),
        ),
        None,
    );
    ms.push(
        MapArea::new(
            VirtAddr(0x9000),
            VirtAddr(0xa000),
            MapType::Framed,
            MapPermission::from_bits(MAP_PERM_READ | MAP_PERM_WRITE),
        ),
        None,
    );
    assert_eq!(ms.map_all_area(&mut allocator), Ok(()));
    assert_eq!(ms.translate(VirtPageNum(5)).unwrap().ppn().0, 5);
    assert_eq!(ms.translate(VirtPageNum(6)).unwrap().ppn().0, 6);
    assert!(ms.translate(VirtPageNum(7)).is_none());
    assert!(ms.translate(VirtPageNum(9)).unwrap().is_valid());
}

#[test]
fn kernel_set_maps_text_readable_executable() {
    let layout = KernelLayout {
        stext: 0x8020_0000,
        etext: 0x8020_1000,
        srodata: 0x8020_1000,
        erodata: 0x8020_2000,
        sdata: 0x8020_2000,
        edata: 0x8020_3000,
        sbss_with_stack: 0x8020_3000,
        ebss: 0x8020_4000,
        ekernel: 0x8020_4000,
    };
    let mut allocator = pool();
    let ms = MemorySet::new_kernel(&layout, &mut allocator).expect("kernel set must build");
    let e = ms.translate(VirtPageNum(0x80200)).expect("text page must translate");
    assert_eq!(e.ppn().0, 0x80200);
    assert!(e.flags().contains(PTEFlags::from_bits(PTE_R | PTE_X | PTE_V)));
    assert!(!e.flags().contains(PTEFlags::from_bits(PTE_W)));
    // read-only data: readable, neither writable nor executable
    let r = ms.translate(VirtPageNum(0x80201)).unwrap();
    assert!(r.flags().contains(PTEFlags::from_bits(PTE_R | PTE_V)));
    assert!(!r.flags().contains(PTEFlags::from_bits(PTE_W)));
    assert!(!r.flags().contains(PTEFlags::from_bits(PTE_X)));
    // data: readable and writable
    let d = ms.translate(VirtPageNum(0x80202)).unwrap();
    assert!(d.flags().contains(PTEFlags::from_bits(PTE_R | PTE_W | PTE_V)));
    // remaining physical memory: identical, readable and writable
    let m = ms.translate(VirtPageNum(0x87fff)).unwrap();
    assert_eq!(m.ppn().0, 0x87fff);
    assert!(m.flags().contains(PTEFlags::from_bits(PTE_R | PTE_W | PTE_V)));
    // beyond the end of physical memory nothing is mapped
    assert!(ms.translate(VirtPageNum(0x88000)).is_none());
}

#[test]
fn memory_set_token_names_the_root() {
    let mut allocator = pool();
    let ms = MemorySet::new_bare(&mut allocator).unwrap();
    assert_eq!(ms.token(), (8u64 << 60) | 0x88000);
}
