use kernel_core::address::PhysAddr;
use kernel_core::address::PhysPageNum;
use kernel_core::address::VirtAddr;
use kernel_core::address::VirtPageNum;

#[test]
fn virt_round_trip_aligned() {
    let a: u64 = 0x8020_0000;
    assert_eq!(VirtAddr(a).page_num().addr().0, a);
    let b: u64 = 0;
    assert_eq!(VirtAddr(b).page_num().addr().0, b);
    let c: u64 = 0x7_FFFF_F000;
    assert_eq!(VirtAddr(c).page_num().addr().0, c);
}

#[test]
fn phys_round_trip_aligned() {
    let a: u64 = 0x8020_0000;
    assert_eq!(PhysAddr(a).page_num().addr().0, a);
    assert_eq!(PhysPageNum(0x80200).addr().page_num().0, 0x80200);
}

#[test]
fn floor_and_ceil() {
    assert_eq!(VirtAddr(0x1000).floor().0, 1);
    assert_eq!(VirtAddr(0x1001).floor().0, 1);
    assert_eq!(VirtAddr(0x1fff).floor().0, 1);
    assert_eq!(VirtAddr(0x1000).ceil().0, 1);
    assert_eq!(VirtAddr(0x1001).ceil().0, 2);
    assert_eq!(VirtAddr(0).ceil().0, 0);
    assert_eq!(PhysAddr(0x2fff).floor().0, 2);
    assert_eq!(PhysAddr(0x2001).ceil().0, 3);
}

#[test]
fn indexes_decompose_vpn() {
    // 0x80200 = 2 * 512 * 512 + 1 * 512 + 0
    let (i0, i1, i2) = VirtPageNum(0x80200).indexes();
    assert_eq!((i0, i1, i2), (2, 1, 0));
    let (j0, j1, j2) = VirtPageNum(0).indexes();
    assert_eq!((j0, j1, j2), (0, 0, 0));
    // 0x7ff_ffff is the largest 27-bit page number: all indices maximal
    let (k0, k1, k2) = VirtPageNum(0x7ff_ffff).indexes();
    assert_eq!((k0, k1, k2), (511, 511, 511));
}
