use kernel_core::address::PhysPageNum;
use kernel_core::frame_allocator::FrameDeallocError;
use kernel_core::frame_allocator::StackFrameAllocator;

#[test]
fn frame_reuse_is_lifo() {
    let mut allocator = StackFrameAllocator::new();
    allocator.init(PhysPageNum(0x100), PhysPageNum(0x200));
    let f1 = allocator.alloc_frame().unwrap();
    let f2 = allocator.alloc_frame().unwrap();
    assert_eq!(f1.0, 0x100);
    assert_eq!(f2.0, 0x101);
    assert_eq!(allocator.dealloc_frame(f1), Ok(()));
    let f3 = allocator.alloc_frame().unwrap();
    assert_eq!(f3.0, f1.0);
}

#[test]
fn lifo_order_with_two_recycled() {
    let mut allocator = StackFrameAllocator::new();
    allocator.init(PhysPageNum(10), PhysPageNum(20));
    let a = allocator.alloc_frame().unwrap();
    let b = allocator.alloc_frame().unwrap();
    assert_eq!(allocator.dealloc_frame(a), Ok(()));
    assert_eq!(allocator.dealloc_frame(b), Ok(()));
    assert_eq!(allocator.alloc_frame().unwrap().0, b.0);
    assert_eq!(allocator.alloc_frame().unwrap().0, a.0);
}

#[test]
fn exhaustion_boundary() {
    let n: u64 = 5;
    let mut allocator = StackFrameAllocator::new();
    allocator.init(PhysPageNum(0), PhysPageNum(n));
    let mut seen = Vec::new();
    for _ in 0..n {
        let f = allocator.alloc_frame().expect("allocation within the pool must succeed");
        assert!(!seen.contains(&f.0), "allocations must be pairwise distinct");
        seen.push(f.0);
    }
    assert_eq!(allocator.alloc_frame(), None);
    assert_eq!(allocator.free_frames(), 0);
}

#[test]
fn empty_pool_allocates_nothing() {
    let mut allocator = StackFrameAllocator::new();
    assert_eq!(allocator.alloc_frame(), None);
    allocator.init(PhysPageNum(7), PhysPageNum(7));
    assert_eq!(allocator.alloc_frame(), None);
}

#[test]
fn free_frames_counts_both_sources() {
    let mut allocator = StackFrameAllocator::new();
    allocator.init(PhysPageNum(0), PhysPageNum(4));
    assert_eq!(allocator.free_frames(), 4);
    let f = allocator.alloc_frame().unwrap();
    assert_eq!(allocator.free_frames(), 3);
    assert_eq!(allocator.dealloc_frame(f), Ok(()));
    assert_eq!(allocator.free_frames(), 4);
}

#[test]
fn recycle_overflow_is_reported() {
    // a pool larger than the recycle list can hold
    let mut allocator = StackFrameAllocator::new();
    allocator.init(PhysPageNum(0), PhysPageNum(1500));
    let mut frames = Vec::new();
    for _ in 0..1001 {
        frames.push(allocator.alloc_frame().unwrap());
    }
    for f in frames.iter().take(1000) {
        assert_eq!(allocator.dealloc_frame(*f), Ok(()));
    }
    assert_eq!(
        allocator.dealloc_frame(frames[1000]),
        Err(FrameDeallocError::RecycleOverflow)
    );
}
