use kernel_heap::allocator::DynamicAllocator;
use kernel_heap::buddy_allocator::BuddyAllocator;
use kernel_heap::hybrid_allocator::HybridAllocator;
use kernel_heap::mutexed_allocator::MutexedAllocator;

const HEAP_START: usize = 0x8040_0000;
const HEAP_SIZE: usize = 0x80_0000;

#[test]
fn region_fits_tells_when_a_heap_can_be_set_up() {
    assert!(BuddyAllocator::region_fits(HEAP_START, HEAP_SIZE));
    assert!(BuddyAllocator::region_fits(0x1_1000, 0x3000));
    assert!(BuddyAllocator::region_fits(0x1_0ffc, 0x3004));
    // the region must end inside the address space; its window need not
    assert!(BuddyAllocator::region_fits(usize::MAX - 0x3fff, 0x3000));
    assert!(BuddyAllocator::region_fits(usize::MAX - 0x2fff, 0x2fff));
    assert!(!BuddyAllocator::region_fits(usize::MAX - 0x2fff, 0x3000));
    assert!(BuddyAllocator::region_fits(0, 8192));
    // two leaves take four bytes, twice over, and a page: 4104 bytes
    assert!(BuddyAllocator::region_fits(0, 4104));
    assert!(!BuddyAllocator::region_fits(0, 4103));
    assert!(!BuddyAllocator::region_fits(0, 4096));
    assert!(!BuddyAllocator::region_fits(0, 0));
    assert!(!BuddyAllocator::region_fits(usize::MAX - 100, 8192));
    assert!(!BuddyAllocator::region_fits(0, usize::MAX));
}

#[test]
fn try_operations_test_what_the_plain_ones_ask() {
    let mut h = HybridAllocator::new();
    assert!(!h.ready());
    assert_eq!(h.try_allocate(8, 1), None);
    assert!(!h.try_dealloc(0x80bf_f040));
    assert!(!h.try_init(HEAP_START, 100));
    assert!(!h.ready());
    assert!(h.try_init(HEAP_START, HEAP_SIZE));
    assert!(h.ready());
    // an allocator is set up once
    assert!(!h.try_init(HEAP_START, HEAP_SIZE));
    assert!(!h.try_init(0x1_1000, 0x3000));
    assert_eq!(h.try_allocate(8, 0), None);
    assert_eq!(h.try_allocate(8, 1), Some(0x80bf_f040));
    assert_eq!(h.try_allocate(3000, 1), Some(0x80bf_e000));
    // no allocation starts inside a block, at a frame, or at a free page
    assert!(!h.try_dealloc(0x80bf_f041));
    assert!(!h.try_dealloc(0x80bf_f000));
    assert!(!h.try_dealloc(0x80bf_e008));
    assert!(!h.try_dealloc(0x80bf_d000));
    assert!(h.try_dealloc(0x80bf_f040));
    assert!(!h.try_dealloc(0x80bf_f040));
    assert!(h.try_dealloc(0x80bf_e000));
    assert!(!h.try_dealloc(0x80bf_e000));
}

#[test]
fn locked_allocator_serves_like_the_one_inside() {
    let m = MutexedAllocator::new(HybridAllocator::new());
    assert_eq!(m.allocate(8, 1), None);
    assert!(!m.dealloc(0x80bf_f040));
    assert!(!m.init(HEAP_START, 4096));
    assert!(m.init(HEAP_START, HEAP_SIZE));
    assert!(!m.init(HEAP_START, HEAP_SIZE));
    let a1 = m.allocate(5, 1).unwrap();
    let a2 = m.allocate(5, 1).unwrap();
    assert_eq!((a1, a2), (0x80bf_f040, 0x80bf_f050));
    assert_eq!(m.allocate(5, 0), None);
    assert!(m.dealloc(a1));
    assert!(!m.dealloc(a1));
    assert_eq!(m.allocate(5, 1), Some(a1));
    let big = m.allocate(4096, 4096).unwrap();
    assert_eq!(big, 0x80bf_e000);
    assert!(m.dealloc(big));
    assert!(m.dealloc(a1));
    assert!(m.dealloc(a2));
}

#[test]
fn locked_allocator_is_shared_by_reference() {
    let m = MutexedAllocator::new(HybridAllocator::new());
    assert!(m.init(HEAP_START, HEAP_SIZE));
    let (r1, r2) = (&m, &m);
    let p = r1.allocate(100, 8).unwrap();
    let q = r2.allocate(100, 8).unwrap();
    assert_ne!(p, q);
    assert_eq!(p % 8, 0);
    assert_eq!(q % 8, 0);
    assert!(r2.dealloc(p));
    assert!(r1.dealloc(q));
}

#[test]
fn a_lock_around_any_allocator() {
    let _b: MutexedAllocator<BuddyAllocator> = MutexedAllocator::new(BuddyAllocator::new());
    // an allocator goes behind the lock as it is
    let mut h = HybridAllocator::new();
    h.init(HEAP_START, HEAP_SIZE);
    assert_eq!(h.allocate(4096, 1), Some(0x80bf_f000));
    let m: MutexedAllocator<HybridAllocator> = MutexedAllocator::new(h);
    assert!(!m.init(HEAP_START, HEAP_SIZE));
    assert_eq!(m.allocate(4096, 1), Some(0x80bf_e000));
    assert!(m.dealloc(0x80bf_f000));
    assert_eq!(m.allocate(4096, 1), Some(0x80bf_f000));
}
