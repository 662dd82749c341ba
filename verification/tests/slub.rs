use kernel_heap::allocator::DynamicAllocator;
use kernel_heap::buddy_allocator::BuddyAllocator;
use kernel_heap::slub_allocator::{slub_pool_size, SlubAllocator, SLUB_POOL_COUNT};
use kernel_heap::slub_frame::SlubFrame;
use kernel_heap::slub_pool::{SlubPool, BLOCK_LINK_SIZE, FRAME_HEADER_SIZE};

const HEAP_START: usize = 0x8040_0000;
const HEAP_SIZE: usize = 0x80_0000;

fn fresh_buddy() -> BuddyAllocator {
    let mut b = BuddyAllocator::new();
    b.init(HEAP_START, HEAP_SIZE);
    b
}

fn bases(list: &Vec<SlubFrame>) -> Vec<usize> {
    list.iter().map(|f| f.base()).collect()
}

#[test]
fn the_fifteen_classes() {
    let want = [8usize, 16, 24, 32, 48, 64, 92, 128, 192, 256, 384, 512, 768, 1024, 2048];
    assert_eq!(SLUB_POOL_COUNT, 15);
    for (i, w) in want.iter().enumerate() {
        assert_eq!(slub_pool_size(i), *w);
    }
    assert_eq!(SlubAllocator::max_size(), 2048);
}

#[test]
fn pool_id_is_the_smallest_class_that_holds() {
    let b = fresh_buddy();
    let s = SlubAllocator::new(&b);
    assert_eq!(s.pool_id_from_size(0), 0);
    assert_eq!(s.pool_id_from_size(8), 0);
    assert_eq!(s.pool_id_from_size(9), 1);
    assert_eq!(s.pool_id_from_size(65), 6);
    assert_eq!(s.pool_id_from_size(92), 6);
    assert_eq!(s.pool_id_from_size(93), 7);
    assert_eq!(s.pool_id_from_size(1025), 14);
    assert_eq!(s.pool_id_from_size(2048), 14);
}

#[test]
fn align_rounds_up_to_a_multiple() {
    assert_eq!(SlubPool::align(64, 16), 64);
    assert_eq!(SlubPool::align(64, 24), 72);
    assert_eq!(SlubPool::align(65, 24), 72);
    assert_eq!(SlubPool::align(72, 24), 72);
    assert_eq!(SlubPool::align(64, 92), 92);
    assert_eq!(SlubPool::align(64, 2048), 2048);
    assert_eq!(SlubPool::align(0, 7), 0);
    assert_eq!(SlubPool::align(1, 7), 7);
    assert_eq!(SlubPool::align(5, 1), 5);
}

#[test]
fn pool_layouts() {
    assert_eq!(FRAME_HEADER_SIZE, 64);
    assert_eq!(BLOCK_LINK_SIZE, 16);
    let b = fresh_buddy();
    // (class, frame size, block size, offset)
    let want = [
        (8usize, 128usize, 16usize, 64usize),
        (16, 256, 16, 64),
        (24, 512, 24, 72),
        (32, 512, 32, 64),
        (48, 1024, 48, 96),
        (64, 1024, 64, 64),
        (92, 2048, 92, 92),
        (128, 2048, 128, 128),
        (192, 4096, 192, 192),
        (256, 4096, 256, 256),
        (384, 8192, 384, 384),
        (512, 8192, 512, 512),
        (768, 16384, 768, 768),
        (1024, 16384, 1024, 1024),
        (2048, 32768, 2048, 2048),
    ];
    for (class, frame, blk, off) in want {
        let p = SlubPool::new(&b, class);
        assert_eq!(p.class(), class);
        assert_eq!(p.frame_size(), frame);
        assert_eq!(p.block_size(), blk);
        assert_eq!(p.block_offset(), off);
        assert!(p.current_frame().is_none());
        assert!(p.partial_frames().is_empty());
        assert!(p.full_frames().is_empty());
    }
}

#[test]
fn frame_init_threads_every_block() {
    let mut f = SlubFrame::init(24, 0x1000, 512, 24, 72);
    assert_eq!(f.base(), 0x1000);
    assert_eq!(f.pool(), 24);
    assert!(f.is_empty());
    assert!(!f.is_full());
    assert_eq!(f.in_use(), 0);
    // 72 + 24 * k + 24 <= 512 for k < 18
    assert_eq!(f.free_count(), 18);
    for k in 0..18 {
        assert_eq!(f.allocate(1), Some(0x1000 + 72 + 24 * k));
    }
    assert!(f.is_full());
    assert_eq!(f.in_use(), 18);
}

#[test]
fn frame_scans_for_an_aligned_block() {
    let mut f = SlubFrame::init(16, 0x2000, 256, 16, 64);
    assert_eq!(f.free_count(), 12);
    // the first block at a multiple of 128 is the fifth
    assert_eq!(f.allocate(128), Some(0x2000 + 128));
    assert_eq!(f.allocate(1), Some(0x2000 + 64));
    assert_eq!(f.allocate(32), Some(0x2000 + 96));
    assert_eq!(f.allocate(128), None);
    assert_eq!(f.in_use(), 3);
    assert_eq!(f.free_count(), 9);
    // no block of the frame is at a multiple of 4096
    assert_eq!(f.allocate(4096), None);
    assert_eq!(f.in_use(), 3);
}

#[test]
fn frame_free_list_is_last_in_first_out() {
    let mut f = SlubFrame::init(16, 0x2000, 256, 16, 64);
    let a = f.allocate(1).unwrap();
    let b = f.allocate(1).unwrap();
    let c = f.allocate(1).unwrap();
    assert_eq!((a, b, c), (0x2040, 0x2050, 0x2060));
    f.dealloc(a);
    f.dealloc(c);
    assert_eq!(f.in_use(), 1);
    assert_eq!(f.allocate(1), Some(c));
    assert_eq!(f.allocate(1), Some(a));
    assert_eq!(f.allocate(1), Some(0x2070));
    f.dealloc(b);
    f.dealloc(a);
    f.dealloc(c);
    f.dealloc(0x2070);
    assert!(f.is_empty());
}

#[test]
fn pool_compound_head_is_the_block_start() {
    let b = fresh_buddy();
    let p = SlubPool::new(&b, 8);
    assert_eq!(p.compound_head(0x1000, 0x1000 + 64), 0x1000 + 64);
    assert_eq!(p.compound_head(0x1000, 0x1000 + 64 + 15), 0x1000 + 64);
    assert_eq!(p.compound_head(0x1000, 0x1000 + 64 + 17), 0x1000 + 80);
    let q = SlubPool::new(&b, 92);
    assert_eq!(q.compound_head(0x8000, 0x8000 + 92 + 92 * 3 + 91), 0x8000 + 92 + 92 * 3);
    assert_eq!(q.compound_head(0x8000, 0x8000 + 92 + 92 * 4), 0x8000 + 92 + 92 * 4);
}

#[test]
fn pool_moves_frames_between_its_lists() {
    let mut b = fresh_buddy();
    let mut p = SlubPool::new(&b, 8);
    // the first frame is the highest free page; it has four blocks
    let first: Vec<usize> = (0..4).map(|_| p.allocate(&mut b, 1).unwrap()).collect();
    assert_eq!(first, vec![0x80bf_f040, 0x80bf_f050, 0x80bf_f060, 0x80bf_f070]);
    assert_eq!(p.current_frame().unwrap().base(), 0x80bf_f000);
    assert!(p.current_frame().unwrap().is_full());
    assert!(p.full_frames().is_empty());
    assert!(p.owns_frame(0x80bf_f000));
    assert!(!p.owns_frame(0x80bf_e000));
    // the fifth block needs a second frame; the first goes to the full list
    assert_eq!(p.allocate(&mut b, 1), Some(0x80bf_e040));
    assert_eq!(p.current_frame().unwrap().base(), 0x80bf_e000);
    assert_eq!(p.current_frame().unwrap().in_use(), 1);
    assert_eq!(bases(p.full_frames()), vec![0x80bf_f000]);
    assert!(p.partial_frames().is_empty());
    // a block of the full frame comes back: the frame is partial
    p.dealloc(&mut b, first[2]);
    assert!(p.full_frames().is_empty());
    assert_eq!(bases(p.partial_frames()), vec![0x80bf_f000]);
    assert_eq!(p.partial_frames()[0].in_use(), 3);
    // the rest comes back: the frame leaves the pool and its page is free
    p.dealloc(&mut b, first[0]);
    p.dealloc(&mut b, first[3]);
    assert_eq!(bases(p.partial_frames()), vec![0x80bf_f000]);
    p.dealloc(&mut b, first[1]);
    assert!(p.partial_frames().is_empty());
    assert!(!p.owns_frame(0x80bf_f000));
    assert_eq!(b.allocate(4096, 1), Some(0x80bf_f000));
    // the current frame stays even when it is empty
    p.dealloc(&mut b, 0x80bf_e040);
    assert_eq!(p.current_frame().unwrap().base(), 0x80bf_e000);
    assert!(p.current_frame().unwrap().is_empty());
}

#[test]
fn pool_promotes_the_head_of_the_partial_list() {
    let mut b = fresh_buddy();
    let mut p = SlubPool::new(&b, 8);
    let got: Vec<usize> = (0..12).map(|_| p.allocate(&mut b, 1).unwrap()).collect();
    // three frames: two full, the third current and full too
    assert_eq!(bases(p.full_frames()), vec![0x80bf_f000, 0x80bf_e000]);
    assert_eq!(p.current_frame().unwrap().base(), 0x80bf_d000);
    // one block of each full frame back: both are partial, the later at the head
    p.dealloc(&mut b, got[0]);
    p.dealloc(&mut b, got[4]);
    assert_eq!(bases(p.partial_frames()), vec![0x80bf_f000, 0x80bf_e000]);
    assert!(p.full_frames().is_empty());
    // the current frame is full: it is put away, and the head of the
    // partial list serves
    assert_eq!(p.allocate(&mut b, 1), Some(got[4]));
    assert_eq!(p.current_frame().unwrap().base(), 0x80bf_e000);
    assert_eq!(bases(p.partial_frames()), vec![0x80bf_f000]);
    assert_eq!(bases(p.full_frames()), vec![0x80bf_d000]);
}

#[test]
fn pool_fails_when_the_back_allocator_has_no_page() {
    let mut b = BuddyAllocator::new();
    b.init(0x1_0ffc, 0x3004);
    assert_eq!(b.allocate(8192, 1), Some(0x1_2000));
    let mut p = SlubPool::new(&b, 64);
    assert_eq!(p.allocate(&mut b, 1), None);
    assert!(p.current_frame().is_none());
    b.dealloc(0x1_2000);
    assert_eq!(p.allocate(&mut b, 1), Some(0x1_3000 + 64));
}

#[test]
fn slub_routes_by_size() {
    let mut b = fresh_buddy();
    let mut s = SlubAllocator::new(&b);
    // above 2048 the buddy allocator serves
    assert_eq!(s.allocate(&mut b, 2049, 1), Some(0x80bf_f000));
    // class 2048: a frame of 32 KiB, the first block behind 2048 bytes
    assert_eq!(s.allocate(&mut b, 2048, 1), Some(0x80bf_0000 + 2048));
    assert_eq!(s.pool_at(14).current_frame().unwrap().base(), 0x80bf_0000);
    // class 8
    assert_eq!(s.allocate(&mut b, 1, 1), Some(0x80bf_e040));
    assert_eq!(s.grained(&b, 1), 8);
    assert_eq!(s.grained(&b, 100), 128);
    assert_eq!(s.grained(&b, 2048), 2048);
    assert_eq!(s.grained(&b, 2049), 4096);
    assert_eq!(s.compound_head(&b, 0x80bf_f000 + 77), 0x80bf_f000);
    assert_eq!(s.compound_head(&b, 0x80bf_0000 + 2048 + 2047), 0x80bf_0000 + 2048);
    assert_eq!(s.compound_head(&b, 0x80bf_e04f), 0x80bf_e040);
    s.dealloc(&mut b, 0x80bf_f000);
    s.dealloc(&mut b, 0x80bf_e040);
    s.dealloc(&mut b, 0x80bf_0000 + 2048);
    assert_eq!(DynamicAllocator::compound_head(&b, 0x80bf_e000), 0x80bf_e000);
}

#[test]
fn block_head_of_a_frame() {
    let mut f = SlubFrame::init(16, 0x2000, 256, 16, 64);
    assert_eq!(f.block_head(256, 16, 64, 0x2040), None);
    assert_eq!(f.allocate(1), Some(0x2040));
    assert_eq!(f.allocate(1), Some(0x2050));
    f.dealloc(0x2040);
    assert_eq!(f.block_head(256, 16, 64, 0x2040), None);
    assert_eq!(f.block_head(256, 16, 64, 0x2050), Some(0x2050));
    assert_eq!(f.block_head(256, 16, 64, 0x205f), Some(0x2050));
    assert_eq!(f.block_head(256, 16, 64, 0x2060), None);
    assert_eq!(f.block_head(256, 16, 64, 0x2000), None);
    assert_eq!(f.block_head(256, 16, 64, 0x2100), None);
    assert_eq!(f.block_head(256, 16, 64, 0x1fff), None);
}

#[test]
fn frames_too_small_for_two_blocks() {
    // no room behind the header
    let f = SlubFrame::init(8, 0x1000, 64, 16, 64);
    assert_eq!(f.free_count(), 0);
    assert!(f.is_full());
    assert!(f.is_empty());
    // room for less than a block
    let f = SlubFrame::init(8, 0x1000, 79, 16, 64);
    assert_eq!(f.free_count(), 0);
    // room for one block
    let mut f = SlubFrame::init(8, 0x1000, 80, 16, 64);
    assert_eq!(f.free_count(), 1);
    assert_eq!(f.allocate(1), Some(0x1040));
    assert!(f.is_full());
    // a block larger than the frame
    let f = SlubFrame::init(8, 0x1000, 32, 64, 0);
    assert_eq!(f.free_count(), 0);
}
