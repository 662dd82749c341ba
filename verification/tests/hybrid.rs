use kernel_heap::allocator::DynamicAllocator;
use kernel_heap::hybrid_allocator::HybridAllocator;
use kernel_heap::slub_allocator::{slub_pool_size, SLUB_POOL_COUNT};

const HEAP_START: usize = 0x8040_0000;
const HEAP_SIZE: usize = 0x80_0000;
const HEAP_END: usize = HEAP_START + HEAP_SIZE;

fn fresh() -> HybridAllocator {
    let mut h = HybridAllocator::new();
    h.init(HEAP_START, HEAP_SIZE);
    h
}

struct Lcg(u64);

impl Lcg {
    fn next(&mut self) -> u64 {
        self.0 = self.0.wrapping_mul(6364136223846793005).wrapping_add(1442695040888963407);
        self.0 >> 33
    }
}

/// The number of bytes that a request for `size` bytes gets.
fn granted(size: usize) -> usize {
    if size > 2048 {
        let mut pages = 1;
        while pages * 4096 < size {
            pages *= 2;
        }
        pages * 4096
    } else {
        let mut id = 0;
        while slub_pool_size(id) < size {
            id += 1;
        }
        slub_pool_size(id).max(16)
    }
}

/// Checks what every pool promises of its frames and lists.
fn assert_pool_rules(h: &HybridAllocator) {
    assert_pool_rules_at(h, HEAP_START)
}

/// The same for a heap whose window starts at `window`.
fn assert_pool_rules_at(h: &HybridAllocator, window: usize) {
    assert_eq!(h.back_ref().window_start(), window);
    let front = h.front_ref().unwrap();
    let mut bases = Vec::new();
    for id in 0..SLUB_POOL_COUNT {
        let pool = front.pool_at(id);
        let capacity = (pool.frame_size() - pool.block_offset()) / pool.block_size();
        assert_eq!(pool.class(), slub_pool_size(id));
        for f in pool.full_frames() {
            assert!(f.is_full());
            assert_eq!(f.in_use(), capacity);
        }
        for f in pool.partial_frames() {
            assert!(!f.is_full());
            assert!(!f.is_empty());
        }
        let all = pool.full_frames().iter().chain(pool.partial_frames().iter()).chain(pool.current_frame());
        for f in all {
            assert_eq!(f.pool(), pool.class());
            assert_eq!(f.base() % pool.frame_size(), 0);
            assert_eq!(f.in_use() + f.free_count(), capacity);
            assert_eq!(h.back_ref().live_head(f.base()), Some(f.base()));
            assert_eq!(h.live_head(f.base()), None);
            bases.push(f.base());
        }
    }
    let frames = bases.len();
    bases.sort();
    bases.dedup();
    assert_eq!(bases.len(), frames);
}

/// Every pool has let go of every frame but its current one, which is empty.
fn assert_no_frame_kept(h: &HybridAllocator) -> usize {
    let front = h.front_ref().unwrap();
    let mut current = 0;
    for id in 0..SLUB_POOL_COUNT {
        let pool = front.pool_at(id);
        assert!(pool.partial_frames().is_empty());
        assert!(pool.full_frames().is_empty());
        if let Some(f) = pool.current_frame() {
            assert!(f.is_empty());
            current += 1;
        }
    }
    current
}

#[test]
fn a_new_allocator_is_not_set_up() {
    let h = HybridAllocator::new();
    assert!(h.front_ref().is_none());
    assert_eq!(h.back_ref().size(), 0);
    assert!(h.back_ref().node_marks().is_empty());
}

#[test]
fn small_blocks_come_back_last_in_first_out() {
    let mut h = fresh();
    let a1 = h.allocate(5, 1).unwrap();
    assert!(a1 >= HEAP_START && a1 < HEAP_END);
    assert_eq!(a1 % 4, 0);
    assert_eq!(a1, 0x80bf_f040);
    let a2 = h.allocate(5, 1).unwrap();
    assert_ne!(a2, a1);
    assert_eq!(a2, 0x80bf_f050);
    assert_eq!(h.grained(5), 8);
    h.dealloc(a1);
    assert_eq!(h.allocate(5, 1), Some(a1));
}

#[test]
fn five_hundred_small_blocks() {
    let mut h = fresh();
    let post_init = h.back_ref().node_marks();
    let mut got = Vec::new();
    for _ in 0..500 {
        let p = h.allocate(8, 8).unwrap();
        assert!(p >= HEAP_START && p + 8 <= HEAP_END);
        assert_eq!(p % 8, 0);
        got.push(p);
    }
    let mut sorted = got.clone();
    sorted.sort();
    sorted.dedup();
    assert_eq!(sorted.len(), 500);
    for w in sorted.windows(2) {
        assert!(w[0] + 16 <= w[1]);
    }
    // four blocks to a frame
    let pool = h.front_ref().unwrap().pool_at(0);
    assert_eq!(pool.full_frames().len(), 124);
    for p in got {
        h.dealloc(p);
    }
    // every frame but the current one has gone back
    assert_eq!(assert_no_frame_kept(&h), 1);
    let kept = h.front_ref().unwrap().pool_at(0).current_frame().unwrap().base();
    let big = h.allocate(3000, 1).unwrap();
    assert_eq!(big % 4096, 0);
    assert_ne!(big, kept);
    assert_eq!(big, 0x80bf_f000);
    h.dealloc(big);
    // but for the page of the kept frame the tree is as new
    let mut b = h.back_ref().node_marks();
    assert_ne!(b, post_init);
    let leaf = 2048 + (kept - HEAP_START) / 4096;
    assert_eq!(b[leaf], 0);
    b[leaf] = 1;
    assert_eq!(b[2048..], post_init[2048..]);
}

#[test]
fn a_second_frame_when_the_first_is_full() {
    let mut h = fresh();
    for k in 0..4 {
        assert_eq!(h.allocate(8, 1), Some(0x80bf_f040 + 16 * k));
    }
    assert_eq!(h.allocate(8, 1), Some(0x80bf_e040));
    let pool = h.front_ref().unwrap().pool_at(0);
    assert_eq!(pool.current_frame().unwrap().base(), 0x80bf_e000);
    assert_eq!(pool.full_frames().len(), 1);
    assert_eq!(pool.full_frames()[0].base(), 0x80bf_f000);
    assert!(pool.full_frames()[0].is_full());
    assert_eq!(pool.full_frames()[0].in_use(), 4);
    assert_eq!(pool.full_frames()[0].pool(), 8);
    assert!(pool.partial_frames().is_empty());
    // the frame of a block is what the buddy allocator finds around it
    assert_eq!(h.back_ref().compound_head(0x80bf_f070), 0x80bf_f000);
    assert_eq!(h.back_ref().compound_head(0x80bf_e040), 0x80bf_e000);
}

#[test]
fn large_block_is_reused() {
    let mut h = fresh();
    let l1 = h.allocate(4096, 1).unwrap();
    let s = h.allocate(16, 1).unwrap();
    assert_eq!(l1, 0x80bf_f000);
    assert_eq!(s, 0x80bf_e040);
    h.dealloc(l1);
    assert_eq!(h.allocate(4096, 1), Some(l1));
}

#[test]
fn page_alignment() {
    let mut h = fresh();
    // pages come aligned to their size and to what is asked
    let p = h.allocate(2049, 4096).unwrap();
    assert_eq!(p % 4096, 0);
    let q = h.allocate(4096, 8192).unwrap();
    assert_eq!(q % 8192, 0);
    assert_eq!((p, q), (0x80bf_f000, 0x80bf_e000));
    // the buddy allocator serves one byte at any alignment
    let b = h.back_ref();
    assert_eq!(b.size(), HEAP_SIZE);
    let mut b = kernel_heap::buddy_allocator::BuddyAllocator::new();
    b.init(HEAP_START, HEAP_SIZE);
    assert_eq!(b.allocate(1, 4096).unwrap() % 4096, 0);
    assert_eq!(b.allocate(1, 8192).unwrap() % 8192, 0);
}

#[test]
fn no_block_of_a_small_frame_is_page_aligned() {
    let mut h = fresh();
    // whatever comes is aligned; from a frame of class 8 nothing comes
    if let Some(p) = h.allocate(8, 4096) {
        assert_eq!(p % 4096, 0);
    }
    assert_eq!(h.allocate(8, 4096), None);
    // the frame that was fetched for the request serves the next one
    assert_eq!(h.allocate(8, 64), Some(0x80bf_f040));
    assert_eq!(h.allocate(8, 32), Some(0x80bf_f060));
    assert_eq!(h.allocate(8, 16), Some(0x80bf_f050));
}

#[test]
fn every_class_lifo_and_fifo() {
    let mut h = fresh();
    let mut got = Vec::new();
    for id in 0..SLUB_POOL_COUNT {
        let size = slub_pool_size(id);
        let p = h.allocate(size, 1).unwrap();
        assert!(p >= HEAP_START && p + size <= HEAP_END);
        assert_eq!(h.grained(size), size);
        assert_eq!(h.compound_head(p + size - 1), p);
        got.push(p);
    }
    for &p in got.iter().rev() {
        h.dealloc(p);
    }
    assert_eq!(assert_no_frame_kept(&h), 15);
    let again: Vec<usize> = (0..SLUB_POOL_COUNT).map(|id| h.allocate(slub_pool_size(id), 1).unwrap()).collect();
    assert_eq!(again, got);
    for &p in again.iter() {
        h.dealloc(p);
    }
    assert_eq!(assert_no_frame_kept(&h), 15);
}

#[test]
fn compound_head_of_every_byte() {
    let mut h = fresh();
    let small = h.allocate(24, 1).unwrap();
    let odd = h.allocate(92, 1).unwrap();
    let large = h.allocate(9000, 1).unwrap();
    assert_eq!(small, 0x80bf_f000 + 72);
    assert_eq!(odd, 0x80bf_e000 + 92);
    assert_eq!(large, 0x80bf_8000);
    for q in small..small + 24 {
        assert_eq!(h.compound_head(q), small);
    }
    for q in odd..odd + 92 {
        assert_eq!(h.compound_head(q), odd);
    }
    for q in [large, large + 1, large + 8999, large + 16383] {
        assert_eq!(h.compound_head(q), large);
    }
}

#[test]
fn grained_sizes() {
    let h = fresh();
    assert_eq!(h.grained(0), 8);
    assert_eq!(h.grained(65), 92);
    assert_eq!(h.grained(93), 128);
    assert_eq!(h.grained(2048), 2048);
    assert_eq!(h.grained(2049), 4096);
    assert_eq!(h.grained(5000), 8192);
}

#[test]
fn out_of_memory_is_none() {
    let mut h = HybridAllocator::new();
    h.init(0x1_0ffc, 0x3004);
    assert_eq!(h.allocate(8192, 1), Some(0x1_2000));
    assert_eq!(h.allocate(1, 1), None);
    assert_eq!(h.allocate(3000, 1), None);
    h.dealloc(0x1_2000);
    assert_eq!(h.allocate(1, 1), Some(0x1_3040));
}

#[test]
fn stress_ten_thousand_operations() {
    let mut h = fresh();
    let mut rng = Lcg(0xdead_beef);
    let aligns = [1usize, 8, 64, 4096];
    let mut live: Vec<(usize, usize)> = Vec::new();
    let mut served = 0;
    for step in 0..10_000 {
        if rng.next() % 10 < 6 || live.is_empty() {
            let size = 1 + (rng.next() % 3000) as usize;
            let align = aligns[(rng.next() % 4) as usize];
            if let Some(p) = h.allocate(size, align) {
                let len = granted(size);
                assert!(len >= size);
                assert_eq!(p % align, 0);
                assert!(p >= HEAP_START && p + len <= HEAP_END);
                for &(q, l) in &live {
                    assert!(p + len <= q || q + l <= p);
                }
                assert_eq!(h.compound_head(p), p);
                assert_eq!(h.compound_head(p + size - 1), p);
                live.push((p, len));
                served += 1;
            }
        } else {
            let k = (rng.next() as usize) % live.len();
            let (p, _) = live.swap_remove(k);
            h.dealloc(p);
        }
        if step % 100 == 0 {
            assert_pool_rules(&h);
        }
    }
    assert!(served > 3000);
    assert_pool_rules(&h);
    for (p, _) in live {
        h.dealloc(p);
    }
    // what is left are the empty current frames of the pools
    let kept = assert_no_frame_kept(&h);
    let back = h.back_ref();
    let marks = back.node_marks();
    let taken = marks[2048 + 1..].iter().filter(|m| **m == 0).count();
    assert!(taken <= kept * 8);
}

#[test]
fn live_head_tells_blocks_from_frames() {
    let mut h = fresh();
    let small = h.allocate(24, 1).unwrap();
    let large = h.allocate(5000, 1).unwrap();
    assert_eq!((small, large), (0x80bf_f000 + 72, 0x80bf_c000));
    assert_eq!(h.live_head(small), Some(small));
    assert_eq!(h.live_head(small + 23), Some(small));
    // the next block of the frame is free, and the frame's header is no block
    assert_eq!(h.live_head(small + 24), None);
    assert_eq!(h.live_head(0x80bf_f000), None);
    assert_eq!(h.live_head(0x80bf_f000 + 71), None);
    // behind the frame's 512 bytes the page holds nothing
    assert_eq!(h.live_head(0x80bf_f000 + 512), None);
    assert_eq!(h.live_head(large + 8191), Some(large));
    assert_eq!(h.live_head(large + 8192), None);
    h.dealloc(small);
    assert_eq!(h.live_head(small), None);
    h.dealloc(large);
    assert_eq!(h.live_head(large), None);
}

#[test]
fn frames_on_a_heap_that_starts_at_an_odd_page() {
    // the window is [0x80800000, 0x81000000): a frame of eight pages lies
    // at a multiple of 32 KiB, and a block's frame is found by masking
    let mut h = HybridAllocator::new();
    h.init(0x807f_f000, 0x80_0000);
    let big = h.allocate(2048, 1).unwrap();
    assert_eq!(big, 0x80ff_0000 + 2048);
    let small = h.allocate(8, 1).unwrap();
    assert_eq!(small, 0x80ff_e040);
    let next = h.allocate(2048, 1).unwrap();
    assert_eq!(next, 0x80ff_0000 + 2 * 2048);
    assert_eq!(h.compound_head(big + 2047), big);
    assert_eq!(h.compound_head(next), next);
    assert_eq!(h.live_head(0x80ff_0000), None);
    assert_eq!(h.back_ref().compound_head(next), 0x80ff_0000);
    assert_pool_rules_at(&h, 0x8080_0000);
    h.dealloc(big);
    assert_eq!(h.allocate(1500, 1), Some(big));
    h.dealloc(big);
    h.dealloc(next);
    h.dealloc(small);
    assert_eq!(assert_no_frame_kept(&h), 2);
    // every class is served
    for id in 0..SLUB_POOL_COUNT {
        let p = h.allocate(slub_pool_size(id), 1).unwrap();
        assert_eq!(h.compound_head(p + slub_pool_size(id) - 1), p);
    }
    assert_pool_rules_at(&h, 0x8080_0000);
}

#[test]
fn first_requests_through_the_pools() {
    let mut h = fresh();
    let a = h.allocate(4096, 1).unwrap();
    assert_eq!(a, 0x80bf_f000);
    let s = h.allocate(16, 1).unwrap();
    assert_eq!(s, 0x80bf_e040);
    h.dealloc(a);
    assert_eq!(h.allocate(4096, 1), Some(a));
    assert_eq!(h.live_head(s), Some(s));
    let mut h = fresh();
    assert_eq!(h.allocate(3000, 1), Some(0x80bf_f000));
    assert_eq!(h.compound_head(0x80bf_f064), 0x80bf_f000);
}
