use kernel_heap::allocator::{next_pow_of_2, prev_pow_of_2, DynamicAllocator};
use kernel_heap::buddy_allocator::{BuddyAllocator, BUDDY_ALLOCATOR_GRANULARITY, LOG_BUDDY_ALLOCATOR_GRANULARITY};

const HEAP_START: usize = 0x8040_0000;
const HEAP_SIZE: usize = 0x80_0000;
const HEAP_END: usize = HEAP_START + HEAP_SIZE;

fn fresh() -> BuddyAllocator {
    let mut b = BuddyAllocator::new();
    b.init(HEAP_START, HEAP_SIZE);
    b
}

/// A heap that starts four bytes before a page and ends with the third page
/// after it: the footprint lies across the first two pages of the window, and
/// the last two are usable and are buddies.
fn tiny() -> BuddyAllocator {
    let mut b = BuddyAllocator::new();
    b.init(0x1_0ffc, 0x3004);
    b
}

struct Lcg(u64);

impl Lcg {
    fn next(&mut self) -> u64 {
        self.0 = self.0.wrapping_mul(6364136223846793005).wrapping_add(1442695040888963407);
        self.0 >> 33
    }
}

#[test]
fn rounding_to_powers_of_two() {
    assert_eq!(next_pow_of_2(0), 0);
    assert_eq!(next_pow_of_2(1), 1);
    assert_eq!(next_pow_of_2(2), 2);
    assert_eq!(next_pow_of_2(3), 4);
    assert_eq!(next_pow_of_2(4096), 4096);
    assert_eq!(next_pow_of_2(4097), 8192);
    assert_eq!(next_pow_of_2(0x80_0000), 0x80_0000);
    assert_eq!(prev_pow_of_2(0), 0);
    assert_eq!(prev_pow_of_2(1), 1);
    assert_eq!(prev_pow_of_2(3), 2);
    assert_eq!(prev_pow_of_2(4096), 4096);
    assert_eq!(prev_pow_of_2(8191), 4096);
    assert_eq!(prev_pow_of_2(usize::MAX), 1usize << (usize::BITS - 1));
}

#[test]
fn granularity_is_one_page() {
    assert_eq!(BUDDY_ALLOCATOR_GRANULARITY, 4096);
    assert_eq!(1usize << LOG_BUDDY_ALLOCATOR_GRANULARITY, BUDDY_ALLOCATOR_GRANULARITY);
}

#[test]
fn init_marks_a_small_tree() {
    // four leaves over [0x10000, 0x14000); the eight bytes of the footprint
    // start four bytes before the second page
    let b = tiny();
    assert_eq!(b.start(), 0x1_0ffc);
    assert_eq!(b.size(), 0x3004);
    assert_eq!(b.node_marks(), vec![0, 2, 0, 2, 0, 0, 1, 1]);
    // three whole pages from the second page of the window on: the window
    // starts at a multiple of its half, the first page of the region holds
    // the footprint, and the other two are buddies
    let mut c = BuddyAllocator::new();
    c.init(0x1_1000, 0x3000);
    assert_eq!(c.window_start(), 0x1_0000);
    assert_eq!(c.node_marks(), vec![0, 2, 0, 2, 0, 0, 1, 1]);
}

#[test]
fn init_marks_the_footprint_page_unusable() {
    let b = fresh();
    let marks = b.node_marks();
    assert_eq!(marks.len(), 4096);
    // the window is the heap: its first page holds the footprint, and every
    // other page is usable
    assert_eq!(marks[2048], 0);
    for j in 1..2048 {
        assert_eq!(marks[2048 + j], 1);
    }
    // the upper half of the heap is one free run of 2^10 pages
    assert_eq!(marks[3], 11);
    assert_eq!(marks[2], 10);
    assert_eq!(marks[1], 11);
}

#[test]
fn every_page_behind_the_footprint_is_handed_out() {
    let mut b = fresh();
    let mut got = Vec::new();
    while let Some(p) = b.allocate(4096, 1) {
        got.push(p);
    }
    assert_eq!(got.len(), 2047);
    assert_eq!(got[0], 0x80bf_f000);
    for (k, p) in got.iter().enumerate() {
        assert_eq!(*p, HEAP_END - 4096 * (k + 1));
    }
    assert_eq!(got[2046], HEAP_START + 4096);
}

#[test]
fn a_heap_that_starts_in_the_middle_of_its_size() {
    // eight MiB from the last page of the fourth MiB on: a window from the
    // multiple of 4 MiB behind the start leaves only the first page out,
    // which holds the footprint
    let mut b = BuddyAllocator::new();
    b.init(0x807f_f000, 0x80_0000);
    assert_eq!(b.window_start(), 0x8080_0000);
    assert_eq!(b.allocate(1, 1), Some(0x80ff_e000));
    assert_eq!(b.allocate(0x40_0000, 1), Some(0x8080_0000));
    assert_eq!(b.allocate(0x40_0000, 1), None);
    assert_eq!(b.allocate(0x20_0000, 1), Some(0x80c0_0000));
    assert_eq!(b.compound_head(0x80bf_ffff), 0x8080_0000);
    assert_eq!(b.live_head(0x807f_f000), None);
    assert_eq!(b.live_head(0x80ff_f000), None);
    // a window from the multiple before the start where that leaves less out
    let mut b = BuddyAllocator::new();
    b.init(0x8040_1000, 0x80_0000);
    assert_eq!(b.window_start(), 0x8040_0000);
    assert_eq!(b.allocate(1, 1), Some(0x80bf_f000));
    assert_eq!(b.allocate(0x40_0000, 1), None);
    assert_eq!(b.allocate(0x20_0000, 1), Some(0x8080_0000));
}

#[test]
fn buddy_takes_highest_free_page() {
    let mut b = fresh();
    assert_eq!(b.allocate(1, 1), Some(0x80bf_f000));
    assert_eq!(b.allocate(4096, 1), Some(0x80bf_e000));
    assert_eq!(b.allocate(4097, 1), Some(0x80bf_c000));
    assert_eq!(b.allocate(0, 1), Some(0x80bf_b000));
}

#[test]
fn buddy_rounds_the_alignment_up() {
    let mut b = fresh();
    // 3 is rounded to 4, which every page meets
    assert_eq!(b.allocate(1, 3), Some(0x80bf_f000));
    // 5000 is rounded to 8192
    assert_eq!(b.allocate(1, 5000), Some(0x80bf_e000));
}

#[test]
fn largest_block_then_nothing() {
    let mut b = tiny();
    assert_eq!(b.allocate(8192, 1), Some(0x1_2000));
    assert_eq!(b.allocate(1, 1), None);
    assert_eq!(b.allocate(4096, 4096), None);
    b.dealloc(0x1_2000);
    assert_eq!(b.node_marks(), vec![0, 2, 0, 2, 0, 0, 1, 1]);
    assert_eq!(b.allocate(1, 1), Some(0x1_3000));
}

#[test]
fn too_large_a_request_fails_and_changes_nothing() {
    let mut b = fresh();
    let before = b.node_marks();
    assert_eq!(b.allocate(HEAP_SIZE, 1), None);
    assert_eq!(b.allocate(usize::MAX, 1), None);
    assert_eq!(b.allocate(1, usize::MAX), None);
    assert_eq!(b.node_marks(), before);
    // 1025 pages are more than the largest block, the upper half of the heap
    assert_eq!(b.allocate(0x40_0001, 1), None);
    assert_eq!(b.node_marks(), before);
    assert_eq!(b.allocate(0x40_0000, 1), Some(0x8080_0000));
    assert_eq!(b.allocate(0x40_0000, 1), None);
    assert_eq!(b.allocate(0x20_0000, 1), Some(0x8060_0000));
}

#[test]
fn alignment_larger_than_size() {
    let mut b = fresh();
    let p = b.allocate(8, 4096).unwrap();
    assert_eq!(p, 0x80bf_f000);
    let q = b.allocate(1, 8192).unwrap();
    assert_eq!(q % 8192, 0);
    assert_eq!(q, 0x80bf_e000);
    let r = b.allocate(1, 0x10_0000).unwrap();
    assert_eq!(r % 0x10_0000, 0);
    assert_eq!(r, 0x80b0_0000);
}

#[test]
fn buddy_merges_and_splits() {
    let mut b = fresh();
    let post_init = b.node_marks();
    let a1 = b.allocate(4096, 1).unwrap();
    let a2 = b.allocate(4096, 1).unwrap();
    assert_eq!((a1, a2), (0x80bf_f000, 0x80bf_e000));
    b.dealloc(a1);
    b.dealloc(a2);
    assert_eq!(b.node_marks(), post_init);
    // the two pages are one block again
    assert_eq!(b.allocate(8192, 1), Some(0x80bf_e000));
}

#[test]
fn compound_head_of_buddy_blocks() {
    let mut b = fresh();
    let p = b.allocate(3 * 4096, 1).unwrap();
    assert_eq!(p, 0x80bf_c000);
    for q in [p, p + 1, p + 4096, p + 4 * 4096 - 1] {
        assert_eq!(b.compound_head(q), p);
    }
    let s = b.allocate(1, 1).unwrap();
    assert_eq!(b.compound_head(s + 4095), s);
    // dealloc finds the block from any page of it
    b.dealloc(p + 2 * 4096);
    assert_eq!(b.allocate(4 * 4096, 1), Some(p));
}

#[test]
fn buddy_grained_is_next_power_of_two() {
    let b = fresh();
    assert_eq!(b.grained(0), 0);
    assert_eq!(b.grained(128), 128);
    assert_eq!(b.grained(3000), 4096);
    assert_eq!(DynamicAllocator::grained(&b, 4097), 8192);
}

#[test]
fn buddy_through_the_trait() {
    fn run<A: DynamicAllocator>(a: &mut A) -> (usize, usize) {
        let p = a.allocate(5000, 64).unwrap();
        let head = a.compound_head(p + 4500);
        a.dealloc(p);
        (p, head)
    }
    let mut b = fresh();
    let before = b.node_marks();
    assert_eq!(run(&mut b), (0x80bf_e000, 0x80bf_e000));
    assert_eq!(b.node_marks(), before);
}

#[test]
fn buddy_round_trip_in_any_order() {
    let mut b = fresh();
    let post_init = b.node_marks();
    let sizes = [1usize, 4096, 5000, 70000, 8192, 12288, 4096, 300000, 1];
    let mut got = Vec::new();
    for s in sizes {
        got.push(b.allocate(s, 1).unwrap());
    }
    for i in [3usize, 0, 8, 5, 1, 7, 2, 6, 4] {
        b.dealloc(got[i]);
    }
    assert_eq!(b.node_marks(), post_init);
}

#[test]
fn buddy_stress_no_overlap() {
    let mut b = fresh();
    let post_init = b.node_marks();
    let mut rng = Lcg(0x1234_5678);
    let mut live: Vec<(usize, usize)> = Vec::new();
    let aligns = [1usize, 8, 64, 4096];
    for _ in 0..3000 {
        let r = rng.next();
        if r % 10 < 6 || live.is_empty() {
            let size = 1 + (rng.next() % 20000) as usize;
            let align = aligns[(rng.next() % 4) as usize];
            if let Some(p) = b.allocate(size, align) {
                let len = next_pow_of_2((size + 4095) / 4096) * 4096;
                assert_eq!(p % align, 0);
                assert_eq!(p % len, 0);
                assert!(p >= HEAP_START + 4096 && p + len <= HEAP_END);
                for &(q, l) in &live {
                    assert!(p + len <= q || q + l <= p);
                }
                assert_eq!(b.compound_head(p + size - 1), p);
                live.push((p, len));
            }
        } else {
            let k = (rng.next() as usize) % live.len();
            let (p, _) = live.swap_remove(k);
            b.dealloc(p);
        }
    }
    for (p, _) in live {
        b.dealloc(p);
    }
    assert_eq!(b.node_marks(), post_init);
}

#[test]
fn live_head_of_buddy_blocks() {
    let mut b = fresh();
    assert_eq!(b.live_head(0x80bf_f000), None);
    let p = b.allocate(8192, 1).unwrap();
    assert_eq!(p, 0x80bf_e000);
    assert_eq!(b.live_head(p), Some(p));
    assert_eq!(b.live_head(p + 8191), Some(p));
    assert_eq!(b.live_head(p + 8192), None);
    assert_eq!(b.live_head(p - 1), None);
    // below the region, behind its end, and on the footprint page
    assert_eq!(b.live_head(0), None);
    assert_eq!(b.live_head(usize::MAX), None);
    assert_eq!(b.live_head(0x8000_0000), None);
    assert_eq!(b.live_head(HEAP_START), None);
    let q = b.allocate(1, 1).unwrap();
    assert_eq!(b.live_head(q + 100), Some(q));
    b.dealloc(p);
    assert_eq!(b.live_head(p), None);
    assert_eq!(b.live_head(q), Some(q));
}

/// Checks the rule of every mark of the tree over the 8 MiB heap.
fn assert_tree_rules(marks: &[u8]) {
    let leaves = marks.len() / 2;
    assert_eq!(leaves, 2048);
    assert_eq!(marks[0], 0);
    for j in 0..leaves {
        let addr = HEAP_START + j * 4096;
        let usable = addr >= HEAP_START + 4096 && addr + 4096 <= HEAP_END;
        assert!(marks[leaves + j] <= 1);
        if !usable {
            assert_eq!(marks[leaves + j], 0);
        }
    }
    for i in (1..leaves).rev() {
        let level = (leaves.trailing_zeros() - (usize::BITS - 1 - i.leading_zeros())) as u8;
        let (l, r) = (marks[2 * i], marks[2 * i + 1]);
        let combined = if l == level && r == level { level + 1 } else { l.max(r) };
        let handed_out = marks[i] == 0 && l == level && r == level;
        assert!(marks[i] == combined || handed_out);
    }
}

#[test]
fn tree_rules_hold_after_every_operation() {
    let mut b = fresh();
    assert_tree_rules(&b.node_marks());
    let mut rng = Lcg(77);
    let mut live = Vec::new();
    for _ in 0..300 {
        if rng.next() % 3 != 0 || live.is_empty() {
            let size = 1 + (rng.next() % 40000) as usize;
            if let Some(p) = b.allocate(size, 1) {
                live.push(p);
            }
        } else {
            let k = (rng.next() as usize) % live.len();
            b.dealloc(live.swap_remove(k));
        }
        assert_tree_rules(&b.node_marks());
    }
}

#[test]
fn default_is_not_set_up() {
    let b = BuddyAllocator::default();
    assert_eq!(b.size(), 0);
    assert_eq!(b.start(), 0);
    assert!(b.node_marks().is_empty());
    let n = BuddyAllocator::new();
    assert_eq!(n.size(), 0);
    assert!(n.node_marks().is_empty());
}

#[test]
fn a_heap_at_the_end_of_the_address_space() {
    // three pages less one byte: the window of four pages starts a page
    // before them and ends with the address space; only the second page of
    // the heap is usable
    let start = usize::MAX - 0x2fff;
    let mut b = BuddyAllocator::new();
    b.init(start, 0x2fff);
    assert_eq!(b.window_start(), start - 0x1000);
    assert_eq!(b.node_marks(), vec![0, 1, 0, 1, 0, 0, 1, 0]);
    assert_eq!(b.live_head(usize::MAX), None);
    assert_eq!(b.allocate(8192, 1), None);
    assert_eq!(b.allocate(1, 8192), Some(start + 0x1000));
    assert_eq!(b.allocate(1, 1), None);
    assert_eq!(b.compound_head(start + 0x1fff), start + 0x1000);
    assert_eq!(b.live_head(start + 0x2000), None);
    b.dealloc(start + 0x1000);
    assert_eq!(b.node_marks(), vec![0, 1, 0, 1, 0, 0, 1, 0]);
}

#[test]
fn blocks_lie_at_multiples_of_their_size() {
    // sixteen pages from the second page on: the window is [0, 0x10000)
    let mut b = BuddyAllocator::new();
    b.init(0x1000, 0x1_0000);
    assert_eq!(b.window_start(), 0);
    assert_eq!(b.allocate(8192, 1), Some(0xe000));
    assert_eq!(b.allocate(4096, 1), Some(0xd000));
    assert_eq!(b.allocate(0x4000, 1), Some(0x8000));
    assert_eq!(b.allocate(0x4000, 1), Some(0x4000));
    assert_eq!(b.allocate(0x4000, 1), None);
    assert_eq!(b.allocate(8192, 1), Some(0x2000));
    assert_eq!(b.allocate(4096, 1), Some(0xc000));
    assert_eq!(b.allocate(4096, 1), None);
    // on any heap, whatever comes is a multiple of its size
    let mut rng = Lcg(5);
    for start in [0x1000usize, 0x3000, 0x7_f000, 0x12_3456, 0x8040_0000, 0x807f_f000] {
        let mut b = BuddyAllocator::new();
        b.init(start, 0x10_0000);
        let mut served = 0;
        for _ in 0..200 {
            let size = 1 + (rng.next() % 0x2_0000) as usize;
            if let Some(p) = b.allocate(size, 1) {
                let len = next_pow_of_2((size + 4095) / 4096) * 4096;
                assert_eq!(p % len, 0);
                assert!(p >= start && p + len <= start + 0x10_0000);
                served += 1;
            }
        }
        assert!(served > 0);
    }
}

#[test]
fn first_requests_on_the_fresh_heap() {
    // one page, then two: the pair beside the page is half used
    let mut b = fresh();
    assert_eq!(b.allocate(4096, 1), Some(0x80bf_f000));
    assert_eq!(b.allocate(8192, 1), Some(0x80bf_c000));
    // a page at a multiple of 8192: the last page is passed over
    let mut b = fresh();
    assert_eq!(b.allocate(4096, 8192), Some(0x80bf_e000));
    // no bytes take a page
    let mut b = fresh();
    assert_eq!(b.allocate(0, 1), Some(0x80bf_f000));
    assert_eq!(b.allocate(4096, 1), Some(0x80bf_e000));
    // the head of an address in the second page of two
    let mut b = fresh();
    assert_eq!(b.allocate(8192, 1), Some(0x80bf_e000));
    assert_eq!(b.compound_head(0x80bf_f123), 0x80bf_e000);
    // the largest block, after a request that is one page too large
    let mut b = fresh();
    assert_eq!(b.allocate(0x40_0001, 1), None);
    assert_eq!(b.allocate(0x40_0000, 1), Some(0x8080_0000));
    assert_eq!(b.allocate(0x40_0000, 1), None);
}

#[test]
fn root_mark_tells_the_largest_free_block() {
    // the upper half of the heap is free as a whole: 1024 pages, level 10
    let mut b = fresh();
    assert_eq!(b.node_marks()[1], 11);
    assert_eq!(b.allocate(0x40_0000, 1), Some(0x8080_0000));
    // the lower half holds the footprint: its largest free block has 2 MiB
    assert_eq!(b.node_marks()[1], 10);
    assert_eq!(b.allocate(0x20_0001, 1), None);
    assert_eq!(b.allocate(0x20_0000, 1), Some(0x8060_0000));
    assert_eq!(b.node_marks()[1], 9);
    // a block that holds every free page leaves the root at 0
    let mut t = tiny();
    assert_eq!(t.node_marks()[1], 2);
    assert_eq!(t.allocate(8192, 1), Some(0x1_2000));
    assert_eq!(t.node_marks()[1], 0);
    for size in [0usize, 1, 4096, 8192, 0x1_0000] {
        for align in [1usize, 8, 4096, 8192] {
            assert_eq!(t.allocate(size, align), None);
        }
    }
    assert_eq!(t.node_marks(), vec![0, 0, 0, 0, 0, 0, 1, 1]);
}

#[test]
fn marks_on_the_way_up_are_recombined() {
    let mut t = tiny();
    assert_eq!(t.node_marks(), vec![0, 2, 0, 2, 0, 0, 1, 1]);
    assert_eq!(t.allocate(1, 1), Some(0x1_3000));
    assert_eq!(t.node_marks(), vec![0, 1, 0, 1, 0, 0, 1, 0]);
    assert_eq!(t.allocate(1, 1), Some(0x1_2000));
    assert_eq!(t.node_marks(), vec![0, 0, 0, 0, 0, 0, 0, 0]);
    // the page that comes back is marked free; its buddy is not, so the
    // nodes above take the greater mark
    t.dealloc(0x1_3000);
    assert_eq!(t.node_marks(), vec![0, 1, 0, 1, 0, 0, 0, 1]);
    // both buddies are free: they merge, and the root takes the merged mark
    t.dealloc(0x1_2000);
    assert_eq!(t.node_marks(), vec![0, 2, 0, 2, 0, 0, 1, 1]);
}

#[test]
fn what_the_window_leaves_out() {
    // the heap starts 1 MiB behind a multiple of 4 MiB: the window starts
    // at that multiple and ends 1 MiB before the heap does
    let mut b = BuddyAllocator::new();
    b.init(0x8050_0000, 0x80_0000);
    assert_eq!(b.window_start(), 0x8040_0000);
    let mut got = Vec::new();
    while let Some(p) = b.allocate(4096, 1) {
        got.push(p);
    }
    assert_eq!(got.len(), 0x6ff);
    assert_eq!(got[0], 0x80bf_f000);
    assert_eq!(got[0x6fe], 0x8050_1000);
    // the heap starts 1 MiB before a multiple of 4 MiB: the window starts
    // at that multiple and ends 3 MiB behind the heap
    let mut b = BuddyAllocator::new();
    b.init(0x8070_0000, 0x80_0000);
    assert_eq!(b.window_start(), 0x8080_0000);
    let mut got = Vec::new();
    while let Some(p) = b.allocate(4096, 1) {
        got.push(p);
    }
    assert_eq!(got.len(), 0x700);
    assert_eq!(got[0], 0x80ef_f000);
    assert_eq!(got[0x6ff], 0x8080_0000);
    // a heap that starts at a multiple of 4 MiB is covered whole
    let mut b = fresh();
    let mut n: usize = 0;
    while b.allocate(4096, 1).is_some() {
        n += 1;
    }
    assert_eq!(n, (HEAP_SIZE - 4096) / 4096);
}
