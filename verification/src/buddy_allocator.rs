//! The buddy allocator: hands out runs of `2^k` pages of a heap region and
//! keeps the free runs in an implicit binary tree of one byte per node.

use vstd::prelude::*;
use crate::allocator::{DynamicAllocator, next_pow_of_2};
use crate::math::{
    exp2, is_pow2, next_pow2, order, lemma_exp2_pos, lemma_exp2_mono, lemma_exp2_12,
    lemma_exp2_add, lemma_next_pow2_bounds, lemma_order_fits, lemma_usize_limit,
    lemma_next_pow2_fixed, lemma_next_pow2_least, lemma_pages_pow2, lemma_pow2_above_half,
    lemma_pow2_divides, lemma_mod_trans,
};
use crate::tree::{
    Region, is_anc, lemma_is_anc_le, lemma_is_anc_parent, lemma_is_anc_proper, lemma_is_anc_chain,
    lemma_root_anc,
};
use crate::blocks::{
    live_map, node_at, lemma_holds_unique, lemma_live_map_has, lemma_live_map_node,
    lemma_live_map_insert, lemma_live_map_remove, lemma_live_map_apart, lemma_free_in_region,
    lemma_marked_in_region, lemma_root_busy, lemma_same_tree,
};
use crate::marks::{
    mark, combine, settled, allocated, mark_ok, tree_wf, open_path, node_free, walk_inv, updated,
    lemma_full_below, lemma_leaf_under, lemma_mark_ok_frame, lemma_walk_start, lemma_walk_step,
    lemma_walk_end, lemma_alloc_live, lemma_dealloc_live, lemma_new_mark_ok, lemma_mark_rises,
    lemma_mark_witness,
};
use crate::search::{
    candidate, best_under, pages_free, page_free, leftmost, lemma_leftmost, lemma_free_below,
    lemma_search_closed, lemma_search_leaf, lemma_search_inner, lemma_free_iff_pages_free,
};

verus! {

/// The base-2 logarithm of the size of a page.
pub const LOG_BUDDY_ALLOCATOR_GRANULARITY: usize = 12;

/// The size of a page, the smallest block that the allocator hands out.
pub const BUDDY_ALLOCATOR_GRANULARITY: usize = 4096;

/// A buddy allocator over one heap region.  The tree of marks lives beside
/// the region, not in it; the pages that it would take up at the start of
/// the region are kept out of use all the same.
pub struct BuddyAllocator {
    nodes: Vec<u8>,
    leaf_num: usize,
    addr_high: usize,
    rounded_size: usize,
    start: usize,
    size: usize,
}

/// The number of pages that `size` bytes take up.
pub open spec fn pages(size: usize) -> nat {
    ((size + 4095) / 4096) as nat
}

/// The number of bytes of the node that a request for `size` bytes takes:
/// its pages, rounded up to a power of two of them.
#[verifier::opaque]
pub open spec fn block_bytes(size: usize) -> nat {
    4096 * exp2(order(pages(size)))
}

/// The node that a request takes holds the request, and is a page times a
/// power of two.
pub proof fn lemma_block_bytes(size: usize)
    ensures
        block_bytes(size) == 4096 * exp2(order(pages(size))),
        block_bytes(size) >= size,
        block_bytes(size) >= 4096,
        is_pow2(block_bytes(size)),
{
    reveal(block_bytes);
    lemma_order_fits(pages(size), order(pages(size)));
    lemma_exp2_pos(order(pages(size)));
    lemma_pages_pow2(order(pages(size)));
}

/// `2^k` as a machine integer.
fn pow2_usize(k: u8) -> (r: usize)
    requires
        exp2(k as nat) <= usize::MAX,
    ensures
        r == exp2(k as nat),
{
    let mut r: usize = 1;
    let mut i: u8 = 0;
    while i < k
        invariant
            i <= k,
            r == exp2(i as nat),
            exp2(k as nat) <= usize::MAX,
        decreases k - i,
    {
        proof {
            lemma_exp2_mono((i + 1) as nat, k as nat);
        }
        r = r * 2;
        i = i + 1;
    }
    r
}

impl BuddyAllocator {
    /// The region that the allocator was set up for.
    pub closed spec fn region(&self) -> Region {
        Region { start: self.start as nat, size: self.size as nat }
    }

    /// The marks of the tree's nodes, by node number.
    pub closed spec fn marks(&self) -> Seq<u8> {
        self.nodes@
    }

    /// The fields other than the marks agree with the region.
    spec fn shape_ok(&self) -> bool {
        &&& self.size >= 2 * self.region().footprint() + 4096
        &&& self.start + self.size <= usize::MAX
        &&& self.leaf_num == self.region().leaves()
        &&& self.rounded_size == self.region().window()
        &&& self.addr_high == self.region().addr_high()
        &&& self.region().height() <= 52
    }

    /// Node `i` is handed out.
    pub open spec fn live_node(&self, i: nat) -> bool {
        allocated(self.marks(), self.region(), i)
    }

    /// Node `i` is wholly free, with nothing handed out above it.
    pub open spec fn free_node(&self, i: nat) -> bool {
        node_free(self.marks(), self.region(), i)
    }

    /// Node `n` can serve a request for `size` bytes aligned to `align`:
    /// it is free, it is the smallest kind of node that holds `size` bytes,
    /// and its address is a multiple of `next_pow2(align)`.
    pub open spec fn serves(&self, size: usize, align: usize, n: nat) -> bool {
        candidate(self.marks(), self.region(), order(pages(size)), next_pow2(align as nat), n)
    }

    /// The node that a request takes: of those that can serve it, the one
    /// with the highest number, which has the highest address.
    #[verifier::opaque]
    pub open spec fn pick(&self, size: usize, align: usize) -> Option<nat> {
        if exists|n: nat| self.serves(size, align, n) {
            Some(choose|n: nat| self.serves(size, align, n) &&
                forall|m: nat| self.serves(size, align, m) ==> m <= n)
        } else {
            None
        }
    }

    /// The address that a request gets.
    pub open spec fn pick_addr(&self, size: usize, align: usize) -> Option<usize> {
        match self.pick(size, align) {
            Some(n) => Some(self.region().node_addr(n) as usize),
            None => None,
        }
    }

    /// A node of `block_bytes(size)` bytes at `p` lies as a request for
    /// `size` bytes aligned to `align` asks: inside the region, clear of the
    /// footprint, at a multiple of its own size, of the page size and of
    /// `next_pow2(align)`.
    #[verifier::opaque]
    pub open spec fn placed(&self, size: usize, align: usize, p: usize) -> bool {
        &&& block_bytes(size) >= size
        &&& (p as nat) % next_pow2(align as nat) == 0
        &&& (p as nat) % block_bytes(size) == 0
        &&& p % 4096 == 0
        &&& is_pow2(align as nat) ==> p % align == 0
        &&& self.region().start + self.region().footprint() <= p
        &&& p + block_bytes(size) <= self.region().start + self.region().size
        &&& self.region().start + self.region().size <= usize::MAX
    }

    /// `after` is this allocator after a request for `size` bytes aligned
    /// to `align`, and `res` is what the request got: the node that `pick`
    /// names is handed out, it lies as `placed` says, and nothing else has
    /// changed.  In the tree the node is marked 0, the marks of its
    /// ancestors are recombined, and no other mark changes.
    #[verifier::opaque]
    pub open spec fn alloc_step(
        &self,
        after: &Self,
        size: usize,
        align: usize,
        res: Option<usize>,
    ) -> bool {
        &&& after.wf()
        &&& after.region() == self.region()
        &&& res == self.pick_addr(size, align)
        &&& forall|i: nat| #[trigger] after.live_node(i) <==> self.live_node(i) ||
            self.pick(size, align) == Some(i)
        &&& res.is_none() ==> after.marks() == self.marks()
        &&& res matches Some(p) ==> {
            &&& !self.live().contains_key(p)
            &&& after.live() == self.live().insert(p, block_bytes(size))
            &&& self.placed(size, align, p)
        }
        &&& self.pick(size, align) matches Some(n) ==> updated(
            self.marks().update(n as int, 0u8),
            after.marks(),
            self.region(),
            n,
        )
    }

    /// The node that is handed out and holds the byte at `addr`.
    pub open spec fn owner(&self, addr: usize) -> nat {
        choose|n: nat| self.live_node(n) && self.region().node_holds(n, addr as int)
    }

    /// An allocator that has not been set up.
    pub fn new() -> (res: Self)
        ensures
            !res.wf(),
            res.marks().len() == 0,
            res.region() == (Region { start: 0, size: 0 }),
    {
        BuddyAllocator { nodes: Vec::new(), leaf_num: 0, addr_high: 0, rounded_size: 0, start: 0, size: 0 }
    }

    /// An allocator can be set up for the region `[start, start + size)`: the
    /// region ends inside the address space, `next_pow2(size)` is a machine
    /// integer, and the region holds twice the footprint of its tree and one
    /// page more.
    pub open spec fn region_ok(start: usize, size: usize) -> bool {
        &&& start + size <= usize::MAX
        &&& next_pow2(size as nat) <= usize::MAX
        &&& size >= 2 * (Region { start: start as nat, size: size as nat }).footprint() + 4096
    }

    /// Tells whether an allocator can be set up for `[start, start + size)`.
    pub fn region_fits(start: usize, size: usize) -> (res: bool)
        ensures
            res == Self::region_ok(start, size),
    {
        let ghost r = Region { start: start as nat, size: size as nat };
        proof {
            lemma_usize_limit();
            lemma_exp2_pos(r.height());
        }
        if size < BUDDY_ALLOCATOR_GRANULARITY || size > usize::MAX - start {
            return false;
        }
        if size > usize::MAX / 2 + 1 {
            proof {
                lemma_next_pow2_bounds(size as nat);
                lemma_pow2_above_half(next_pow2(size as nat));
            }
            return false;
        }
        proof {
            lemma_next_pow2_least(size as nat, (usize::MAX / 2 + 1) as nat);
            r.lemma_window();
        }
        let leaf_num = next_pow_of_2(size) / BUDDY_ALLOCATOR_GRANULARITY;
        size / 4 >= leaf_num && size - 4 * leaf_num >= BUDDY_ALLOCATOR_GRANULARITY
    }

    /// Sets the allocator up for the region `[start, start + size)`, with
    /// nothing handed out.
    ///
    /// The tree has `next_pow2(size) / 4096` leaves, one per page of a
    /// window that starts at a multiple of half its size, the one before
    /// `start` or the one behind it, whichever leaves less of the region
    /// out: every node but the root then starts at a multiple of its size,
    /// and the root is never handed out.  A page is usable when it
    /// lies inside the region and clear of its first `2 * leaves` bytes; a
    /// page of the region outside the window has no leaf.  The region must
    /// hold twice that footprint and one page more.  An allocator is set up
    /// once.
    pub fn init(&mut self, start: usize, size: usize)
        requires
            !old(self).wf(),
            Self::region_ok(start, size),
        ensures
            final(self).wf(),
            final(self).region() == (Region { start: start as nat, size: size as nat }),
            forall|i: nat| !final(self).live_node(i),
            final(self).live() == Map::<usize, nat>::empty(),
    {
        let ghost r = Region { start: start as nat, size: size as nat };
        proof {
            lemma_exp2_pos(r.height());
            r.lemma_window();
        }
        let rounded_size = next_pow_of_2(size);
        let leaf_num = rounded_size / BUDDY_ALLOCATOR_GRANULARITY;
        let half = rounded_size / 2;
        proof {
            r.lemma_half();
            assert(half == r.half());
        }
        let lead = start % half;
        let addr_high = if size > rounded_size - lead && size - (rounded_size - lead) > half - lead {
            start - lead + half
        } else {
            start - lead
        };
        self.rounded_size = rounded_size;
        self.leaf_num = leaf_num;
        self.addr_high = addr_high;
        self.start = start;
        self.size = size;
        proof {
            assert(self.region() == r);
            lemma_usize_limit();
            let h = r.height();
            lemma_exp2_12();
            lemma_exp2_add(h, 12);
            if h > 52 {
                lemma_exp2_mono(64, h + 12);
            }
            assert(self.shape_ok());
        }
        let mut nodes: Vec<u8> = Vec::new();
        let mut n: usize = 0;
        while n < 2 * leaf_num
            invariant
                n <= 2 * leaf_num,
                leaf_num * 4096 <= usize::MAX,
                nodes.len() == n,
                forall|j: int| 0 <= j < n ==> nodes@[j] == 0,
            decreases 2 * leaf_num - n,
        {
            nodes.push(0);
            n = n + 1;
        }
        let mut i: usize = 0;
        while i < leaf_num
            invariant
                i <= leaf_num,
                self.shape_ok(),
                self.region() == r,
                leaf_num == self.leaf_num,
                leaf_num == r.leaves(),
                leaf_num * 4096 == rounded_size,
                nodes.len() == 2 * leaf_num,
                forall|j: int| 0 <= j < leaf_num ==> nodes@[j] == 0,
                forall|x: nat| leaf_num <= x < leaf_num + i ==> #[trigger] mark(nodes@, x) ==
                    (if r.usable((x - leaf_num) as nat) { 1int } else { 0int }),
            decreases leaf_num - i,
        {
            let v: u8 = if self.page_usable(i) {
                1
            } else {
                0
            };
            let ghost before = nodes@;
            nodes.set(leaf_num + i, v);
            assert forall|x: nat| leaf_num <= x < leaf_num + i + 1 implies #[trigger] mark(nodes@, x) ==
                (if r.usable((x - leaf_num) as nat) { 1int } else { 0int }) by {
                if x < leaf_num + i {
                    assert(mark(before, x) == (if r.usable((x - leaf_num) as nat) { 1int } else { 0int }));
                }
            }
            i = i + 1;
        }
        assert forall|j: nat| leaf_num <= j < 2 * leaf_num implies #[trigger] settled(nodes@, r, j) by {
            assert(mark(nodes@, j) == (if r.usable((j - leaf_num) as nat) { 1int } else { 0int }));
            r.lemma_level_range(j);
        }
        let mut i: usize = leaf_num;
        while i > 1
            invariant
                1 <= i <= leaf_num,
                self.shape_ok(),
                self.region() == r,
                leaf_num == r.leaves(),
                leaf_num * 4096 <= usize::MAX,
                nodes.len() == 2 * leaf_num,
                nodes@[0] == 0,
                forall|j: nat| i <= j < 2 * leaf_num ==> #[trigger] settled(nodes@, r, j),
            decreases i,
        {
            i = i - 1;
            let cl_blk_log = nodes[2 * i];
            let cr_blk_log = nodes[2 * i + 1];
            let lv = self.level(i);
            proof {
                r.lemma_children(i as nat);
                r.lemma_level_child(i as nat);
                r.lemma_level_range(i as nat);
                assert(settled(nodes@, r, (2 * i) as nat));
                assert(settled(nodes@, r, (2 * i + 1) as nat));
            }
            let v: u8 = if cl_blk_log == lv && cr_blk_log == lv {
                lv + 1
            } else if cl_blk_log >= cr_blk_log {
                cl_blk_log
            } else {
                cr_blk_log
            };
            let ghost before = nodes@;
            nodes.set(i, v);
            assert forall|j: nat| i <= j < 2 * leaf_num implies #[trigger] settled(nodes@, r, j) by {
                if j > i {
                    assert(settled(before, r, j));
                    lemma_mark_ok_frame(before, nodes@, r, j);
                }
            }
        }
        self.nodes = nodes;
        assert forall|j: nat| r.is_node(j) implies #[trigger] mark_ok(self.nodes@, r, j) by {
            assert(settled(self.nodes@, r, j));
        }
        assert forall|j: nat| !self.live_node(j) by {
            if r.is_node(j) {
                assert(settled(self.nodes@, r, j));
            }
        }
        assert(self.live() =~= Map::<usize, nat>::empty()) by {
            assert forall|p: usize| !self.live().contains_key(p) by {
                if self.live().contains_key(p) {
                    lemma_live_map_node(self.nodes@, r, p);
                    assert(self.live_node(node_at(self.nodes@, r, p)));
                }
            }
        }
    }

    /// A copy of the marks of the tree's nodes, by node number.
    pub fn node_marks(&self) -> (res: Vec<u8>)
        ensures
            res@ == self.marks(),
    {
        let mut res: Vec<u8> = Vec::new();
        let mut i: usize = 0;
        while i < self.nodes.len()
            invariant
                i <= self.nodes.len(),
                res@ == self.nodes@.subrange(0, i as int),
            decreases self.nodes.len() - i,
        {
            res.push(self.nodes[i]);
            proof {
                assert(res@ =~= self.nodes@.subrange(0, i + 1));
            }
            i = i + 1;
        }
        proof {
            assert(res@ =~= self.nodes@);
        }
        res
    }

    /// The address of the first page of the window, from which the pages
    /// are counted; 0 as long as the allocator has not been set up.
    pub fn window_start(&self) -> (res: usize)
        ensures
            self.wf() ==> res == self.region().addr_high(),
    {
        self.addr_high
    }

    /// The first address of the region.
    pub fn start(&self) -> (res: usize)
        ensures
            res == self.region().start,
    {
        self.start
    }

    /// The number of bytes of the region.
    pub fn size(&self) -> (res: usize)
        ensures
            res == self.region().size,
    {
        self.size
    }

    /// The left child of node `id`.
    fn child_l(&self, id: usize) -> (r: usize)
        requires
            2 * id <= usize::MAX,
        ensures
            r == 2 * id,
    {
        id * 2
    }

    /// The right child of node `id`.
    fn child_r(&self, id: usize) -> (r: usize)
        requires
            2 * id + 1 <= usize::MAX,
        ensures
            r == 2 * id + 1,
    {
        id * 2 + 1
    }

    /// The parent of node `id`.
    fn parent(&self, id: usize) -> (r: usize)
        ensures
            r == id / 2,
    {
        id / 2
    }

    /// What the fields say of the region once they agree with it.
    proof fn lemma_shape(&self)
        requires
            self.shape_ok(),
        ensures
            self.size >= 4096,
            self.region().fits(),
            self.leaf_num >= 1,
            self.rounded_size == self.leaf_num * 4096,
            is_pow2(self.leaf_num as nat),
            is_pow2(self.rounded_size as nat),
            self.rounded_size >= self.size,
            self.rounded_size == 2 * self.region().half(),
            self.addr_high <= self.start + self.size,
            self.start < self.addr_high + self.region().half(),
            self.addr_high % 4096 == 0,
            exp2(self.region().height()) == self.leaf_num,
    {
        self.region().lemma_window();
        self.region().lemma_half();
    }

    /// The level of node `id`.
    fn level(&self, id: usize) -> (lv: u8)
        requires
            self.shape_ok(),
            self.region().is_node(id as nat),
        ensures
            lv == self.region().level(id as nat),
    {
        proof {
            self.lemma_shape();
            self.region().lemma_level_range(id as nat);
        }
        let mut t = id;
        let mut lv: u8 = 0;
        while t < self.leaf_num
            invariant
                self.shape_ok(),
                self.leaf_num * 4096 <= usize::MAX,
                self.region().is_node(t as nat),
                self.region().level(t as nat) + lv == self.region().level(id as nat),
                self.region().level(id as nat) <= 52,
            decreases 2 * self.leaf_num - t,
        {
            proof {
                self.region().lemma_children(t as nat);
                self.region().lemma_level_child(t as nat);
                self.region().lemma_level_range((2 * t) as nat);
            }
            t = self.child_l(t);
            lv = lv + 1;
        }
        proof {
            self.region().lemma_level_range(t as nat);
        }
        lv
    }

    /// The address of the first byte of node `id`, a node that starts
    /// inside the address space.
    fn node_addr(&self, id: usize) -> (a: usize)
        requires
            self.shape_ok(),
            self.region().is_node(id as nat),
            self.region().node_addr(id as nat) <= usize::MAX,
        ensures
            a == self.region().node_addr(id as nat),
    {
        proof {
            self.lemma_shape();
            self.region().lemma_node_bytes(id as nat);
        }
        let mut l_leaf_id = id;
        while l_leaf_id < self.leaf_num
            invariant
                self.shape_ok(),
                self.leaf_num * 4096 <= usize::MAX,
                self.region().is_node(l_leaf_id as nat),
                self.region().first_leaf(l_leaf_id as nat) == self.region().first_leaf(id as nat),
            decreases 2 * self.leaf_num - l_leaf_id,
        {
            proof {
                self.region().lemma_children(l_leaf_id as nat);
            }
            l_leaf_id = self.child_l(l_leaf_id);
        }
        proof {
            let r = self.region();
            r.lemma_level_range(l_leaf_id as nat);
            r.lemma_level_range(id as nat);
            r.lemma_first_leaf_range(id as nat);
            assert(r.span(l_leaf_id as nat) == 1);
            assert(r.first_leaf(l_leaf_id as nat) == l_leaf_id) by (nonlinear_arith)
                requires
                    r.first_leaf(l_leaf_id as nat) == l_leaf_id * r.span(l_leaf_id as nat),
                    r.span(l_leaf_id as nat) == 1,
            ;
        }
        let offset = (l_leaf_id - self.leaf_num) * BUDDY_ALLOCATOR_GRANULARITY;
        self.addr_high + offset
    }

    /// Recombines the marks of the nodes above `idx`, from its parent up to
    /// the root.
    fn update(&mut self, idx: usize)
        requires
            old(self).shape_ok(),
            walk_inv(old(self).nodes@, old(self).nodes@, old(self).region(), idx as nat, idx as nat),
        ensures
            final(self).shape_ok(),
            final(self).region() == old(self).region(),
            updated(old(self).nodes@, final(self).nodes@, old(self).region(), idx as nat),
    {
        let ghost before = self.nodes@;
        let ghost r = self.region();
        proof {
            self.lemma_shape();
            r.lemma_level_range(idx as nat);
        }
        let mut t = idx;
        let mut lv = self.level(idx);
        while t > 1
            invariant
                self.shape_ok(),
                self.region() == r,
                self.leaf_num == r.leaves(),
                self.leaf_num * 4096 <= usize::MAX,
                walk_inv(before, self.nodes@, r, idx as nat, t as nat),
                lv == r.level(t as nat),
                r.height() <= 52,
            decreases t,
        {
            let p = self.parent(t);
            proof {
                lemma_walk_step(before, self.nodes@, r, idx as nat, t as nat);
                lemma_is_anc_parent(t as nat, idx as nat);
                r.lemma_level_range(p as nat);
                r.lemma_children(p as nat);
            }
            let cl_blk_log = self.nodes[self.child_l(p)];
            let cr_blk_log = self.nodes[self.child_r(p)];
            lv = lv + 1;
            let v: u8 = if cl_blk_log == cr_blk_log && cl_blk_log == lv {
                lv + 1
            } else if cl_blk_log >= cr_blk_log {
                cl_blk_log
            } else {
                cr_blk_log
            };
            assert(v == combine(mark(self.nodes@, 2 * (p as nat)), mark(self.nodes@, 2 * (p as nat) + 1), r.level(p as nat)));
            let ghost cur = self.nodes@;
            self.nodes.set(p, v);
            assert(self.nodes@ == cur.update(p as int, v));
            t = p;
        }
        proof {
            lemma_walk_end(before, self.nodes@, r, idx as nat);
        }
    }

    /// Hands out the free node `id`.
    fn do_alloc(&mut self, id: usize)
        requires
            old(self).wf(),
            old(self).free_node(id as nat),
        ensures
            final(self).wf(),
            final(self).region() == old(self).region(),
            forall|i: nat| #[trigger] final(self).live_node(i) <==> old(self).live_node(i) || i == id,
            updated(old(self).marks().update(id as int, 0u8), final(self).marks(), old(self).region(), id as nat),
    {
        let ghost n0 = self.nodes@;
        let ghost r = self.region();
        proof {
            lemma_new_mark_ok(n0, r, id as nat, 0u8);
            lemma_walk_start(n0, r, id as nat, 0u8);
        }
        self.nodes.set(id, 0);
        self.update(id);
        proof {
            lemma_alloc_live(n0, self.nodes@, r, id as nat);
        }
    }

    /// The node that is handed out and holds the byte at `addr`.
    fn allocated_node_id(&self, addr: usize) -> (id: usize)
        requires
            self.wf(),
            exists|n: nat| self.live_node(n) && self.region().node_holds(n, addr as int),
        ensures
            self.live_node(id as nat),
            self.region().node_holds(id as nat, addr as int),
    {
        let ghost n = choose|n: nat| self.live_node(n) && self.region().node_holds(n, addr as int);
        let ghost r = self.region();
        proof {
            self.lemma_shape();
            r.lemma_first_leaf_range(n);
            r.lemma_level_range(n);
            r.lemma_node_bytes(n);
        }
        let offset = addr - self.addr_high;
        let mut id = self.leaf_num + offset / BUDDY_ALLOCATOR_GRANULARITY;
        proof {
            lemma_leaf_under(r, n, id as nat);
        }
        while self.nodes[id] != 0
            invariant
                self.wf(),
                r == self.region(),
                self.live_node(n),
                r.is_node(id as nat),
                is_anc(n, id as nat),
            decreases id,
        {
            proof {
                lemma_is_anc_proper(n, id as nat);
                lemma_is_anc_le(n, (id / 2) as nat);
            }
            id = self.parent(id);
        }
        proof {
            if id != n {
                lemma_full_below(self.nodes@, r, n, id as nat);
            }
        }
        id
    }

    /// The node that serves a request for `blk_n` pages at or under node
    /// `id`: the right subtree is tried before the left one, and a node is
    /// taken only when nothing under it serves.
    fn find_alloc(&self, blk_n: usize, align: usize, id: usize) -> (res: Option<usize>)
        requires
            self.wf(),
            self.region().is_node(id as nat),
            open_path(self.marks(), id as nat),
            align > 0,
            next_pow2(align as nat) <= usize::MAX,
        ensures
            best_under(
                self.marks(),
                self.region(),
                order(blk_n as nat),
                next_pow2(align as nat),
                id as nat,
                match res {
                    Some(n) => Some(n as nat),
                    None => None,
                },
            ),
        decreases 2 * self.leaf_num - id,
    {
        let ghost r = self.region();
        let ghost a = next_pow2(align as nat);
        proof {
            self.lemma_shape();
            r.lemma_level_range(id as nat);
            assert(mark_ok(self.nodes@, r, id as nat));
            lemma_next_pow2_bounds(align as nat);
        }
        let v = self.nodes[id];
        if v == 0 {
            proof {
                lemma_search_closed(self.nodes@, r, a, id as nat, blk_n as nat);
            }
            return None;
        }
        proof {
            lemma_exp2_mono((v - 1) as nat, r.height());
        }
        if pow2_usize(v - 1) < blk_n {
            proof {
                lemma_search_closed(self.nodes@, r, a, id as nat, blk_n as nat);
            }
            return None;
        }
        if id >= self.leaf_num {
            proof {
                lemma_search_leaf(self.nodes@, r, a, id as nat, blk_n as nat);
            }
            proof {
                lemma_marked_in_region(self.nodes@, r, id as nat);
            }
            if self.node_addr(id) % next_pow_of_2(align) == 0 {
                return Some(id);
            }
            return None;
        }
        proof {
            r.lemma_children(id as nat);
            assert((2 * id) / 2 == id);
            assert((2 * id + 1) / 2 == id);
        }
        let res_r = self.find_alloc(blk_n, align, self.child_r(id));
        let res_l = if res_r.is_none() {
            self.find_alloc(blk_n, align, self.child_l(id))
        } else {
            None
        };
        proof {
            let gr: Option<nat> = match res_r {
                Some(n) => Some(n as nat),
                None => None,
            };
            let gl: Option<nat> = match res_l {
                Some(n) => Some(n as nat),
                None => None,
            };
            lemma_search_inner(self.nodes@, r, a, id as nat, blk_n as nat, gr, gl);
        }
        if res_r.is_some() {
            return res_r;
        }
        if res_l.is_some() {
            return res_l;
        }
        proof {
            lemma_marked_in_region(self.nodes@, r, id as nat);
        }
        if v == self.level(id) + 1 && self.node_addr(id) % next_pow_of_2(align) == 0 {
            return Some(id);
        }
        None
    }

    /// Takes back the node that holds the page at `addr`, and merges it
    /// with its buddy as far up as both halves are free: the node is marked
    /// wholly free, the marks of its ancestors are recombined, and no other
    /// mark changes.
    pub fn dealloc(&mut self, addr: usize)
        requires
            old(self).wf(),
            addr % 4096 == 0,
            exists|n: nat| old(self).live_node(n) && old(self).region().node_holds(n, addr as int),
        ensures
            final(self).wf(),
            final(self).region() == old(self).region(),
            forall|i: nat| #[trigger] final(self).live_node(i) <==> old(self).live_node(i) &&
                i != old(self).owner(addr),
            final(self).live() == old(self).live().remove(old(self).region().node_addr(old(self).owner(addr)) as usize),
            mark(final(self).marks(), old(self).owner(addr)) == old(self).region().level(old(self).owner(addr)) + 1,
            updated(
                old(self).marks().update(
                    old(self).owner(addr) as int,
                    (old(self).region().level(old(self).owner(addr)) + 1) as u8,
                ),
                final(self).marks(),
                old(self).region(),
                old(self).owner(addr),
            ),
    {
        let ghost n0 = self.nodes@;
        let ghost r = self.region();
        let id = self.allocated_node_id(addr);
        proof {
            self.lemma_shape();
            lemma_holds_unique(n0, r, id as nat, self.owner(addr), addr as int);
            r.lemma_level_range(id as nat);
        }
        let v = 1 + self.level(id);
        proof {
            lemma_new_mark_ok(n0, r, id as nat, v);
            lemma_walk_start(n0, r, id as nat, v);
        }
        self.nodes.set(id, v);
        self.update(id);
        proof {
            lemma_dealloc_live(n0, self.nodes@, r, id as nat, v);
            lemma_live_map_remove(n0, self.nodes@, r, id as nat);
        }
    }

    /// The number of bytes that a request for `minsz` bytes is rounded up
    /// to before pages are counted.
    pub fn grained(&self, minsz: usize) -> (res: usize)
        requires
            next_pow2(minsz as nat) <= usize::MAX,
        ensures
            res == next_pow2(minsz as nat),
    {
        next_pow_of_2(minsz)
    }

    /// The first address of the node that is handed out and holds `addr`.
    pub fn compound_head(&self, addr: usize) -> (res: usize)
        requires
            self.wf(),
            exists|n: nat| self.live_node(n) && self.region().node_holds(n, addr as int),
        ensures
            res == self.region().node_addr(self.owner(addr)),
            self.live_node(self.owner(addr)),
            self.region().node_holds(self.owner(addr), addr as int),
            self.live().contains_key(res),
            res <= addr < res + self.live()[res],
    {
        let id = self.allocated_node_id(addr);
        proof {
            self.lemma_shape();
            lemma_holds_unique(self.nodes@, self.region(), id as nat, self.owner(addr), addr as int);
            lemma_live_map_has(self.nodes@, self.region(), id as nat);
        }
        self.node_addr(id)
    }

    /// The first address of the live allocation that holds `addr`, if there
    /// is one.
    pub fn live_head(&self, addr: usize) -> (res: Option<usize>)
        requires
            self.wf(),
        ensures
            match res {
                Some(p) => self.live().contains_key(p) && p <= addr < p + self.live()[p],
                None => forall|p: usize| self.live().contains_key(p) ==>
                    !(p <= addr < p + #[trigger] self.live()[p]),
            },
    {
        let ghost r = self.region();
        proof {
            self.lemma_shape();
        }
        if addr < self.addr_high || addr - self.addr_high >= self.rounded_size {
            proof {
                assert forall|p: usize| self.live().contains_key(p) implies
                    !(p <= addr < p + #[trigger] self.live()[p]) by {
                    lemma_live_map_node(self.nodes@, r, p);
                    r.lemma_node_bytes(node_at(self.nodes@, r, p));
                }
            }
            return None;
        }
        let leaf = self.leaf_num + (addr - self.addr_high) / BUDDY_ALLOCATOR_GRANULARITY;
        let ghost x = leaf as nat;
        assert(x == r.leaf_of(addr as int));
        let mut id = leaf;
        assert(is_anc(x, x));
        while id > 0 && self.nodes[id] != 0
            invariant
                self.wf(),
                r == self.region(),
                r.leaves() <= x < 2 * r.leaves(),
                id <= x,
                is_anc(id as nat, x),
                forall|m: nat| m >= 1 && m > id && is_anc(m, x) ==> #[trigger] mark(self.nodes@, m) != 0,
            decreases id,
        {
            proof {
                let p = (id / 2) as nat;
                assert forall|m: nat| m >= 1 && m > p && is_anc(m, x) implies
                    #[trigger] mark(self.nodes@, m) != 0 by {
                    if m <= id {
                        lemma_is_anc_chain(m, id as nat, x);
                        if m != id {
                            lemma_is_anc_proper(m, id as nat);
                            lemma_is_anc_le(m, p);
                        }
                    }
                }
                lemma_is_anc_parent(id as nat, x);
            }
            id = self.parent(id);
        }
        let hit = if id == 0 {
            false
        } else if id >= self.leaf_num {
            self.page_usable(id - self.leaf_num)
        } else {
            let lv = self.level(id);
            self.nodes[2 * id] == lv && self.nodes[2 * id + 1] == lv
        };
        if hit {
            proof {
                lemma_live_map_has(self.nodes@, r, id as nat);
                r.lemma_holds_leaf(id as nat, addr as int);
            }
            Some(self.node_addr(id))
        } else {
            proof {
                assert forall|p: usize| self.live().contains_key(p) implies
                    !(p <= addr < p + #[trigger] self.live()[p]) by {
                    if p <= addr < p + self.live()[p] {
                        lemma_live_map_node(self.nodes@, r, p);
                        let m = node_at(self.nodes@, r, p);
                        r.lemma_holds_leaf(m, addr as int);
                        if m > id {
                            assert(mark(self.nodes@, m) != 0);
                        } else if m < id {
                            lemma_is_anc_chain(m, id as nat, x);
                            lemma_full_below(self.nodes@, r, m, id as nat);
                        }
                    }
                }
            }
            None
        }
    }

    /// Page `j` of the window lies inside the region, clear of the
    /// footprint.
    fn page_usable(&self, j: usize) -> (res: bool)
        requires
            self.shape_ok(),
            j < self.leaf_num,
        ensures
            res == self.region().usable(j as nat),
    {
        proof {
            self.lemma_shape();
            self.region().lemma_window();
        }
        let off = j * BUDDY_ALLOCATOR_GRANULARITY;
        if self.addr_high <= self.start {
            let lead = self.start - self.addr_high;
            !(off < lead + 2 * self.leaf_num || off + BUDDY_ALLOCATOR_GRANULARITY > lead + self.size)
        } else {
            let ahead = self.addr_high - self.start;
            let clear = ahead >= 2 * self.leaf_num || off >= 2 * self.leaf_num - ahead;
            clear && off + BUDDY_ALLOCATOR_GRANULARITY <= self.size - ahead
        }
    }

    /// The tree is what its handed-out nodes make it: two allocators over
    /// one region in which the same nodes are handed out hold the same
    /// marks, byte for byte.  Once every node has been taken back, the marks
    /// are those that `init` wrote.
    pub proof fn lemma_state_determined(&self, other: &Self)
        requires
            self.wf(),
            other.wf(),
            self.region() == other.region(),
            forall|i: nat| self.live_node(i) == other.live_node(i),
        ensures
            self.marks() == other.marks(),
    {
        assert forall|j: nat| #[trigger] allocated(self.marks(), self.region(), j) ==
            allocated(other.marks(), self.region(), j) by {
            assert(self.live_node(j) == other.live_node(j));
        }
        lemma_same_tree(self.marks(), other.marks(), self.region());
    }

    /// What `alloc_step` says, clause by clause.
    pub proof fn lemma_alloc_effect(&self, after: &Self, size: usize, align: usize, res: Option<usize>)
        requires
            self.alloc_step(after, size, align, res),
        ensures
            after.wf(),
            after.region() == self.region(),
            res == self.pick_addr(size, align),
            forall|i: nat| #[trigger] after.live_node(i) <==> self.live_node(i) || self.pick(size, align) == Some(i),
            res.is_none() ==> after.marks() == self.marks() && after.live() == self.live(),
            res matches Some(p) ==> {
                &&& !self.live().contains_key(p)
                &&& after.live() == self.live().insert(p, block_bytes(size))
                &&& self.placed(size, align, p)
            },
            self.pick(size, align) matches Some(n) ==> updated(
                self.marks().update(n as int, 0u8),
                after.marks(),
                self.region(),
                n,
            ),
    {
        reveal(BuddyAllocator::alloc_step);
    }

    /// What `placed` says, clause by clause.
    pub proof fn lemma_placed(&self, size: usize, align: usize, p: usize)
        requires
            self.placed(size, align, p),
        ensures
            block_bytes(size) >= size,
            (p as nat) % next_pow2(align as nat) == 0,
            (p as nat) % block_bytes(size) == 0,
            p % 4096 == 0,
            is_pow2(align as nat) ==> p % align == 0,
            self.region().start + self.region().footprint() <= p,
            p + block_bytes(size) <= self.region().start + self.region().size,
            self.region().start + self.region().size <= usize::MAX,
    {
        reveal(BuddyAllocator::placed);
    }

    /// A node that serves a request for a power of two of bytes starts at a
    /// multiple of their number, and holds them inside the address space.
    pub proof fn lemma_placed_pow2(&self, size: usize, align: usize, p: usize)
        requires
            self.placed(size, align, p),
            is_pow2(size as nat),
        ensures
            p as int % size as int == 0,
            p + size <= usize::MAX,
            block_bytes(size) >= size,
    {
        self.lemma_placed(size, align, p);
        lemma_block_bytes(size);
        lemma_pow2_divides(size as nat, block_bytes(size));
        lemma_mod_trans(p as int, size as int, block_bytes(size) as int);
    }

    /// A live allocation has at least a page.
    pub proof fn lemma_live_len(&self, p: usize)
        requires
            self.wf(),
            self.live().contains_key(p),
        ensures
            self.live()[p] >= 4096,
    {
        self.lemma_shape();
        lemma_live_map_node(self.nodes@, self.region(), p);
        self.region().lemma_node_bytes(node_at(self.nodes@, self.region(), p));
    }

    /// A byte lies in one live allocation at most.
    pub proof fn lemma_live_container(&self, p: usize, q: usize, x: int)
        requires
            self.wf(),
            self.live().contains_key(p),
            self.live().contains_key(q),
            p <= x < p + self.live()[p],
            q <= x < q + self.live()[q],
        ensures
            p == q,
    {
        if p != q {
            self.lemma_live_apart(p, q);
        }
    }

    /// No node's address is a multiple of a power of two beyond the
    /// address space.
    proof fn lemma_huge_align(&self, size: usize, align: usize)
        requires
            self.wf(),
            align > usize::MAX / 2 + 1,
        ensures
            self.pick(size, align).is_none(),
    {
        reveal(BuddyAllocator::pick);
        let r = self.region();
        let a = next_pow2(align as nat);
        self.lemma_shape();
        lemma_next_pow2_bounds(align as nat);
        lemma_pow2_above_half(a);
        assert forall|m: nat| !self.serves(size, align, m) by {
            if self.serves(size, align, m) {
                lemma_free_in_region(self.nodes@, r, m);
                r.lemma_node_bytes(m);
                let x = r.node_addr(m);
                assert(x % a == x) by (nonlinear_arith)
                    requires
                        0 <= x < a,
                ;
            }
        }
    }

    /// The search from the root finds what `pick` names.
    proof fn lemma_pick(&self, size: usize, align: usize, found: Option<nat>)
        requires
            self.wf(),
            best_under(self.marks(), self.region(), order(pages(size)), next_pow2(align as nat), 1, found),
        ensures
            self.pick(size, align) == found,
            found matches Some(n) ==> self.serves(size, align, n),
    {
        reveal(BuddyAllocator::pick);
        assert forall|m: nat| self.serves(size, align, m) implies is_anc(1, m) by {
            lemma_root_anc(m);
        }
        match found {
            Some(n) => {
                assert(self.serves(size, align, n));
                assert forall|m: nat| self.serves(size, align, m) implies m <= n by {
                    assert(candidate(self.marks(), self.region(), order(pages(size)), next_pow2(align as nat), m));
                }
                let c = choose|n: nat| self.serves(size, align, n) &&
                    forall|m: nat| self.serves(size, align, m) ==> m <= n;
                assert(self.serves(size, align, c) && forall|m: nat| self.serves(size, align, m) ==> m <= c);
            },
            None => {
                assert forall|m: nat| !self.serves(size, align, m) by {
                    if self.serves(size, align, m) {
                        assert(candidate(self.marks(), self.region(), order(pages(size)), next_pow2(align as nat), m));
                    }
                }
            },
        }
    }

    /// What a successful allocation has done, seen as byte ranges.
    proof fn lemma_after_alloc(&self, before: &Self, size: usize, align: usize, id: nat)
        requires
            before.wf(),
            self.wf(),
            self.region() == before.region(),
            before.region().is_node(id),
            !before.live_node(id),
            before.pick(size, align) == Some(id),
            before.region().node_bytes(id) == block_bytes(size),
            before.region().node_addr(id) <= usize::MAX,
            before.placed(size, align, before.region().node_addr(id) as usize),
            forall|i: nat| #[trigger] self.live_node(i) <==> before.live_node(i) || i == id,
            updated(before.marks().update(id as int, 0u8), self.marks(), before.region(), id),
        ensures
            before.alloc_step(self, size, align, Some(before.region().node_addr(id) as usize)),
            !before.live().contains_key(before.region().node_addr(id) as usize),
            self.live() == before.live().insert(before.region().node_addr(id) as usize, block_bytes(size)),
            self.live()[before.region().node_addr(id) as usize] == block_bytes(size),
    {
        before.lemma_live_insert(self, id);
        assert forall|i: nat| #[trigger] self.live_node(i) <==> before.live_node(i) || before.pick(size, align)
            == Some(i) by {
            assert(self.live_node(i) <==> before.live_node(i) || i == id);
        }
        reveal(BuddyAllocator::alloc_step);
    }

    /// One more node handed out is one more live allocation.
    proof fn lemma_live_insert(&self, after: &Self, id: nat)
        requires
            self.wf(),
            after.wf(),
            after.region() == self.region(),
            self.region().is_node(id),
            !self.live_node(id),
            forall|i: nat| #[trigger] after.live_node(i) <==> self.live_node(i) || i == id,
        ensures
            self.region().node_addr(id) <= usize::MAX,
            !self.live().contains_key(self.region().node_addr(id) as usize),
            after.live() == self.live().insert(
                self.region().node_addr(id) as usize,
                self.region().node_bytes(id),
            ),
            after.live()[self.region().node_addr(id) as usize] == self.region().node_bytes(id),
    {
        self.lemma_shape();
        assert forall|i: nat| #[trigger] allocated(after.nodes@, self.region(), i) <==> allocated(
            self.nodes@,
            self.region(),
            i,
        ) || i == id by {
            assert(after.live_node(i) <==> self.live_node(i) || i == id);
        }
        lemma_live_map_insert(self.nodes@, after.nodes@, self.region(), id);
        lemma_live_map_has(after.nodes@, self.region(), id);
    }

    /// A request that finds no node changes nothing.
    proof fn lemma_alloc_none(&self, size: usize, align: usize)
        requires
            self.wf(),
            self.pick(size, align).is_none(),
        ensures
            self.alloc_step(self, size, align, None),
    {
        reveal(BuddyAllocator::alloc_step);
    }

    /// In a well-formed allocator every mark obeys its rule: the leaf of a
    /// page outside the region or on its footprint is 0, the leaf of a
    /// usable page is 0 or 1, and an inner node that is not handed out is
    /// one more than its level if both children are marked with its level,
    /// and the greater of its children's marks otherwise.
    pub proof fn lemma_tree_marks(&self)
        requires
            self.wf(),
        ensures
            tree_wf(self.marks(), self.region()),
            self.region().fits(),
            Self::region_ok(self.region().start as usize, self.region().size as usize),
    {
        self.lemma_shape();
        self.region().lemma_window();
    }

    /// A live allocation starts at a multiple of its size, which is a page
    /// times a power of two.
    pub proof fn lemma_live_aligned(&self, p: usize)
        requires
            self.wf(),
            self.live().contains_key(p),
        ensures
            (p as nat) % self.live()[p] == 0,
            p % 4096 == 0,
            exists|k: nat| self.live()[p] == 4096 * #[trigger] exp2(k),
    {
        self.lemma_shape();
        let r = self.region();
        lemma_live_map_node(self.nodes@, r, p);
        let n = node_at(self.nodes@, r, p);
        lemma_root_busy(self.nodes@, r);
        r.lemma_node_aligned(n);
        r.lemma_level_range(n);
        assert(self.live()[p] == 4096 * exp2(r.level(n) as nat));
    }

    /// A node is free exactly when each of its pages is usable and lies in
    /// no node that is handed out.
    pub proof fn lemma_free_node(&self, n: nat)
        requires
            self.wf(),
            self.region().is_node(n),
        ensures
            self.free_node(n) <==> pages_free(self.marks(), self.region(), n),
    {
        lemma_free_iff_pages_free(self.nodes@, self.region(), n);
    }

    /// The mark of the root tells what is free: it is 0 exactly when no
    /// node is free, and otherwise it is one more than the level of the
    /// largest free node.
    pub proof fn lemma_root_mark(&self)
        requires
            self.wf(),
        ensures
            mark(self.marks(), 1) == 0 <==> forall|n: nat| !self.free_node(n),
            forall|n: nat| #[trigger] self.free_node(n) ==> self.region().level(n) + 1 <= mark(self.marks(), 1),
            mark(self.marks(), 1) > 0 ==> exists|n: nat| #[trigger] self.free_node(n) && self.region().level(n) + 1
                == mark(self.marks(), 1),
    {
        self.lemma_shape();
        let nodes = self.marks();
        let r = self.region();
        assert forall|n: nat| #[trigger] self.free_node(n) implies r.level(n) + 1 <= mark(nodes, 1) by {
            lemma_root_anc(n);
            lemma_mark_rises(nodes, r, 1, n);
        }
        if mark(nodes, 1) > 0 {
            let n = lemma_mark_witness(nodes, r, 1);
            assert(self.free_node(n));
        } else {
            assert forall|n: nat| !self.free_node(n) by {
                if self.free_node(n) {
                    r.lemma_level_range(n);
                }
            }
        }
    }

    /// A request gets a node exactly when some node can serve it.
    pub proof fn lemma_pick_exists(&self, size: usize, align: usize)
        ensures
            self.pick(size, align).is_some() <==> exists|n: nat| self.serves(size, align, n),
    {
        reveal(BuddyAllocator::pick);
    }

    /// A request that asks for no alignment is served exactly when the
    /// mark of the root tells of a free node that holds it.
    pub proof fn lemma_served_by_mark(&self, size: usize)
        requires
            self.wf(),
        ensures
            self.pick(size, 1).is_some() <==> order(pages(size)) + 1 <= mark(self.marks(), 1),
    {
        self.lemma_shape();
        self.lemma_pick_exists(size, 1);
        let nodes = self.marks();
        let r = self.region();
        let k = order(pages(size));
        if k + 1 <= mark(nodes, 1) {
            let m = lemma_mark_witness(nodes, r, 1);
            let d = (r.level(m) - k) as nat;
            lemma_leftmost(r, m, d);
            let x = leftmost(m, d);
            lemma_free_below(nodes, r, m, x);
            assert(next_pow2(1) == 1);
            assert(candidate(nodes, r, k, 1, x));
            assert(self.serves(size, 1, x));
        }
        if exists|n: nat| self.serves(size, 1, n) {
            let n = choose|n: nat| self.serves(size, 1, n);
            lemma_root_anc(n);
            lemma_mark_rises(nodes, r, 1, n);
        }
    }

    /// Where the root is marked 0 every request fails.
    pub proof fn lemma_exhausted(&self, size: usize, align: usize)
        requires
            self.wf(),
            mark(self.marks(), 1) == 0,
        ensures
            self.pick(size, align).is_none(),
            self.pick_addr(size, align).is_none(),
    {
        self.lemma_root_mark();
        self.lemma_pick_exists(size, align);
        assert forall|n: nat| !self.serves(size, align, n) by {
            assert(!self.free_node(n));
        }
    }

    /// A request that takes a node which holds every free page leaves
    /// nothing: the root is then marked 0, and every request fails until
    /// something is given back.
    pub proof fn lemma_takes_all(&self, after: &Self, size: usize, align: usize, res: Option<usize>, n: nat)
        requires
            self.wf(),
            self.alloc_step(after, size, align, res),
            self.pick(size, align) == Some(n),
            forall|x: nat| #[trigger] page_free(self.marks(), self.region(), x) ==> is_anc(n, x),
        ensures
            mark(after.marks(), 1) == 0,
            forall|s: usize, a: usize| (#[trigger] after.pick(s, a)).is_none(),
    {
        self.lemma_alloc_effect(after, size, align, res);
        self.lemma_shape();
        after.lemma_shape();
        let r = self.region();
        assert(after.live_node(n));
        assert forall|m: nat| !after.free_node(m) by {
            if after.free_node(m) {
                r.lemma_level_range(m);
                lemma_leftmost(r, m, r.level(m) as nat);
                let x = leftmost(m, r.level(m) as nat);
                r.lemma_level_range(x);
                lemma_free_iff_pages_free(after.marks(), r, m);
                assert(page_free(after.marks(), r, x));
                assert forall|k: nat| #[trigger] allocated(self.marks(), r, k) implies !is_anc(k, x) by {
                    assert(self.live_node(k));
                    assert(after.live_node(k));
                }
                assert(page_free(self.marks(), r, x));
                assert(allocated(after.marks(), r, n));
            }
        }
        after.lemma_root_mark();
        assert forall|s: usize, a: usize| (#[trigger] after.pick(s, a)).is_none() by {
            after.lemma_exhausted(s, a);
        }
    }

    /// Once every allocation has been taken back, in whatever order, the
    /// tree is byte for byte what `init` made it.
    pub proof fn lemma_round_trip(&self, new: &Self)
        requires
            self.wf(),
            new.wf(),
            self.region() == new.region(),
            new.live() == Map::<usize, nat>::empty(),
            self.live() == Map::<usize, nat>::empty(),
        ensures
            self.marks() == new.marks(),
    {
        self.lemma_shape();
        assert forall|i: nat| self.live_node(i) == new.live_node(i) by {
            if self.live_node(i) {
                lemma_live_map_has(self.nodes@, self.region(), i);
            }
            if new.live_node(i) {
                lemma_live_map_has(new.nodes@, new.region(), i);
            }
        }
        self.lemma_state_determined(new);
    }

    /// What holds of a node that can serve a request.
    pub proof fn lemma_serves(&self, size: usize, align: usize, n: nat)
        requires
            self.wf(),
            align > 0,
            self.serves(size, align, n),
        ensures
            n >= 2,
            self.region().node_bytes(n) == block_bytes(size),
            self.region().node_addr(n) <= usize::MAX,
            self.placed(size, align, self.region().node_addr(n) as usize),
            !self.live_node(n),
    {
        reveal(BuddyAllocator::placed);
        let r = self.region();
        self.lemma_shape();
        lemma_root_busy(self.nodes@, r);
        r.lemma_node_aligned(n);
        r.lemma_node_bytes(n);
        lemma_free_in_region(self.nodes@, r, n);
        lemma_block_bytes(size);
        r.lemma_level_range(n);
        if is_pow2(align as nat) {
            lemma_next_pow2_fixed(align as nat);
        }
    }
}

impl DynamicAllocator for BuddyAllocator {
    /// The allocator has been set up and its tree is well formed: every
    /// leaf outside the usable pages is marked 0, every usable leaf 0 or 1,
    /// and every inner node is handed out or combines its children.
    closed spec fn wf(&self) -> bool {
        &&& self.shape_ok()
        &&& tree_wf(self.nodes@, self.region())
    }

    /// The nodes that are handed out, each by its first address and its
    /// number of bytes.
    open spec fn live(&self) -> Map<usize, nat> {
        live_map(self.marks(), self.region())
    }

    /// Two nodes that are handed out share no byte.
    proof fn lemma_live_apart(&self, p: usize, q: usize) {
        self.lemma_shape();
        lemma_live_map_apart(self.marks(), self.region(), p, q);
    }

    /// Hands out the node that `pick` names: the free node of the smallest
    /// size that holds `size` bytes, at the highest address that is a
    /// multiple of `next_pow2(align)`.  A request for no bytes takes a page.
    fn allocate(&mut self, size: usize, align: usize) -> (res: Option<usize>)
        ensures
            old(self).alloc_step(final(self), size, align, res),
    {
        let ghost before = *self;
        if align > usize::MAX / 2 + 1 {
            proof {
                self.lemma_huge_align(size, align);
                self.lemma_alloc_none(size, align);
            }
            return None;
        }
        proof {
            lemma_usize_limit();
            lemma_next_pow2_least(align as nat, (usize::MAX / 2 + 1) as nat);
        }
        let blk_n = size / BUDDY_ALLOCATOR_GRANULARITY + if size % BUDDY_ALLOCATOR_GRANULARITY != 0 {
            1
        } else {
            0
        };
        assert(blk_n == pages(size));
        let find_id = self.find_alloc(blk_n, align, 1);
        match find_id {
            Some(id) => {
                proof {
                    self.lemma_pick(size, align, Some(id as nat));
                    self.lemma_serves(size, align, id as nat);
                }
                self.do_alloc(id);
                proof {
                    self.lemma_after_alloc(&before, size, align, id as nat);
                    before.lemma_placed(size, align, before.region().node_addr(id as nat) as usize);
                }
                let addr = self.node_addr(id);
                Some(addr)
            },
            None => {
                proof {
                    self.lemma_pick(size, align, None);
                    self.lemma_alloc_none(size, align);
                }
                None
            },
        }
    }

    /// Takes back the node that starts at `addr`.
    fn dealloc(&mut self, addr: usize)
        ensures
            final(self).region() == old(self).region(),
    {
        proof {
            self.lemma_shape();
            let r = self.region();
            lemma_live_map_node(self.nodes@, r, addr);
            let n = node_at(self.nodes@, r, addr);
            lemma_root_busy(self.nodes@, r);
            r.lemma_node_aligned(n);
            r.lemma_node_bytes(n);
            assert(self.live_node(n) && r.node_holds(n, addr as int));
            lemma_holds_unique(self.nodes@, r, n, self.owner(addr), addr as int);
        }
        BuddyAllocator::dealloc(self, addr)
    }

    /// `minsz` rounded up to a power of two.
    fn grained(&self, minsz: usize) -> (res: usize)
        ensures
            res == next_pow2(minsz as nat),
    {
        proof {
            if minsz > 0 {
                lemma_next_pow2_bounds(minsz as nat);
            }
        }
        BuddyAllocator::grained(self, minsz)
    }

    /// The first address of the node that is handed out and holds `addr`.
    fn compound_head(&self, addr: usize) -> (res: usize) {
        proof {
            self.lemma_shape();
            let r = self.region();
            let p = choose|p: usize| self.live().contains_key(p) && p <= addr < p + self.live()[p];
            lemma_live_map_node(self.nodes@, r, p);
            let n = node_at(self.nodes@, r, p);
            assert(self.live_node(n) && r.node_holds(n, addr as int));
        }
        BuddyAllocator::compound_head(self, addr)
    }
}

impl Default for BuddyAllocator {
    /// An allocator that has not been set up.
    fn default() -> (res: Self)
        ensures
            !res.wf(),
            res.marks().len() == 0,
            res.region() == (Region { start: 0, size: 0 }),
    {
        Self::new()
    }
}

} // verus!
