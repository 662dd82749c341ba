//! The slab allocator: one pool for each of fifteen block sizes, in frames
//! that it gets from the buddy allocator, which also serves what is too
//! large for a pool.

use vstd::prelude::*;
use crate::allocator::DynamicAllocator;
use crate::buddy_allocator::{BuddyAllocator, block_bytes};
use crate::math::{is_pow2, next_pow2, lemma_next_pow2_bounds};
use crate::slub_model::{
    Geometry, class_size, class_count, class_of, is_class_of, class_geometry, lemma_class_geometry,
    lemma_class_of, lemma_class_order,
};
use crate::pool_model::PoolView;
use crate::slub_pool::SlubPool;

verus! {

/// The number of block size classes.
pub const SLUB_POOL_COUNT: usize = 15;

/// The block size of pool `id`.
pub fn slub_pool_size(id: usize) -> (res: usize)
    requires
        id < SLUB_POOL_COUNT,
    ensures
        res == class_size(id as int),
{
    if id == 0 {
        8
    } else if id == 1 {
        16
    } else if id == 2 {
        24
    } else if id == 3 {
        32
    } else if id == 4 {
        48
    } else if id == 5 {
        64
    } else if id == 6 {
        92
    } else if id == 7 {
        128
    } else if id == 8 {
        192
    } else if id == 9 {
        256
    } else if id == 10 {
        384
    } else if id == 11 {
        512
    } else if id == 12 {
        768
    } else if id == 13 {
        1024
    } else {
        2048
    }
}

/// The slab pools, one for each block size class.
pub struct SlubAllocator {
    slub_pools: Vec<SlubPool>,
}

impl SlubAllocator {
    /// The pools, by class number.
    pub closed spec fn pools(&self) -> Seq<SlubPool> {
        self.slub_pools@
    }

    /// The frames of pool `i`.
    pub open spec fn pool(&self, i: int) -> PoolView {
        self.pools()[i]@
    }

    /// The layout of the frames of pool `i`.
    pub open spec fn geometry(i: int) -> Geometry {
        class_geometry(class_size(i))
    }

    /// Some pool owns a frame that starts at `b`.
    pub open spec fn has_frame(&self, b: usize) -> bool {
        exists|i: int| 0 <= i < class_count() && #[trigger] self.pool(i).has_frame(b)
    }

    /// Block `a` is handed out from some pool.
    pub open spec fn holds(&self, a: usize) -> bool {
        exists|i: int| 0 <= i < class_count() && #[trigger] self.pool(i).holds(a)
    }

    /// The number of the pool that block `a` is handed out from.
    pub open spec fn holder(&self, a: usize) -> int {
        choose|i: int| 0 <= i < class_count() && #[trigger] self.pool(i).holds(a)
    }

    /// Every frame of pool `i` is a live allocation of `back` that is at
    /// least a frame long.
    pub open spec fn frames_backed(&self, back: &BuddyAllocator, i: int) -> bool {
        forall|b: usize| #[trigger]
            self.pool(i).has_frame(b) ==> back.live().contains_key(b) && back.live()[b] >= Self::geometry(
                i,
            ).frame_size
    }

    /// No frame of pool `i` is a frame of another pool.
    pub open spec fn frames_own(&self, i: int) -> bool {
        forall|j: int, b: usize|
            0 <= j < class_count() && j != i && self.pool(i).has_frame(b) ==>
                !#[trigger] self.pool(j).has_frame(b)
    }

    /// Pool `i` is the well-formed pool of class `i`, and its frames are
    /// its own and come from `back`.
    pub open spec fn pool_ok(&self, back: &BuddyAllocator, i: int) -> bool {
        &&& self.pools()[i].wf()
        &&& self.pool(i).class == class_size(i)
        &&& self.pools()[i].geometry() == Self::geometry(i)
        &&& self.frames_backed(back, i)
        &&& self.frames_own(i)
    }

    /// There are fifteen pools, each as `pool_ok` says.
    pub open spec fn wf(&self, back: &BuddyAllocator) -> bool {
        &&& self.pools().len() == class_count()
        &&& forall|i: int| 0 <= i < class_count() ==> #[trigger] self.pool_ok(back, i)
    }

    /// The allocations that are live: the blocks that the pools have handed
    /// out, each with its pool's block size, and the allocations of `back`
    /// that are not frames of a pool.
    pub open spec fn live(&self, back: &BuddyAllocator) -> Map<usize, nat> {
        Map::new(
            |a: usize| self.holds(a) || (back.live().contains_key(a) && !self.has_frame(a)),
            |a: usize|
                if self.holds(a) {
                    Self::geometry(self.holder(a)).blk_size
                } else {
                    back.live()[a]
                },
        )
    }

    /// The fifteen pools, without frames.
    pub fn new(back: &BuddyAllocator) -> (res: Self)
        ensures
            res.pools().len() == class_count(),
            forall|i: int| 0 <= i < class_count() ==> #[trigger] res.pool(i) ==
                (PoolView { class: class_size(i) as usize, current: None, partial: Seq::empty(), full: Seq::empty() }),
            forall|i: int| 0 <= i < class_count() ==> #[trigger] res.pools()[i].wf(),
    {
        let mut slub_pools: Vec<SlubPool> = Vec::new();
        let mut i: usize = 0;
        while i < SLUB_POOL_COUNT
            invariant
                i <= SLUB_POOL_COUNT,
                slub_pools.len() == i,
                forall|k: int| 0 <= k < i ==> (#[trigger] slub_pools[k])@ ==
                    (PoolView { class: class_size(k) as usize, current: None, partial: Seq::empty(), full: Seq::empty() }),
                forall|k: int| 0 <= k < i ==> (#[trigger] slub_pools[k]).wf(),
            decreases SLUB_POOL_COUNT - i,
        {
            proof {
                lemma_class_order();
            }
            let pool = SlubPool::new(back, slub_pool_size(i));
            slub_pools.push(pool);
            i = i + 1;
        }
        SlubAllocator { slub_pools }
    }

    /// Pool `id`.
    pub fn pool_at(&self, id: usize) -> (res: &SlubPool)
        requires
            id < self.pools().len(),
        ensures
            *res == self.pools()[id as int],
    {
        &self.slub_pools[id]
    }

    /// The largest size that a pool serves.
    pub fn max_size() -> (res: usize)
        ensures
            res == 2048,
    {
        slub_pool_size(SLUB_POOL_COUNT - 1)
    }

    /// The number of the smallest class that holds `minsz` bytes.
    pub fn pool_id_from_size(&self, minsz: usize) -> (id: usize)
        requires
            minsz <= 2048,
        ensures
            id < SLUB_POOL_COUNT,
            id == class_of(minsz as nat),
            is_class_of(minsz as nat, id as int),
    {
        let mut id: usize = 0;
        while slub_pool_size(id) < minsz
            invariant
                id < SLUB_POOL_COUNT,
                minsz <= 2048,
                forall|k: int| 0 <= k < id ==> #[trigger] class_size(k) < minsz,
            decreases SLUB_POOL_COUNT - id,
        {
            id = id + 1;
        }
        proof {
            if id > 0 {
                assert(class_size(id - 1) < minsz);
            }
            lemma_class_of(minsz as nat, id as int);
        }
        id
    }

    /// The first address of the allocation of `back` that holds `addr`.
    fn frame_from_addr(&self, back: &BuddyAllocator, addr: usize) -> (head: usize)
        requires
            back.wf(),
            exists|p: usize| back.live().contains_key(p) && p <= addr < p + back.live()[p],
        ensures
            back.live().contains_key(head),
            head <= addr < head + back.live()[head],
    {
        DynamicAllocator::compound_head(back, addr)
    }

    /// The number of the pool that owns the frame at `frame`, if one does.
    fn pool_from_frame(&self, frame: usize) -> (res: Option<usize>)
        requires
            self.pools().len() == class_count(),
        ensures
            match res {
                Some(i) => i < SLUB_POOL_COUNT && self.pool(i as int).has_frame(frame),
                None => !self.has_frame(frame),
            },
    {
        let mut i: usize = 0;
        while i < SLUB_POOL_COUNT
            invariant
                i <= SLUB_POOL_COUNT,
                self.pools().len() == class_count(),
                forall|k: int| 0 <= k < i ==> !#[trigger] self.pool(k).has_frame(frame),
            decreases SLUB_POOL_COUNT - i,
        {
            if self.slub_pools[i].owns_frame(frame) {
                return Some(i);
            }
            i = i + 1;
        }
        None
    }

    /// A block that pool `i` has handed out lies inside a frame of the
    /// pool, behind the frame's first byte, and so inside a live allocation
    /// of `back`.
    pub proof fn lemma_block_inside(&self, back: &BuddyAllocator, i: int, a: usize)
        requires
            self.wf(back),
            0 <= i < class_count(),
            self.pool(i).holds(a),
        ensures
            self.pool(i).has_frame(PoolView::frame_base(Self::geometry(i), a)),
            back.live().contains_key(PoolView::frame_base(Self::geometry(i), a)),
            Self::geometry(i).is_block(PoolView::frame_base(Self::geometry(i), a) as int, a as int),
            PoolView::frame_base(Self::geometry(i), a) < a,
            a + Self::geometry(i).blk_size <= PoolView::frame_base(Self::geometry(i), a) + back.live()[PoolView::frame_base(
                Self::geometry(i),
                a,
            )],
    {
        let g = Self::geometry(i);
        assert(self.pool_ok(back, i));
        self.pool(i).lemma_holds_in_frame(g, a);
        let b = PoolView::frame_base(g, a);
        g.lemma_is_block(b as int, a as int);
        assert(self.pool(i).has_frame(b));
    }

    /// The frame of a block that a pool has handed out is what the back
    /// allocator finds around the block: whatever live allocation of `back`
    /// holds the block's address starts where the block's frame starts, and
    /// the frame is a frame of the block's pool.
    pub proof fn lemma_frame_head(&self, back: &BuddyAllocator, a: usize, head: usize)
        requires
            self.wf(back),
            back.wf(),
            self.holds(a),
            back.live().contains_key(head),
            head <= a < head + back.live()[head],
        ensures
            head == PoolView::frame_base(Self::geometry(self.holder(a)), a),
            head != a,
            self.pool(self.holder(a)).has_frame(head),
    {
        let i = self.holder(a);
        self.lemma_block_inside(back, i, a);
        back.lemma_live_container(head, PoolView::frame_base(Self::geometry(i), a), a as int);
    }

    /// A block is handed out from one pool only.
    pub proof fn lemma_one_holder(&self, back: &BuddyAllocator, i: int, j: int, a: usize)
        requires
            self.wf(back),
            back.wf(),
            0 <= i < class_count(),
            0 <= j < class_count(),
            self.pool(i).holds(a),
            self.pool(j).holds(a),
        ensures
            i == j,
    {
        self.lemma_block_inside(back, i, a);
        self.lemma_block_inside(back, j, a);
        let bi = PoolView::frame_base(Self::geometry(i), a);
        let bj = PoolView::frame_base(Self::geometry(j), a);
        back.lemma_live_container(bi, bj, a as int);
        if i != j {
            assert(self.pool_ok(back, i));
            assert(self.frames_own(i));
            assert(!self.pool(j).has_frame(bi));
        }
    }

    /// The pool that a block is handed out from.
    pub proof fn lemma_holder(&self, back: &BuddyAllocator, i: int, a: usize)
        requires
            self.wf(back),
            back.wf(),
            0 <= i < class_count(),
            self.pool(i).holds(a),
        ensures
            self.holds(a),
            self.holder(a) == i,
    {
        let h = self.holder(a);
        self.lemma_one_holder(back, i, h, a);
    }

    /// A block that a pool has handed out is no allocation of `back`, nor a
    /// frame.
    pub proof fn lemma_held_not_base(&self, back: &BuddyAllocator, a: usize)
        requires
            self.wf(back),
            back.wf(),
            self.holds(a),
        ensures
            !back.live().contains_key(a),
    {
        let i = self.holder(a);
        self.lemma_block_inside(back, i, a);
        let b = PoolView::frame_base(Self::geometry(i), a);
        if back.live().contains_key(a) {
            back.lemma_live_len(a);
            back.lemma_live_container(a, b, a as int);
        }
    }

    /// Two blocks of one frame do not overlap.
    proof fn lemma_blocks_apart(g: Geometry, b: int, p: int, q: int)
        requires
            g.wf(),
            g.is_block(b, p),
            g.is_block(b, q),
            p != q,
        ensures
            p + g.blk_size <= q || q + g.blk_size <= p,
    {
        g.lemma_is_block(b, p);
        g.lemma_is_block(b, q);
        let jp = g.block_index(b, p);
        let jq = g.block_index(b, q);
        let s = g.blk_size as int;
        if jp < jq {
            assert(jp * s + s <= jq * s) by (nonlinear_arith)
                requires
                    jp + 1 <= jq,
                    s > 0,
            ;
        } else {
            assert(jq * s + s <= jp * s) by (nonlinear_arith)
                requires
                    jq + 1 <= jp,
                    s > 0,
            ;
        }
    }

    /// Live allocations do not overlap.
    pub proof fn lemma_live_apart(&self, back: &BuddyAllocator, p: usize, q: usize)
        requires
            self.wf(back),
            back.wf(),
            self.live(back).contains_key(p),
            self.live(back).contains_key(q),
            p != q,
        ensures
            p + self.live(back)[p] <= q || q + self.live(back)[q] <= p,
    {
        if self.holds(p) {
            let i = self.holder(p);
            self.lemma_block_inside(back, i, p);
            let bp = PoolView::frame_base(Self::geometry(i), p);
            if self.holds(q) {
                let j = self.holder(q);
                self.lemma_block_inside(back, j, q);
                let bq = PoolView::frame_base(Self::geometry(j), q);
                if bp != bq {
                    back.lemma_live_apart(bp, bq);
                } else {
                    if i != j {
                        assert(self.pool_ok(back, i));
                        assert(self.frames_own(i));
                        assert(!self.pool(j).has_frame(bp));
                    }
                    assert(self.pool_ok(back, i));
                    Self::lemma_blocks_apart(Self::geometry(i), bp as int, p as int, q as int);
                }
            } else {
                assert(self.pool(i).has_frame(bp));
                back.lemma_live_apart(bp, q);
                back.lemma_live_len(q);
            }
        } else if self.holds(q) {
            let j = self.holder(q);
            self.lemma_block_inside(back, j, q);
            let bq = PoolView::frame_base(Self::geometry(j), q);
            assert(self.pool(j).has_frame(bq));
            back.lemma_live_apart(bq, p);
            back.lemma_live_len(p);
        } else {
            back.lemma_live_apart(p, q);
        }
    }

    /// The pools other than pool `i` are the same in `other`.
    pub open spec fn same_but(&self, other: &Self, i: int) -> bool {
        &&& other.pools().len() == self.pools().len()
        &&& forall|j: int| 0 <= j < self.pools().len() && j != i ==> #[trigger] other.pools()[j] ==
            self.pools()[j]
    }

    /// A step that changes pool `i` and `back` keeps the pools well formed
    /// if the pool is well formed after it, every frame that the pool has
    /// after it is a live allocation of the new `back`, one that the pool
    /// had before it or that was not live then, and every frame of another
    /// pool is live as before.
    proof fn lemma_wf_step(&self, back: &BuddyAllocator, after: &Self, back1: &BuddyAllocator, i: int)
        requires
            self.wf(back),
            0 <= i < class_count(),
            self.same_but(after, i),
            after.pools()[i].wf(),
            after.pool(i).class == class_size(i),
            after.pools()[i].geometry() == Self::geometry(i),
            forall|b: usize| #[trigger] after.pool(i).has_frame(b) ==> {
                &&& back1.live().contains_key(b)
                &&& back1.live()[b] >= Self::geometry(i).frame_size
                &&& self.pool(i).has_frame(b) || !back.live().contains_key(b)
            },
            forall|b: usize| #[trigger] back.live().contains_key(b) && !self.pool(i).has_frame(b) ==>
                back1.live().contains_key(b) && back1.live()[b] == back.live()[b],
        ensures
            after.wf(back1),
    {
        assert forall|k: int| 0 <= k < class_count() implies #[trigger] after.pool_ok(back1, k) by {
            assert(self.pool_ok(back, k));
            assert(self.pool_ok(back, i));
            if k == i {
                assert forall|j: int, b: usize| 0 <= j < class_count() && j != i &&
                    after.pool(i).has_frame(b) implies !#[trigger] after.pool(j).has_frame(b) by {
                    assert(after.pools()[j] == self.pools()[j]);
                    assert(self.pool_ok(back, j));
                    if after.pool(j).has_frame(b) {
                        assert(self.pool(j).has_frame(b));
                        assert(back.live().contains_key(b));
                        assert(!self.pool(j).has_frame(b));
                    }
                }
            } else {
                assert(after.pools()[k] == self.pools()[k]);
                assert forall|b: usize| #[trigger] after.pool(k).has_frame(b) implies
                    back1.live().contains_key(b) && back1.live()[b] >= Self::geometry(k).frame_size by {
                    assert(self.pool(k).has_frame(b));
                    assert(!self.pool(i).has_frame(b));
                    assert(back.live().contains_key(b));
                }
                assert forall|j: int, b: usize| 0 <= j < class_count() && j != k &&
                    after.pool(k).has_frame(b) implies !#[trigger] after.pool(j).has_frame(b) by {
                    assert(self.pool(k).has_frame(b));
                    if j == i {
                        if after.pool(i).has_frame(b) {
                            assert(back.live().contains_key(b));
                            assert(self.pool(i).has_frame(b));
                            assert(!self.pool(k).has_frame(b));
                        }
                    } else {
                        assert(after.pools()[j] == self.pools()[j]);
                        assert(!self.pool(j).has_frame(b));
                    }
                }
            }
        }
    }

    /// What a step in pool `i` does to the set of blocks that the pools
    /// have handed out.
    proof fn lemma_holds_step(
        &self,
        back: &BuddyAllocator,
        after: &Self,
        back1: &BuddyAllocator,
        add: Option<usize>,
        rem: Option<usize>,
        i: int,
    )
        requires
            self.wf(back),
            back.wf(),
            after.wf(back1),
            back1.wf(),
            0 <= i < class_count(),
            self.same_but(after, i),
            forall|a: usize| #[trigger] after.pool(i).holds(a) <==> (self.pool(i).holds(a) || add ==
                Some(a)) && rem != Some(a),
            rem.is_some() ==> self.pool(i).holds(rem.unwrap()),
        ensures
            forall|a: usize| #[trigger] after.holds(a) <==> (self.holds(a) || add == Some(a)) && rem != Some(a),
            forall|a: usize| #[trigger] after.holds(a) && self.holds(a) ==> after.holder(a) == self.holder(a),
            add.is_some() && rem != add ==> after.holds(add.unwrap()) && after.holder(add.unwrap()) == i,
    {
        assert forall|a: usize| #[trigger] after.holds(a) <==> (self.holds(a) || add == Some(a)) &&
            rem != Some(a) by {
            if after.holds(a) {
                let k = after.holder(a);
                if k != i {
                    assert(after.pools()[k] == self.pools()[k]);
                    assert(self.pool(k).holds(a));
                    if rem == Some(a) {
                        self.lemma_one_holder(back, i, k, a);
                    }
                }
            }
            if (self.holds(a) || add == Some(a)) && rem != Some(a) {
                if self.holds(a) {
                    let k = self.holder(a);
                    if k != i {
                        assert(after.pools()[k] == self.pools()[k]);
                        assert(after.pool(k).holds(a));
                    } else {
                        assert(after.pool(i).holds(a));
                    }
                } else {
                    assert(after.pool(i).holds(a));
                }
            }
        }
        assert forall|a: usize| #[trigger] after.holds(a) && self.holds(a) implies after.holder(a) ==
            self.holder(a) by {
            let k = self.holder(a);
            if k != i {
                assert(after.pools()[k] == self.pools()[k]);
                assert(after.pool(k).holds(a));
            } else {
                assert(after.pool(i).holds(a));
            }
            after.lemma_holder(back1, k, a);
        }
        if add.is_some() && rem != add {
            assert(after.pool(i).holds(add.unwrap()));
            after.lemma_holder(back1, i, add.unwrap());
        }
    }

    /// What a step in pool `i` does to the live allocations, where the
    /// allocations of `back` that are not frames stay as they are.
    proof fn lemma_live_step(
        &self,
        back: &BuddyAllocator,
        after: &Self,
        back1: &BuddyAllocator,
        add: Option<usize>,
        rem: Option<usize>,
        i: int,
    )
        requires
            self.wf(back),
            back.wf(),
            after.wf(back1),
            back1.wf(),
            0 <= i < class_count(),
            self.same_but(after, i),
            forall|a: usize| #[trigger] after.pool(i).holds(a) <==> (self.pool(i).holds(a) || add ==
                Some(a)) && rem != Some(a),
            rem.is_some() ==> self.pool(i).holds(rem.unwrap()),
            add.is_some() ==> !self.pool(i).holds(add.unwrap()),
            add.is_none() || rem.is_none(),
            forall|a: usize| (#[trigger] back1.live().contains_key(a) && !after.has_frame(a)) <==>
                (back.live().contains_key(a) && !self.has_frame(a)),
            forall|a: usize| #[trigger] back1.live().contains_key(a) && back.live().contains_key(a) ==>
                back1.live()[a] == back.live()[a],
        ensures
            add matches Some(a) ==> !self.live(back).contains_key(a) && after.live(back1) ==
                self.live(back).insert(a, Self::geometry(i).blk_size),
            rem matches Some(a) ==> self.live(back).contains_key(a) && after.live(back1) ==
                self.live(back).remove(a),
            add.is_none() && rem.is_none() ==> after.live(back1) == self.live(back),
    {
        self.lemma_holds_step(back, after, back1, add, rem, i);
        let l0 = self.live(back);
        let l1 = after.live(back1);
        if add.is_some() {
            let a = add.unwrap();
            after.lemma_held_not_base(back1, a);
            if self.holds(a) {
                let k = self.holder(a);
                assert(after.pools()[k] == self.pools()[k]);
                assert(after.pool(k).holds(a));
                after.lemma_one_holder(back1, i, k, a);
            }
            assert(!(back1.live().contains_key(a) && !after.has_frame(a)));
            assert(!l0.contains_key(a));
            let t = l0.insert(a, Self::geometry(i).blk_size);
            assert forall|x: usize| l1.contains_key(x) <==> t.contains_key(x) by {
                assert(after.holds(x) <==> (self.holds(x) || add == Some(x)) && rem != Some(x));
                assert((back1.live().contains_key(x) && !after.has_frame(x)) <==>
                    (back.live().contains_key(x) && !self.has_frame(x)));
            }
            assert forall|x: usize| l1.contains_key(x) implies #[trigger] l1[x] == t[x] by {
                assert(after.holds(x) <==> (self.holds(x) || add == Some(x)) && rem != Some(x));
                if x != a && after.holds(x) {
                    assert(after.holds(x) && self.holds(x) ==> after.holder(x) == self.holder(x));
                }
                if !after.holds(x) {
                    assert((back1.live().contains_key(x) && !after.has_frame(x)) <==>
                        (back.live().contains_key(x) && !self.has_frame(x)));
                    assert(back1.live().contains_key(x) && back.live().contains_key(x) ==>
                        back1.live()[x] == back.live()[x]);
                }
            }
            assert(l1 =~= t);
        } else {
            if rem.is_some() {
                let a = rem.unwrap();
                assert(self.pool(i).holds(a));
                assert(self.holds(a));
            }
            let t = if rem.is_some() {
                l0.remove(rem.unwrap())
            } else {
                l0
            };
            assert forall|x: usize| l1.contains_key(x) <==> t.contains_key(x) by {
                assert(after.holds(x) <==> (self.holds(x) || add == Some(x)) && rem != Some(x));
                assert((back1.live().contains_key(x) && !after.has_frame(x)) <==>
                    (back.live().contains_key(x) && !self.has_frame(x)));
                if rem == Some(x) {
                    self.lemma_held_not_base(back, x);
                }
            }
            assert forall|x: usize| l1.contains_key(x) implies #[trigger] l1[x] == t[x] by {
                assert(after.holds(x) <==> (self.holds(x) || add == Some(x)) && rem != Some(x));
                if after.holds(x) {
                    assert(after.holds(x) && self.holds(x) ==> after.holder(x) == self.holder(x));
                } else {
                    assert((back1.live().contains_key(x) && !after.has_frame(x)) <==>
                        (back.live().contains_key(x) && !self.has_frame(x)));
                    assert(back1.live().contains_key(x) && back.live().contains_key(x) ==>
                        back1.live()[x] == back.live()[x]);
                    if rem == Some(x) {
                        self.lemma_held_not_base(back, x);
                    }
                }
            }
            assert(l1 =~= t);
        }
    }

    /// `after` and `back1` are what a request aligned to `align`, served by
    /// pool `i`, makes of the pools and of `back`, and `res` is what the
    /// request gets: the pool is as `PoolView::after_alloc` says, and `back`
    /// has handed out a new frame if the pool needed one.
    pub open spec fn pool_alloc_step(
        &self,
        back: &BuddyAllocator,
        after: &Self,
        back1: &BuddyAllocator,
        i: int,
        align: usize,
        res: Option<usize>,
    ) -> bool {
        let fresh = self.pools()[i].fresh_base(back);
        let g = Self::geometry(i);
        &&& self.same_but(after, i)
        &&& after.pool(i) == self.pool(i).after_alloc(g, align, fresh)
        &&& res == self.pool(i).alloc_result(g, align, fresh)
        &&& self.pool(i).needs_frame() ==> back.alloc_step(back1, g.frame_size as usize, 1, fresh)
        &&& !self.pool(i).needs_frame() ==> *back1 == *back
    }

    /// `after` and `back1` are what the return of block `addr` to pool `i`
    /// makes of the pools and of `back`: the pool is as
    /// `PoolView::after_dealloc` says, and `back` has taken back the block's
    /// frame if the pool let it go.
    pub open spec fn pool_dealloc_step(
        &self,
        back: &BuddyAllocator,
        after: &Self,
        back1: &BuddyAllocator,
        i: int,
        addr: usize,
    ) -> bool {
        let g = Self::geometry(i);
        &&& self.same_but(after, i)
        &&& after.pool(i) == self.pool(i).after_dealloc(g, addr)
        &&& self.pool(i).releases(g, addr) ==> {
            &&& back1.wf()
            &&& back1.region() == back.region()
            &&& back1.live() == back.live().remove(PoolView::frame_base(g, addr))
        }
        &&& !self.pool(i).releases(g, addr) ==> *back1 == *back
    }

    /// A request to pool `i` that asks for no alignment fails only where
    /// the pool needs a new frame and `back` has no free node of a frame's
    /// size.
    pub proof fn lemma_progress(
        &self,
        back: &BuddyAllocator,
        after: &Self,
        back1: &BuddyAllocator,
        i: int,
        res: Option<usize>,
    )
        requires
            back.wf(),
            self.wf(back),
            0 <= i < class_count(),
            self.pool_alloc_step(back, after, back1, i, 1, res),
        ensures
            res.is_none() <==> self.pool(i).needs_frame() && back.pick(
                Self::geometry(i).frame_size as usize,
                1,
            ).is_none(),
    {
        let g = Self::geometry(i);
        let fresh = self.pools()[i].fresh_base(back);
        assert(self.pool_ok(back, i));
        lemma_class_order();
        lemma_class_geometry(class_size(i) as nat);
        if self.pool(i).needs_frame() {
            back.lemma_alloc_effect(back1, g.frame_size as usize, 1, fresh);
            if let Some(p) = fresh {
                back.lemma_placed_pow2(g.frame_size as usize, 1, p);
            }
        }
        self.pool(i).lemma_unaligned_served(g, fresh);
    }

    /// The frames of all pools after a step in pool `i` that adds frame
    /// `add`, or takes frame `rem` away, if any.
    proof fn lemma_frames_step(
        &self,
        back: &BuddyAllocator,
        after: &Self,
        i: int,
        add: Option<usize>,
        rem: Option<usize>,
    )
        requires
            self.wf(back),
            0 <= i < class_count(),
            self.same_but(after, i),
            forall|b: usize| #[trigger] after.pool(i).has_frame(b) <==> (self.pool(i).has_frame(b) ||
                add == Some(b)) && rem != Some(b),
            rem.is_some() ==> self.pool(i).has_frame(rem.unwrap()),
        ensures
            forall|b: usize| #[trigger] after.has_frame(b) <==> (self.has_frame(b) || add == Some(b)) &&
                rem != Some(b),
    {
        assert forall|b: usize| #[trigger] after.has_frame(b) <==> (self.has_frame(b) || add == Some(b)) &&
            rem != Some(b) by {
            assert(after.pool(i).has_frame(b) <==> (self.pool(i).has_frame(b) || add == Some(b)) &&
                rem != Some(b));
            if after.has_frame(b) {
                let k = choose|k: int| 0 <= k < class_count() && #[trigger] after.pool(k).has_frame(b);
                if k != i {
                    assert(after.pools()[k] == self.pools()[k]);
                    assert(self.pool(k).has_frame(b));
                    if rem == Some(b) {
                        assert(self.pool_ok(back, i));
                        assert(self.frames_own(i));
                        assert(!self.pool(k).has_frame(b));
                    }
                }
            }
            if (self.has_frame(b) || add == Some(b)) && rem != Some(b) {
                if self.has_frame(b) {
                    let k = choose|k: int| 0 <= k < class_count() && #[trigger] self.pool(k).has_frame(b);
                    if k != i {
                        assert(after.pools()[k] == self.pools()[k]);
                        assert(after.pool(k).has_frame(b));
                    } else {
                        assert(after.pool(i).has_frame(b));
                    }
                } else {
                    assert(after.pool(i).has_frame(b));
                }
            }
        }
    }

    /// What a request served by pool `i` does to the pool and to `back`.
    proof fn lemma_slab_alloc_deltas(
        &self,
        back: &BuddyAllocator,
        after: &Self,
        back1: &BuddyAllocator,
        i: int,
        align: usize,
        res: Option<usize>,
    )
        requires
            self.wf(back),
            back.wf(),
            0 <= i < class_count(),
            align > 0,
            self.pool_alloc_step(back, after, back1, i, align, res),
            self.pools()[i].fresh_base(back) matches Some(b) ==> {
                &&& b as int % Self::geometry(i).frame_size as int == 0
                &&& b + Self::geometry(i).frame_size <= usize::MAX
                &&& back1.live()[b] >= Self::geometry(i).frame_size
            },
        ensures
            back1.wf(),
            back1.region() == back.region(),
            after.pool(i).class == class_size(i),
            forall|b: usize| #[trigger] after.pool(i).has_frame(b) <==> (self.pool(i).has_frame(b) ||
                self.pools()[i].fresh_base(back) == Some(b)) && None::<usize> != Some(b),
            forall|a: usize| #[trigger] after.pool(i).holds(a) <==> (self.pool(i).holds(a) || res ==
                Some(a)) && None::<usize> != Some(a),
            res matches Some(a) ==> a % align == 0 && !self.pool(i).holds(a),
            match self.pools()[i].fresh_base(back) {
                Some(b) => !back.live().contains_key(b) && back1.live() ==
                    back.live().insert(b, block_bytes(Self::geometry(i).frame_size as usize)),
                None => back1.live() == back.live(),
            },
    {
        let g = Self::geometry(i);
        let fresh = self.pools()[i].fresh_base(back);
        let v0 = self.pool(i);
        assert(self.pool_ok(back, i));
        if v0.needs_frame() {
            back.lemma_alloc_effect(back1, g.frame_size as usize, 1, fresh);
        }
        if fresh.is_some() {
            let b = fresh.unwrap();
            if v0.has_frame(b) {
                assert(back.live().contains_key(b));
            }
        }
        v0.lemma_after_alloc(g, align, fresh);
        assert forall|b: usize| #[trigger] after.pool(i).has_frame(b) <==> (self.pool(i).has_frame(b) ||
            fresh == Some(b)) && None::<usize> != Some(b) by {
            assert(after.pool(i).has_frame(b) <==> v0.has_frame(b) || (v0.needs_frame() && fresh == Some(b)));
        }
        assert forall|a: usize| #[trigger] after.pool(i).holds(a) <==> (self.pool(i).holds(a) || res ==
            Some(a)) && None::<usize> != Some(a) by {
            assert(after.pool(i).holds(a) <==> v0.holds(a) || res == Some(a));
        }
    }

    /// A request served by a pool keeps the pools well formed and adds the
    /// block that it gets, if it gets one, to the live allocations.
    proof fn lemma_slab_alloc(
        &self,
        back: &BuddyAllocator,
        after: &Self,
        back1: &BuddyAllocator,
        i: int,
        align: usize,
        res: Option<usize>,
    )
        requires
            self.wf(back),
            back.wf(),
            0 <= i < class_count(),
            align > 0,
            self.pool_alloc_step(back, after, back1, i, align, res),
            after.pools()[i].wf(),
            after.pools()[i].geometry() == Self::geometry(i),
            self.pools()[i].fresh_base(back) matches Some(b) ==> {
                &&& b as int % Self::geometry(i).frame_size as int == 0
                &&& b + Self::geometry(i).frame_size <= usize::MAX
                &&& back1.live()[b] >= Self::geometry(i).frame_size
            },
        ensures
            after.wf(back1),
            back1.wf(),
            back1.region() == back.region(),
            res matches Some(a) ==> {
                &&& a % align == 0
                &&& !self.live(back).contains_key(a)
                &&& after.live(back1) == self.live(back).insert(a, Self::geometry(i).blk_size)
            },
            res.is_none() ==> after.live(back1) == self.live(back),
    {
        let g = Self::geometry(i);
        let fresh = self.pools()[i].fresh_base(back);
        self.lemma_slab_alloc_deltas(back, after, back1, i, align, res);
        assert(self.pool_ok(back, i));
        assert forall|b: usize| #[trigger] after.pool(i).has_frame(b) implies {
            &&& back1.live().contains_key(b)
            &&& back1.live()[b] >= g.frame_size
            &&& self.pool(i).has_frame(b) || !back.live().contains_key(b)
        } by {
            if self.pool(i).has_frame(b) {
                assert(back.live().contains_key(b));
            }
        }
        self.lemma_wf_step(back, after, back1, i);
        self.lemma_frames_step(back, after, i, fresh, None);
        assert forall|a: usize| (#[trigger] back1.live().contains_key(a) && !after.has_frame(a)) <==>
            (back.live().contains_key(a) && !self.has_frame(a)) by {
            assert(after.has_frame(a) <==> (self.has_frame(a) || fresh == Some(a)) && None::<usize> != Some(a));
            if self.has_frame(a) {
                let k = choose|k: int| 0 <= k < class_count() && #[trigger] self.pool(k).has_frame(a);
                assert(self.pool_ok(back, k));
            }
        }
        self.lemma_live_step(back, after, back1, res, None, i);
    }

    /// The return of a block to its pool keeps the pools well formed and
    /// takes the block from the live allocations.
    proof fn lemma_slab_dealloc(
        &self,
        back: &BuddyAllocator,
        after: &Self,
        back1: &BuddyAllocator,
        i: int,
        addr: usize,
    )
        requires
            self.wf(back),
            back.wf(),
            0 <= i < class_count(),
            self.pool(i).holds(addr),
            self.pool_dealloc_step(back, after, back1, i, addr),
            after.pools()[i].wf(),
            after.pools()[i].geometry() == Self::geometry(i),
        ensures
            after.wf(back1),
            back1.wf(),
            back1.region() == back.region(),
            self.live(back).contains_key(addr),
            after.live(back1) == self.live(back).remove(addr),
    {
        let g = Self::geometry(i);
        let v0 = self.pool(i);
        let b0 = PoolView::frame_base(g, addr);
        assert(self.pool_ok(back, i));
        v0.lemma_after_dealloc(g, addr);
        assert forall|b: usize| #[trigger] after.pool(i).has_frame(b) implies {
            &&& back1.live().contains_key(b)
            &&& back1.live()[b] >= g.frame_size
            &&& self.pool(i).has_frame(b) || !back.live().contains_key(b)
        } by {
            assert(after.pool(i).has_frame(b) <==> v0.has_frame(b) && !(v0.releases(g, addr) && b == b0));
            assert(back.live().contains_key(b));
        }
        self.lemma_wf_step(back, after, back1, i);
        assert forall|a: usize| #[trigger] after.pool(i).holds(a) <==> (self.pool(i).holds(a) ||
            None::<usize> == Some(a)) && Some(addr) != Some(a) by {
            assert(after.pool(i).holds(a) <==> v0.holds(a) && a != addr);
        }
        assert forall|a: usize| (#[trigger] back1.live().contains_key(a) && !after.has_frame(a)) <==>
            (back.live().contains_key(a) && !self.has_frame(a)) by {
            assert(after.pool(i).has_frame(a) <==> v0.has_frame(a) && !(v0.releases(g, addr) && a == b0));
            if after.has_frame(a) {
                let k = choose|k: int| 0 <= k < class_count() && #[trigger] after.pool(k).has_frame(a);
                if k != i {
                    assert(after.pools()[k] == self.pools()[k]);
                    assert(self.pool(k).has_frame(a));
                }
            }
            if self.has_frame(a) {
                let k = choose|k: int| 0 <= k < class_count() && #[trigger] self.pool(k).has_frame(a);
                assert(self.pool_ok(back, k));
                assert(back.live().contains_key(a));
                if k != i {
                    assert(after.pools()[k] == self.pools()[k]);
                    assert(after.pool(k).has_frame(a));
                    assert(self.frames_own(i));
                    if a == b0 {
                        assert(!self.pool(k).has_frame(b0));
                    }
                } else if !(v0.releases(g, addr) && a == b0) {
                    assert(after.pool(i).has_frame(a));
                }
            }
            if v0.releases(g, addr) && a == b0 {
                assert(self.pool(i).has_frame(b0));
            }
        }
        self.lemma_live_step(back, after, back1, None, Some(addr), i);
    }

    /// What `back` hands out or takes back on its own account leaves the
    /// pools well formed, where it is no frame of a pool.
    proof fn lemma_back_step(&self, back: &BuddyAllocator, back1: &BuddyAllocator)
        requires
            self.wf(back),
            forall|b: usize| #[trigger] back.live().contains_key(b) && self.has_frame(b) ==>
                back1.live().contains_key(b) && back1.live()[b] == back.live()[b],
        ensures
            self.wf(back1),
    {
        assert forall|k: int| 0 <= k < class_count() implies #[trigger] self.pool_ok(back1, k) by {
            assert(self.pool_ok(back, k));
            assert forall|b: usize| #[trigger] self.pool(k).has_frame(b) implies
                back1.live().contains_key(b) && back1.live()[b] >= Self::geometry(k).frame_size by {
                assert(back.live().contains_key(b));
                assert(self.has_frame(b));
            }
        }
    }

    /// A request that `back` serves adds what it gets to the live
    /// allocations.
    proof fn lemma_back_alloc(
        &self,
        back: &BuddyAllocator,
        back1: &BuddyAllocator,
        size: usize,
        align: usize,
        res: Option<usize>,
    )
        requires
            self.wf(back),
            back.wf(),
            back.alloc_step(back1, size, align, res),
        ensures
            self.wf(back1),
            res matches Some(p) ==> !self.live(back).contains_key(p) && self.live(back1) ==
                self.live(back).insert(p, block_bytes(size)),
            res.is_none() ==> self.live(back1) == self.live(back),
    {
        back.lemma_alloc_effect(back1, size, align, res);
        self.lemma_back_step(back, back1);
        if res.is_some() {
            let p = res.unwrap();
            if self.holds(p) {
                self.lemma_held_not_base(back1, p);
            }
            if self.has_frame(p) {
                let k = choose|k: int| 0 <= k < class_count() && #[trigger] self.pool(k).has_frame(p);
                assert(self.pool_ok(back, k));
            }
            assert(self.live(back1) =~= self.live(back).insert(p, block_bytes(size)));
        } else {
            assert(self.live(back1) =~= self.live(back));
        }
    }

    /// A block that `back` takes back on its own account leaves the live
    /// allocations.
    proof fn lemma_back_dealloc(&self, back: &BuddyAllocator, back1: &BuddyAllocator, addr: usize)
        requires
            self.wf(back),
            back.wf(),
            self.live(back).contains_key(addr),
            !self.holds(addr),
            back1.live() == back.live().remove(addr),
        ensures
            self.wf(back1),
            self.live(back1) == self.live(back).remove(addr),
    {
        self.lemma_back_step(back, back1);
        assert forall|x: usize| self.holds(x) implies !back.live().contains_key(x) by {
            self.lemma_held_not_base(back, x);
        }
        assert(self.live(back1) =~= self.live(back).remove(addr));
    }

    /// The number of bytes that a request for `size` bytes gets: a block of
    /// the smallest class that holds it, or the pages that `back` hands out
    /// where it is larger than the largest class.
    pub open spec fn alloc_len(size: usize) -> nat {
        if size > 2048 {
            block_bytes(size)
        } else {
            Self::geometry(class_of(size as nat)).blk_size
        }
    }

    /// Serves a request for `size` bytes aligned to `align`: from `back` if
    /// `size` is more than 2048, else from the pool of the smallest class
    /// that holds `size`.
    pub fn allocate(
        &mut self,
        back: &mut BuddyAllocator,
        size: usize,
        align: usize,
    ) -> (res: Option<usize>)
        requires
            old(self).wf(old(back)),
            old(back).wf(),
            align > 0,
        ensures
            final(self).wf(final(back)),
            final(back).wf(),
            final(back).region() == old(back).region(),
            size > 2048 ==> final(self).pools() == old(self).pools() &&
                old(back).alloc_step(final(back), size, align, res),
            size <= 2048 ==> old(self).pool_alloc_step(old(back), final(self), final(back), class_of(size as nat), align, res),
            match res {
                Some(p) => {
                    &&& !old(self).live(old(back)).contains_key(p)
                    &&& final(self).live(final(back)) ==
                        old(self).live(old(back)).insert(p, Self::alloc_len(size))
                    &&& Self::alloc_len(size) >= size
                    &&& size <= 2048 || is_pow2(align as nat) ==> p % align == 0
                },
                None => final(self).live(final(back)) == old(self).live(old(back)),
            },
    {
        let ghost s0 = *self;
        let ghost b0 = *back;
        if size > Self::max_size() {
            let res = back.allocate(size, align);
            proof {
                b0.lemma_alloc_effect(back, size, align, res);
                s0.lemma_back_alloc(&b0, back, size, align, res);
            }
            return res;
        }
        let pool_id = self.pool_id_from_size(size);
        proof {
            assert(s0.pool_ok(&b0, pool_id as int));
        }
        let res = self.slub_pools[pool_id].allocate(back, align);
        proof {
            s0.lemma_slab_alloc(&b0, self, back, pool_id as int, align, res);
            lemma_class_order();
            lemma_class_geometry(class_size(pool_id as int));
        }
        res
    }

    /// Takes the live allocation at `addr` back: `back` does where the
    /// address is the first of an allocation of its own, else the pool does
    /// that owns the frame around the address.
    pub fn dealloc(&mut self, back: &mut BuddyAllocator, addr: usize)
        requires
            old(self).wf(old(back)),
            old(back).wf(),
            old(self).live(old(back)).contains_key(addr),
        ensures
            final(self).wf(final(back)),
            final(back).wf(),
            final(back).region() == old(back).region(),
            final(self).live(final(back)) == old(self).live(old(back)).remove(addr),
            old(self).holds(addr) ==>
                old(self).pool_dealloc_step(old(back), final(self), final(back), old(self).holder(addr), addr),
            !old(self).holds(addr) ==> final(self).pools() == old(self).pools() && final(back).live() ==
                old(back).live().remove(addr),
    {
        let ghost s0 = *self;
        let ghost b0 = *back;
        proof {
            if s0.holds(addr) {
                s0.lemma_block_inside(&b0, s0.holder(addr), addr);
            } else {
                b0.lemma_live_len(addr);
            }
        }
        let frame = self.frame_from_addr(back, addr);
        proof {
            if s0.holds(addr) {
                let h = s0.holder(addr);
                b0.lemma_live_container(frame, PoolView::frame_base(Self::geometry(h), addr), addr as int);
            } else {
                b0.lemma_live_len(addr);
                b0.lemma_live_container(frame, addr, addr as int);
            }
        }
        if frame == addr {
            DynamicAllocator::dealloc(back, addr);
            proof {
                s0.lemma_back_dealloc(&b0, back, addr);
            }
            return ;
        }
        match self.pool_from_frame(frame) {
            Some(i) => {
                proof {
                    let h = s0.holder(addr);
                    if h != i {
                        assert(s0.pool_ok(&b0, h));
                        assert(s0.frames_own(h));
                        assert(!s0.pool(i as int).has_frame(frame));
                    }
                    assert(s0.pool_ok(&b0, i as int));
                }
                self.slub_pools[i].dealloc(back, addr);
                proof {
                    s0.lemma_slab_dealloc(&b0, self, back, i as int, addr);
                }
            },
            None => {
                proof {
                    let h = s0.holder(addr);
                    assert(s0.pool(h).has_frame(frame));
                    assert(false);
                }
            },
        }
    }

    /// The first address of the live allocation that holds `addr`, if there
    /// is one.
    pub fn live_head(&self, back: &BuddyAllocator, addr: usize) -> (res: Option<usize>)
        requires
            self.wf(back),
            back.wf(),
        ensures
            match res {
                Some(p) => self.live(back).contains_key(p) && p <= addr < p + self.live(back)[p],
                None => forall|p: usize| self.live(back).contains_key(p) ==>
                    !(p <= addr < p + #[trigger] self.live(back)[p]),
            },
    {
        match back.live_head(addr) {
            None => {
                proof {
                    assert forall|p: usize| self.live(back).contains_key(p) implies
                        !(p <= addr < p + #[trigger] self.live(back)[p]) by {
                        if self.holds(p) {
                            self.lemma_block_inside(back, self.holder(p), p);
                            let b = PoolView::frame_base(Self::geometry(self.holder(p)), p);
                            assert(!(b <= addr < b + back.live()[b]));
                        } else {
                            assert(!(p <= addr < p + back.live()[p]));
                        }
                    }
                }
                None
            },
            Some(head) => {
                match self.pool_from_frame(head) {
                    None => {
                        proof {
                            if self.holds(head) {
                                self.lemma_held_not_base(back, head);
                            }
                        }
                        Some(head)
                    },
                    Some(i) => {
                        proof {
                            assert(self.pool_ok(back, i as int));
                        }
                        let res = self.slub_pools[i].block_head(head, addr);
                        proof {
                            if res.is_some() {
                                self.lemma_holder(back, i as int, res.unwrap());
                            } else {
                                assert forall|p: usize| self.live(back).contains_key(p) implies
                                    !(p <= addr < p + #[trigger] self.live(back)[p]) by {
                                    if p <= addr < p + self.live(back)[p] {
                                        if self.holds(p) {
                                            let h = self.holder(p);
                                            self.lemma_block_inside(back, h, p);
                                            let b = PoolView::frame_base(Self::geometry(h), p);
                                            back.lemma_live_container(b, head, addr as int);
                                            if h != i {
                                                assert(self.pool_ok(back, h));
                                                assert(self.frames_own(h));
                                                assert(!self.pool(i as int).has_frame(head));
                                            }
                                            assert(self.pool(i as int).holds(p));
                                        } else {
                                            back.lemma_live_container(p, head, addr as int);
                                            assert(self.has_frame(head));
                                        }
                                    }
                                }
                            }
                        }
                        res
                    },
                }
            },
        }
    }

    /// The number of bytes that a request for `minsz` bytes takes up: the
    /// size of the smallest class that holds it, or what `back` rounds it to
    /// where it is larger than the largest class.
    pub fn grained(&self, back: &BuddyAllocator, minsz: usize) -> (res: usize)
        requires
            next_pow2(minsz as nat) <= usize::MAX,
        ensures
            res == (if minsz > 2048 {
                next_pow2(minsz as nat)
            } else {
                class_size(class_of(minsz as nat))
            }),
            res >= minsz,
    {
        if minsz > Self::max_size() {
            proof {
                lemma_next_pow2_bounds(minsz as nat);
            }
            back.grained(minsz)
        } else {
            slub_pool_size(self.pool_id_from_size(minsz))
        }
    }

    /// The first address of the live allocation that holds `addr`: that of
    /// the allocation of `back` around it, or that of the block around it
    /// where that allocation is a frame of a pool.
    pub fn compound_head(&self, back: &BuddyAllocator, addr: usize) -> (res: usize)
        requires
            self.wf(back),
            back.wf(),
            exists|p: usize| self.live(back).contains_key(p) && p <= addr < p + self.live(back)[p],
        ensures
            self.live(back).contains_key(res),
            res <= addr < res + self.live(back)[res],
    {
        let ghost p = choose|p: usize| self.live(back).contains_key(p) && p <= addr < p + self.live(back)[p];
        proof {
            if self.holds(p) {
                self.lemma_block_inside(back, self.holder(p), p);
            }
        }
        let frame = self.frame_from_addr(back, addr);
        proof {
            if self.holds(p) {
                let h = self.holder(p);
                back.lemma_live_container(frame, PoolView::frame_base(Self::geometry(h), p), addr as int);
            } else {
                back.lemma_live_container(frame, p, addr as int);
            }
        }
        match self.pool_from_frame(frame) {
            Some(i) => {
                proof {
                    assert(self.has_frame(frame));
                    let h = self.holder(p);
                    if h != i {
                        assert(self.pool_ok(back, h));
                        assert(self.frames_own(h));
                        assert(!self.pool(i as int).has_frame(frame));
                    }
                    assert(self.pool_ok(back, i as int));
                    let g = Self::geometry(i as int);
                    g.lemma_is_block(frame as int, p as int);
                    g.lemma_block(frame as int, g.block_index(frame as int, p as int));
                    assert(g.block_index(frame as int, addr as int) == g.block_index(frame as int, p as int));
                }
                self.slub_pools[i].compound_head(frame, addr)
            },
            None => {
                proof {
                    if self.holds(p) {
                        let h = self.holder(p);
                        assert(self.pool(h).has_frame(frame));
                        assert(false);
                    }
                }
                frame
            },
        }
    }
}

} // verus!
