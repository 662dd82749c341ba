//! The kernel's allocator: a buddy allocator over the whole heap, and the
//! slab pools in front of it.

use vstd::prelude::*;
use crate::allocator::DynamicAllocator;
use crate::buddy_allocator::{BuddyAllocator, block_bytes};
use crate::math::{is_pow2, next_pow2};
use crate::tree::Region;
use crate::slub_allocator::SlubAllocator;
use crate::slub_model::{class_size, class_count, class_of, lemma_class_exists};

verus! {

/// The buddy allocator, and the slab pools once `init` has made them.
pub struct HybridAllocator {
    back: BuddyAllocator,
    front: Option<SlubAllocator>,
}

impl HybridAllocator {
    /// Where there are pools, they and the buddy allocator behind them are
    /// well formed; where there are none, the buddy allocator has not been
    /// set up either.
    #[verifier::type_invariant]
    spec fn inv(self) -> bool {
        match self.front {
            Some(f) => self.back.wf() && f.wf(&self.back),
            None => !self.back.wf(),
        }
    }

    /// The buddy allocator behind the pools.
    pub closed spec fn back(&self) -> BuddyAllocator {
        self.back
    }

    /// The slab pools, once the allocator has been set up.
    pub closed spec fn front(&self) -> Option<SlubAllocator> {
        self.front
    }

    /// The number of bytes that a request for `size` bytes gets.
    pub open spec fn alloc_len(&self, size: usize) -> nat {
        if self.front().is_some() {
            SlubAllocator::alloc_len(size)
        } else {
            block_bytes(size)
        }
    }

    /// `after` is this allocator after a request for `size` bytes aligned
    /// to `align`, and `res` is what the request got.  A request for at most
    /// 2048 bytes is served by the pool of the smallest class that holds
    /// it, as `SlubAllocator::pool_alloc_step` says; a larger one by the
    /// buddy allocator, as `BuddyAllocator::alloc_step` says, and so is
    /// every request as long as there are no pools.
    pub open spec fn served(&self, after: &Self, size: usize, align: usize, res: Option<usize>) -> bool {
        &&& after.wf()
        &&& after.front().is_some() == self.front().is_some()
        &&& after.back().region() == self.back().region()
        &&& match self.front() {
            Some(f) => {
                &&& size > 2048 ==> after.front().unwrap().pools() == f.pools() && self.back().alloc_step(
                    &after.back(),
                    size,
                    align,
                    res,
                )
                &&& size <= 2048 ==> f.pool_alloc_step(
                    &self.back(),
                    &after.front().unwrap(),
                    &after.back(),
                    class_of(size as nat),
                    align,
                    res,
                )
            },
            None => self.back().alloc_step(&after.back(), size, align, res),
        }
        &&& match res {
            Some(p) => {
                &&& !self.live().contains_key(p)
                &&& after.live() == self.live().insert(p, self.alloc_len(size))
                &&& self.alloc_len(size) >= size
                &&& (self.front().is_some() && size <= 2048) || is_pow2(align as nat) ==> p % align == 0
            },
            None => after.live() == self.live(),
        }
    }

    /// `after` is this allocator after the live allocation at `addr` has
    /// been taken back: by its pool, as `SlubAllocator::pool_dealloc_step`
    /// says, if it is a block of a pool, and by the buddy allocator if not.
    pub open spec fn taken_back(&self, after: &Self, addr: usize) -> bool {
        &&& after.wf()
        &&& after.front().is_some() == self.front().is_some()
        &&& after.back().region() == self.back().region()
        &&& after.live() == self.live().remove(addr)
        &&& self.front() matches Some(f) ==> {
            &&& f.holds(addr) ==> f.pool_dealloc_step(
                &self.back(),
                &after.front().unwrap(),
                &after.back(),
                f.holder(addr),
                addr,
            )
            &&& !f.holds(addr) ==> after.front().unwrap().pools() == f.pools() && after.back().live()
                == self.back().live().remove(addr)
        }
    }

    /// An allocator that has not been set up.
    pub fn new() -> (res: Self)
        ensures
            !res.wf(),
            res.front().is_none(),
            res.back().region() == (Region { start: 0, size: 0 }),
    {
        let back = BuddyAllocator::new();
        HybridAllocator { back, front: None }
    }

    /// Sets the allocator up for the heap `[start, start + size)`: the buddy
    /// allocator over all of it, and the pools without frames.  Nothing is
    /// live.  An allocator is set up once.
    pub fn init(&mut self, start: usize, size: usize)
        requires
            old(self).front().is_none(),
            BuddyAllocator::region_ok(start, size),
        ensures
            final(self).wf(),
            final(self).front().is_some(),
            final(self).back().region() == (Region { start: start as nat, size: size as nat }),
            final(self).live() == Map::<usize, nat>::empty(),
            forall|i: nat| !final(self).back().live_node(i),
            forall|i: int|
                0 <= i < class_count() ==> {
                    let pool = #[trigger] final(self).front().unwrap().pool(i);
                    pool.current.is_none() && pool.partial.len() == 0 && pool.full.len() == 0
                },
    {
        let (mut back, _) = self.take_parts();
        back.init(start, size);
        let front = SlubAllocator::new(&back);
        proof {
            assert forall|i: int| 0 <= i < class_count() implies #[trigger] front.pool_ok(&back, i) by {
                assert(front.pools()[i].wf());
                let v = front.pool(i);
                assert(v.partial.len() == 0 && v.full.len() == 0 && v.current.is_none());
                assert forall|b: usize| !v.has_frame(b) by {}
            }
            assert forall|a: usize| !front.holds(a) by {
                if front.holds(a) {
                    let i = front.holder(a);
                    let v = front.pool(i);
                    assert(v.partial.len() == 0 && v.full.len() == 0 && v.current.is_none());
                }
            }
            assert(front.live(&back) =~= Map::<usize, nat>::empty());
        }
        self.put_parts(back, Some(front));
    }

    /// Tells whether the allocator has been set up.
    pub fn ready(&self) -> (res: bool)
        ensures
            res == self.front().is_some(),
            res ==> self.wf(),
    {
        proof {
            use_type_invariant(self);
        }
        self.front.is_some()
    }

    /// Sets the allocator up for the heap `[start, start + size)` if it has
    /// not been set up and the region allows it, and tells whether it did.
    pub fn try_init(&mut self, start: usize, size: usize) -> (res: bool)
        ensures
            res == (old(self).front().is_none() && BuddyAllocator::region_ok(start, size)),
            res ==> {
                &&& final(self).wf()
                &&& final(self).front().is_some()
                &&& final(self).back().region() == (Region { start: start as nat, size: size as nat })
                &&& final(self).live() == Map::<usize, nat>::empty()
            },
            !res ==> *final(self) == *old(self),
    {
        if !self.ready() && BuddyAllocator::region_fits(start, size) {
            self.init(start, size);
            true
        } else {
            false
        }
    }

    /// Serves a request as `allocate` does if the allocator has been set up
    /// and `align` is not 0, and does nothing else.
    pub fn try_allocate(&mut self, size: usize, align: usize) -> (res: Option<usize>)
        ensures
            old(self).front().is_some() && align > 0 ==> old(self).wf() &&
                old(self).served(final(self), size, align, res),
            !(old(self).front().is_some() && align > 0) ==> res.is_none() && *final(self) == *old(self),
    {
        if self.ready() && align > 0 {
            self.allocate(size, align)
        } else {
            None
        }
    }

    /// Takes the allocation at `addr` back if the allocator has been set up
    /// and a live allocation starts there, and tells whether it did.
    pub fn try_dealloc(&mut self, addr: usize) -> (res: bool)
        ensures
            res == (old(self).front().is_some() && old(self).live().contains_key(addr)),
            res ==> old(self).wf() && old(self).taken_back(final(self), addr),
            !res ==> *final(self) == *old(self),
    {
        if !self.ready() {
            return false;
        }
        match self.live_head(addr) {
            Some(p) => {
                if p == addr {
                    self.dealloc(addr);
                    true
                } else {
                    proof {
                        if self.live().contains_key(addr) {
                            self.lemma_live_len(addr);
                            self.lemma_live_apart(p, addr);
                        }
                    }
                    false
                }
            },
            None => {
                proof {
                    if self.live().contains_key(addr) {
                        self.lemma_live_len(addr);
                    }
                }
                false
            },
        }
    }

    /// The first address of the live allocation that holds `addr`, if there
    /// is one.
    pub fn live_head(&self, addr: usize) -> (res: Option<usize>)
        requires
            self.wf(),
        ensures
            match res {
                Some(p) => self.live().contains_key(p) && p <= addr < p + self.live()[p],
                None => forall|p: usize| self.live().contains_key(p) ==>
                    !(p <= addr < p + #[trigger] self.live()[p]),
            },
    {
        match &self.front {
            Some(f) => f.live_head(&self.back, addr),
            None => self.back.live_head(addr),
        }
    }

    /// The buddy allocator behind the pools.
    pub fn back_ref(&self) -> (res: &BuddyAllocator)
        ensures
            *res == self.back(),
    {
        &self.back
    }

    /// The slab pools, once the allocator has been set up.
    pub fn front_ref(&self) -> (res: Option<&SlubAllocator>)
        ensures
            res.is_some() == self.front().is_some(),
            res matches Some(f) ==> *f == self.front().unwrap(),
    {
        self.front.as_ref()
    }

    /// Takes the two allocators out, and leaves an allocator that has not
    /// been set up.
    fn take_parts(&mut self) -> (parts: (BuddyAllocator, Option<SlubAllocator>))
        ensures
            parts.0 == old(self).back(),
            parts.1 == old(self).front(),
            parts.1 matches Some(f) ==> parts.0.wf() && f.wf(&parts.0),
            parts.1.is_none() ==> !parts.0.wf(),
    {
        let mut taken = HybridAllocator::new();
        core::mem::swap(self, &mut taken);
        proof {
            use_type_invariant(&taken);
        }
        let HybridAllocator { back, front } = taken;
        (back, front)
    }

    /// Puts the two allocators in.
    fn put_parts(&mut self, back: BuddyAllocator, front: Option<SlubAllocator>)
        requires
            front matches Some(f) ==> back.wf() && f.wf(&back),
            front.is_none() ==> !back.wf(),
        ensures
            final(self).back() == back,
            final(self).front() == front,
    {
        *self = HybridAllocator { back, front };
    }

    /// A live allocation has at least one byte.
    pub proof fn lemma_live_len(&self, p: usize)
        requires
            self.wf(),
            self.live().contains_key(p),
        ensures
            self.live()[p] >= 1,
    {
        match self.front() {
            Some(f) => {
                if f.holds(p) {
                    let i = f.holder(p);
                    assert(f.pool_ok(&self.back(), i));
                } else {
                    self.back().lemma_live_len(p);
                }
            },
            None => {
                self.back().lemma_live_len(p);
            },
        }
    }

    /// A request that asks for no alignment fails only where the buddy
    /// allocator has no free node for it: a node of a frame's size where the
    /// request goes to a pool that needs a new frame, a node that holds the
    /// request where it is for more than 2048 bytes.
    pub proof fn lemma_progress(&self, after: &Self, size: usize, res: Option<usize>)
        requires
            self.wf(),
            self.front().is_some(),
            self.served(after, size, 1, res),
        ensures
            size <= 2048 ==> (res.is_none() <==> self.front().unwrap().pool(class_of(size as nat)).needs_frame()
                && self.back().pick(
                SlubAllocator::geometry(class_of(size as nat)).frame_size as usize,
                1,
            ).is_none()),
            size > 2048 ==> (res.is_none() <==> self.back().pick(size, 1).is_none()),
    {
        let f = self.front().unwrap();
        if size <= 2048 {
            lemma_class_exists(size as nat);
            f.lemma_progress(&self.back(), &after.front().unwrap(), &after.back(), class_of(size as nat), res);
        } else {
            self.back().lemma_alloc_effect(&after.back(), size, 1, res);
        }
    }

    /// A request for more than 2048 bytes gets whole pages of the region,
    /// clear of the footprint, at a multiple of the number of bytes that it
    /// takes up.
    pub proof fn lemma_large_served(&self, after: &Self, size: usize, align: usize, p: usize)
        requires
            self.wf(),
            size > 2048,
            self.served(after, size, align, Some(p)),
        ensures
            p % 4096 == 0,
            (p as nat) % block_bytes(size) == 0,
            block_bytes(size) >= size,
            self.back().region().start + self.back().region().footprint() <= p,
            p + block_bytes(size) <= self.back().region().start + self.back().region().size,
    {
        self.back().lemma_alloc_effect(&after.back(), size, align, Some(p));
        self.back().lemma_placed(size, align, p);
    }

    /// Once every live allocation has been taken back, no pool keeps a
    /// frame but, at most, an empty current one, and the buddy allocator
    /// has nothing handed out but those frames.
    pub proof fn lemma_no_leak(&self)
        requires
            self.wf(),
            self.front().is_some(),
            self.live() == Map::<usize, nat>::empty(),
        ensures
            forall|i: int|
                0 <= i < class_count() ==> {
                    let pool = #[trigger] self.front().unwrap().pool(i);
                    &&& pool.partial.len() == 0
                    &&& pool.full.len() == 0
                    &&& pool.current.is_some() ==> pool.current.unwrap().is_empty()
                },
            forall|p: usize| #[trigger]
                self.back().live().contains_key(p) ==> exists|i: int|
                    0 <= i < class_count() && #[trigger] self.front().unwrap().pool(i).current_has(p),
    {
        let f = self.front().unwrap();
        let back = self.back();
        assert forall|a: usize| !f.holds(a) by {
            assert(!self.live().contains_key(a));
        }
        assert forall|i: int| 0 <= i < class_count() implies {
            let pool = #[trigger] f.pool(i);
            &&& pool.partial.len() == 0
            &&& pool.full.len() == 0
            &&& pool.current.is_some() ==> pool.current.unwrap().is_empty()
        } by {
            assert(f.pool_ok(&back, i));
            assert forall|a: usize| !f.pool(i).holds(a) by {
                assert(!f.holds(a));
            }
            f.pool(i).lemma_no_leak(SlubAllocator::geometry(i));
        }
        assert forall|p: usize| #[trigger] back.live().contains_key(p) implies exists|i: int|
            0 <= i < class_count() && #[trigger] f.pool(i).current_has(p) by {
            assert(!self.live().contains_key(p));
            assert(f.has_frame(p));
            let i = choose|i: int| 0 <= i < class_count() && #[trigger] f.pool(i).has_frame(p);
            assert(f.pool(i).partial.len() == 0 && f.pool(i).full.len() == 0);
            assert(f.pool(i).current_has(p));
        }
    }
}

impl DynamicAllocator for HybridAllocator {
    /// The buddy allocator is well formed, and so are the pools in front
    /// of it, once they are there.
    open spec fn wf(&self) -> bool {
        &&& self.back().wf()
        &&& self.front() matches Some(f) ==> f.wf(&self.back())
    }

    /// The blocks that the pools have handed out, and the allocations of the
    /// buddy allocator that are not frames of a pool.
    open spec fn live(&self) -> Map<usize, nat> {
        match self.front() {
            Some(f) => f.live(&self.back()),
            None => self.back().live(),
        }
    }

    /// Two live allocations share no byte, be they blocks of a pool or pages.
    proof fn lemma_live_apart(&self, p: usize, q: usize) {
        match self.front() {
            Some(f) => {
                f.lemma_live_apart(&self.back(), p, q);
            },
            None => {
                self.back().lemma_live_apart(p, q);
            },
        }
    }

    /// A request for at most 2048 bytes gets a block of the smallest class
    /// that holds it, at a multiple of `align`; a larger one gets pages from
    /// the buddy allocator, at a multiple of `next_pow2(align)`.
    fn allocate(&mut self, size: usize, align: usize) -> (res: Option<usize>)
        ensures
            old(self).served(final(self), size, align, res),
    {
        let (mut back, front) = self.take_parts();
        match front {
            Some(mut f) => {
                let res = f.allocate(&mut back, size, align);
                self.put_parts(back, Some(f));
                res
            },
            None => {
                let ghost b0 = back;
                let res = back.allocate(size, align);
                proof {
                    b0.lemma_alloc_effect(&back, size, align, res);
                }
                self.put_parts(back, None);
                res
            },
        }
    }

    /// Takes the live allocation at `addr` back: the pool that handed it
    /// out does, or the buddy allocator if none did.
    fn dealloc(&mut self, addr: usize)
        ensures
            old(self).taken_back(final(self), addr),
    {
        let (mut back, front) = self.take_parts();
        match front {
            Some(mut f) => {
                f.dealloc(&mut back, addr);
                self.put_parts(back, Some(f));
            },
            None => {
                DynamicAllocator::dealloc(&mut back, addr);
                self.put_parts(back, None);
            },
        }
    }

    /// The size of the smallest class that holds `minsz` bytes, or `minsz`
    /// rounded up to a power of two where no class holds it.
    fn grained(&self, minsz: usize) -> (res: usize)
        ensures
            res == (if minsz > 2048 || self.front().is_none() {
                next_pow2(minsz as nat)
            } else {
                class_size(class_of(minsz as nat))
            }),
    {
        match &self.front {
            Some(f) => f.grained(&self.back, minsz),
            None => DynamicAllocator::grained(&self.back, minsz),
        }
    }

    /// The first address of the block, or of the pages, that `addr` lies in.
    fn compound_head(&self, addr: usize) -> (res: usize) {
        match &self.front {
            Some(f) => f.compound_head(&self.back, addr),
            None => DynamicAllocator::compound_head(&self.back, addr),
        }
    }
}

} // verus!
