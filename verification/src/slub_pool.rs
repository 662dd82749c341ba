//! A slab pool: the frames of one block size class, kept in three places.
//! The head of a list is its last element.

use vstd::prelude::*;
use crate::allocator::DynamicAllocator;
use crate::buddy_allocator::BuddyAllocator;
use crate::math::{
    aligned_up, lemma_usize_limit,
};
use crate::slub_model::{Geometry, FrameView, class_geometry, lemma_class_geometry};
use crate::pool_model::{PoolView, list_has, lemma_list_index};
use crate::slub_frame::SlubFrame;

verus! {

/// The number of bytes of a frame's header: no block starts before it ends.
pub const FRAME_HEADER_SIZE: usize = 64;

/// The number of bytes of the link that a free block holds: no block is
/// smaller.
pub const BLOCK_LINK_SIZE: usize = 16;

/// The pool of one block size class.
pub struct SlubPool {
    grained: usize,
    frame_size: usize,
    real_blk_size: usize,
    blk_offset: usize,
    current_frame: Option<SlubFrame>,
    full_frame_list: Vec<SlubFrame>,
    partial_frame_list: Vec<SlubFrame>,
}

/// The frames of a list, as plain values.
pub open spec fn frames_view(v: Seq<SlubFrame>) -> Seq<FrameView> {
    v.map_values(|f: SlubFrame| f@)
}

/// The place in `list` of the frame that starts at `base`.
fn find_frame(list: &Vec<SlubFrame>, base: usize) -> (res: Option<usize>)
    ensures
        match res {
            Some(i) => i < list.len() && list[i as int]@.base == base,
            None => !list_has(frames_view(list@), base),
        },
{
    let mut i: usize = 0;
    while i < list.len()
        invariant
            i <= list.len(),
            forall|j: int| 0 <= j < i ==> (#[trigger] list[j])@.base != base,
        decreases list.len() - i,
    {
        if list[i].base() == base {
            return Some(i);
        }
        i = i + 1;
    }
    proof {
        let s = frames_view(list@);
        if list_has(s, base) {
            let j = choose|j: int| 0 <= j < s.len() && #[trigger] s[j].base == base;
            assert(list[j]@.base != base);
        }
    }
    None
}

impl View for SlubPool {
    type V = PoolView;

    /// The pool as plain values.
    closed spec fn view(&self) -> PoolView {
        PoolView {
            class: self.grained,
            current: match self.current_frame {
                Some(f) => Some(f@),
                None => None,
            },
            partial: frames_view(self.partial_frame_list@),
            full: frames_view(self.full_frame_list@),
        }
    }
}

impl SlubPool {
    /// The layout of the pool's frames.
    pub closed spec fn geometry(&self) -> Geometry {
        Geometry { frame_size: self.frame_size as nat, blk_size: self.real_blk_size as nat, blk_offset: self.blk_offset as nat }
    }

    /// The pool's frames are laid out as its class asks, and are well
    /// formed and in their right places.
    pub open spec fn wf(&self) -> bool {
        &&& 8 <= self@.class <= 2048
        &&& self.geometry() == class_geometry(self@.class as nat)
        &&& self@.wf(self.geometry())
    }

    /// The address that the back allocator gives to a new frame, where the
    /// next request needs one and the back allocator has one.
    pub open spec fn fresh_base(&self, back: &BuddyAllocator) -> Option<usize> {
        if self@.needs_frame() {
            back.pick_addr(self.geometry().frame_size as usize, 1)
        } else {
            None
        }
    }

    /// A pool of class `grained` without frames.
    pub fn new(back: &BuddyAllocator, grained: usize) -> (res: Self)
        requires
            8 <= grained <= 2048,
        ensures
            res.wf(),
            res@ == (PoolView { class: grained, current: None, partial: Seq::empty(), full: Seq::empty() }),
    {
        proof {
            lemma_class_geometry(grained as nat);
            lemma_usize_limit();
        }
        let frame_size = back.grained(grained * 16);
        let real_blk_size = if grained >= BLOCK_LINK_SIZE {
            grained
        } else {
            BLOCK_LINK_SIZE
        };
        let blk_offset = Self::align(FRAME_HEADER_SIZE, real_blk_size);
        let res = SlubPool {
            grained,
            frame_size,
            real_blk_size,
            blk_offset,
            current_frame: None,
            full_frame_list: Vec::new(),
            partial_frame_list: Vec::new(),
        };
        proof {
            assert(res@.partial =~= Seq::empty());
            assert(res@.full =~= Seq::empty());
        }
        res
    }

    /// `x` rounded up to a multiple of `align`.
    pub fn align(x: usize, align: usize) -> (r: usize)
        requires
            align > 0,
            x + align <= usize::MAX,
        ensures
            r == aligned_up(x as nat, align as nat),
    {
        let q = (x + (align - 1)) / align;
        proof {
            assert(q * align <= x + (align - 1)) by (nonlinear_arith)
                requires
                    q == (x + (align - 1)) / (align as int),
                    align > 0,
            ;
        }
        q * align
    }

    /// The first address of the block of the frame at `frame_start` that
    /// holds `addr`.
    pub fn compound_head(&self, frame_start: usize, addr: usize) -> (res: usize)
        requires
            self.wf(),
            frame_start + self.geometry().blk_offset <= addr,
        ensures
            res == self.geometry().block_addr(frame_start as int, self.geometry().block_index(frame_start as int, addr as int)),
    {
        proof {
            lemma_class_geometry(self.grained as nat);
        }
        let d = addr - frame_start - self.blk_offset;
        let j = d / self.real_blk_size;
        proof {
            assert(j * self.real_blk_size <= d) by (nonlinear_arith)
                requires
                    j == d / self.real_blk_size,
                    self.real_blk_size > 0,
            ;
        }
        frame_start + self.blk_offset + j * self.real_blk_size
    }

    /// A new frame from the back allocator, if it has one.
    fn alloc_frame(&self, back: &mut BuddyAllocator) -> (res: Option<SlubFrame>)
        requires
            8 <= self@.class <= 2048,
            self.geometry() == class_geometry(self@.class as nat),
            old(back).wf(),
        ensures
            old(back).alloc_step(
                final(back),
                self.geometry().frame_size as usize,
                1,
                old(back).pick_addr(self.geometry().frame_size as usize, 1),
            ),
            match res {
                Some(f) => {
                    &&& old(back).pick_addr(self.geometry().frame_size as usize, 1) == Some(f@.base)
                    &&& f@ == FrameView::fresh(self.geometry(), self@.class, f@.base)
                    &&& f@.base as int % self.geometry().frame_size as int == 0
                    &&& f@.base + self.geometry().frame_size <= usize::MAX
                    &&& final(back).live()[f@.base] >= self.geometry().frame_size
                },
                None => old(back).pick_addr(self.geometry().frame_size as usize, 1).is_none(),
            },
    {
        proof {
            lemma_class_geometry(self.grained as nat);
        }
        let new_alloc = back.allocate(self.frame_size, 1);
        proof {
            old(back).lemma_alloc_effect(back, self.frame_size, 1, new_alloc);
        }
        match new_alloc {
            Some(new_frame_addr) => {
                proof {
                    old(back).lemma_placed_pow2(self.frame_size, 1, new_frame_addr);
                }
                let f = SlubFrame::init(self.grained, new_frame_addr, self.frame_size, self.real_blk_size, self.blk_offset);
                Some(f)
            },
            None => None,
        }
    }

    /// Puts `frame` at the head of the full list.
    fn insert_to_full(&mut self, frame: SlubFrame)
        ensures
            final(self)@ == (PoolView { full: old(self)@.full.push(frame@), ..old(self)@ }),
            final(self).geometry() == old(self).geometry(),
    {
        self.full_frame_list.push(frame);
        proof {
            assert(frames_view(self.full_frame_list@) =~= frames_view(old(self).full_frame_list@).push(frame@));
        }
    }

    /// Takes the frame at place `idx` out of the partial list.
    fn drop_from_partial(&mut self, idx: usize) -> (frame: SlubFrame)
        requires
            idx < old(self)@.partial.len(),
        ensures
            frame@ == old(self)@.partial[idx as int],
            final(self)@ == (PoolView { partial: old(self)@.partial.remove(idx as int), ..old(self)@ }),
            final(self).geometry() == old(self).geometry(),
    {
        let frame = self.partial_frame_list.remove(idx);
        proof {
            assert(frames_view(self.partial_frame_list@) =~= frames_view(old(self).partial_frame_list@).remove(idx as int));
        }
        frame
    }

    /// Moves the frame at place `idx` of the full list to the head of the
    /// partial list.
    fn move_from_full_to_partial(&mut self, idx: usize)
        requires
            idx < old(self)@.full.len(),
        ensures
            final(self)@ == (PoolView {
                full: old(self)@.full.remove(idx as int),
                partial: old(self)@.partial.push(old(self)@.full[idx as int]),
                ..old(self)@
            }),
            final(self).geometry() == old(self).geometry(),
    {
        let frame = self.full_frame_list.remove(idx);
        self.partial_frame_list.push(frame);
        proof {
            assert(frames_view(self.full_frame_list@) =~= frames_view(old(self).full_frame_list@).remove(idx as int));
            assert(frames_view(self.partial_frame_list@) =~= frames_view(old(self).partial_frame_list@).push(frame@));
        }
    }

    /// The pool's frames are blocks that the back allocator has handed out.
    pub open spec fn backed(&self, back: &BuddyAllocator) -> bool {
        forall|b: usize| #[trigger] self@.has_frame(b) ==> back.live().contains_key(b)
    }

    /// The pool owns a frame that starts at `base`.
    pub fn owns_frame(&self, base: usize) -> (res: bool)
        ensures
            res == self@.has_frame(base),
    {
        let is_current = match &self.current_frame {
            Some(f) => f.base() == base,
            None => false,
        };
        if is_current {
            return true;
        }
        match find_frame(&self.partial_frame_list, base) {
            Some(i) => {
                assert(self@.partial[i as int].base == base);
                return true;
            },
            None => {},
        }
        match find_frame(&self.full_frame_list, base) {
            Some(i) => {
                assert(self@.full[i as int].base == base);
                true
            },
            None => false,
        }
    }

    /// The current frame.
    pub fn current_frame(&self) -> (res: Option<&SlubFrame>)
        ensures
            res.is_some() == self@.current.is_some(),
            res matches Some(f) ==> f@ == self@.current.unwrap(),
    {
        self.current_frame.as_ref()
    }

    /// The frames of the partial list; the head is the last.
    pub fn partial_frames(&self) -> (res: &Vec<SlubFrame>)
        ensures
            frames_view(res@) == self@.partial,
    {
        &self.partial_frame_list
    }

    /// The frames of the full list; the head is the last.
    pub fn full_frames(&self) -> (res: &Vec<SlubFrame>)
        ensures
            frames_view(res@) == self@.full,
    {
        &self.full_frame_list
    }

    /// The number of bytes of a frame.
    pub fn frame_size(&self) -> (res: usize)
        ensures
            res == self.geometry().frame_size,
    {
        self.frame_size
    }

    /// The number of bytes of a block.
    pub fn block_size(&self) -> (res: usize)
        ensures
            res == self.geometry().blk_size,
    {
        self.real_blk_size
    }

    /// The offset of the first block in a frame.
    pub fn block_offset(&self) -> (res: usize)
        ensures
            res == self.geometry().blk_offset,
    {
        self.blk_offset
    }

    /// The first address of the block that is handed out from the frame at
    /// `frame_base` and holds `addr`, if there is one.
    pub fn block_head(&self, frame_base: usize, addr: usize) -> (res: Option<usize>)
        requires
            self.wf(),
        ensures
            match res {
                Some(p) => self@.holds(p) && p <= addr < p + self.geometry().blk_size,
                None => forall|p: usize| #[trigger]
                    self@.holds(p) && PoolView::frame_base(self.geometry(), p) == frame_base ==> !(p <= addr < p
                        + self.geometry().blk_size),
            },
    {
        let ghost g = self.geometry();
        let ghost v = self@;
        proof {
            assert forall|p: usize| #[trigger] v.holds(p) && PoolView::frame_base(g, p) ==
                frame_base implies v.has_frame(frame_base) by {
                v.lemma_holder(g, p);
            }
        }
        let is_current = match &self.current_frame {
            Some(f) => f.base() == frame_base,
            None => false,
        };
        if is_current {
            match &self.current_frame {
                Some(f) => {
                    let res = f.block_head(self.frame_size, self.real_blk_size, self.blk_offset, addr);
                    proof {
                        assert forall|p: usize| #[trigger] v.holds(p) && PoolView::frame_base(g, p) ==
                            frame_base implies v.current.unwrap().out.contains(p) by {
                            v.lemma_holder(g, p);
                        }
                    }
                    return res;
                },
                None => {
                    return None;
                },
            }
        }
        match find_frame(&self.full_frame_list, frame_base) {
            Some(i) => {
                proof {
                    lemma_list_index(v.full, i as int);
                    assert(v.full_ok(g, i as int));
                }
                let res = self.full_frame_list[i].block_head(self.frame_size, self.real_blk_size, self.blk_offset, addr);
                proof {
                    assert forall|p: usize| #[trigger] v.holds(p) && PoolView::frame_base(g, p) ==
                        frame_base implies v.full[i as int].out.contains(p) by {
                        v.lemma_holder(g, p);
                    }
                    if res.is_some() {
                        assert(v.full[i as int].out.contains(res.unwrap()));
                    }
                }
                res
            },
            None => {
                match find_frame(&self.partial_frame_list, frame_base) {
                    Some(i) => {
                        proof {
                            lemma_list_index(v.partial, i as int);
                            assert(v.partial_ok(g, i as int));
                        }
                        let res = self.partial_frame_list[i].block_head(self.frame_size, self.real_blk_size, self.blk_offset, addr);
                        proof {
                            assert forall|p: usize| #[trigger] v.holds(p) && PoolView::frame_base(g, p) ==
                                frame_base implies v.partial[i as int].out.contains(p) by {
                                v.lemma_holder(g, p);
                            }
                            if res.is_some() {
                                assert(v.partial[i as int].out.contains(res.unwrap()));
                            }
                        }
                        res
                    },
                    None => None,
                }
            },
        }
    }

    /// The block size class of the pool.
    pub fn class(&self) -> (res: usize)
        ensures
            res == self@.class,
    {
        self.grained
    }

    /// Puts the current frame, if there is one, at the head of the full
    /// list.
    fn retire_current(&mut self)
        ensures
            final(self)@ == old(self)@.retired(),
            final(self).geometry() == old(self).geometry(),
    {
        match self.current_frame.take() {
            Some(f) => {
                self.insert_to_full(f);
            },
            None => {},
        }
    }

    /// Serves a request from frame `f` and makes it the current frame.
    fn serve_from(&mut self, f: SlubFrame, align: usize) -> (res: Option<usize>)
        requires
            !f@.is_full(),
            f@.used < usize::MAX,
            align > 0,
        ensures
            res == f@.pick(align),
            final(self)@ == (PoolView { current: Some(f@.taken(align)), ..old(self)@ }),
            final(self).geometry() == old(self).geometry(),
    {
        let mut f = f;
        let res = f.allocate(align);
        self.current_frame = Some(f);
        res
    }

    /// Serves a request from the current frame.
    fn serve_current(&mut self, align: usize) -> (res: Option<usize>)
        requires
            old(self)@.serves_current(),
            old(self)@.current.unwrap().used < usize::MAX,
            align > 0,
        ensures
            res == old(self)@.current.unwrap().pick(align),
            final(self)@ == (PoolView { current: Some(old(self)@.current.unwrap().taken(align)), ..old(self)@ }),
            final(self).geometry() == old(self).geometry(),
    {
        match &mut self.current_frame {
            Some(f) => f.allocate(align),
            None => None,
        }
    }

    /// A frame that has a free block has fewer blocks in use than fit in a
    /// machine integer.
    proof fn lemma_used_bound(g: Geometry, class: nat, f: FrameView)
        requires
            8 <= class <= 2048,
            g == class_geometry(class),
            f.wf(g),
        ensures
            f.used <= g.frame_size,
            f.used < usize::MAX,
    {
        lemma_class_geometry(class);
        lemma_usize_limit();
    }

    /// Hands out a block whose address is a multiple of `align`.
    ///
    /// The current frame serves if it has a free block.  If not, it goes to
    /// the head of the full list, and the head of the partial list becomes
    /// the current frame; where the partial list is empty, a new frame from
    /// the back allocator does, and where the back allocator has none the
    /// request fails.  The frame that serves hands out the first block in
    /// its free list whose address fits, and the request fails if none fits.
    pub fn allocate(&mut self, back: &mut BuddyAllocator, align: usize) -> (res: Option<usize>)
        requires
            old(self).wf(),
            old(back).wf(),
            old(self).backed(old(back)),
            align > 0,
        ensures
            final(self).wf(),
            final(self).geometry() == old(self).geometry(),
            final(self)@ == old(self)@.after_alloc(old(self).geometry(), align, old(self).fresh_base(old(back))),
            res == old(self)@.alloc_result(old(self).geometry(), align, old(self).fresh_base(old(back))),
            old(self)@.needs_frame() ==> old(back).alloc_step(
                final(back),
                old(self).geometry().frame_size as usize,
                1,
                old(self).fresh_base(old(back)),
            ),
            !old(self)@.needs_frame() ==> *final(back) == *old(back),
            old(self).fresh_base(old(back)) matches Some(b) ==> {
                &&& b as int % old(self).geometry().frame_size as int == 0
                &&& b + old(self).geometry().frame_size <= usize::MAX
                &&& final(back).live()[b] >= old(self).geometry().frame_size
            },
    {
        let ghost g = self.geometry();
        let ghost v0 = self@;
        let serves = match &self.current_frame {
            Some(f) => !f.is_full(),
            None => false,
        };
        if serves {
            proof {
                Self::lemma_used_bound(g, v0.class as nat, v0.current.unwrap());
                v0.lemma_after_alloc(g, align, None);
            }
            return self.serve_current(align);
        }
        self.retire_current();
        let n = self.partial_frame_list.len();
        if n > 0 {
            proof {
                v0.lemma_retired(g);
                v0.retired().lemma_without_partial(g, n - 1);
                Self::lemma_used_bound(g, v0.class as nat, v0.partial[n - 1]);
                assert(v0.partial.remove(n - 1) =~= v0.partial.drop_last());
                v0.lemma_after_alloc(g, align, None);
            }
            let f = self.drop_from_partial(n - 1);
            return self.serve_from(f, align);
        }
        match self.alloc_frame(back) {
            Some(f) => {
                proof {
                    let b = f@.base;
                    old(back).lemma_alloc_effect(back, self.frame_size, 1, Some(b));
                    if v0.has_frame(b) {
                        assert(old(back).live().contains_key(b));
                    }
                    lemma_class_geometry(v0.class as nat);
                    FrameView::lemma_fresh(g, v0.class, b);
                    Self::lemma_used_bound(g, v0.class as nat, f@);
                    v0.lemma_after_alloc(g, align, Some(b));
                }
                self.serve_from(f, align)
            },
            None => {
                proof {
                    v0.lemma_after_alloc(g, align, None);
                }
                None
            },
        }
    }

    /// Takes block `addr` back.
    ///
    /// The block becomes the head of the free list of its frame, which is
    /// found from the address.  A frame that was full moves to the head of
    /// the partial list.  A frame other than the current one that has no
    /// block handed out any more leaves the pool and goes back to the back
    /// allocator.
    pub fn dealloc(&mut self, back: &mut BuddyAllocator, addr: usize)
        requires
            old(self).wf(),
            old(back).wf(),
            old(self).backed(old(back)),
            old(self)@.holds(addr),
        ensures
            final(self).wf(),
            final(self).geometry() == old(self).geometry(),
            final(self)@ == old(self)@.after_dealloc(old(self).geometry(), addr),
            old(self)@.releases(old(self).geometry(), addr) ==> {
                &&& final(back).wf()
                &&& final(back).region() == old(back).region()
                &&& final(back).live() ==
                    old(back).live().remove(PoolView::frame_base(old(self).geometry(), addr))
            },
            !old(self)@.releases(old(self).geometry(), addr) ==> *final(back) == *old(back),
    {
        let ghost g = self.geometry();
        let ghost v0 = self@;
        proof {
            lemma_class_geometry(self.grained as nat);
            v0.lemma_holder(g, addr);
            v0.lemma_after_dealloc(g, addr);
        }
        assert(addr % self.frame_size <= addr) by (nonlinear_arith)
            requires
                self.frame_size > 0,
        ;
        let frame_base = addr - addr % self.frame_size;
        assert(frame_base == PoolView::frame_base(g, addr));
        let is_current = match &self.current_frame {
            Some(f) => f.base() == frame_base,
            None => false,
        };
        if is_current {
            proof {
                v0.current.unwrap().lemma_given_back(g, addr);
            }
            self.give_back_current(addr);
            return ;
        }
        match find_frame(&self.full_frame_list, frame_base) {
            Some(i) => {
                proof {
                    lemma_list_index(v0.full, i as int);
                    assert(v0.full_ok(g, i as int));
                    v0.full[i as int].lemma_given_back(g, addr);
                    PoolView::lemma_capacity(g);
                    assert(!v0.releases(g, addr));
                }
                self.give_back_full(i, addr);
            },
            None => {
                match find_frame(&self.partial_frame_list, frame_base) {
                    Some(i) => {
                        proof {
                            lemma_list_index(v0.partial, i as int);
                            assert(v0.partial_ok(g, i as int));
                            v0.partial[i as int].lemma_given_back(g, addr);
                        }
                        let empty = self.give_back_partial(i, addr);
                        if empty {
                            proof {
                                assert(v0.has_frame(frame_base));
                            }
                            let f = self.drop_from_partial(i);
                            proof {
                                assert(v0.partial.update(i as int, f@).remove(i as int) =~= v0.partial.remove(i as int));
                            }
                            DynamicAllocator::dealloc(back, f.base());
                        }
                    },
                    None => {
                        assert(false);
                    },
                }
            },
        }
    }

    /// Takes block `addr` back into the current frame.
    fn give_back_current(&mut self, addr: usize)
        requires
            old(self)@.current.is_some(),
            old(self)@.current.unwrap().used >= 1,
        ensures
            final(self)@ == (PoolView { current: Some(old(self)@.current.unwrap().given_back(addr)), ..old(self)@ }),
            final(self).geometry() == old(self).geometry(),
    {
        match &mut self.current_frame {
            Some(f) => {
                f.dealloc(addr);
            },
            None => {},
        }
    }

    /// Takes block `addr` back into the frame at place `i` of the full
    /// list, which moves to the head of the partial list.
    fn give_back_full(&mut self, i: usize, addr: usize)
        requires
            i < old(self)@.full.len(),
            old(self)@.full[i as int].used >= 1,
        ensures
            final(self)@ == (PoolView {
                full: old(self)@.full.remove(i as int),
                partial: old(self)@.partial.push(old(self)@.full[i as int].given_back(addr)),
                ..old(self)@
            }),
            final(self).geometry() == old(self).geometry(),
    {
        let ghost v0 = self@;
        self.full_frame_list[i].dealloc(addr);
        proof {
            assert(self@.full =~= v0.full.update(i as int, v0.full[i as int].given_back(addr)));
        }
        self.move_from_full_to_partial(i);
        proof {
            assert(self@.full =~= v0.full.remove(i as int));
        }
    }

    /// Takes block `addr` back into the frame at place `i` of the partial
    /// list, and tells whether no block of that frame is handed out any
    /// more.
    fn give_back_partial(&mut self, i: usize, addr: usize) -> (empty: bool)
        requires
            i < old(self)@.partial.len(),
            old(self)@.partial[i as int].used >= 1,
        ensures
            final(self)@ == (PoolView {
                partial: old(self)@.partial.update(i as int, old(self)@.partial[i as int].given_back(addr)),
                ..old(self)@
            }),
            empty == old(self)@.partial[i as int].given_back(addr).is_empty(),
            final(self).geometry() == old(self).geometry(),
    {
        let ghost v0 = self@;
        self.partial_frame_list[i].dealloc(addr);
        proof {
            assert(self@.partial =~= v0.partial.update(i as int, v0.partial[i as int].given_back(addr)));
        }
        self.partial_frame_list[i].is_empty()
    }
}

} // verus!
