//! A frame of a slab pool: a page from the back allocator, cut into blocks
//! of one size behind a header.

use vstd::prelude::*;
use crate::slub_model::{Geometry, FrameView, is_first_fit, lemma_first_fit};

verus! {

/// A frame: where it starts, whose it is, which of its blocks are free and
/// how many are handed out.  The head of the free list is its first
/// element.
pub struct SlubFrame {
    base: usize,
    pool: usize,
    free_blks: Vec<usize>,
    in_use: usize,
    out: Ghost<Set<usize>>,
}

impl View for SlubFrame {
    type V = FrameView;

    /// The frame as plain values.
    closed spec fn view(&self) -> FrameView {
        FrameView { base: self.base, pool: self.pool, free: self.free_blks@, out: self.out@, used: self.in_use as nat }
    }
}

impl SlubFrame {
    /// A new frame at `start` for the pool of class `pool`: the blocks of
    /// `real_blk_size` bytes from `start + offset` on, as many as end inside
    /// the `frame_size` bytes, are all free, the lowest at the head.
    pub fn init(
        pool: usize,
        start: usize,
        frame_size: usize,
        real_blk_size: usize,
        offset: usize,
    ) -> (res: Self)
        requires
            real_blk_size >= 1,
            offset <= frame_size,
            start + frame_size <= usize::MAX,
        ensures
            res@ == FrameView::fresh(
                Geometry { frame_size: frame_size as nat, blk_size: real_blk_size as nat, blk_offset: offset as nat },
                pool,
                start,
            ),
    {
        let ghost g = Geometry {
            frame_size: frame_size as nat,
            blk_size: real_blk_size as nat,
            blk_offset: offset as nat,
        };
        let end = start + frame_size;
        let mut free_blks: Vec<usize> = Vec::new();
        let mut np = start + offset;
        let ghost mut j: int = 0;
        while end - np >= real_blk_size
            invariant
                g.sane(),
                g == (Geometry {
                    frame_size: frame_size as nat,
                    blk_size: real_blk_size as nat,
                    blk_offset: offset as nat,
                }),
                end == start + frame_size,
                end <= usize::MAX,
                np <= end,
                0 <= j <= g.capacity(),
                np == g.block_addr(start as int, j),
                free_blks@.len() == j,
                forall|k: int| 0 <= k < j ==> #[trigger] free_blks@[k] == g.block_addr(start as int, k),
            decreases end - np,
        {
            proof {
                let b = real_blk_size as int;
                let room = frame_size - offset;
                assert(j + 1 <= room / b) by (nonlinear_arith)
                    requires
                        j * b + b <= room,
                        b > 0,
                        j >= 0,
                ;
                assert((j + 1) * b == j * b + b) by (nonlinear_arith);
            }
            free_blks.push(np);
            np = np + real_blk_size;
            proof {
                j = j + 1;
            }
        }
        proof {
            if j < g.capacity() {
                g.lemma_block(start as int, j);
            }
            assert(free_blks@ =~= FrameView::fresh(g, pool, start).free);
        }
        SlubFrame { base: start, pool, free_blks, in_use: 0, out: Ghost(Set::empty()) }
    }

    /// Hands out the first free block whose address is a multiple of
    /// `align`, if there is one.
    pub fn allocate(&mut self, align: usize) -> (res: Option<usize>)
        requires
            !old(self)@.is_full(),
            align > 0,
            old(self)@.used < usize::MAX,
        ensures
            res == old(self)@.pick(align),
            final(self)@ == old(self)@.taken(align),
    {
        let mut i: usize = 0;
        while i < self.free_blks.len()
            invariant
                *self == *old(self),
                self.in_use < usize::MAX,
                0 <= i <= self.free_blks.len(),
                align > 0,
                forall|j: int| 0 <= j < i ==> #[trigger] self.free_blks@[j] % align != 0,
            decreases self.free_blks.len() - i,
        {
            if self.free_blks[i] % align == 0 {
                proof {
                    assert(is_first_fit(self.free_blks@, align, i as int));
                    lemma_first_fit(self.free_blks@, align, i as int);
                }
                let blk = self.free_blks.remove(i);
                self.in_use = self.in_use + 1;
                proof {
                    self.out = Ghost(self.out@.insert(blk));
                }
                return Some(blk);
            }
            i = i + 1;
        }
        proof {
            assert(is_first_fit(self.free_blks@, align, i as int));
            lemma_first_fit(self.free_blks@, align, i as int);
        }
        None
    }

    /// Takes block `addr` back: it is the new head of the free list.
    pub fn dealloc(&mut self, addr: usize)
        requires
            old(self)@.used >= 1,
        ensures
            final(self)@ == old(self)@.given_back(addr),
    {
        self.free_blks.insert(0, addr);
        self.in_use = self.in_use - 1;
        proof {
            self.out = Ghost(self.out@.remove(addr));
            assert(self.free_blks@ =~= seq![addr] + old(self).free_blks@);
        }
    }

    /// The first address of the block that is handed out and holds `addr`,
    /// if there is one, in a frame of `frame_size` bytes with blocks of
    /// `real_blk_size` bytes from `offset` on.
    pub fn block_head(
        &self,
        frame_size: usize,
        real_blk_size: usize,
        offset: usize,
        addr: usize,
    ) -> (res: Option<usize>)
        requires
            self@.wf(Geometry { frame_size: frame_size as nat, blk_size: real_blk_size as nat, blk_offset: offset as nat }),
        ensures
            match res {
                Some(p) => self@.out.contains(p) && p <= addr < p + real_blk_size,
                None => forall|p: usize| #[trigger] self@.out.contains(p) ==> !(p <= addr < p + real_blk_size),
            },
    {
        let ghost g = Geometry { frame_size: frame_size as nat, blk_size: real_blk_size as nat, blk_offset: offset as nat };
        let ghost b = self.base as int;
        proof {
            assert forall|p: usize| #[trigger] self@.out.contains(p) implies g.is_block(b, p as int) &&
                g.block_index(b, p as int) < g.capacity()
                && (p <= addr < p + real_blk_size ==> g.block_index(b, addr as int) ==
                    g.block_index(b, p as int) && addr >= b + offset) by {
                assert(self@.accounted(g, p));
                g.lemma_is_block(b, p as int);
                g.lemma_block(b, g.block_index(b, p as int));
            }
        }
        if addr < self.base + offset {
            return None;
        }
        let j = (addr - self.base - offset) / real_blk_size;
        let cap = (frame_size - offset) / real_blk_size;
        if j >= cap {
            return None;
        }
        proof {
            g.lemma_block(b, j as int);
            let d = addr - self.base - offset;
            assert(j * real_blk_size <= d < j * real_blk_size + real_blk_size) by (nonlinear_arith)
                requires
                    j == d / (real_blk_size as int),
                    real_blk_size > 0,
                    d >= 0,
            ;
        }
        let p = self.base + offset + j * real_blk_size;
        proof {
            assert(p == g.block_addr(b, j as int));
            assert(self@.accounted(g, p));
            assert forall|q: usize| #[trigger] self@.out.contains(q) &&
                q <= addr < q + real_blk_size implies q == p by {
                g.lemma_is_block(b, q as int);
            }
        }
        if self.is_free(p) {
            None
        } else {
            Some(p)
        }
    }

    /// Block `p` is in the free list.
    fn is_free(&self, p: usize) -> (res: bool)
        ensures
            res == self@.free.contains(p),
    {
        let mut i: usize = 0;
        while i < self.free_blks.len()
            invariant
                i <= self.free_blks.len(),
                forall|k: int| 0 <= k < i ==> #[trigger] self.free_blks@[k] != p,
            decreases self.free_blks.len() - i,
        {
            if self.free_blks[i] == p {
                return true;
            }
            i = i + 1;
        }
        proof {
            if self@.free.contains(p) {
                let k = choose|k: int| 0 <= k < self@.free.len() && self@.free[k] == p;
                assert(self.free_blks@[k] != p);
            }
        }
        false
    }

    /// No block of the frame is handed out.
    pub fn is_empty(&self) -> (res: bool)
        ensures
            res == self@.is_empty(),
    {
        self.in_use == 0
    }

    /// No block of the frame is free.
    pub fn is_full(&self) -> (res: bool)
        ensures
            res == self@.is_full(),
    {
        self.free_blks.len() == 0
    }

    /// The number of blocks of the frame that are handed out.
    pub fn in_use(&self) -> (res: usize)
        ensures
            res == self@.used,
    {
        self.in_use
    }

    /// The number of blocks of the frame that are free.
    pub fn free_count(&self) -> (res: usize)
        ensures
            res == self@.free.len(),
    {
        self.free_blks.len()
    }

    /// The frame's first address.
    pub fn base(&self) -> (res: usize)
        ensures
            res == self@.base,
    {
        self.base
    }

    /// The block size class of the pool that owns the frame.
    pub fn pool(&self) -> (res: usize)
        ensures
            res == self@.pool,
    {
        self.pool
    }
}

} // verus!
