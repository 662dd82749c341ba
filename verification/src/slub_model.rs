//! What a slab pool holds, as plain values: the layout of its frames, the
//! free list and the handed-out blocks of each frame, and the three places
//! where a pool keeps its frames.

use vstd::prelude::*;
use crate::math::{is_pow2, next_pow2, aligned_up, lemma_aligned_up, lemma_next_pow2_bounds};

verus! {

/// The layout of the frames of one pool.
pub struct Geometry {
    /// The number of bytes of a frame.
    pub frame_size: nat,
    /// The number of bytes of a block.
    pub blk_size: nat,
    /// The offset of the first block, behind the frame's header.
    pub blk_offset: nat,
}

impl Geometry {
    /// The number of blocks of a frame: as many as fit behind the offset.
    pub open spec fn capacity(self) -> nat {
        ((self.frame_size - self.blk_offset) / (self.blk_size as int)) as nat
    }

    /// A block has at least one byte, and the first block starts inside the
    /// frame or at its end.
    pub open spec fn sane(self) -> bool {
        &&& self.blk_size >= 1
        &&& self.blk_offset <= self.frame_size
    }

    /// A frame has a header of at least one byte and at least two blocks.
    pub open spec fn wf(self) -> bool {
        &&& self.blk_size >= 1
        &&& self.blk_offset >= 1
        &&& self.blk_offset + 2 * self.blk_size <= self.frame_size
    }

    /// The address of block `j` of the frame at `base`.
    pub open spec fn block_addr(self, base: int, j: int) -> int {
        base + self.blk_offset + j * self.blk_size
    }

    /// `a` is the address of a block of the frame at `base`.
    pub open spec fn is_block(self, base: int, a: int) -> bool {
        &&& a >= base + self.blk_offset
        &&& (a - base - self.blk_offset) % (self.blk_size as int) == 0
        &&& (a - base - self.blk_offset) / (self.blk_size as int) < self.capacity()
    }

    /// The number of the block of the frame at `base` that holds byte `a`.
    pub open spec fn block_index(self, base: int, a: int) -> int {
        (a - base - self.blk_offset) / (self.blk_size as int)
    }

    /// The blocks of a frame lie inside it, behind the header, and each is
    /// found again from any of its bytes.
    pub proof fn lemma_block(self, base: int, j: int)
        requires
            self.sane(),
            0 <= j < self.capacity(),
        ensures
            self.is_block(base, self.block_addr(base, j)),
            self.block_index(base, self.block_addr(base, j)) == j,
            base + self.blk_offset <= self.block_addr(base, j),
            self.block_addr(base, j) + self.blk_size <= base + self.frame_size,
            forall|x: int| self.block_addr(base, j) <= x < self.block_addr(base, j) + self.blk_size
                ==> #[trigger] self.block_index(base, x) == j,
    {
        let b = self.blk_size as int;
        let room = self.frame_size - self.blk_offset;
        let cap = self.capacity() as int;
        assert(cap * b <= room) by (nonlinear_arith)
            requires
                cap == room / b,
                b > 0,
                room >= 0,
        ;
        assert(j * b + b <= cap * b) by (nonlinear_arith)
            requires
                j + 1 <= cap,
                b > 0,
        ;
        assert(j * b >= 0) by (nonlinear_arith)
            requires
                j >= 0,
                b > 0,
        ;
        assert forall|x: int| self.block_addr(base, j) <= x < self.block_addr(base, j) + self.blk_size
            implies #[trigger] self.block_index(base, x) == j by {
            let d = x - base - self.blk_offset;
            assert(d / b == j) by (nonlinear_arith)
                requires
                    j * b <= d < j * b + b,
                    b > 0,
            ;
        }
        let d0 = j * b;
        assert(d0 % b == 0 && d0 / b == j) by (nonlinear_arith)
            requires
                d0 == j * b,
                b > 0,
        ;
        assert(self.block_addr(base, j) - base - self.blk_offset == d0);
    }

    /// A block's address is that of the block with its index.
    pub proof fn lemma_is_block(self, base: int, a: int)
        requires
            self.sane(),
            self.is_block(base, a),
        ensures
            0 <= self.block_index(base, a) < self.capacity(),
            a == self.block_addr(base, self.block_index(base, a)),
            base + self.blk_offset <= a,
            a + self.blk_size <= base + self.frame_size,
    {
        let b = self.blk_size as int;
        let d = a - base - self.blk_offset;
        assert(d == (d / b) * b && d / b >= 0) by (nonlinear_arith)
            requires
                d % b == 0,
                d >= 0,
                b > 0,
        ;
        self.lemma_block(base, self.block_index(base, a));
    }
}

/// `i` is the place of the first address in `free` that is a multiple of
/// `align`, or the length of `free` when there is none.
pub open spec fn is_first_fit(free: Seq<usize>, align: usize, i: int) -> bool {
    &&& 0 <= i <= free.len()
    &&& forall|j: int| 0 <= j < i ==> #[trigger] free[j] % align != 0
    &&& i < free.len() ==> free[i] % align == 0
}

/// The place of the first address in `free` that is a multiple of `align`.
pub open spec fn first_fit(free: Seq<usize>, align: usize) -> int {
    choose|i: int| is_first_fit(free, align, i)
}

/// A list has one first fit only.
pub proof fn lemma_first_fit(free: Seq<usize>, align: usize, i: int)
    requires
        is_first_fit(free, align, i),
    ensures
        first_fit(free, align) == i,
{
    let c = first_fit(free, align);
    assert(is_first_fit(free, align, c));
    if c < i {
        assert(free[c] % align != 0);
    }
    if i < c {
        assert(free[i] % align != 0);
    }
}

/// A frame of a pool.
pub struct FrameView {
    /// The frame's first address.
    pub base: usize,
    /// The block size class of the pool that owns the frame.
    pub pool: usize,
    /// The free blocks, the head of the list first.
    pub free: Seq<usize>,
    /// The blocks that are handed out.
    pub out: Set<usize>,
    /// The number of blocks that are handed out.
    pub used: nat,
}

impl FrameView {
    /// Every block of the frame is either free, once, or handed out, and
    /// `used` counts those handed out.
    pub open spec fn wf(self, g: Geometry) -> bool {
        &&& g.wf()
        &&& self.base + g.frame_size <= usize::MAX
        &&& self.free.no_duplicates()
        &&& self.out.finite()
        &&& self.out.len() == self.used
        &&& self.used + self.free.len() == g.capacity()
        &&& forall|a: usize| #[trigger] self.accounted(g, a)
    }

    /// Address `a` is free or handed out exactly when it is a block of the
    /// frame, and it is not both.
    pub open spec fn accounted(self, g: Geometry, a: usize) -> bool {
        &&& g.is_block(self.base as int, a as int) <==> self.free.contains(a) || self.out.contains(a)
        &&& !(self.free.contains(a) && self.out.contains(a))
    }

    /// No block is free.
    pub open spec fn is_full(self) -> bool {
        self.free.len() == 0
    }

    /// No block is handed out.
    pub open spec fn is_empty(self) -> bool {
        self.used == 0
    }

    /// A new frame at `base`: every block is free, in the order of the
    /// addresses.
    pub open spec fn fresh(g: Geometry, pool: usize, base: usize) -> FrameView {
        FrameView {
            base,
            pool,
            free: Seq::new(g.capacity(), |j: int| g.block_addr(base as int, j) as usize),
            out: Set::empty(),
            used: 0,
        }
    }

    /// The block that a request aligned to `align` gets from this frame:
    /// the first one in the free list whose address is a multiple of `align`.
    pub open spec fn pick(self, align: usize) -> Option<usize> {
        let i = first_fit(self.free, align);
        if i < self.free.len() {
            Some(self.free[i])
        } else {
            None
        }
    }

    /// The frame after such a request.
    pub open spec fn taken(self, align: usize) -> FrameView {
        let i = first_fit(self.free, align);
        if i < self.free.len() {
            FrameView { free: self.free.remove(i), out: self.out.insert(self.free[i]), used: self.used + 1, ..self }
        } else {
            self
        }
    }

    /// The frame after block `a` has come back: it is the new head of the
    /// free list.
    pub open spec fn given_back(self, a: usize) -> FrameView {
        FrameView { free: seq![a] + self.free, out: self.out.remove(a), used: (self.used - 1) as nat, ..self }
    }

    /// A new frame is well formed, and all of its blocks are free.
    pub proof fn lemma_fresh(g: Geometry, pool: usize, base: usize)
        requires
            g.wf(),
            base + g.frame_size <= usize::MAX,
        ensures
            Self::fresh(g, pool, base).wf(g),
            !Self::fresh(g, pool, base).is_full(),
            Self::fresh(g, pool, base).is_empty(),
    {
        let f = Self::fresh(g, pool, base);
        let b = base as int;
        assert forall|i: int, j: int| 0 <= i < f.free.len() && 0 <= j < f.free.len() && i != j implies
            f.free[i] != f.free[j] by {
            g.lemma_block(b, i);
            g.lemma_block(b, j);
        }
        assert forall|a: usize| #[trigger] f.accounted(g, a) by {
            if g.is_block(b, a as int) {
                g.lemma_is_block(b, a as int);
                let j = g.block_index(b, a as int);
                assert(f.free[j] == a);
            }
            if f.free.contains(a) {
                let j = choose|j: int| 0 <= j < f.free.len() && f.free[j] == a;
                g.lemma_block(b, j);
            }
        }
        assert(g.capacity() >= 2) by (nonlinear_arith)
            requires
                g.capacity() == (g.frame_size - g.blk_offset) / (g.blk_size as int),
                g.blk_offset + 2 * g.blk_size <= g.frame_size,
                g.blk_size >= 1,
        ;
    }

    /// A request leaves the frame well formed; the block that it gets is a
    /// block of the frame that was free and now is handed out.
    pub proof fn lemma_taken(self, g: Geometry, align: usize)
        requires
            self.wf(g),
        ensures
            self.taken(align).wf(g),
            self.taken(align).base == self.base,
            self.taken(align).pool == self.pool,
            self.pick(align) matches Some(a) ==> {
                &&& a % align == 0
                &&& g.is_block(self.base as int, a as int)
                &&& !self.out.contains(a)
                &&& self.taken(align).out == self.out.insert(a)
                &&& self.taken(align).used == self.used + 1
            },
            self.pick(align).is_none() ==> self.taken(align) == self,
    {
        let i = first_fit(self.free, align);
        if i < self.free.len() {
            assert(is_first_fit(self.free, align, 0) || exists|k: int| is_first_fit(self.free, align, k)) by {
                lemma_first_fit_exists(self.free, align);
            }
            assert(is_first_fit(self.free, align, i));
            let a = self.free[i];
            let t = self.taken(align);
            assert(self.free.contains(a));
            assert(t.free.no_duplicates()) by {
                assert forall|x: int, y: int| 0 <= x < t.free.len() && 0 <= y < t.free.len() &&
                    x != y implies t.free[x] != t.free[y] by {
                    let x0 = if x < i { x } else { x + 1 };
                    let y0 = if y < i { y } else { y + 1 };
                    assert(t.free[x] == self.free[x0]);
                    assert(t.free[y] == self.free[y0]);
                }
            }
            assert forall|c: usize| t.free.contains(c) <==> self.free.contains(c) && c != a by {
                if t.free.contains(c) {
                    let x = choose|x: int| 0 <= x < t.free.len() && t.free[x] == c;
                    let x0 = if x < i { x } else { x + 1 };
                    assert(self.free[x0] == c);
                }
                if self.free.contains(c) && c != a {
                    let x0 = choose|x: int| 0 <= x < self.free.len() && self.free[x] == c;
                    let x = if x0 < i { x0 } else { x0 - 1 };
                    assert(t.free[x] == c);
                }
            }
            assert forall|c: usize| #[trigger] t.accounted(g, c) by {
                assert(self.accounted(g, c));
            }
            assert(self.accounted(g, a));
        }
    }

    /// A block that comes back leaves the frame well formed, with a free
    /// block and one block less handed out.
    pub proof fn lemma_given_back(self, g: Geometry, a: usize)
        requires
            self.wf(g),
            self.out.contains(a),
        ensures
            self.used >= 1,
            self.given_back(a).wf(g),
            self.given_back(a).base == self.base,
            self.given_back(a).pool == self.pool,
            self.given_back(a).out == self.out.remove(a),
            !self.given_back(a).is_full(),
    {
        let t = self.given_back(a);
        assert(self.accounted(g, a));
        if self.used == 0 {
            self.out.lemma_len0_is_empty();
            assert(false);
        }
        assert forall|c: usize| t.free.contains(c) <==> self.free.contains(c) || c == a by {
            if t.free.contains(c) {
                let x = choose|x: int| 0 <= x < t.free.len() && t.free[x] == c;
                if x > 0 {
                    assert(self.free[x - 1] == c);
                }
            }
            if self.free.contains(c) {
                let x0 = choose|x: int| 0 <= x < self.free.len() && self.free[x] == c;
                assert(t.free[x0 + 1] == c);
            }
            assert(t.free[0] == a);
        }
        assert(t.free.no_duplicates()) by {
            assert forall|x: int, y: int| 0 <= x < t.free.len() && 0 <= y < t.free.len() && x != y implies
                t.free[x] != t.free[y] by {
                if x > 0 && y > 0 {
                    assert(t.free[x] == self.free[x - 1]);
                    assert(t.free[y] == self.free[y - 1]);
                } else if x > 0 {
                    assert(t.free[x] == self.free[x - 1]);
                    assert(self.free.contains(t.free[x]));
                } else {
                    assert(t.free[y] == self.free[y - 1]);
                    assert(self.free.contains(t.free[y]));
                }
            }
        }
        assert forall|c: usize| #[trigger] t.accounted(g, c) by {
            assert(self.accounted(g, c));
        }
    }

    /// A frame with nothing in use has no block handed out.
    pub proof fn lemma_empty(self, g: Geometry)
        requires
            self.wf(g),
            self.is_empty(),
        ensures
            self.out == Set::<usize>::empty(),
    {
        self.out.lemma_len0_is_empty();
    }
}

/// Every list has a first fit.
pub proof fn lemma_first_fit_exists(free: Seq<usize>, align: usize)
    ensures
        exists|k: int| is_first_fit(free, align, k),
    decreases free.len(),
{
    if free.len() == 0 {
        assert(is_first_fit(free, align, 0));
    } else {
        let rest = free.drop_last();
        lemma_first_fit_exists(rest, align);
        let k = choose|k: int| is_first_fit(rest, align, k);
        assert forall|j: int| 0 <= j < rest.len() implies rest[j] == free[j] by {}
        assert forall|j: int| 0 <= j < k implies #[trigger] free[j] % align != 0 by {
            assert(rest[j] % align != 0);
        }
        if k < rest.len() {
            assert(is_first_fit(free, align, k));
        } else if free.last() % align == 0 {
            assert(is_first_fit(free, align, k));
        } else {
            assert(is_first_fit(free, align, k + 1));
        }
    }
}

/// The number of bytes of a frame's header.
pub open spec fn frame_header_size() -> nat {
    64
}

/// The number of bytes of the link that a free block holds.
pub open spec fn block_link_size() -> nat {
    16
}

/// The block size class with number `id`.
pub open spec fn class_size(id: int) -> nat {
    if id == 0 {
        8
    } else if id == 1 {
        16
    } else if id == 2 {
        24
    } else if id == 3 {
        32
    } else if id == 4 {
        48
    } else if id == 5 {
        64
    } else if id == 6 {
        92
    } else if id == 7 {
        128
    } else if id == 8 {
        192
    } else if id == 9 {
        256
    } else if id == 10 {
        384
    } else if id == 11 {
        512
    } else if id == 12 {
        768
    } else if id == 13 {
        1024
    } else {
        2048
    }
}

/// The number of block size classes.
pub open spec fn class_count() -> int {
    15
}

/// Class `id` is the smallest class that holds `minsz` bytes.
pub open spec fn is_class_of(minsz: nat, id: int) -> bool {
    &&& 0 <= id < class_count()
    &&& class_size(id) >= minsz
    &&& id == 0 || class_size(id - 1) < minsz
}

/// The number of the smallest class that holds `minsz` bytes.
pub open spec fn class_of(minsz: nat) -> int {
    choose|id: int| is_class_of(minsz, id)
}

/// The layout of the frames of the pool of class `class`: a frame has
/// `next_pow2(16 * class)` bytes, a block has the class's size, or that of
/// a link if that is more, and the first block follows the header at the
/// next multiple of the block size.
pub open spec fn class_geometry(class: nat) -> Geometry {
    let blk = if class >= block_link_size() {
        class
    } else {
        block_link_size()
    };
    Geometry { frame_size: next_pow2(class * 16), blk_size: blk, blk_offset: aligned_up(frame_header_size(), blk) }
}

/// The frames of a class are well laid out: a header of at least 64
/// bytes, then at least two blocks that hold what the class promises.
pub proof fn lemma_class_geometry(class: nat)
    requires
        8 <= class <= 2048,
    ensures
        class_geometry(class).wf(),
        is_pow2(class_geometry(class).frame_size),
        16 * class <= class_geometry(class).frame_size < 32 * class,
        64 <= class_geometry(class).blk_offset < 64 + class_geometry(class).blk_size,
        class <= class_geometry(class).blk_size <= 2048,
        class_geometry(class).capacity() <= class_geometry(class).frame_size,
{
    let g = class_geometry(class);
    lemma_next_pow2_bounds(class * 16);
    lemma_aligned_up(64, g.blk_size);
    assert(g.capacity() <= g.frame_size) by (nonlinear_arith)
        requires
            g.capacity() == (g.frame_size - g.blk_offset) / (g.blk_size as int),
            g.blk_size >= 1,
            g.frame_size >= g.blk_offset,
    ;
}

/// A size of at most the greatest class has a smallest class that holds it.
pub proof fn lemma_class_of(minsz: nat, id: int)
    requires
        is_class_of(minsz, id),
    ensures
        class_of(minsz) == id,
{
    let c = class_of(minsz);
    assert(is_class_of(minsz, c));
    lemma_class_order();
    if c < id {
        assert(class_size(c) <= class_size(id - 1));
    }
    if id < c {
        assert(class_size(id) <= class_size(c - 1));
    }
}

/// Every request for at most 2048 bytes has its class.
pub proof fn lemma_class_exists(minsz: nat)
    requires
        minsz <= 2048,
    ensures
        is_class_of(minsz, class_of(minsz)),
{
    let id: int = if minsz <= 8 {
        0
    } else if minsz <= 16 {
        1
    } else if minsz <= 24 {
        2
    } else if minsz <= 32 {
        3
    } else if minsz <= 48 {
        4
    } else if minsz <= 64 {
        5
    } else if minsz <= 92 {
        6
    } else if minsz <= 128 {
        7
    } else if minsz <= 192 {
        8
    } else if minsz <= 256 {
        9
    } else if minsz <= 384 {
        10
    } else if minsz <= 512 {
        11
    } else if minsz <= 768 {
        12
    } else if minsz <= 1024 {
        13
    } else {
        14
    };
    assert(is_class_of(minsz, id));
}

/// The classes grow with their numbers.
pub proof fn lemma_class_order()
    ensures
        forall|i: int, j: int| 0 <= i <= j < class_count() ==> class_size(i) <= class_size(j),
        forall|i: int, j: int| 0 <= i < j < class_count() ==> class_size(i) < class_size(j),
        forall|i: int| 0 <= i < class_count() ==> 8 <= #[trigger] class_size(i) <= 2048,
{
}

} // verus!
