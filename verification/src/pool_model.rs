//! The three places where a pool keeps its frames, and what moving a frame
//! from one to another does to the frames and blocks that the pool holds.

use vstd::prelude::*;
use crate::slub_model::{Geometry, FrameView, is_first_fit, lemma_first_fit};

verus! {

/// Some frame of the list starts at `b`.
pub open spec fn list_has(s: Seq<FrameView>, b: usize) -> bool {
    exists|i: int| 0 <= i < s.len() && #[trigger] s[i].base == b
}

/// Block `a` is handed out from some frame of the list.
pub open spec fn list_holds(s: Seq<FrameView>, a: usize) -> bool {
    exists|i: int| 0 <= i < s.len() && #[trigger] s[i].out.contains(a)
}

/// No two frames of the list start at one address.
pub open spec fn list_distinct(s: Seq<FrameView>) -> bool {
    forall|i: int, j: int| 0 <= i < j < s.len() ==> #[trigger] s[i].base != #[trigger] s[j].base
}

/// The place in the list of the frame that starts at `b`.
pub open spec fn list_index(s: Seq<FrameView>, b: usize) -> int {
    choose|i: int| 0 <= i < s.len() && #[trigger] s[i].base == b
}

/// In a list without two frames at one address, a frame is found by its
/// address.
pub proof fn lemma_list_index(s: Seq<FrameView>, i: int)
    requires
        list_distinct(s),
        0 <= i < s.len(),
    ensures
        list_has(s, s[i].base),
        list_index(s, s[i].base) == i,
{
    let b = s[i].base;
    let c = list_index(s, b);
    assert(0 <= c < s.len() && s[c].base == b);
    if c < i {
        assert(s[c].base != s[i].base);
    }
    if i < c {
        assert(s[i].base != s[c].base);
    }
}

/// What a list holds after another frame has been put at its head.
pub proof fn lemma_list_push(s: Seq<FrameView>, f: FrameView)
    ensures
        forall|b: usize| list_has(s.push(f), b) <==> list_has(s, b) || f.base == b,
        forall|a: usize| list_holds(s.push(f), a) <==> list_holds(s, a) || f.out.contains(a),
        list_distinct(s) && !list_has(s, f.base) ==> list_distinct(s.push(f)),
{
    let t = s.push(f);
    assert forall|b: usize| list_has(t, b) <==> list_has(s, b) || f.base == b by {
        if list_has(t, b) {
            let i = choose|i: int| 0 <= i < t.len() && #[trigger] t[i].base == b;
            if i < s.len() {
                assert(s[i].base == b);
            }
        }
        if list_has(s, b) {
            let i = choose|i: int| 0 <= i < s.len() && #[trigger] s[i].base == b;
            assert(t[i].base == b);
        }
        if f.base == b {
            assert(t[s.len() as int].base == b);
        }
    }
    assert forall|a: usize| list_holds(t, a) <==> list_holds(s, a) || f.out.contains(a) by {
        if list_holds(t, a) {
            let i = choose|i: int| 0 <= i < t.len() && #[trigger] t[i].out.contains(a);
            if i < s.len() {
                assert(s[i].out.contains(a));
            }
        }
        if list_holds(s, a) {
            let i = choose|i: int| 0 <= i < s.len() && #[trigger] s[i].out.contains(a);
            assert(t[i].out.contains(a));
        }
        if f.out.contains(a) {
            assert(t[s.len() as int].out.contains(a));
        }
    }
    if list_distinct(s) && !list_has(s, f.base) {
        assert forall|i: int, j: int| 0 <= i < j < t.len() implies
            #[trigger] t[i].base != #[trigger] t[j].base by {
            if j < s.len() {
                assert(s[i].base != s[j].base);
            } else {
                assert(s[i].base == t[i].base);
            }
        }
    }
}

/// What a list holds after the frame at place `k` has been taken out.
pub proof fn lemma_list_remove(s: Seq<FrameView>, k: int)
    requires
        0 <= k < s.len(),
    ensures
        forall|b: usize| list_has(s, b) <==> list_has(s.remove(k), b) || s[k].base == b,
        forall|a: usize| list_holds(s, a) <==> list_holds(s.remove(k), a) || s[k].out.contains(a),
        list_distinct(s) ==> list_distinct(s.remove(k)) && !list_has(s.remove(k), s[k].base),
{
    let t = s.remove(k);
    assert forall|i: int| 0 <= i < t.len() implies t[i] == s[if i < k { i } else { i + 1 }] by {}
    assert forall|b: usize| list_has(s, b) <==> list_has(t, b) || s[k].base == b by {
        if list_has(t, b) {
            let i = choose|i: int| 0 <= i < t.len() && #[trigger] t[i].base == b;
            let i0 = if i < k { i } else { i + 1 };
            assert(s[i0].base == b);
        }
        if list_has(s, b) && s[k].base != b {
            let i0 = choose|i: int| 0 <= i < s.len() && #[trigger] s[i].base == b;
            let i = if i0 < k { i0 } else { i0 - 1 };
            assert(t[i].base == b);
        }
        if s[k].base == b {
            assert(list_has(s, b));
        }
    }
    assert forall|a: usize| list_holds(s, a) <==> list_holds(t, a) || s[k].out.contains(a) by {
        if list_holds(t, a) {
            let i = choose|i: int| 0 <= i < t.len() && #[trigger] t[i].out.contains(a);
            let i0 = if i < k { i } else { i + 1 };
            assert(s[i0].out.contains(a));
        }
        if list_holds(s, a) && !s[k].out.contains(a) {
            let i0 = choose|i: int| 0 <= i < s.len() && #[trigger] s[i].out.contains(a);
            let i = if i0 < k { i0 } else { i0 - 1 };
            assert(t[i].out.contains(a));
        }
        if s[k].out.contains(a) {
            assert(list_holds(s, a));
        }
    }
    if list_distinct(s) {
        assert forall|i: int, j: int| 0 <= i < j < t.len() implies
            #[trigger] t[i].base != #[trigger] t[j].base by {
            let i0 = if i < k { i } else { i + 1 };
            let j0 = if j < k { j } else { j + 1 };
            assert(s[i0].base != s[j0].base);
        }
        if list_has(t, s[k].base) {
            let i = choose|i: int| 0 <= i < t.len() && #[trigger] t[i].base == s[k].base;
            let i0 = if i < k { i } else { i + 1 };
            if i0 < k {
                assert(s[i0].base != s[k].base);
            } else {
                assert(s[k].base != s[i0].base);
            }
        }
    }
}

/// What a list holds after the frame at place `k` has been replaced by a
/// frame at the same address.
pub proof fn lemma_list_update(s: Seq<FrameView>, k: int, f: FrameView)
    requires
        0 <= k < s.len(),
        f.base == s[k].base,
    ensures
        forall|b: usize| #[trigger] list_has(s.update(k, f), b) <==> list_has(s, b),
        forall|a: usize| #[trigger] list_holds(s.update(k, f), a) <==> (list_holds(s.remove(k), a) ||
            f.out.contains(a)),
        list_distinct(s) ==> list_distinct(s.update(k, f)),
{
    let t = s.update(k, f);
    lemma_list_remove(s, k);
    lemma_list_remove(t, k);
    assert(t.remove(k) =~= s.remove(k));
    assert(t[k] == f);
    assert forall|b: usize| #[trigger] list_has(t, b) <==> list_has(s, b) by {
        assert(list_has(t, b) <==> list_has(t.remove(k), b) || t[k].base == b);
        assert(list_has(s, b) <==> list_has(s.remove(k), b) || s[k].base == b);
    }
    assert forall|a: usize| #[trigger] list_holds(t, a) <==> (list_holds(s.remove(k), a) ||
        f.out.contains(a)) by {
        assert(list_holds(t, a) <==> list_holds(t.remove(k), a) || t[k].out.contains(a));
    }
    if list_distinct(s) {
        assert forall|i: int, j: int| 0 <= i < j < t.len() implies
            #[trigger] t[i].base != #[trigger] t[j].base by {
            assert(s[i].base != s[j].base);
        }
    }
}

/// A pool's frames.
pub struct PoolView {
    /// The block size class of the pool.
    pub class: usize,
    /// The frame that requests are served from.
    pub current: Option<FrameView>,
    /// The frames from which some blocks are handed out and some are free,
    /// the head of the list last.
    pub partial: Seq<FrameView>,
    /// The frames that have no free block, the head of the list last.
    pub full: Seq<FrameView>,
}

impl PoolView {
    /// Frame `f` is a well-formed frame of this pool, at an address that is
    /// a multiple of the frame size.
    pub open spec fn frame_ok(self, g: Geometry, f: FrameView) -> bool {
        &&& f.wf(g)
        &&& f.pool == self.class
        &&& f.base as int % g.frame_size as int == 0
    }

    /// The frame at place `i` of the partial list has a free block, and a
    /// block that is handed out.
    pub open spec fn partial_ok(self, g: Geometry, i: int) -> bool {
        &&& self.frame_ok(g, self.partial[i])
        &&& !self.partial[i].is_full()
        &&& !self.partial[i].is_empty()
    }

    /// The frame at place `i` of the full list has no free block.
    pub open spec fn full_ok(self, g: Geometry, i: int) -> bool {
        &&& self.frame_ok(g, self.full[i])
        &&& self.full[i].is_full()
    }

    /// The current frame starts at `b`.
    pub open spec fn current_has(self, b: usize) -> bool {
        self.current.is_some() && self.current.unwrap().base == b
    }

    /// Block `a` is handed out from the current frame.
    pub open spec fn current_holds(self, a: usize) -> bool {
        self.current.is_some() && self.current.unwrap().out.contains(a)
    }

    /// The pool owns a frame that starts at `b`.
    pub open spec fn has_frame(self, b: usize) -> bool {
        self.current_has(b) || list_has(self.partial, b) || list_has(self.full, b)
    }

    /// Block `a` is handed out from a frame of the pool.
    pub open spec fn holds(self, a: usize) -> bool {
        self.current_holds(a) || list_holds(self.partial, a) || list_holds(self.full, a)
    }

    /// Every frame is in one place only.
    pub open spec fn places_apart(self) -> bool {
        &&& list_distinct(self.partial)
        &&& list_distinct(self.full)
        &&& forall|b: usize| !(#[trigger] list_has(self.partial, b) && list_has(self.full, b))
        &&& forall|b: usize| self.current_has(b) ==> !#[trigger] list_has(self.partial, b) &&
            !list_has(self.full, b)
    }

    /// The pool's frames are well formed; a frame is on the full list only
    /// if it has no free block, and on the partial list only if it has a
    /// free block and a block handed out; no frame is in two places.
    pub open spec fn wf(self, g: Geometry) -> bool {
        &&& g.wf()
        &&& self.current.is_some() ==> self.frame_ok(g, self.current.unwrap())
        &&& forall|i: int| 0 <= i < self.partial.len() ==> #[trigger] self.partial_ok(g, i)
        &&& forall|i: int| 0 <= i < self.full.len() ==> #[trigger] self.full_ok(g, i)
        &&& self.places_apart()
    }

    /// Requests are served from the current frame as it stands.
    pub open spec fn serves_current(self) -> bool {
        self.current.is_some() && !self.current.unwrap().is_full()
    }

    /// A request needs a new frame from the back allocator.
    pub open spec fn needs_frame(self) -> bool {
        !self.serves_current() && self.partial.len() == 0
    }

    /// The pool after its current frame, if it has one, has gone to the
    /// head of the full list.
    pub open spec fn retired(self) -> PoolView {
        if self.current.is_some() {
            PoolView { current: None, full: self.full.push(self.current.unwrap()), ..self }
        } else {
            self
        }
    }

    /// The frame that the next request is served from, where `fresh_base`
    /// is the address that the back allocator gives to a new frame, if it
    /// gives one.
    pub open spec fn serving(self, g: Geometry, fresh_base: Option<usize>) -> Option<FrameView> {
        if self.serves_current() {
            self.current
        } else if self.partial.len() > 0 {
            Some(self.partial.last())
        } else if fresh_base.is_some() {
            Some(FrameView::fresh(g, self.class, fresh_base.unwrap()))
        } else {
            None
        }
    }

    /// The pool after a request aligned to `align`: if the current frame
    /// has a free block, it serves; else it goes to the full list, the head
    /// of the partial list becomes the current frame, or a new frame does
    /// where the partial list is empty, and that frame serves.
    pub open spec fn after_alloc(
        self,
        g: Geometry,
        align: usize,
        fresh_base: Option<usize>,
    ) -> PoolView {
        if self.serves_current() {
            PoolView { current: Some(self.current.unwrap().taken(align)), ..self }
        } else if self.partial.len() > 0 {
            PoolView {
                current: Some(self.partial.last().taken(align)),
                partial: self.partial.drop_last(),
                ..self.retired()
            }
        } else if fresh_base.is_some() {
            PoolView { current: Some(FrameView::fresh(g, self.class, fresh_base.unwrap()).taken(align)), ..self.retired() }
        } else {
            self.retired()
        }
    }

    /// The block that such a request gets.
    pub open spec fn alloc_result(
        self,
        g: Geometry,
        align: usize,
        fresh_base: Option<usize>,
    ) -> Option<usize> {
        match self.serving(g, fresh_base) {
            Some(f) => f.pick(align),
            None => None,
        }
    }

    /// The first address of the frame that holds address `addr`.
    pub open spec fn frame_base(g: Geometry, addr: usize) -> usize {
        (addr - addr as int % g.frame_size as int) as usize
    }

    /// The frame that `addr` goes back to, once it has gone back.
    pub open spec fn returned(self, g: Geometry, addr: usize) -> FrameView {
        let b = Self::frame_base(g, addr);
        if self.current_has(b) {
            self.current.unwrap().given_back(addr)
        } else if list_has(self.full, b) {
            self.full[list_index(self.full, b)].given_back(addr)
        } else {
            self.partial[list_index(self.partial, b)].given_back(addr)
        }
    }

    /// The frame of block `addr` goes back to the back allocator when the
    /// block comes back: it is not the current frame, and no other block of
    /// it is handed out.
    pub open spec fn releases(self, g: Geometry, addr: usize) -> bool {
        !self.current_has(Self::frame_base(g, addr)) && self.returned(g, addr).is_empty()
    }

    /// The pool after block `addr` has come back: the block is the head of
    /// its frame's free list; a frame that was full is at the head of the
    /// partial list; a frame other than the current one with no block handed
    /// out is gone.
    pub open spec fn after_dealloc(self, g: Geometry, addr: usize) -> PoolView {
        let b = Self::frame_base(g, addr);
        let f = self.returned(g, addr);
        if self.current_has(b) {
            PoolView { current: Some(f), ..self }
        } else if list_has(self.full, b) {
            PoolView { full: self.full.remove(list_index(self.full, b)), partial: self.partial.push(f), ..self }
        } else {
            let i = list_index(self.partial, b);
            if f.is_empty() {
                PoolView { partial: self.partial.remove(i), ..self }
            } else {
                PoolView { partial: self.partial.update(i, f), ..self }
            }
        }
    }

    /// A block of a frame at a multiple of the frame size lies in the frame
    /// that `frame_base` names.
    pub proof fn lemma_frame_base(g: Geometry, b: usize, a: usize)
        requires
            g.wf(),
            b as int % g.frame_size as int == 0,
            b <= a < b + g.frame_size,
        ensures
            Self::frame_base(g, a) == b,
    {
        let f = g.frame_size as int;
        let x = a as int;
        let y = b as int;
        assert(x % f == x - y) by (nonlinear_arith)
            requires
                y % f == 0,
                y <= x < y + f,
                f > 0,
                y >= 0,
        ;
    }

    /// A frame that is handed a block out is the frame that `frame_base`
    /// names for the block.
    pub proof fn lemma_out_in_frame(self, g: Geometry, f: FrameView, a: usize)
        requires
            self.frame_ok(g, f),
            f.out.contains(a),
        ensures
            Self::frame_base(g, a) == f.base,
            g.is_block(f.base as int, a as int),
    {
        assert(f.accounted(g, a));
        g.lemma_is_block(f.base as int, a as int);
        Self::lemma_frame_base(g, f.base, a);
    }

    /// A block that the pool has handed out belongs to a frame of the pool.
    pub proof fn lemma_holds_in_frame(self, g: Geometry, a: usize)
        requires
            self.wf(g),
            self.holds(a),
        ensures
            self.has_frame(Self::frame_base(g, a)),
            g.is_block(Self::frame_base(g, a) as int, a as int),
    {
        if self.current_holds(a) {
            self.lemma_out_in_frame(g, self.current.unwrap(), a);
        } else if list_holds(self.partial, a) {
            let i = choose|i: int| 0 <= i < self.partial.len() && #[trigger] self.partial[i].out.contains(a);
            assert(self.partial_ok(g, i));
            self.lemma_out_in_frame(g, self.partial[i], a);
        } else {
            let i = choose|i: int| 0 <= i < self.full.len() && #[trigger] self.full[i].out.contains(a);
            assert(self.full_ok(g, i));
            self.lemma_out_in_frame(g, self.full[i], a);
        }
    }

    /// The pool without its current frame.
    pub proof fn lemma_without_current(self, g: Geometry)
        requires
            self.wf(g),
            self.current.is_some(),
        ensures
            (PoolView { current: None, ..self }).wf(g),
            self.frame_ok(g, self.current.unwrap()),
            !(PoolView { current: None, ..self }).has_frame(self.current.unwrap().base),
            forall|b: usize| self.has_frame(b) <==> (PoolView { current: None, ..self }).has_frame(b) ||
                b == self.current.unwrap().base,
            forall|a: usize| self.holds(a) <==> (PoolView { current: None, ..self }).holds(a) ||
                self.current.unwrap().out.contains(a),
    {
        let q = PoolView { current: None, ..self };
        assert forall|i: int| 0 <= i < q.partial.len() implies #[trigger] q.partial_ok(g, i) by {
            assert(self.partial_ok(g, i));
        }
        assert forall|i: int| 0 <= i < q.full.len() implies #[trigger] q.full_ok(g, i) by {
            assert(self.full_ok(g, i));
        }
        assert(self.current_has(self.current.unwrap().base));
    }

    /// The pool without the frame at place `k` of its partial list.
    pub proof fn lemma_without_partial(self, g: Geometry, k: int)
        requires
            self.wf(g),
            0 <= k < self.partial.len(),
        ensures
            (PoolView { partial: self.partial.remove(k), ..self }).wf(g),
            self.frame_ok(g, self.partial[k]),
            !self.partial[k].is_full(),
            !self.partial[k].is_empty(),
            !(PoolView { partial: self.partial.remove(k), ..self }).has_frame(self.partial[k].base),
            forall|b: usize| self.has_frame(b) <==>
                (PoolView { partial: self.partial.remove(k), ..self }).has_frame(b) || b ==
                self.partial[k].base,
            forall|a: usize| self.holds(a) <==>
                (PoolView { partial: self.partial.remove(k), ..self }).holds(a) ||
                self.partial[k].out.contains(a),
    {
        let q = PoolView { partial: self.partial.remove(k), ..self };
        lemma_list_remove(self.partial, k);
        assert(self.partial_ok(g, k));
        assert forall|i: int| 0 <= i < q.partial.len() implies #[trigger] q.partial_ok(g, i) by {
            let i0 = if i < k { i } else { i + 1 };
            assert(self.partial_ok(g, i0));
            assert(q.partial[i] == self.partial[i0]);
        }
        assert forall|i: int| 0 <= i < q.full.len() implies #[trigger] q.full_ok(g, i) by {
            assert(self.full_ok(g, i));
        }
        let b0 = self.partial[k].base;
        assert(list_has(self.partial, b0));
        assert forall|b: usize| !(#[trigger] list_has(q.partial, b) && list_has(q.full, b)) by {
            assert(!(list_has(self.partial, b) && list_has(self.full, b)));
        }
        assert forall|b: usize| q.current_has(b) implies !#[trigger] list_has(q.partial, b) &&
            !list_has(q.full, b) by {
            assert(!list_has(self.partial, b) && !list_has(self.full, b));
        }
        assert(!(list_has(self.partial, b0) && list_has(self.full, b0)));
        if q.current_has(b0) {
            assert(!list_has(self.partial, b0));
        }
    }

    /// The pool without the frame at place `k` of its full list.
    pub proof fn lemma_without_full(self, g: Geometry, k: int)
        requires
            self.wf(g),
            0 <= k < self.full.len(),
        ensures
            (PoolView { full: self.full.remove(k), ..self }).wf(g),
            self.frame_ok(g, self.full[k]),
            self.full[k].is_full(),
            !(PoolView { full: self.full.remove(k), ..self }).has_frame(self.full[k].base),
            forall|b: usize| self.has_frame(b) <==>
                (PoolView { full: self.full.remove(k), ..self }).has_frame(b) || b == self.full[k].base,
            forall|a: usize| self.holds(a) <==>
                (PoolView { full: self.full.remove(k), ..self }).holds(a) || self.full[k].out.contains(a),
    {
        let q = PoolView { full: self.full.remove(k), ..self };
        lemma_list_remove(self.full, k);
        assert(self.full_ok(g, k));
        assert forall|i: int| 0 <= i < q.full.len() implies #[trigger] q.full_ok(g, i) by {
            let i0 = if i < k { i } else { i + 1 };
            assert(self.full_ok(g, i0));
            assert(q.full[i] == self.full[i0]);
        }
        assert forall|i: int| 0 <= i < q.partial.len() implies #[trigger] q.partial_ok(g, i) by {
            assert(self.partial_ok(g, i));
        }
        let b0 = self.full[k].base;
        assert(list_has(self.full, b0));
        assert forall|b: usize| !(#[trigger] list_has(q.partial, b) && list_has(q.full, b)) by {
            assert(!(list_has(self.partial, b) && list_has(self.full, b)));
        }
        assert forall|b: usize| q.current_has(b) implies !#[trigger] list_has(q.partial, b) &&
            !list_has(q.full, b) by {
            assert(!list_has(self.partial, b) && !list_has(self.full, b));
        }
        assert(!(list_has(self.partial, b0) && list_has(self.full, b0)));
        if q.current_has(b0) {
            assert(!list_has(self.partial, b0) && !list_has(self.full, b0));
        }
    }

    /// The pool with one more frame, as its current frame.
    pub proof fn lemma_with_current(self, g: Geometry, f: FrameView)
        requires
            self.wf(g),
            self.current.is_none(),
            self.frame_ok(g, f),
            !self.has_frame(f.base),
        ensures
            (PoolView { current: Some(f), ..self }).wf(g),
            forall|b: usize| (PoolView { current: Some(f), ..self }).has_frame(b) <==> self.has_frame(b) ||
                b == f.base,
            forall|a: usize| (PoolView { current: Some(f), ..self }).holds(a) <==> self.holds(a) ||
                f.out.contains(a),
    {
        let q = PoolView { current: Some(f), ..self };
        assert forall|i: int| 0 <= i < q.partial.len() implies #[trigger] q.partial_ok(g, i) by {
            assert(self.partial_ok(g, i));
        }
        assert forall|i: int| 0 <= i < q.full.len() implies #[trigger] q.full_ok(g, i) by {
            assert(self.full_ok(g, i));
        }
        assert forall|b: usize| !(#[trigger] list_has(q.partial, b) && list_has(q.full, b)) by {
            assert(!(list_has(self.partial, b) && list_has(self.full, b)));
        }
    }

    /// The pool with one more frame, at the head of its partial list.
    pub proof fn lemma_with_partial(self, g: Geometry, f: FrameView)
        requires
            self.wf(g),
            self.frame_ok(g, f),
            !f.is_full(),
            !f.is_empty(),
            !self.has_frame(f.base),
        ensures
            (PoolView { partial: self.partial.push(f), ..self }).wf(g),
            forall|b: usize| (PoolView { partial: self.partial.push(f), ..self }).has_frame(b) <==>
                self.has_frame(b) || b == f.base,
            forall|a: usize| (PoolView { partial: self.partial.push(f), ..self }).holds(a) <==>
                self.holds(a) || f.out.contains(a),
    {
        let q = PoolView { partial: self.partial.push(f), ..self };
        lemma_list_push(self.partial, f);
        assert forall|i: int| 0 <= i < q.partial.len() implies #[trigger] q.partial_ok(g, i) by {
            if i < self.partial.len() {
                assert(self.partial_ok(g, i));
            }
        }
        assert forall|i: int| 0 <= i < q.full.len() implies #[trigger] q.full_ok(g, i) by {
            assert(self.full_ok(g, i));
        }
        assert forall|b: usize| !(#[trigger] list_has(q.partial, b) && list_has(q.full, b)) by {
            assert(!(list_has(self.partial, b) && list_has(self.full, b)));
        }
        assert forall|b: usize| q.current_has(b) implies !#[trigger] list_has(q.partial, b) &&
            !list_has(q.full, b) by {
            assert(!list_has(self.partial, b) && !list_has(self.full, b));
        }
    }

    /// The pool with one more frame, at the head of its full list.
    pub proof fn lemma_with_full(self, g: Geometry, f: FrameView)
        requires
            self.wf(g),
            self.frame_ok(g, f),
            f.is_full(),
            !self.has_frame(f.base),
        ensures
            (PoolView { full: self.full.push(f), ..self }).wf(g),
            forall|b: usize| (PoolView { full: self.full.push(f), ..self }).has_frame(b) <==>
                self.has_frame(b) || b == f.base,
            forall|a: usize| (PoolView { full: self.full.push(f), ..self }).holds(a) <==> self.holds(a) ||
                f.out.contains(a),
    {
        let q = PoolView { full: self.full.push(f), ..self };
        lemma_list_push(self.full, f);
        assert forall|i: int| 0 <= i < q.full.len() implies #[trigger] q.full_ok(g, i) by {
            if i < self.full.len() {
                assert(self.full_ok(g, i));
            }
        }
        assert forall|i: int| 0 <= i < q.partial.len() implies #[trigger] q.partial_ok(g, i) by {
            assert(self.partial_ok(g, i));
        }
        assert forall|b: usize| !(#[trigger] list_has(q.partial, b) && list_has(q.full, b)) by {
            assert(!(list_has(self.partial, b) && list_has(self.full, b)));
        }
        assert forall|b: usize| q.current_has(b) implies !#[trigger] list_has(q.partial, b) &&
            !list_has(q.full, b) by {
            assert(!list_has(self.partial, b) && !list_has(self.full, b));
        }
    }

    /// The pool with another frame at place `k` of its partial list, at the
    /// same address.
    pub proof fn lemma_replace_partial(self, g: Geometry, k: int, f: FrameView)
        requires
            self.wf(g),
            0 <= k < self.partial.len(),
            self.frame_ok(g, f),
            f.base == self.partial[k].base,
            !f.is_full(),
            !f.is_empty(),
        ensures
            (PoolView { partial: self.partial.update(k, f), ..self }).wf(g),
            forall|b: usize| #[trigger]
                (PoolView { partial: self.partial.update(k, f), ..self }).has_frame(b) <==> self.has_frame(b),
            forall|a: usize| #[trigger]
                (PoolView { partial: self.partial.update(k, f), ..self }).holds(a) <==> (PoolView {
                    partial: self.partial.remove(k),
                    ..self
                }).holds(a) || f.out.contains(a),
    {
        let q = PoolView { partial: self.partial.update(k, f), ..self };
        lemma_list_update(self.partial, k, f);
        assert forall|i: int| 0 <= i < q.partial.len() implies #[trigger] q.partial_ok(g, i) by {
            if i != k {
                assert(self.partial_ok(g, i));
            }
        }
        assert forall|i: int| 0 <= i < q.full.len() implies #[trigger] q.full_ok(g, i) by {
            assert(self.full_ok(g, i));
        }
        assert forall|b: usize| !(#[trigger] list_has(q.partial, b) && list_has(q.full, b)) by {
            assert(!(list_has(self.partial, b) && list_has(self.full, b)));
        }
        assert forall|b: usize| q.current_has(b) implies !#[trigger] list_has(q.partial, b) &&
            !list_has(q.full, b) by {
            assert(!list_has(self.partial, b) && !list_has(self.full, b));
        }
        let w = PoolView { partial: self.partial.remove(k), ..self };
        assert forall|a: usize| q.holds(a) <==> w.holds(a) || f.out.contains(a) by {
            assert(list_holds(q.partial, a) <==> list_holds(w.partial, a) || f.out.contains(a));
        }
    }

    /// A frame has at least two blocks.
    pub proof fn lemma_capacity(g: Geometry)
        requires
            g.wf(),
        ensures
            g.capacity() >= 2,
    {
        assert(g.capacity() >= 2) by (nonlinear_arith)
            requires
                g.capacity() == (g.frame_size - g.blk_offset) / (g.blk_size as int),
                g.blk_offset + 2 * g.blk_size <= g.frame_size,
                g.blk_size >= 1,
        ;
    }

    /// Serving a request from frame `x`, which then is the current frame.
    pub proof fn lemma_serve(self, g: Geometry, x: FrameView, align: usize)
        requires
            self.wf(g),
            self.current.is_none(),
            self.frame_ok(g, x),
            !self.has_frame(x.base),
        ensures
            (PoolView { current: Some(x.taken(align)), ..self }).wf(g),
            forall|b: usize| (PoolView { current: Some(x.taken(align)), ..self }).has_frame(b) <==>
                self.has_frame(b) || b == x.base,
            forall|a: usize| (PoolView { current: Some(x.taken(align)), ..self }).holds(a) <==>
                self.holds(a) || x.out.contains(a) || x.pick(align) == Some(a),
            x.pick(align) matches Some(a) ==> {
                &&& a % align == 0
                &&& !self.holds(a)
                &&& !x.out.contains(a)
                &&& Self::frame_base(g, a) == x.base
                &&& g.is_block(x.base as int, a as int)
            },
    {
        x.lemma_taken(g, align);
        let t = x.taken(align);
        self.lemma_with_current(g, t);
        if x.pick(align).is_some() {
            let a = x.pick(align).unwrap();
            g.lemma_is_block(x.base as int, a as int);
            Self::lemma_frame_base(g, x.base, a);
            if self.holds(a) {
                self.lemma_holds_in_frame(g, a);
            }
        }
    }

    /// Putting the current frame away when it cannot serve.
    pub proof fn lemma_retired(self, g: Geometry)
        requires
            self.wf(g),
            !self.serves_current(),
        ensures
            self.retired().wf(g),
            self.retired().current.is_none(),
            self.retired().partial == self.partial,
            self.retired().class == self.class,
            forall|b: usize| self.retired().has_frame(b) <==> self.has_frame(b),
            forall|a: usize| self.retired().holds(a) <==> self.holds(a),
    {
        if self.current.is_some() {
            let x = self.current.unwrap();
            self.lemma_without_current(g);
            let q = PoolView { current: None, ..self };
            q.lemma_with_full(g, x);
        }
    }

    /// What a request does to the pool's frames and blocks.
    pub proof fn lemma_after_alloc(self, g: Geometry, align: usize, fresh_base: Option<usize>)
        requires
            self.wf(g),
            self.needs_frame() && fresh_base.is_some() ==> {
                &&& fresh_base.unwrap() as int % g.frame_size as int == 0
                &&& fresh_base.unwrap() + g.frame_size <= usize::MAX
                &&& !self.has_frame(fresh_base.unwrap())
            },
        ensures
            self.after_alloc(g, align, fresh_base).wf(g),
            self.after_alloc(g, align, fresh_base).class == self.class,
            forall|b: usize| #[trigger] self.after_alloc(g, align, fresh_base).has_frame(b) <==>
                self.has_frame(b) || (self.needs_frame() && fresh_base == Some(b)),
            forall|a: usize| #[trigger] self.after_alloc(g, align, fresh_base).holds(a) <==>
                self.holds(a) || self.alloc_result(g, align, fresh_base) == Some(a),
            self.alloc_result(g, align, fresh_base) matches Some(a) ==> {
                &&& a % align == 0
                &&& !self.holds(a)
                &&& self.after_alloc(g, align, fresh_base).has_frame(Self::frame_base(g, a))
                &&& g.is_block(Self::frame_base(g, a) as int, a as int)
            },
    {
        if self.serves_current() {
            let x = self.current.unwrap();
            self.lemma_without_current(g);
            let q = PoolView { current: None, ..self };
            q.lemma_serve(g, x, align);
            assert(PoolView { current: Some(x.taken(align)), ..q } == self.after_alloc(g, align, fresh_base));
        } else {
            self.lemma_retired(g);
            let away = self.retired();
            if self.partial.len() > 0 {
                let k = self.partial.len() - 1;
                let x = self.partial.last();
                away.lemma_without_partial(g, k);
                assert(away.partial.remove(k) =~= self.partial.drop_last());
                let q = PoolView { partial: away.partial.remove(k), ..away };
                q.lemma_serve(g, x, align);
                assert(PoolView { current: Some(x.taken(align)), ..q } ==
                    self.after_alloc(g, align, fresh_base));
            } else if fresh_base.is_some() {
                let b = fresh_base.unwrap();
                let x = FrameView::fresh(g, self.class, b);
                FrameView::lemma_fresh(g, self.class, b);
                away.lemma_serve(g, x, align);
            } else {
            }
        }
    }

    /// The frame that has handed out block `addr` is the one at the
    /// block's frame base.
    pub proof fn lemma_holder(self, g: Geometry, addr: usize)
        requires
            self.wf(g),
            self.holds(addr),
        ensures
            self.has_frame(Self::frame_base(g, addr)),
            self.current_has(Self::frame_base(g, addr)) ==> self.current.unwrap().out.contains(addr),
            !self.current_has(Self::frame_base(g, addr)) && list_has(self.full, Self::frame_base(g, addr)) ==> {
                let i = list_index(self.full, Self::frame_base(g, addr));
                0 <= i < self.full.len() && self.full[i].base == Self::frame_base(g, addr) &&
                    self.full[i].out.contains(addr)
            },
            !self.current_has(Self::frame_base(g, addr)) &&
                !list_has(self.full, Self::frame_base(g, addr)) ==> {
                let i = list_index(self.partial, Self::frame_base(g, addr));
                0 <= i < self.partial.len() && self.partial[i].base == Self::frame_base(g, addr) &&
                    self.partial[i].out.contains(addr)
            },
    {
        let b0 = Self::frame_base(g, addr);
        assert(self.current_has(b0) ==> !list_has(self.partial, b0) && !list_has(self.full, b0));
        if self.current_holds(addr) {
            self.lemma_out_in_frame(g, self.current.unwrap(), addr);
            assert(self.current_has(b0));
        } else if list_holds(self.partial, addr) {
            let i = choose|i: int| 0 <= i < self.partial.len() && #[trigger] self.partial[i].out.contains(addr);
            assert(self.partial_ok(g, i));
            self.lemma_out_in_frame(g, self.partial[i], addr);
            lemma_list_index(self.partial, i);
            assert(list_has(self.partial, b0));
            assert(!(list_has(self.partial, b0) && list_has(self.full, b0)));
        } else {
            let i = choose|i: int| 0 <= i < self.full.len() && #[trigger] self.full[i].out.contains(addr);
            assert(self.full_ok(g, i));
            self.lemma_out_in_frame(g, self.full[i], addr);
            lemma_list_index(self.full, i);
            assert(list_has(self.full, b0));
        }
    }

    /// What a block that comes back does to the pool's frames and blocks.
    pub proof fn lemma_after_dealloc(self, g: Geometry, addr: usize)
        requires
            self.wf(g),
            self.holds(addr),
        ensures
            self.after_dealloc(g, addr).wf(g),
            self.after_dealloc(g, addr).class == self.class,
            self.has_frame(Self::frame_base(g, addr)),
            forall|b: usize| #[trigger] self.after_dealloc(g, addr).has_frame(b) <==> self.has_frame(b) &&
                !(self.releases(g, addr) && b == Self::frame_base(g, addr)),
            forall|a: usize| #[trigger] self.after_dealloc(g, addr).holds(a) <==> self.holds(a) && a != addr,
    {
        let b0 = Self::frame_base(g, addr);
        self.lemma_holder(g, addr);
        Self::lemma_capacity(g);
        if self.current_has(b0) {
            let x = self.current.unwrap();
            self.lemma_without_current(g);
            let q = PoolView { current: None, ..self };
            x.lemma_given_back(g, addr);
            let y = x.given_back(addr);
            q.lemma_with_current(g, y);
            if q.holds(addr) {
                q.lemma_holds_in_frame(g, addr);
            }
            let n = PoolView { current: Some(y), ..q };
            assert(n == self.after_dealloc(g, addr));
            assert forall|a: usize| n.holds(a) <==> self.holds(a) && a != addr by {
                assert(n.holds(a) <==> q.holds(a) || y.out.contains(a));
                assert(self.holds(a) <==> q.holds(a) || x.out.contains(a));
            }
            assert forall|b: usize| n.has_frame(b) <==> self.has_frame(b) by {
                assert(n.has_frame(b) <==> q.has_frame(b) || b == y.base);
                assert(self.has_frame(b) <==> q.has_frame(b) || b == x.base);
            }
        } else if list_has(self.full, b0) {
            let i = list_index(self.full, b0);
            let x = self.full[i];
            self.lemma_without_full(g, i);
            let q = PoolView { full: self.full.remove(i), ..self };
            x.lemma_given_back(g, addr);
            let y = x.given_back(addr);
            q.lemma_with_partial(g, y);
            if q.holds(addr) {
                q.lemma_holds_in_frame(g, addr);
            }
            let n = PoolView { partial: q.partial.push(y), ..q };
            assert(n == self.after_dealloc(g, addr));
            assert forall|a: usize| n.holds(a) <==> self.holds(a) && a != addr by {
                assert(n.holds(a) <==> q.holds(a) || y.out.contains(a));
                assert(self.holds(a) <==> q.holds(a) || x.out.contains(a));
            }
            assert forall|b: usize| n.has_frame(b) <==> self.has_frame(b) by {
                assert(n.has_frame(b) <==> q.has_frame(b) || b == y.base);
                assert(self.has_frame(b) <==> q.has_frame(b) || b == x.base);
            }
            assert(self.returned(g, addr) == y);
        } else {
            let i = list_index(self.partial, b0);
            let x = self.partial[i];
            self.lemma_without_partial(g, i);
            let q = PoolView { partial: self.partial.remove(i), ..self };
            x.lemma_given_back(g, addr);
            let y = x.given_back(addr);
            if q.holds(addr) {
                q.lemma_holds_in_frame(g, addr);
            }
            assert(self.returned(g, addr) == y);
            if y.is_empty() {
                y.lemma_empty(g);
                assert forall|a: usize| x.out.contains(a) implies a == addr by {
                    if a != addr {
                        assert(y.out.contains(a));
                    }
                }
                assert(q == self.after_dealloc(g, addr));
                assert forall|a: usize| q.holds(a) <==> self.holds(a) && a != addr by {
                    assert(self.holds(a) <==> q.holds(a) || x.out.contains(a));
                }
                assert forall|b: usize| q.has_frame(b) <==> self.has_frame(b) && b != b0 by {
                    assert(self.has_frame(b) <==> q.has_frame(b) || b == x.base);
                }
            } else {
                self.lemma_replace_partial(g, i, y);
                let n = PoolView { partial: self.partial.update(i, y), ..self };
                assert(n == self.after_dealloc(g, addr));
                assert forall|a: usize| n.holds(a) <==> self.holds(a) && a != addr by {
                    assert(n.holds(a) <==> q.holds(a) || y.out.contains(a));
                    assert(self.holds(a) <==> q.holds(a) || x.out.contains(a));
                }
            }
        }
    }

    /// A request that asks for no alignment is served whenever a frame
    /// serves: it fails only where the pool needs a new frame and the back
    /// allocator has none.
    pub proof fn lemma_unaligned_served(self, g: Geometry, fresh_base: Option<usize>)
        requires
            self.wf(g),
            self.needs_frame() && fresh_base.is_some() ==> fresh_base.unwrap() + g.frame_size <= usize::MAX,
        ensures
            self.alloc_result(g, 1, fresh_base).is_none() <==> self.needs_frame() && fresh_base.is_none(),
    {
        if self.serving(g, fresh_base).is_some() {
            let f = self.serving(g, fresh_base).unwrap();
            if !self.serves_current() && self.partial.len() > 0 {
                assert(self.partial_ok(g, self.partial.len() - 1));
            } else if !self.serves_current() {
                FrameView::lemma_fresh(g, self.class, fresh_base.unwrap());
            }
            assert(!f.is_full());
            assert(is_first_fit(f.free, 1, 0));
            lemma_first_fit(f.free, 1, 0);
        }
    }

    /// A pool that has no block handed out keeps no frame but, at most, an
    /// empty current one: its lists are empty.
    pub proof fn lemma_no_leak(self, g: Geometry)
        requires
            self.wf(g),
            forall|a: usize| !self.holds(a),
        ensures
            self.partial.len() == 0,
            self.full.len() == 0,
            self.current.is_some() ==> self.current.unwrap().is_empty(),
    {
        Self::lemma_capacity(g);
        if self.partial.len() > 0 {
            assert(self.partial_ok(g, 0));
            let f = self.partial[0];
            assert forall|a: usize| !f.out.contains(a) by {
                assert(!self.holds(a));
            }
            assert(f.out =~= Set::<usize>::empty());
        }
        if self.full.len() > 0 {
            assert(self.full_ok(g, 0));
            let f = self.full[0];
            assert forall|a: usize| !f.out.contains(a) by {
                assert(!self.holds(a));
            }
            assert(f.out =~= Set::<usize>::empty());
        }
        if self.current.is_some() {
            let f = self.current.unwrap();
            assert forall|a: usize| !f.out.contains(a) by {
                assert(!self.holds(a));
            }
            assert(f.out =~= Set::<usize>::empty());
        }
    }
}

} // verus!
