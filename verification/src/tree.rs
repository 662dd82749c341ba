//! The implicit binary tree that indexes the pages of a heap region.
//!
//! Nodes are numbered from 1: the children of node `i` are `2i` and
//! `2i + 1`, its parent is `i / 2`.  The leaves stand for the pages of a
//! window that starts at a multiple of half its size, next to the region's
//! first byte; every node stands for the run of pages under it.

use vstd::prelude::*;
use crate::math::{
    exp2, log2, is_pow2, next_pow2, lemma_exp2_pos, lemma_exp2_mono, lemma_log2_bounds,
    lemma_log2_exp2, lemma_log2_mono, lemma_exp2_add, lemma_exp2_12, lemma_next_pow2_bounds,
    lemma_mod_of_multiple,
};

verus! {

/// A heap region `[start, start + size)`.
pub struct Region {
    pub start: nat,
    pub size: nat,
}

impl Region {
    /// The height of the tree: the level of its root.
    pub open spec fn height(self) -> nat {
        log2(next_pow2(self.size) / 4096)
    }

    /// The number of leaves, `next_pow2(size) / 4096` for a region of at
    /// least one page.
    pub open spec fn leaves(self) -> nat {
        exp2(self.height())
    }

    /// The number of bytes that the leaves cover.
    pub open spec fn window(self) -> nat {
        self.leaves() * 4096
    }

    /// Half the number of bytes of the window.
    pub open spec fn half(self) -> nat {
        self.leaves() * 2048
    }

    /// The number of bytes from the multiple of half the window before
    /// `start` to `start`.
    pub open spec fn lead(self) -> nat {
        self.start % self.half()
    }

    /// A window from the multiple of half the window behind `start` leaves
    /// fewer bytes of the region out than one from the multiple before it.
    pub open spec fn upper(self) -> bool {
        &&& self.lead() + self.size > self.window()
        &&& self.lead() + self.size - self.window() > self.half() - self.lead()
    }

    /// The start of the window: a multiple of half the window, so that
    /// every node but the root starts at a multiple of its size.  It is the
    /// one before `start`, or the one behind it where that leaves less of
    /// the region out of the window.
    pub open spec fn addr_high(self) -> nat {
        if self.upper() {
            (self.start - self.lead() + self.half()) as nat
        } else {
            (self.start - self.lead()) as nat
        }
    }

    /// The number of bytes of the region that lie outside the window: at
    /// the start of the region where the window starts behind `start`, at
    /// its end otherwise.
    pub open spec fn left_out(self) -> nat {
        if self.upper() {
            (self.half() - self.lead()) as nat
        } else if self.lead() + self.size > self.window() {
            (self.lead() + self.size - self.window()) as nat
        } else {
            0
        }
    }

    /// The number of bytes set aside at the start of the region for the
    /// tree itself, one per node.
    pub open spec fn footprint(self) -> nat {
        2 * self.leaves()
    }

    /// The address of page `j` of the window.
    pub open spec fn page_addr(self, j: nat) -> nat {
        self.addr_high() + j * 4096
    }

    /// Page `j` lies wholly inside the region and clear of the footprint.
    pub open spec fn usable(self, j: nat) -> bool {
        &&& j < self.leaves()
        &&& self.start + self.footprint() <= self.page_addr(j)
        &&& self.page_addr(j) + 4096 <= self.start + self.size
    }

    /// `i` is the number of a node.
    pub open spec fn is_node(self, i: nat) -> bool {
        1 <= i < 2 * self.leaves()
    }

    /// The level of node `i`: 0 for a leaf, `height()` for the root.
    pub open spec fn level(self, i: nat) -> int {
        self.height() - log2(i)
    }

    /// The number of pages under node `i`.
    pub open spec fn span(self, i: nat) -> nat {
        exp2(self.level(i) as nat)
    }

    /// The number of the leftmost leaf under node `i`.
    pub open spec fn first_leaf(self, i: nat) -> nat {
        i * self.span(i)
    }

    /// The address of the first byte that node `i` stands for.
    pub open spec fn node_addr(self, i: nat) -> nat {
        (self.addr_high() + (self.first_leaf(i) - self.leaves()) * 4096) as nat
    }

    /// The number of bytes that node `i` stands for.
    pub open spec fn node_bytes(self, i: nat) -> nat {
        self.span(i) * 4096
    }
}

/// `a` is `i` or an ancestor of `i`.
pub open spec fn is_anc(a: nat, i: nat) -> bool
    decreases i,
{
    if i <= a {
        i == a
    } else {
        is_anc(a, i / 2)
    }
}

/// The root is above every node.
pub proof fn lemma_root_anc(i: nat)
    requires
        i >= 1,
    ensures
        is_anc(1, i),
    decreases i,
{
    if i > 1 {
        lemma_root_anc(i / 2);
    }
}

/// The parent of an ancestor is an ancestor.
pub proof fn lemma_is_anc_parent(a: nat, i: nat)
    requires
        is_anc(a, i),
        a >= 1,
    ensures
        is_anc(a / 2, i),
    decreases i,
{
    if i > a {
        lemma_is_anc_parent(a, i / 2);
    } else {
        assert(is_anc(a / 2, a / 2));
    }
}

/// An ancestor of `i` other than `i` itself is, or lies above, the parent.
pub proof fn lemma_is_anc_proper(a: nat, i: nat)
    requires
        is_anc(a, i),
        a != i,
    ensures
        i >= 2 || a == 0,
        is_anc(a, i / 2),
{
}

/// Below a proper ancestor, the path to `i` goes through one of its children.
pub proof fn lemma_is_anc_child(a: nat, i: nat)
    requires
        is_anc(a, i),
        a != i,
        a >= 1,
    ensures
        is_anc(2 * a, i) || is_anc(2 * a + 1, i),
    decreases i,
{
    if i / 2 == a {
    } else {
        lemma_is_anc_child(a, i / 2);
    }
}

/// An ancestor of an ancestor is an ancestor.
pub proof fn lemma_is_anc_trans(a: nat, b: nat, i: nat)
    requires
        is_anc(a, b),
        is_anc(b, i),
    ensures
        is_anc(a, i),
    decreases i,
{
    if i > b {
        lemma_is_anc_trans(a, b, i / 2);
        if i <= a {
            lemma_is_anc_le(a, b);
        }
    }
}

/// An ancestor has the smaller number and is not deeper.
pub proof fn lemma_is_anc_le(a: nat, i: nat)
    requires
        is_anc(a, i),
    ensures
        a <= i,
        log2(a) <= log2(i),
    decreases i,
{
    if i > a {
        lemma_is_anc_le(a, i / 2);
        lemma_log2_mono(a, i);
    }
}

/// Two ancestors of one node: the one that is not deeper is an ancestor of
/// the other.
pub proof fn lemma_is_anc_chain(a: nat, b: nat, i: nat)
    requires
        is_anc(a, i),
        is_anc(b, i),
        a <= b,
    ensures
        is_anc(a, b),
    decreases i,
{
    if i > b {
        lemma_is_anc_chain(a, b, i / 2);
    } else {
    }
}

/// At one depth a node has one ancestor.
pub proof fn lemma_is_anc_same_depth(a: nat, i: nat)
    requires
        is_anc(a, i),
        log2(a) == log2(i),
        a >= 1,
    ensures
        a == i,
{
    if i > a {
        lemma_is_anc_le(a, i / 2);
    }
}

/// Of two nodes at one depth, the one under the left child has the smaller
/// number.
pub proof fn lemma_left_before_right(a: nat, m1: nat, m2: nat)
    requires
        a >= 1,
        is_anc(2 * a, m1),
        is_anc(2 * a + 1, m2),
        log2(m1) == log2(m2),
    ensures
        m1 < m2,
    decreases m1,
{
    lemma_is_anc_le(2 * a, m1);
    lemma_is_anc_le(2 * a + 1, m2);
    assert(log2(2 * a) == log2(2 * a + 1));
    if m1 == 2 * a {
        lemma_is_anc_same_depth(2 * a + 1, m2);
    } else if m2 == 2 * a + 1 {
        lemma_is_anc_same_depth(2 * a, m1);
    } else {
        lemma_left_before_right(a, m1 / 2, m2 / 2);
    }
}

impl Region {
    /// A region of at least one page whose `next_pow2(size)` is a multiple
    /// of the page size has `leaves() * 4096 == next_pow2(size)`.
    pub proof fn lemma_window(self)
        requires
            self.size >= 4096,
        ensures
            self.window() == next_pow2(self.size),
            self.leaves() >= 1,
            is_pow2(self.leaves()),
            is_pow2(self.window()),
            self.window() >= self.size,
    {
        let n = next_pow2(self.size);
        lemma_next_pow2_bounds(self.size);
        let k = log2(n);
        assert(exp2(k) == n);
        lemma_exp2_12();
        lemma_log2_mono(4096, n);
        lemma_log2_exp2(12);
        lemma_exp2_add((k - 12) as nat, 12);
        let q = exp2((k - 12) as nat);
        assert(n == q * 4096);
        assert((q * 4096) / 4096 == q) by (nonlinear_arith);
        lemma_log2_exp2((k - 12) as nat);
        lemma_exp2_pos((k - 12) as nat);
        lemma_log2_exp2(k);
    }

    /// The window of a region of more than a page has its two halves, each
    /// a whole number of pages, and starts at a multiple of their size, less
    /// than half a window before `start` or behind it.
    pub proof fn lemma_half(self)
        requires
            self.size > 4096,
        ensures
            self.height() >= 1,
            self.leaves() == 2 * exp2((self.height() - 1) as nat),
            self.half() == 4096 * exp2((self.height() - 1) as nat),
            self.window() == 2 * self.half(),
            self.lead() < self.half(),
            self.lead() <= self.start,
            self.addr_high() % self.half() == 0,
            self.addr_high() % 4096 == 0,
            !self.upper() ==> self.addr_high() == self.start - self.lead(),
            self.upper() ==> self.addr_high() == self.start - self.lead() + self.half()
                && self.addr_high() < self.start + self.size,
    {
        self.lemma_window();
        let h = self.height();
        if h == 0 {
            assert(self.window() == 4096);
            assert(false);
        }
        let e = exp2((h - 1) as nat) as int;
        lemma_exp2_pos((h - 1) as nat);
        let half = self.half() as int;
        let st = self.start as int;
        assert(half == 4096 * e);
        assert(0 <= st % half < half && st % half <= st && (st - st % half) % half == 0
            && (st - st % half + half) % half == 0) by (nonlinear_arith)
            requires
                half > 0,
                st >= 0,
        ;
        let a = self.addr_high() as int;
        assert(a % half == 0);
        lemma_mod_of_multiple(a, 4096, e);
        assert(a % 4096 == 0);
    }

    /// The window leaves out of the region at most a quarter of its own
    /// size, which is less than half the region, at one end of the region
    /// only; it leaves nothing out of a region that starts at a multiple of
    /// half the window.
    pub proof fn lemma_left_out(self)
        requires
            self.size > 4096,
        ensures
            4 * self.left_out() <= self.window(),
            2 * self.left_out() < self.size,
            self.lead() == 0 ==> self.left_out() == 0,
            self.upper() ==> self.addr_high() == self.start + self.left_out() && self.start + self.size
                <= self.addr_high() + self.window(),
            !self.upper() ==> self.addr_high() <= self.start && self.start + self.size - self.left_out()
                <= self.addr_high() + self.window(),
    {
        self.lemma_window();
        self.lemma_half();
        lemma_next_pow2_bounds(self.size);
    }

    /// Every whole page of the region that is clear of the footprint and of
    /// what the window leaves out is a usable page of the window.
    pub proof fn lemma_covers(self, a: nat)
        requires
            self.size > 4096,
            a % 4096 == 0,
            self.start + self.footprint() <= a,
            a + 4096 <= self.start + self.size,
            self.upper() ==> self.start + self.left_out() <= a,
            !self.upper() ==> a + 4096 <= self.start + self.size - self.left_out(),
        ensures
            a >= self.addr_high(),
            self.usable(((a - self.addr_high()) / 4096) as nat),
            self.page_addr(((a - self.addr_high()) / 4096) as nat) == a,
    {
        self.lemma_window();
        self.lemma_half();
        self.lemma_left_out();
        let h = self.addr_high() as int;
        let w = self.window() as int;
        let l = self.leaves() as int;
        let d = a - h;
        assert(d % 4096 == 0 && d >= 0);
        let j = d / 4096;
        assert(d == j * 4096);
        assert(j < l) by (nonlinear_arith)
            requires
                d == j * 4096,
                w == l * 4096,
                d < w,
        ;
    }

    /// The children of a node are one level below it.
    pub proof fn lemma_level_child(self, i: nat)
        requires
            i >= 1,
        ensures
            self.level(2 * i) == self.level(i) - 1,
            self.level(2 * i + 1) == self.level(i) - 1,
    {
        assert((2 * i) / 2 == i);
        assert((2 * i + 1) / 2 == i);
    }

    /// Levels run from 0 at the leaves to `height()` at the root.
    pub proof fn lemma_level_range(self, i: nat)
        requires
            self.is_node(i),
        ensures
            0 <= self.level(i) <= self.height(),
            i >= self.leaves() <==> self.level(i) == 0,
            self.span(i) >= 1,
    {
        lemma_log2_bounds(i);
        let d = log2(i);
        let h = self.height();
        if d > h {
            lemma_exp2_mono(h + 1, d);
            assert(false);
        }
        if d < h {
            lemma_exp2_mono(d + 1, h);
        }
        lemma_exp2_pos(self.level(i) as nat);
    }

    /// The children of an inner node split its pages in two halves.
    pub proof fn lemma_children(self, i: nat)
        requires
            self.is_node(i),
            i < self.leaves(),
        ensures
            self.is_node(2 * i),
            self.is_node(2 * i + 1),
            self.level(i) >= 1,
            self.span(i) == 2 * self.span(2 * i),
            self.span(2 * i + 1) == self.span(2 * i),
            self.first_leaf(2 * i) == self.first_leaf(i),
            self.first_leaf(2 * i + 1) == self.first_leaf(i) + self.span(2 * i),
            self.node_addr(2 * i) == self.node_addr(i),
    {
        self.lemma_level_range(i);
        self.lemma_level_child(i);
        let s = self.span(2 * i);
        assert(self.span(i) == 2 * s);
        assert((2 * i) * s == i * (2 * s)) by (nonlinear_arith);
        assert((2 * i + 1) * s == i * (2 * s) + s) by (nonlinear_arith);
    }

    /// The leftmost leaf under a node is a leaf, and the node's pages lie
    /// inside the window.
    pub proof fn lemma_first_leaf_range(self, i: nat)
        requires
            self.is_node(i),
        ensures
            self.leaves() <= self.first_leaf(i),
            self.first_leaf(i) + self.span(i) <= 2 * self.leaves(),
    {
        self.lemma_level_range(i);
        lemma_log2_bounds(i);
        let d = log2(i);
        let lv = self.level(i) as nat;
        lemma_exp2_add(d, lv);
        let e = exp2(d);
        let s = exp2(lv);
        assert(e * s == self.leaves());
        assert(e * s <= i * s) by (nonlinear_arith)
            requires
                e <= i,
        ;
        assert(i * s + s <= 2 * (e * s)) by (nonlinear_arith)
            requires
                i + 1 <= 2 * e,
        ;
    }
}

} // verus!
