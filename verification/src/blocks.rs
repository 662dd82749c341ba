//! The tree seen from outside: the byte ranges that are handed out.

use vstd::prelude::*;
use crate::math::{exp2, log2, lemma_exp2_add, lemma_exp2_pos, lemma_log2_bounds, lemma_mod_of_multiple};
use crate::tree::{Region, is_anc, lemma_root_anc};
use crate::marks::{
    mark, allocated, mark_ok, tree_wf, node_free, apart,
    lemma_allocated_apart, lemma_leaf_under, lemma_full_below,
};
use crate::search::lemma_free_below;

verus! {

impl Region {
    /// The region is more than a page long and ends inside the address
    /// space.
    pub open spec fn fits(self) -> bool {
        &&& self.size > 4096
        &&& self.start + self.size <= usize::MAX
    }

    /// Byte `addr` belongs to node `i`.
    pub open spec fn node_holds(self, i: nat, addr: int) -> bool {
        self.node_addr(i) <= addr < self.node_addr(i) + self.node_bytes(i)
    }

    /// The number of the leaf whose page holds byte `addr` of the window.
    pub open spec fn leaf_of(self, addr: int) -> nat {
        (self.leaves() + (addr - self.addr_high()) / 4096) as nat
    }

    /// Where a node's bytes lie, from where its pages lie.
    pub proof fn lemma_node_bytes(self, i: nat)
        requires
            self.is_node(i),
            self.fits(),
        ensures
            self.node_addr(i) == self.addr_high() + (self.first_leaf(i) - self.leaves()) * 4096,
            self.node_addr(i) + self.node_bytes(i) ==
                self.addr_high() + (self.first_leaf(i) + self.span(i) - self.leaves()) * 4096,
            self.addr_high() <= self.node_addr(i),
            self.node_addr(i) + self.node_bytes(i) <= self.addr_high() + self.window(),
            self.node_bytes(i) >= 4096,
    {
        self.lemma_first_leaf_range(i);
        self.lemma_level_range(i);
        let f = self.first_leaf(i) as int;
        let s = self.span(i) as int;
        let l = self.leaves() as int;
        assert((f + s - l) * 4096 == (f - l) * 4096 + s * 4096) by (nonlinear_arith);
        assert((f + s - l) * 4096 <= l * 4096) by (nonlinear_arith)
            requires
                f + s <= 2 * l,
        ;
    }

    /// A byte belongs to a node exactly when its page's leaf lies under
    /// the node.
    pub proof fn lemma_holds_leaf(self, i: nat, addr: int)
        requires
            self.is_node(i),
            self.fits(),
            self.addr_high() <= addr < self.addr_high() + self.window(),
        ensures
            self.leaves() <= self.leaf_of(addr) < 2 * self.leaves(),
            self.node_holds(i, addr) <==> is_anc(i, self.leaf_of(addr)),
    {
        self.lemma_node_bytes(i);
        self.lemma_first_leaf_range(i);
        lemma_leaf_under(self, i, self.leaf_of(addr));
    }

    /// Nodes whose pages do not meet stand for bytes that do not meet.
    pub proof fn lemma_apart_bytes(self, i: nat, j: nat)
        requires
            self.is_node(i),
            self.is_node(j),
            self.fits(),
            apart(self, i, j),
        ensures
            self.node_addr(i) + self.node_bytes(i) <= self.node_addr(j) ||
                self.node_addr(j) + self.node_bytes(j)
                <= self.node_addr(i),
    {
        self.lemma_node_bytes(i);
        self.lemma_node_bytes(j);
    }

    /// Every node but the root starts at a multiple of its size, which is a
    /// page times a power of two.
    pub proof fn lemma_node_aligned(self, i: nat)
        requires
            self.is_node(i),
            self.fits(),
            i >= 2,
        ensures
            self.node_addr(i) % self.node_bytes(i) == 0,
            self.node_addr(i) % 4096 == 0,
            self.node_bytes(i) == 4096 * exp2(self.level(i) as nat),
    {
        self.lemma_node_bytes(i);
        self.lemma_level_range(i);
        self.lemma_half();
        lemma_log2_bounds(i);
        let d = log2(i);
        let lv = self.level(i) as nat;
        let up = (self.height() - 1 - lv) as nat;
        lemma_exp2_add(d, lv);
        lemma_exp2_add(up, lv);
        let e = exp2(d) as int;
        let s = exp2(lv) as int;
        let u = exp2(up) as int;
        let b = self.node_bytes(i) as int;
        let half = self.half() as int;
        let h = self.addr_high() as int;
        let n = i as int;
        assert(self.leaves() == e * s);
        assert(half == u * b) by (nonlinear_arith)
            requires
                half == 4096 * (u * s),
                b == s * 4096,
        ;
        let q = h / half;
        assert(h == q * half) by (nonlinear_arith)
            requires
                h % half == 0,
                half > 0,
                q == h / half,
        ;
        let k = q * u + n - e;
        assert(q * half == (q * u) * b) by (nonlinear_arith)
            requires
                half == u * b,
        ;
        assert((n * s - e * s) * 4096 == (n - e) * b) by (nonlinear_arith)
            requires
                b == s * 4096,
        ;
        assert((q * u) * b + (n - e) * b == k * b) by (nonlinear_arith)
            requires
                k == q * u + n - e,
        ;
        assert(self.node_addr(i) == k * b);
        assert((k * b) % b == 0) by (nonlinear_arith)
            requires
                b > 0,
        ;
        lemma_exp2_pos(lv);
        lemma_mod_of_multiple(self.node_addr(i) as int, 4096, s);
    }
}

/// The root is never wholly free, nor handed out: some page of the window
/// is not usable, the one that holds the region's first byte or, where the
/// window starts behind that byte, the last one.
pub proof fn lemma_root_busy(nodes: Seq<u8>, r: Region)
    requires
        tree_wf(nodes, r),
        r.fits(),
    ensures
        !allocated(nodes, r, 1),
        mark(nodes, 1) != r.level(1) + 1,
{
    r.lemma_half();
    r.lemma_window();
    let j = if r.upper() {
        (r.leaves() - 1) as nat
    } else {
        (r.lead() / 4096) as nat
    };
    let x = r.leaves() + j;
    assert(j < r.leaves());
    assert(!r.usable(j));
    assert(mark_ok(nodes, r, x));
    r.lemma_level_range(x);
    r.lemma_level_range(1);
    lemma_root_anc(x);
    if allocated(nodes, r, 1) || mark(nodes, 1) == r.level(1) + 1 {
        lemma_full_below(nodes, r, 1, x);
    }
}

/// A node that is handed out lies inside the region, clear of the
/// footprint.
pub proof fn lemma_allocated_in_region(nodes: Seq<u8>, r: Region, n: nat)
    requires
        tree_wf(nodes, r),
        r.fits(),
        allocated(nodes, r, n),
    ensures
        r.start + r.footprint() <= r.node_addr(n),
        r.node_addr(n) + r.node_bytes(n) <= r.start + r.size,
        r.node_addr(n) + r.node_bytes(n) <= usize::MAX,
{
    r.lemma_node_bytes(n);
    r.lemma_first_leaf_range(n);
    r.lemma_level_range(n);
    let first = r.first_leaf(n);
    let last = (r.first_leaf(n) + r.span(n) - 1) as nat;
    lemma_leaf_under(r, n, first);
    lemma_leaf_under(r, n, last);
    r.lemma_level_range(first);
    r.lemma_level_range(last);
    if first != n {
        lemma_full_below(nodes, r, n, first);
    }
    if last != n {
        lemma_full_below(nodes, r, n, last);
    }
    assert(mark_ok(nodes, r, first));
    assert(mark_ok(nodes, r, last));
    assert(r.usable((first - r.leaves()) as nat));
    assert(r.usable((last - r.leaves()) as nat));
}

/// A node whose mark is not 0 starts inside the region: some page under it
/// is usable.
pub proof fn lemma_marked_in_region(nodes: Seq<u8>, r: Region, n: nat)
    requires
        tree_wf(nodes, r),
        r.fits(),
        r.is_node(n),
        mark(nodes, n) != 0,
    ensures
        r.node_addr(n) + 4096 <= r.start + r.size,
        r.node_addr(n) < usize::MAX,
    decreases 2 * r.leaves() - n,
{
    r.lemma_node_bytes(n);
    r.lemma_level_range(n);
    assert(mark_ok(nodes, r, n));
    if n >= r.leaves() {
        r.lemma_first_leaf_range(n);
        assert(r.span(n) == 1);
        assert(r.first_leaf(n) == n) by (nonlinear_arith)
            requires
                r.first_leaf(n) == n * r.span(n),
                r.span(n) == 1,
        ;
    } else {
        r.lemma_children(n);
        r.lemma_node_bytes(2 * n);
        r.lemma_node_bytes(2 * n + 1);
        if mark(nodes, 2 * n) != 0 {
            lemma_marked_in_region(nodes, r, 2 * n);
        } else {
            lemma_marked_in_region(nodes, r, 2 * n + 1);
        }
    }
}

/// The node that is handed out at address `p`.
pub open spec fn node_at(nodes: Seq<u8>, r: Region, p: usize) -> nat {
    choose|n: nat| allocated(nodes, r, n) && r.node_addr(n) == p
}

/// The byte ranges that are handed out: the first address of each, and its
/// length.
pub open spec fn live_map(nodes: Seq<u8>, r: Region) -> Map<usize, nat> {
    Map::new(
        |p: usize| exists|n: nat| #[trigger] allocated(nodes, r, n) && r.node_addr(n) == p,
        |p: usize| r.node_bytes(node_at(nodes, r, p)),
    )
}

/// No two nodes that are handed out hold the same byte.
pub proof fn lemma_holds_unique(nodes: Seq<u8>, r: Region, i: nat, j: nat, addr: int)
    requires
        tree_wf(nodes, r),
        r.fits(),
        allocated(nodes, r, i),
        allocated(nodes, r, j),
        r.node_holds(i, addr),
        r.node_holds(j, addr),
    ensures
        i == j,
{
    if i != j {
        lemma_allocated_apart(nodes, r, i, j);
        r.lemma_apart_bytes(i, j);
    }
}

/// The entry of a node that is handed out.
pub proof fn lemma_live_map_has(nodes: Seq<u8>, r: Region, n: nat)
    requires
        tree_wf(nodes, r),
        r.fits(),
        allocated(nodes, r, n),
    ensures
        r.node_addr(n) <= usize::MAX,
        live_map(nodes, r).contains_key(r.node_addr(n) as usize),
        node_at(nodes, r, r.node_addr(n) as usize) == n,
        live_map(nodes, r)[r.node_addr(n) as usize] == r.node_bytes(n),
{
    lemma_allocated_in_region(nodes, r, n);
    r.lemma_node_bytes(n);
    let p = r.node_addr(n) as usize;
    let m = node_at(nodes, r, p);
    assert(allocated(nodes, r, m) && r.node_addr(m) == p);
    r.lemma_node_bytes(m);
    lemma_holds_unique(nodes, r, n, m, p as int);
}

/// Every entry comes from a node that is handed out.
pub proof fn lemma_live_map_node(nodes: Seq<u8>, r: Region, p: usize)
    requires
        live_map(nodes, r).contains_key(p),
    ensures
        allocated(nodes, r, node_at(nodes, r, p)),
        r.node_addr(node_at(nodes, r, p)) == p,
        live_map(nodes, r)[p] == r.node_bytes(node_at(nodes, r, p)),
{
}

/// One more node handed out is one more entry.
pub proof fn lemma_live_map_insert(n0: Seq<u8>, n2: Seq<u8>, r: Region, n: nat)
    requires
        tree_wf(n0, r),
        tree_wf(n2, r),
        r.fits(),
        r.is_node(n),
        !allocated(n0, r, n),
        forall|i: nat| #[trigger] allocated(n2, r, i) <==> allocated(n0, r, i) || i == n,
    ensures
        r.node_addr(n) <= usize::MAX,
        !live_map(n0, r).contains_key(r.node_addr(n) as usize),
        live_map(n2, r) == live_map(n0, r).insert(r.node_addr(n) as usize, r.node_bytes(n)),
{
    assert(allocated(n2, r, n));
    lemma_allocated_in_region(n2, r, n);
    r.lemma_node_bytes(n);
    let p = r.node_addr(n) as usize;
    assert(allocated(n2, r, n));
    lemma_live_map_has(n2, r, n);
    if live_map(n0, r).contains_key(p) {
        let m = node_at(n0, r, p);
        assert(allocated(n2, r, m));
        r.lemma_node_bytes(m);
        lemma_holds_unique(n2, r, n, m, p as int);
    }
    let lhs = live_map(n2, r);
    let rhs = live_map(n0, r).insert(p, r.node_bytes(n));
    assert forall|q: usize| lhs.contains_key(q) <==> rhs.contains_key(q) by {
        if lhs.contains_key(q) && q != p {
            let m = node_at(n2, r, q);
            assert(allocated(n0, r, m));
        }
        if live_map(n0, r).contains_key(q) {
            let m = node_at(n0, r, q);
            assert(allocated(n2, r, m));
        }
    }
    assert forall|q: usize| lhs.contains_key(q) implies #[trigger] lhs[q] == rhs[q] by {
        if q != p {
            let m = node_at(n0, r, q);
            assert(allocated(n2, r, m));
            lemma_live_map_has(n2, r, m);
        }
    }
    assert(lhs =~= rhs);
}

/// One node taken back is one entry less.
pub proof fn lemma_live_map_remove(n0: Seq<u8>, n2: Seq<u8>, r: Region, n: nat)
    requires
        tree_wf(n0, r),
        tree_wf(n2, r),
        r.fits(),
        allocated(n0, r, n),
        forall|i: nat| #[trigger] allocated(n2, r, i) <==> allocated(n0, r, i) && i != n,
    ensures
        r.node_addr(n) <= usize::MAX,
        live_map(n2, r) == live_map(n0, r).remove(r.node_addr(n) as usize),
{
    lemma_allocated_in_region(n0, r, n);
    r.lemma_node_bytes(n);
    let p = r.node_addr(n) as usize;
    lemma_live_map_has(n0, r, n);
    let lhs = live_map(n2, r);
    let rhs = live_map(n0, r).remove(p);
    assert forall|q: usize| lhs.contains_key(q) <==> rhs.contains_key(q) by {
        if lhs.contains_key(q) {
            let m = node_at(n2, r, q);
            assert(allocated(n0, r, m));
            if q == p {
                r.lemma_node_bytes(m);
                lemma_holds_unique(n0, r, n, m, p as int);
            }
        }
        if rhs.contains_key(q) {
            let m = node_at(n0, r, q);
            assert(allocated(n2, r, m));
        }
    }
    assert forall|q: usize| lhs.contains_key(q) implies #[trigger] lhs[q] == rhs[q] by {
        let m = node_at(n2, r, q);
        assert(allocated(n0, r, m));
        lemma_live_map_has(n0, r, m);
    }
    assert(lhs =~= rhs);
}

/// Two ranges that are handed out do not overlap.
pub proof fn lemma_live_map_apart(nodes: Seq<u8>, r: Region, p: usize, q: usize)
    requires
        tree_wf(nodes, r),
        r.fits(),
        live_map(nodes, r).contains_key(p),
        live_map(nodes, r).contains_key(q),
        p != q,
    ensures
        p + live_map(nodes, r)[p] <= q || q + live_map(nodes, r)[q] <= p,
{
    let i = node_at(nodes, r, p);
    let j = node_at(nodes, r, q);
    lemma_allocated_apart(nodes, r, i, j);
    r.lemma_apart_bytes(i, j);
}

/// A free node lies inside the region, clear of the footprint.
pub proof fn lemma_free_in_region(nodes: Seq<u8>, r: Region, m: nat)
    requires
        tree_wf(nodes, r),
        r.fits(),
        node_free(nodes, r, m),
    ensures
        r.start + r.footprint() <= r.node_addr(m),
        r.node_addr(m) + r.node_bytes(m) <= r.start + r.size,
{
    r.lemma_node_bytes(m);
    r.lemma_first_leaf_range(m);
    r.lemma_level_range(m);
    let first = r.first_leaf(m);
    let last = (r.first_leaf(m) + r.span(m) - 1) as nat;
    lemma_leaf_under(r, m, first);
    lemma_leaf_under(r, m, last);
    lemma_free_below(nodes, r, m, first);
    lemma_free_below(nodes, r, m, last);
    r.lemma_level_range(first);
    r.lemma_level_range(last);
    assert(mark_ok(nodes, r, first));
    assert(mark_ok(nodes, r, last));
    assert(r.usable((first - r.leaves()) as nat));
    assert(r.usable((last - r.leaves()) as nat));
}

/// Over one region, two well-formed trees in which the same nodes are
/// handed out agree on the mark of every node.
pub proof fn lemma_same_mark(a: Seq<u8>, b: Seq<u8>, r: Region, i: nat)
    requires
        tree_wf(a, r),
        tree_wf(b, r),
        forall|j: nat| #[trigger] allocated(a, r, j) == allocated(b, r, j),
        r.is_node(i),
    ensures
        mark(a, i) == mark(b, i),
    decreases 2 * r.leaves() - i,
{
    assert(mark_ok(a, r, i));
    assert(mark_ok(b, r, i));
    assert(allocated(a, r, i) == allocated(b, r, i));
    r.lemma_level_range(i);
    if i < r.leaves() {
        r.lemma_children(i);
        lemma_same_mark(a, b, r, 2 * i);
        lemma_same_mark(a, b, r, 2 * i + 1);
    }
}

/// The nodes that are handed out determine the whole tree.
pub proof fn lemma_same_tree(a: Seq<u8>, b: Seq<u8>, r: Region)
    requires
        tree_wf(a, r),
        tree_wf(b, r),
        forall|j: nat| #[trigger] allocated(a, r, j) == allocated(b, r, j),
    ensures
        a == b,
{
    assert forall|i: int| 0 <= i < a.len() implies a[i] == b[i] by {
        if i > 0 {
            lemma_same_mark(a, b, r, i as nat);
        }
    }
    assert(a =~= b);
}

} // verus!
