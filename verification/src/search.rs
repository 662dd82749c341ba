//! Which free node an allocation takes: among the wholly free nodes of the
//! wanted level whose address is aligned as asked, the one with the highest
//! number, which is the one with the highest address.

use vstd::prelude::*;
use crate::math::{exp2, order, lemma_order_fits};
use crate::tree::{
    Region, is_anc, lemma_is_anc_le, lemma_is_anc_child, lemma_is_anc_trans, lemma_is_anc_chain,
    lemma_left_before_right,
};
use crate::marks::{
    mark, mark_ok, allocated, tree_wf, open_path, node_free, lemma_full_below, lemma_open_path_anc,
    lemma_mark_rises, lemma_leaf_under,
};

verus! {

/// Node `m` can serve a request for a node of level `k` at an address that
/// is a multiple of `a`.
pub open spec fn candidate(nodes: Seq<u8>, r: Region, k: nat, a: nat, m: nat) -> bool {
    &&& node_free(nodes, r, m)
    &&& r.level(m) == k
    &&& r.node_addr(m) % a == 0
}

/// `res` is the candidate with the highest number at or under node `id`,
/// or `None` when there is no candidate there.
pub open spec fn best_under(
    nodes: Seq<u8>,
    r: Region,
    k: nat,
    a: nat,
    id: nat,
    res: Option<nat>,
) -> bool {
    match res {
        Some(n) => {
            &&& candidate(nodes, r, k, a, n)
            &&& is_anc(id, n)
            &&& forall|m: nat| is_anc(id, m) && #[trigger] candidate(nodes, r, k, a, m) ==> m <= n
        },
        None => forall|m: nat| is_anc(id, m) ==> !#[trigger] candidate(nodes, r, k, a, m),
    }
}

/// The node `d` levels under `id` on its left edge.
pub open spec fn leftmost(id: nat, d: nat) -> nat
    decreases d,
{
    if d == 0 {
        id
    } else {
        2 * leftmost(id, (d - 1) as nat)
    }
}

/// The nodes on the left edge under a node start at the node's own address.
pub proof fn lemma_leftmost(r: Region, id: nat, d: nat)
    requires
        r.is_node(id),
        d <= r.level(id),
    ensures
        r.is_node(leftmost(id, d)),
        is_anc(id, leftmost(id, d)),
        d >= 1 ==> is_anc(2 * id, leftmost(id, d)),
        r.level(leftmost(id, d)) == r.level(id) - d,
        r.node_addr(leftmost(id, d)) == r.node_addr(id),
    decreases d,
{
    if d > 0 {
        let p = leftmost(id, (d - 1) as nat);
        lemma_leftmost(r, id, (d - 1) as nat);
        r.lemma_level_range(p);
        r.lemma_children(p);
        r.lemma_level_child(p);
        lemma_is_anc_le(id, p);
        assert((2 * p) / 2 == p);
        assert(is_anc(id, 2 * p));
        if d == 1 {
            assert(is_anc(2 * id, 2 * id));
        } else {
            lemma_is_anc_le(2 * id, p);
            assert(is_anc(2 * id, 2 * p));
        }
    } else {
        assert(is_anc(id, id));
    }
}

/// Under a free node every node is free.
pub proof fn lemma_free_below(nodes: Seq<u8>, r: Region, a: nat, m: nat)
    requires
        tree_wf(nodes, r),
        node_free(nodes, r, a),
        r.is_node(m),
        is_anc(a, m),
    ensures
        node_free(nodes, r, m),
    decreases m,
{
    if m != a {
        let p = m / 2;
        lemma_is_anc_le(a, p);
        lemma_free_below(nodes, r, a, p);
        lemma_full_below(nodes, r, a, m);
        r.lemma_level_range(p);
    }
}

/// Nothing can be taken under a node marked 0, nor under a node whose mark
/// tells of no free run of `blk_n` pages.
pub proof fn lemma_search_closed(nodes: Seq<u8>, r: Region, a: nat, id: nat, blk_n: nat)
    requires
        tree_wf(nodes, r),
        r.is_node(id),
        mark(nodes, id) == 0 || exp2((mark(nodes, id) - 1) as nat) < blk_n,
    ensures
        best_under(nodes, r, order(blk_n), a, id, None),
{
    let k = order(blk_n);
    assert forall|m: nat| is_anc(id, m) implies !#[trigger] candidate(nodes, r, k, a, m) by {
        if candidate(nodes, r, k, a, m) {
            lemma_mark_rises(nodes, r, id, m);
            let v = mark(nodes, id);
            lemma_order_fits(blk_n, (v - 1) as nat);
        }
    }
}

/// A free leaf serves a request for at most one page if its address fits.
pub proof fn lemma_search_leaf(nodes: Seq<u8>, r: Region, a: nat, id: nat, blk_n: nat)
    requires
        tree_wf(nodes, r),
        r.is_node(id),
        id >= r.leaves(),
        open_path(nodes, id),
        mark(nodes, id) != 0,
        exp2((mark(nodes, id) - 1) as nat) >= blk_n,
    ensures
        best_under(nodes, r, order(blk_n), a, id, if r.node_addr(id) % a == 0 { Some(id) } else { None }),
{
    let k = order(blk_n);
    r.lemma_level_range(id);
    assert(mark_ok(nodes, r, id));
    lemma_order_fits(blk_n, 0);
    assert(is_anc(id, id));
    assert forall|m: nat| is_anc(id, m) && #[trigger] candidate(nodes, r, k, a, m) implies m == id by {
        if m != id {
            lemma_is_anc_le(id, m / 2);
        }
    }
}

/// What the search returns at an inner node, from what it returned for the
/// node's two children: the right child's find, else the left child's, else
/// the node itself if it is free and its address fits.
pub proof fn lemma_search_inner(
    nodes: Seq<u8>,
    r: Region,
    a: nat,
    id: nat,
    blk_n: nat,
    rr: Option<nat>,
    rl: Option<nat>,
)
    requires
        tree_wf(nodes, r),
        r.is_node(id),
        id < r.leaves(),
        open_path(nodes, id),
        mark(nodes, id) != 0,
        exp2((mark(nodes, id) - 1) as nat) >= blk_n,
        best_under(nodes, r, order(blk_n), a, 2 * id + 1, rr),
        rr.is_none() ==> best_under(nodes, r, order(blk_n), a, 2 * id, rl),
    ensures
        best_under(nodes, r, order(blk_n), a, id,
            if rr.is_some() {
                rr
            } else if rl.is_some() {
                rl
            } else if mark(nodes, id) == r.level(id) + 1 && r.node_addr(id) % a == 0 {
                Some(id)
            } else {
                None
            }),
{
    let k = order(blk_n);
    r.lemma_children(id);
    r.lemma_level_child(id);
    r.lemma_level_range(id);
    assert(is_anc(id, id));
    assert(is_anc(id, 2 * id)) by {
        assert((2 * id) / 2 == id);
    }
    assert(is_anc(id, 2 * id + 1)) by {
        assert((2 * id + 1) / 2 == id);
    }
    // a candidate under a child lies below the level of `id`
    assert forall|m: nat| (is_anc(2 * id, m) || is_anc(2 * id + 1, m)) && r.is_node(m) implies
        r.level(m) < r.level(id) by {
        if is_anc(2 * id, m) {
            lemma_is_anc_le(2 * id, m);
        } else {
            lemma_is_anc_le(2 * id + 1, m);
        }
    }
    if rr.is_some() {
        let n = rr.unwrap();
        lemma_is_anc_trans(id, 2 * id + 1, n);
        assert forall|m: nat| is_anc(id, m) && #[trigger] candidate(nodes, r, k, a, m) implies m <= n by {
            if m != id {
                lemma_is_anc_child(id, m);
                if is_anc(2 * id, m) {
                    lemma_left_before_right(id, m, n);
                }
            }
        }
    } else if rl.is_some() {
        let n = rl.unwrap();
        lemma_is_anc_trans(id, 2 * id, n);
        assert forall|m: nat| is_anc(id, m) && #[trigger] candidate(nodes, r, k, a, m) implies m <= n by {
            if m != id {
                lemma_is_anc_child(id, m);
            }
        }
    } else if mark(nodes, id) == r.level(id) + 1 && r.node_addr(id) % a == 0 {
        lemma_order_fits(blk_n, r.level(id) as nat);
        if r.level(id) > k {
            let d = (r.level(id) - k) as nat;
            let lm = leftmost(id, d);
            lemma_leftmost(r, id, d);
            lemma_free_below(nodes, r, id, lm);
            assert(candidate(nodes, r, k, a, lm));
            assert(false);
        }
        assert forall|m: nat| is_anc(id, m) && #[trigger] candidate(nodes, r, k, a, m) implies m <= id by {
            if m != id {
                lemma_is_anc_child(id, m);
            }
        }
    } else {
        assert forall|m: nat| is_anc(id, m) implies !#[trigger] candidate(nodes, r, k, a, m) by {
            if m != id {
                lemma_is_anc_child(id, m);
            }
        }
    }
}

/// The page of leaf `x` is usable and lies in no node that is handed out.
pub open spec fn page_free(nodes: Seq<u8>, r: Region, x: nat) -> bool {
    &&& r.leaves() <= x < 2 * r.leaves()
    &&& r.usable((x - r.leaves()) as nat)
    &&& forall|m: nat| #[trigger] allocated(nodes, r, m) ==> !is_anc(m, x)
}

/// Every page of node `n` is free.
pub open spec fn pages_free(nodes: Seq<u8>, r: Region, n: nat) -> bool {
    forall|x: nat| r.leaves() <= x < 2 * r.leaves() && is_anc(n, x) ==> #[trigger] page_free(nodes, r, x)
}

/// A node whose pages are all free is marked as wholly free.
proof fn lemma_pages_free_full(nodes: Seq<u8>, r: Region, n: nat)
    requires
        tree_wf(nodes, r),
        r.is_node(n),
        pages_free(nodes, r, n),
    ensures
        mark(nodes, n) == r.level(n) + 1,
    decreases 2 * r.leaves() - n,
{
    r.lemma_level_range(n);
    assert(mark_ok(nodes, r, n));
    assert(is_anc(n, n));
    let first = r.first_leaf(n);
    r.lemma_first_leaf_range(n);
    lemma_leaf_under(r, n, first);
    assert(page_free(nodes, r, first));
    if n >= r.leaves() {
        assert(page_free(nodes, r, n));
        if mark(nodes, n) == 0 {
            assert(allocated(nodes, r, n));
        }
    }
    if n < r.leaves() {
        r.lemma_children(n);
        r.lemma_level_child(n);
        assert((2 * n) / 2 == n && (2 * n + 1) / 2 == n);
        assert forall|x: nat| r.leaves() <= x < 2 * r.leaves() && is_anc(2 * n, x) implies
            #[trigger] page_free(nodes, r, x) by {
            lemma_is_anc_le(2 * n, x);
            assert(is_anc(n, 2 * n));
            lemma_is_anc_trans(n, 2 * n, x);
        }
        assert forall|x: nat| r.leaves() <= x < 2 * r.leaves() && is_anc(2 * n + 1, x) implies
            #[trigger] page_free(nodes, r, x) by {
            lemma_is_anc_le(2 * n + 1, x);
            assert(is_anc(n, 2 * n + 1));
            lemma_is_anc_trans(n, 2 * n + 1, x);
        }
        lemma_pages_free_full(nodes, r, 2 * n);
        lemma_pages_free_full(nodes, r, 2 * n + 1);
        if allocated(nodes, r, n) {
            assert(!is_anc(n, first));
        }
    }
}

/// Above a free page no node is marked 0 from the first marked node on.
proof fn lemma_page_free_open(nodes: Seq<u8>, r: Region, a: nat, x: nat)
    requires
        tree_wf(nodes, r),
        page_free(nodes, r, x),
        r.is_node(a),
        is_anc(a, x),
        mark(nodes, a) != 0,
    ensures
        open_path(nodes, a),
    decreases a,
{
    if a > 1 {
        let p = a / 2;
        assert(is_anc(p, p));
        assert(is_anc(p, a));
        lemma_is_anc_trans(p, a, x);
        assert(mark_ok(nodes, r, p));
        assert(!allocated(nodes, r, p));
        lemma_page_free_open(nodes, r, p, x);
    }
}

/// A node can be handed out exactly when each of its pages is usable and
/// lies in no node that is handed out.
pub proof fn lemma_free_iff_pages_free(nodes: Seq<u8>, r: Region, n: nat)
    requires
        tree_wf(nodes, r),
        r.is_node(n),
    ensures
        node_free(nodes, r, n) <==> pages_free(nodes, r, n),
{
    if node_free(nodes, r, n) {
        assert forall|x: nat| r.leaves() <= x < 2 * r.leaves() && is_anc(n, x) implies
            #[trigger] page_free(nodes, r, x) by {
            lemma_free_below(nodes, r, n, x);
            r.lemma_level_range(x);
            assert(mark_ok(nodes, r, x));
            assert forall|m: nat| #[trigger] allocated(nodes, r, m) implies !is_anc(m, x) by {
                if is_anc(m, x) {
                    r.lemma_level_range(n);
                    r.lemma_level_range(m);
                    if m <= n {
                        lemma_is_anc_chain(m, n, x);
                        if m != n {
                            lemma_open_path_anc(nodes, m, n);
                        }
                    } else {
                        lemma_is_anc_chain(n, m, x);
                        lemma_free_below(nodes, r, n, m);
                    }
                }
            }
        }
    }
    if pages_free(nodes, r, n) {
        lemma_pages_free_full(nodes, r, n);
        let first = r.first_leaf(n);
        r.lemma_first_leaf_range(n);
        r.lemma_level_range(n);
        lemma_leaf_under(r, n, first);
        assert(page_free(nodes, r, first));
        lemma_page_free_open(nodes, r, n, first);
    }
}

} // verus!
