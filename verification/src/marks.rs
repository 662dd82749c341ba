//! The byte stored at each node of the tree, and what the bytes of a
//! well-formed tree say about the pages.
//!
//! A node's mark is 0 when the node is handed out or holds no free run of
//! pages; otherwise it is one more than the level of the largest free node
//! at or under it.  A node whose mark is its own level plus one is wholly
//! free.

use vstd::prelude::*;
use crate::math::{log2, lemma_log2_mono};
use crate::tree::{
    Region, is_anc, lemma_is_anc_le, lemma_is_anc_same_depth, lemma_is_anc_parent,
    lemma_is_anc_proper, lemma_is_anc_trans,
};

verus! {

/// The mark of an inner node at level `lv` whose children are marked `l`
/// and `r`: the children merge when both are wholly free.
pub open spec fn combine(l: int, r: int, lv: int) -> int {
    if l == lv && r == lv {
        lv + 1
    } else if l >= r {
        l
    } else {
        r
    }
}

/// The mark of node `i`.
pub open spec fn mark(nodes: Seq<u8>, i: nat) -> int {
    nodes[i as int] as int
}

/// Node `i` is handed out: its mark is 0 although its pages are usable and
/// nothing under it is handed out.
pub open spec fn allocated(nodes: Seq<u8>, r: Region, i: nat) -> bool {
    &&& r.is_node(i)
    &&& mark(nodes, i) == 0
    &&& if i >= r.leaves() {
        r.usable((i - r.leaves()) as nat)
    } else {
        mark(nodes, 2 * i) == r.level(i) && mark(nodes, 2 * i + 1) == r.level(i)
    }
}

/// The rule that the mark of node `i` obeys: an unusable leaf is 0, a usable
/// one 0 or 1; an inner node is handed out or combines its children.
pub open spec fn mark_ok(nodes: Seq<u8>, r: Region, i: nat) -> bool {
    &&& mark(nodes, i) <= r.level(i) + 1
    &&& if i >= r.leaves() {
        !r.usable((i - r.leaves()) as nat) ==> mark(nodes, i) == 0
    } else {
        ||| mark(nodes, i) == combine(mark(nodes, 2 * i), mark(nodes, 2 * i + 1), r.level(i))
        ||| allocated(nodes, r, i)
    }
}

/// Node `i` obeys its rule and is not handed out.
pub open spec fn settled(nodes: Seq<u8>, r: Region, i: nat) -> bool {
    mark_ok(nodes, r, i) && !allocated(nodes, r, i)
}

/// Every node obeys its rule.
pub open spec fn tree_wf(nodes: Seq<u8>, r: Region) -> bool {
    &&& r.leaves() >= 1
    &&& nodes.len() == 2 * r.leaves()
    &&& mark(nodes, 0) == 0
    &&& forall|i: nat| r.is_node(i) ==> #[trigger] mark_ok(nodes, r, i)
}

/// No ancestor of `i` other than `i` itself has mark 0.
pub open spec fn open_path(nodes: Seq<u8>, i: nat) -> bool
    decreases i,
{
    if i <= 1 {
        true
    } else {
        mark(nodes, i / 2) != 0 && open_path(nodes, i / 2)
    }
}

/// Node `i` is wholly free and can be handed out.
pub open spec fn node_free(nodes: Seq<u8>, r: Region, i: nat) -> bool {
    &&& r.is_node(i)
    &&& mark(nodes, i) == r.level(i) + 1
    &&& open_path(nodes, i)
}

/// The pages under `i` and those under `j` do not meet.
pub open spec fn apart(r: Region, i: nat, j: nat) -> bool {
    ||| r.first_leaf(i) + r.span(i) <= r.first_leaf(j)
    ||| r.first_leaf(j) + r.span(j) <= r.first_leaf(i)
}

/// The rule of a node speaks of its own mark and of its children's marks
/// only.
pub proof fn lemma_mark_ok_frame(n0: Seq<u8>, n1: Seq<u8>, r: Region, j: nat)
    requires
        r.is_node(j),
        mark(n1, j) == mark(n0, j),
        j < r.leaves() ==> mark(n1, 2 * j) == mark(n0, 2 * j) && mark(n1, 2 * j + 1) == mark(n0, 2 * j + 1),
    ensures
        mark_ok(n0, r, j) == mark_ok(n1, r, j),
        allocated(n0, r, j) == allocated(n1, r, j),
{
}

/// The children of a wholly free node, and of a node that is handed out,
/// are wholly free.
pub proof fn lemma_full_children(nodes: Seq<u8>, r: Region, i: nat)
    requires
        tree_wf(nodes, r),
        r.is_node(i),
        i < r.leaves(),
        mark(nodes, i) == r.level(i) + 1 || allocated(nodes, r, i),
    ensures
        mark(nodes, 2 * i) == r.level(2 * i) + 1,
        mark(nodes, 2 * i + 1) == r.level(2 * i + 1) + 1,
{
    r.lemma_children(i);
    r.lemma_level_child(i);
    assert(mark_ok(nodes, r, i));
    assert(mark_ok(nodes, r, 2 * i));
    assert(mark_ok(nodes, r, 2 * i + 1));
}

/// Everything under a wholly free node, and under a node that is handed
/// out, is wholly free.
pub proof fn lemma_full_below(nodes: Seq<u8>, r: Region, a: nat, m: nat)
    requires
        tree_wf(nodes, r),
        r.is_node(a),
        r.is_node(m),
        mark(nodes, a) == r.level(a) + 1 || allocated(nodes, r, a),
        is_anc(a, m),
        m != a,
    ensures
        mark(nodes, m) == r.level(m) + 1,
        mark(nodes, m) != 0,
    decreases m,
{
    let p = m / 2;
    lemma_is_anc_le(a, p);
    r.lemma_level_range(m);
    if p != a {
        lemma_full_below(nodes, r, a, p);
    }
    lemma_full_children(nodes, r, p);
}

/// A node that is handed out has no handed-out node above or below it.
pub proof fn lemma_no_nested(nodes: Seq<u8>, r: Region, a: nat, m: nat)
    requires
        tree_wf(nodes, r),
        allocated(nodes, r, a),
        allocated(nodes, r, m),
        is_anc(a, m),
    ensures
        a == m,
{
    if a != m {
        lemma_full_below(nodes, r, a, m);
    }
}

/// Above a node with an open path every node is marked, and has an open
/// path itself.
pub proof fn lemma_open_path_anc(nodes: Seq<u8>, a: nat, m: nat)
    requires
        open_path(nodes, m),
        is_anc(a, m),
        a != m,
        a >= 1,
    ensures
        mark(nodes, a) != 0,
        open_path(nodes, a),
    decreases m,
{
    if m / 2 != a {
        lemma_open_path_anc(nodes, a, m / 2);
    }
}

/// Along an open path the marks do not fall on the way up.
pub proof fn lemma_mark_rises(nodes: Seq<u8>, r: Region, a: nat, m: nat)
    requires
        tree_wf(nodes, r),
        r.is_node(m),
        a >= 1,
        is_anc(a, m),
        open_path(nodes, m),
    ensures
        mark(nodes, a) >= mark(nodes, m),
    decreases m,
{
    if a != m {
        let p = m / 2;
        lemma_is_anc_le(a, p);
        assert(mark_ok(nodes, r, p));
        lemma_mark_rises(nodes, r, a, p);
    }
}

/// The pages of a node lie among those of each of its ancestors.
pub proof fn lemma_range_nested(r: Region, a: nat, j: nat)
    requires
        r.is_node(a),
        r.is_node(j),
        is_anc(a, j),
    ensures
        r.first_leaf(a) <= r.first_leaf(j),
        r.first_leaf(j) + r.span(j) <= r.first_leaf(a) + r.span(a),
    decreases j,
{
    if j != a {
        let p = j / 2;
        lemma_is_anc_le(a, p);
        lemma_range_nested(r, a, p);
        r.lemma_children(p);
    }
}

/// Two nodes are nested or apart.
pub proof fn lemma_nested_or_apart(r: Region, i: nat, j: nat)
    requires
        r.is_node(i),
        r.is_node(j),
        log2(i) <= log2(j),
    ensures
        is_anc(i, j) || apart(r, i, j),
    decreases j,
{
    if log2(j) == log2(i) {
        if i != j {
            let s = r.span(i);
            assert(r.span(j) == s);
            if i < j {
                assert(i * s + s <= j * s) by (nonlinear_arith)
                    requires
                        i + 1 <= j,
                ;
            } else {
                assert(j * s + s <= i * s) by (nonlinear_arith)
                    requires
                        j + 1 <= i,
                ;
            }
        }
    } else {
        let p = j / 2;
        if j <= i {
            lemma_log2_mono(j, i);
        }
        assert(p >= 1);
        lemma_nested_or_apart(r, i, p);
        r.lemma_children(p);
    }
}

/// Two different nodes that are both handed out stand for runs of pages
/// that do not meet.
pub proof fn lemma_allocated_apart(nodes: Seq<u8>, r: Region, i: nat, j: nat)
    requires
        tree_wf(nodes, r),
        allocated(nodes, r, i),
        allocated(nodes, r, j),
        i != j,
    ensures
        apart(r, i, j),
{
    if log2(i) <= log2(j) {
        lemma_nested_or_apart(r, i, j);
        if is_anc(i, j) {
            lemma_no_nested(nodes, r, i, j);
        }
    } else {
        lemma_nested_or_apart(r, j, i);
        if is_anc(j, i) {
            lemma_no_nested(nodes, r, j, i);
        }
    }
}

/// A leaf lies under a node exactly when it is one of the node's pages.
pub proof fn lemma_leaf_under(r: Region, n: nat, x: nat)
    requires
        r.is_node(n),
        r.leaves() <= x < 2 * r.leaves(),
    ensures
        is_anc(n, x) <==> r.first_leaf(n) <= x < r.first_leaf(n) + r.span(n),
{
    r.lemma_level_range(x);
    r.lemma_level_range(n);
    assert(r.span(x) == 1);
    assert(r.first_leaf(x) == x) by (nonlinear_arith)
        requires
            r.first_leaf(x) == x * r.span(x),
            r.span(x) == 1,
    ;
    if is_anc(n, x) {
        lemma_range_nested(r, n, x);
    } else {
        lemma_nested_or_apart(r, n, x);
    }
}

/// A mark above 0 on a node that no node marked 0 lies above tells of a free
/// node: at or under the node there is one of the level that the mark names.
pub proof fn lemma_mark_witness(nodes: Seq<u8>, r: Region, i: nat) -> (n: nat)
    requires
        tree_wf(nodes, r),
        r.is_node(i),
        mark(nodes, i) > 0,
        open_path(nodes, i),
    ensures
        is_anc(i, n),
        node_free(nodes, r, n),
        r.level(n) + 1 == mark(nodes, i),
    decreases 2 * r.leaves() - i,
{
    r.lemma_level_range(i);
    assert(mark_ok(nodes, r, i));
    assert(is_anc(i, i));
    if mark(nodes, i) == r.level(i) + 1 {
        i
    } else {
        r.lemma_children(i);
        let c = if mark(nodes, 2 * i) >= mark(nodes, 2 * i + 1) {
            2 * i
        } else {
            2 * i + 1
        };
        assert(c / 2 == i);
        assert(open_path(nodes, c));
        assert(is_anc(i, c));
        let n = lemma_mark_witness(nodes, r, c);
        lemma_is_anc_trans(i, c, n);
        n
    }
}

/// `a` is an ancestor of `i` and not `i` itself.
pub open spec fn proper_anc(a: nat, i: nat) -> bool {
    a >= 1 && a != i && is_anc(a, i)
}

/// The mark of inner node `i` is what its children's marks combine to.
pub open spec fn recombined(nodes: Seq<u8>, r: Region, i: nat) -> bool {
    mark(nodes, i) == combine(mark(nodes, 2 * i), mark(nodes, 2 * i + 1), r.level(i))
}

/// The state of a walk that recombines the marks on the way up from node
/// `idx`, when it stands at node `t`: the marks at and below the walk obey
/// their rules, those between `idx` and `t` are recombined, and nothing off
/// the path has changed since `before`.
pub open spec fn walk_inv(before: Seq<u8>, nodes: Seq<u8>, r: Region, idx: nat, t: nat) -> bool {
    &&& r.leaves() >= 1
    &&& nodes.len() == 2 * r.leaves()
    &&& before.len() == nodes.len()
    &&& r.is_node(idx)
    &&& r.is_node(t)
    &&& is_anc(t, idx)
    &&& forall|i: nat| r.is_node(i) && !proper_anc(i, t) ==> #[trigger] mark_ok(nodes, r, i)
    &&& forall|i: nat| i < nodes.len() && !proper_anc(i, idx) ==> #[trigger] mark(nodes, i) == mark(before, i)
    &&& forall|i: nat| proper_anc(i, idx) && !proper_anc(i, t) ==> #[trigger] recombined(nodes, r, i)
}

/// What a finished walk from `idx` leaves behind.
pub open spec fn updated(before: Seq<u8>, nodes: Seq<u8>, r: Region, idx: nat) -> bool {
    &&& nodes.len() == before.len()
    &&& forall|i: nat| r.is_node(i) ==> #[trigger] mark_ok(nodes, r, i)
    &&& forall|i: nat| i < nodes.len() && !proper_anc(i, idx) ==> #[trigger] mark(nodes, i) == mark(before, i)
    &&& forall|i: nat| proper_anc(i, idx) ==> #[trigger] recombined(nodes, r, i)
}

/// Changing the mark of one node of a well-formed tree to a value that obeys
/// the node's rule leaves a tree from which a walk can start.
pub proof fn lemma_walk_start(n0: Seq<u8>, r: Region, idx: nat, v: u8)
    requires
        tree_wf(n0, r),
        r.is_node(idx),
        mark_ok(n0.update(idx as int, v), r, idx),
    ensures
        walk_inv(n0.update(idx as int, v), n0.update(idx as int, v), r, idx, idx),
{
    let n1 = n0.update(idx as int, v);
    assert forall|i: nat| r.is_node(i) && !proper_anc(i, idx) implies #[trigger] mark_ok(n1, r, i) by {
        if i != idx {
            assert(mark_ok(n0, r, i));
            if i < r.leaves() && (2 * i == idx || 2 * i + 1 == idx) {
                assert(idx / 2 == i);
                assert(is_anc(i, idx / 2));
            }
            lemma_mark_ok_frame(n0, n1, r, i);
        }
    }
}

/// One step of the walk: recombining the parent of `t`.
pub proof fn lemma_walk_step(before: Seq<u8>, nodes: Seq<u8>, r: Region, idx: nat, t: nat)
    requires
        walk_inv(before, nodes, r, idx, t),
        t >= 2,
    ensures
        0 <= combine(mark(nodes, 2 * (t / 2)), mark(nodes, 2 * (t / 2) + 1), r.level(t / 2)) <= r.level(t / 2) + 1,
        r.level(t / 2) == r.level(t) + 1,
        forall|v: u8| v == combine(mark(nodes, 2 * (t / 2)), mark(nodes, 2 * (t / 2) + 1), r.level(t / 2))
            ==> walk_inv(before, #[trigger] nodes.update((t / 2) as int, v), r, idx, t / 2),
{
    let p = t / 2;
    let s = if t == 2 * p { 2 * p + 1 } else { 2 * p };
    r.lemma_children(p);
    r.lemma_level_child(p);
    r.lemma_level_range(p);
    if proper_anc(s, t) {
        lemma_is_anc_same_depth(s, t);
    }
    assert(mark_ok(nodes, r, t));
    assert(mark_ok(nodes, r, s));
    lemma_is_anc_parent(t, idx);
    lemma_is_anc_le(t, idx);
    let c = combine(mark(nodes, 2 * p), mark(nodes, 2 * p + 1), r.level(p));
    assert forall|v: u8| v == c implies walk_inv(before, #[trigger] nodes.update(p as int, v), r, idx, p) by {
        let n1 = nodes.update(p as int, v);
        assert forall|i: nat| r.is_node(i) && !proper_anc(i, p) implies #[trigger] mark_ok(n1, r, i) by {
            if i != p {
                if proper_anc(i, t) {
                    lemma_is_anc_proper(i, t);
                }
                assert(mark_ok(nodes, r, i));
                if i < r.leaves() && (2 * i == p || 2 * i + 1 == p) {
                    assert(p / 2 == i);
                    assert(is_anc(i, p / 2));
                }
                lemma_mark_ok_frame(nodes, n1, r, i);
            }
        }
        assert forall|i: nat| i < n1.len() && !proper_anc(i, idx) implies #[trigger] mark(n1, i) ==
            mark(before, i) by {
            assert(mark(nodes, i) == mark(before, i));
        }
        assert forall|i: nat| proper_anc(i, idx) && !proper_anc(i, p) implies
            #[trigger] recombined(n1, r, i) by {
            lemma_is_anc_proper(i, idx);
            lemma_is_anc_le(i, idx / 2);
            lemma_is_anc_le(idx, idx);
            if i != p {
                if proper_anc(i, t) {
                    lemma_is_anc_proper(i, t);
                }
                assert(recombined(nodes, r, i));
                if 2 * i == p || 2 * i + 1 == p {
                    assert(p / 2 == i);
                    assert(is_anc(i, p / 2));
                }
            }
        }
    }
}

/// A walk that has reached the root is finished.
pub proof fn lemma_walk_end(before: Seq<u8>, nodes: Seq<u8>, r: Region, idx: nat)
    requires
        walk_inv(before, nodes, r, idx, 1),
    ensures
        updated(before, nodes, r, idx),
{
    assert forall|i: nat| r.is_node(i) implies #[trigger] mark_ok(nodes, r, i) by {
        if proper_anc(i, 1) {
            lemma_is_anc_le(i, 1);
        }
    }
    assert forall|i: nat| proper_anc(i, idx) implies #[trigger] recombined(nodes, r, i) by {
        if proper_anc(i, 1) {
            lemma_is_anc_le(i, 1);
        }
    }
}

/// The marks of a node and of its children are untouched by a walk that
/// starts elsewhere and does not pass through the node.
proof fn lemma_off_path(n1: Seq<u8>, n2: Seq<u8>, r: Region, idx: nat, i: nat)
    requires
        updated(n1, n2, r, idx),
        n1.len() == 2 * r.leaves(),
        r.is_node(i),
        r.is_node(idx),
        i != idx,
        !proper_anc(i, idx),
    ensures
        mark_ok(n1, r, i) == mark_ok(n2, r, i),
        allocated(n1, r, i) == allocated(n2, r, i),
{
    assert(mark(n2, i) == mark(n1, i));
    if i < r.leaves() {
        let a = 2 * i;
        let b = 2 * i + 1;
        if proper_anc(a, idx) || a == idx {
            lemma_is_anc_parent(a, idx);
            assert(a / 2 == i);
        }
        if proper_anc(b, idx) || b == idx {
            lemma_is_anc_parent(b, idx);
            assert(b / 2 == i);
        }
        assert(is_anc(idx, idx));
        assert(mark(n2, a) == mark(n1, a));
        assert(mark(n2, b) == mark(n1, b));
    }
    lemma_mark_ok_frame(n1, n2, r, i);
}

/// Handing out a free node, and recombining the marks above it, adds that
/// node to those handed out and changes nothing else.
pub proof fn lemma_alloc_live(n0: Seq<u8>, n2: Seq<u8>, r: Region, idx: nat)
    requires
        tree_wf(n0, r),
        node_free(n0, r, idx),
        updated(n0.update(idx as int, 0u8), n2, r, idx),
    ensures
        tree_wf(n2, r),
        forall|i: nat| #[trigger] allocated(n2, r, i) <==> allocated(n0, r, i) || i == idx,
{
    let n1 = n0.update(idx as int, 0u8);
    assert(is_anc(idx, idx));
    assert(mark(n2, idx) == mark(n1, idx));
    assert(mark(n2, 0) == mark(n1, 0));
    assert forall|i: nat| #[trigger] allocated(n2, r, i) <==> allocated(n0, r, i) || i == idx by {
        if r.is_node(i) {
            if i == idx {
                assert(mark_ok(n0, r, idx));
                r.lemma_level_range(idx);
                if idx < r.leaves() {
                    lemma_full_children(n0, r, idx);
                    r.lemma_level_child(idx);
                    assert(mark(n2, 2 * idx) == mark(n1, 2 * idx)) by {
                        if is_anc(2 * idx, idx) {
                            lemma_is_anc_le(2 * idx, idx);
                        }
                    }
                    assert(mark(n2, 2 * idx + 1) == mark(n1, 2 * idx + 1)) by {
                        if is_anc(2 * idx + 1, idx) {
                            lemma_is_anc_le(2 * idx + 1, idx);
                        }
                    }
                }
            } else if proper_anc(i, idx) {
                lemma_open_path_anc(n0, i, idx);
                assert(recombined(n2, r, i));
                lemma_is_anc_proper(i, idx);
                lemma_is_anc_le(i, idx / 2);
                r.lemma_level_range(i);
            } else {
                lemma_off_path(n1, n2, r, idx, i);
                if i < r.leaves() && (2 * i == idx || 2 * i + 1 == idx) {
                    assert(idx / 2 == i);
                    assert(is_anc(i, idx / 2));
                }
                lemma_mark_ok_frame(n0, n1, r, i);
            }
        }
    }
}

/// Taking back a node that is handed out, and recombining the marks above
/// it, removes that node from those handed out and changes nothing else.
pub proof fn lemma_dealloc_live(n0: Seq<u8>, n2: Seq<u8>, r: Region, idx: nat, v: u8)
    requires
        tree_wf(n0, r),
        allocated(n0, r, idx),
        v == r.level(idx) + 1,
        updated(n0.update(idx as int, v), n2, r, idx),
    ensures
        tree_wf(n2, r),
        forall|i: nat| #[trigger] allocated(n2, r, i) <==> allocated(n0, r, i) && i != idx,
{
    let n1 = n0.update(idx as int, v);
    assert(is_anc(idx, idx));
    assert(mark(n2, idx) == mark(n1, idx));
    r.lemma_level_range(idx);
    assert(mark(n2, 0) == mark(n1, 0));
    assert forall|i: nat| #[trigger] allocated(n2, r, i) <==> allocated(n0, r, i) && i != idx by {
        if r.is_node(i) {
            if i == idx {
            } else if proper_anc(i, idx) {
                if allocated(n0, r, i) {
                    lemma_no_nested(n0, r, i, idx);
                }
                assert(recombined(n2, r, i));
                lemma_is_anc_proper(i, idx);
                lemma_is_anc_le(i, idx / 2);
                r.lemma_level_range(i);
            } else {
                lemma_off_path(n1, n2, r, idx, i);
                if i < r.leaves() && (2 * i == idx || 2 * i + 1 == idx) {
                    assert(idx / 2 == i);
                    assert(is_anc(i, idx / 2));
                }
                lemma_mark_ok_frame(n0, n1, r, i);
            }
        }
    }
}

/// The mark that makes a handed-out node wholly free again obeys the node's
/// rule, and so does the mark 0 on a free node.
pub proof fn lemma_new_mark_ok(n0: Seq<u8>, r: Region, idx: nat, v: u8)
    requires
        tree_wf(n0, r),
        r.is_node(idx),
        (node_free(n0, r, idx) && v == 0) || (allocated(n0, r, idx) && v == r.level(idx) + 1),
    ensures
        mark_ok(n0.update(idx as int, v), r, idx),
{
    let n1 = n0.update(idx as int, v);
    assert(mark_ok(n0, r, idx));
    r.lemma_level_range(idx);
    if idx < r.leaves() {
        lemma_full_children(n0, r, idx);
        r.lemma_level_child(idx);
        assert(mark(n1, 2 * idx) == mark(n0, 2 * idx));
        assert(mark(n1, 2 * idx + 1) == mark(n0, 2 * idx + 1));
    }
}

} // verus!
