//! The allocator interface and the two rounding helpers it is built on.

use vstd::prelude::*;
use crate::math::{
    exp2, log2, is_pow2, next_pow2, prev_pow2, lemma_exp2_pos, lemma_exp2_strict,
    lemma_log2_bounds, lemma_log2_exp2, lemma_log2_mono, lemma_log2_unique, lemma_next_pow2_bounds,
    lemma_next_pow2_least, lemma_prev_pow2_bounds,
};

verus! {

/// An allocator of byte ranges that finds the range of an address again
/// from the address alone.
pub trait DynamicAllocator {
    /// The allocator has been set up and its state is consistent.
    spec fn wf(&self) -> bool;

    /// The allocations that are live: the first address of each, and the
    /// number of bytes that belong to it.
    spec fn live(&self) -> Map<usize, nat>;

    /// Live allocations do not overlap.
    proof fn lemma_live_apart(&self, p: usize, q: usize)
        requires
            self.wf(),
            self.live().contains_key(p),
            self.live().contains_key(q),
            p != q,
        ensures
            p + self.live()[p] <= q || q + self.live()[q] <= p,
    ;

    /// Hands out at least `size` bytes that belong to no live allocation,
    /// at an address that is a multiple of `align` when `align` is a power
    /// of two, or reports that it cannot.
    fn allocate(&mut self, size: usize, align: usize) -> (res: Option<usize>)
        requires
            old(self).wf(),
            align > 0,
        ensures
            final(self).wf(),
            match res {
                Some(p) => {
                    &&& !old(self).live().contains_key(p)
                    &&& final(self).live() == old(self).live().insert(p, final(self).live()[p])
                    &&& final(self).live()[p] >= size
                    &&& is_pow2(align as nat) ==> p % align == 0
                },
                None => final(self).live() == old(self).live(),
            },
    ;

    /// Takes back the live allocation that starts at `addr`.
    fn dealloc(&mut self, addr: usize)
        requires
            old(self).wf(),
            old(self).live().contains_key(addr),
        ensures
            final(self).wf(),
            final(self).live() == old(self).live().remove(addr),
    ;

    /// The number of bytes that a request for `minsz` bytes takes up.
    fn grained(&self, minsz: usize) -> (res: usize)
        requires
            next_pow2(minsz as nat) <= usize::MAX,
        ensures
            res >= minsz,
    ;

    /// The first address of the live allocation that holds `addr`.
    fn compound_head(&self, addr: usize) -> (res: usize)
        requires
            self.wf(),
            exists|p: usize| self.live().contains_key(p) && p <= addr < p + self.live()[p],
        ensures
            self.live().contains_key(res),
            res <= addr < res + self.live()[res],
    ;
}

/// The smallest power of two that is at least `x`, and `0` for `x == 0`.
pub fn next_pow_of_2(x: usize) -> (r: usize)
    requires
        next_pow2(x as nat) <= usize::MAX,
    ensures
        r == next_pow2(x as nat),
        x > 0 ==> is_pow2(r as nat) && x <= r < 2 * x,
{
    if x == 0 {
        return 0;
    }
    proof {
        lemma_next_pow2_bounds(x as nat);
    }
    let mut r: usize = 1;
    let ghost mut k: nat = 0;
    while r < x
        invariant
            r == exp2(k),
            x >= 1,
            r <= next_pow2(x as nat) <= usize::MAX,
            x <= next_pow2(x as nat),
            is_pow2(next_pow2(x as nat)),
        decreases next_pow2(x as nat) - r,
    {
        proof {
            // r < x <= next_pow2(x), both powers of two, so 2r <= next_pow2(x)
            let n = next_pow2(x as nat);
            lemma_log2_exp2(k);
            lemma_log2_mono(r as nat, n);
            if log2(n) == k {
                assert(n == r);
            }
            lemma_exp2_strict(k, log2(n));
            k = k + 1;
        }
        r = r * 2;
    }
    proof {
        lemma_log2_exp2(k);
        lemma_next_pow2_least(x as nat, r as nat);
    }
    r
}

/// The largest power of two that is at most `x`, and `0` for `x == 0`.
pub fn prev_pow_of_2(x: usize) -> (r: usize)
    ensures
        r == prev_pow2(x as nat),
        x > 0 ==> is_pow2(r as nat) && r <= x < 2 * r,
{
    if x == 0 {
        return 0;
    }
    proof {
        lemma_prev_pow2_bounds(x as nat);
    }
    let mut r: usize = 1;
    let ghost mut k: nat = 0;
    proof {
        lemma_log2_bounds(x as nat);
        lemma_exp2_pos(log2(x as nat));
    }
    while r <= x / 2
        invariant
            r == exp2(k),
            x >= 1,
            1 <= r <= x,
        decreases x - r,
    {
        r = r * 2;
        proof {
            k = k + 1;
        }
    }
    proof {
        lemma_log2_unique(x as nat, k);
    }
    r
}

} // verus!
