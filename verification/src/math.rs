//! Powers of two and base-2 logarithms over the mathematical integers.

use vstd::prelude::*;

verus! {

/// `2^k`.
pub open spec fn exp2(k: nat) -> nat
    decreases k,
{
    if k == 0 {
        1
    } else {
        2 * exp2((k - 1) as nat)
    }
}

/// `floor(log2(n))` for `n >= 1`, and `0` for `n == 0`.
pub open spec fn log2(n: nat) -> nat
    decreases n,
{
    if n <= 1 {
        0
    } else {
        1 + log2(n / 2)
    }
}

/// `n` is a power of two.
pub open spec fn is_pow2(n: nat) -> bool {
    n > 0 && exp2(log2(n)) == n
}

/// The smallest power of two that is at least `x`; `0` for `x == 0`.
pub open spec fn next_pow2(x: nat) -> nat {
    if x == 0 {
        0
    } else if x == 1 {
        1
    } else {
        exp2(log2((x - 1) as nat) + 1)
    }
}

/// The largest power of two that is at most `x`; `0` for `x == 0`.
pub open spec fn prev_pow2(x: nat) -> nat {
    if x == 0 {
        0
    } else {
        exp2(log2(x))
    }
}

/// A power of two is at least 1.
pub proof fn lemma_exp2_pos(k: nat)
    ensures
        exp2(k) >= 1,
    decreases k,
{
    if k > 0 {
        lemma_exp2_pos((k - 1) as nat);
    }
}

/// `2^12 == 4096`.
pub proof fn lemma_exp2_12()
    ensures
        exp2(12) == 4096,
{
    reveal_with_fuel(exp2, 13);
}

/// `2^a <= 2^b` for `a <= b`.
pub proof fn lemma_exp2_mono(a: nat, b: nat)
    requires
        a <= b,
    ensures
        exp2(a) <= exp2(b),
    decreases b,
{
    if a < b {
        lemma_exp2_mono(a, (b - 1) as nat);
    }
}

/// `2 * 2^a <= 2^b` for `a < b`.
pub proof fn lemma_exp2_strict(a: nat, b: nat)
    requires
        a < b,
    ensures
        2 * exp2(a) <= exp2(b),
{
    lemma_exp2_mono(a + 1, b);
}

/// `2^(a + b) == 2^a * 2^b`.
pub proof fn lemma_exp2_add(a: nat, b: nat)
    ensures
        exp2(a + b) == exp2(a) * exp2(b),
    decreases b,
{
    if b == 0 {
        assert(exp2(a) * 1 == exp2(a)) by (nonlinear_arith);
    } else {
        lemma_exp2_add(a, (b - 1) as nat);
        let x = exp2(a);
        let y = exp2((b - 1) as nat);
        assert(2 * (x * y) == x * (2 * y)) by (nonlinear_arith);
    }
}

/// `2^log2(n) <= n < 2^(log2(n) + 1)` for every positive `n`.
pub proof fn lemma_log2_bounds(n: nat)
    requires
        n >= 1,
    ensures
        exp2(log2(n)) <= n < 2 * exp2(log2(n)),
    decreases n,
{
    if n > 1 {
        lemma_log2_bounds(n / 2);
    }
}

/// A number between `2^k` and `2^(k+1)` has logarithm `k`.
pub proof fn lemma_log2_unique(n: nat, k: nat)
    requires
        exp2(k) <= n < 2 * exp2(k),
    ensures
        log2(n) == k,
    decreases k,
{
    if k == 0 {
    } else {
        lemma_exp2_pos((k - 1) as nat);
        lemma_log2_unique(n / 2, (k - 1) as nat);
    }
}

/// `log2(2^k) == k`.
pub proof fn lemma_log2_exp2(k: nat)
    ensures
        log2(exp2(k)) == k,
        is_pow2(exp2(k)),
{
    lemma_exp2_pos(k);
    lemma_log2_unique(exp2(k), k);
}

/// `log2(a) <= log2(b)` for `a <= b`.
pub proof fn lemma_log2_mono(a: nat, b: nat)
    requires
        a <= b,
    ensures
        log2(a) <= log2(b),
    decreases b,
{
    if a > 1 {
        lemma_log2_mono(a / 2, b / 2);
    }
}

/// For positive `x`, `next_pow2(x)` is a power of two with
/// `x <= next_pow2(x) < 2 * x`.
pub proof fn lemma_next_pow2_bounds(x: nat)
    requires
        x >= 1,
    ensures
        is_pow2(next_pow2(x)),
        x <= next_pow2(x) < 2 * x,
{
    if x == 1 {
        assert(log2(1) == 0);
    } else {
        let y = (x - 1) as nat;
        lemma_log2_bounds(y);
        lemma_log2_exp2(log2(y) + 1);
    }
}

/// No power of two lies strictly between `x` and `next_pow2(x)`: the
/// result is the least power of two that is at least `x`.
pub proof fn lemma_next_pow2_least(x: nat, p: nat)
    requires
        is_pow2(p),
        p >= x,
    ensures
        next_pow2(x) <= p,
{
    if x >= 2 {
        let y = (x - 1) as nat;
        lemma_log2_mono(y, p);
        lemma_log2_bounds(y);
        if log2(p) == log2(y) {
            lemma_log2_bounds(p);
            // p == exp2(log2(p)) <= y < x
            assert(false);
        }
        lemma_exp2_mono(log2(y) + 1, log2(p));
    } else if x == 1 {
    }
}

/// A power of two is its own `next_pow2`.
pub proof fn lemma_next_pow2_fixed(p: nat)
    requires
        is_pow2(p),
    ensures
        next_pow2(p) == p,
{
    lemma_next_pow2_least(p, p);
    lemma_next_pow2_bounds(p);
}

/// For positive `x`, `prev_pow2(x)` is a power of two with
/// `prev_pow2(x) <= x < 2 * prev_pow2(x)`.
pub proof fn lemma_prev_pow2_bounds(x: nat)
    requires
        x >= 1,
    ensures
        is_pow2(prev_pow2(x)),
        prev_pow2(x) <= x < 2 * prev_pow2(x),
{
    lemma_log2_bounds(x);
    lemma_log2_exp2(log2(x));
}

/// A smaller power of two divides a larger one.
pub proof fn lemma_exp2_divides(a: nat, b: nat)
    requires
        a <= b,
    ensures
        exp2(b) % exp2(a) == 0,
        exp2(b) == exp2((b - a) as nat) * exp2(a),
{
    lemma_exp2_add((b - a) as nat, a);
    lemma_exp2_pos(a);
    let q = exp2((b - a) as nat);
    let d = exp2(a);
    assert((q * d) % d == 0) by (nonlinear_arith)
        requires
            d > 0,
    ;
}

/// The level of the smallest node that holds `blk_n` pages: the exponent
/// of `next_pow2(blk_n)`, and 0 for no page at all.
pub open spec fn order(blk_n: nat) -> nat {
    log2(next_pow2(blk_n))
}

/// `2^j` pages are enough for `blk_n` exactly from `j == order(blk_n)` on.
pub proof fn lemma_order_fits(blk_n: nat, j: nat)
    ensures
        exp2(j) >= blk_n <==> j >= order(blk_n),
{
    lemma_exp2_pos(j);
    if blk_n >= 1 {
        lemma_next_pow2_bounds(blk_n);
        let k = order(blk_n);
        assert(exp2(k) == next_pow2(blk_n));
        if j >= k {
            lemma_exp2_mono(k, j);
        } else {
            lemma_exp2_strict(j, k);
            lemma_log2_exp2(j);
            if exp2(j) >= blk_n {
                lemma_next_pow2_least(blk_n, exp2(j));
            }
        }
    } else {
        assert(log2(0) == 0);
    }
}

/// Of two powers of two the smaller divides the larger.
pub proof fn lemma_pow2_divides(a: nat, b: nat)
    requires
        is_pow2(a),
        is_pow2(b),
        a <= b,
    ensures
        b % a == 0,
{
    lemma_log2_mono(a, b);
    lemma_exp2_divides(log2(a), log2(b));
}

/// A multiple of `a * c` is a multiple of `a`.
pub proof fn lemma_mod_of_multiple(x: int, a: int, c: int)
    requires
        a > 0,
        c > 0,
        x % (a * c) == 0,
    ensures
        x % a == 0,
{
    let m = a * c;
    assert(m > 0) by (nonlinear_arith)
        requires
            a > 0,
            c > 0,
            m == a * c,
    ;
    let q = x / m;
    assert(x == m * q) by (nonlinear_arith)
        requires
            m > 0,
            x % m == 0,
            q == x / m,
    ;
    let k = c * q;
    assert(x == a * k) by (nonlinear_arith)
        requires
            x == m * q,
            m == a * c,
            k == c * q,
    ;
    assert((a * k) % a == 0) by (nonlinear_arith)
        requires
            a > 0,
    ;
}

/// A power of two above half the address space is beyond it.
pub proof fn lemma_pow2_above_half(a: nat)
    requires
        is_pow2(a),
        a > usize::MAX / 2 + 1,
    ensures
        a > usize::MAX,
{
    lemma_usize_limit();
    let half = (usize::MAX / 2 + 1) as nat;
    if a <= usize::MAX {
        lemma_log2_mono(half, a);
        lemma_log2_bounds(a);
        lemma_log2_bounds(half);
        if log2(a) > log2(half) {
            lemma_exp2_mono(log2(half) + 1, log2(a));
        }
    }
}

/// `usize::MAX + 1` is a power of two.
pub proof fn lemma_usize_limit()
    ensures
        is_pow2((usize::MAX + 1) as nat),
        usize::MAX >= 0xffff_ffff,
        usize::MAX < exp2(64),
        is_pow2((usize::MAX / 2 + 1) as nat),
        2 * (usize::MAX / 2 + 1) == usize::MAX + 1,
{
    reveal_with_fuel(exp2, 33);
    assert(exp2(32) == 0x1_0000_0000);
    lemma_exp2_add(32, 32);
    assert(exp2(64) == 0x1_0000_0000_0000_0000) by (nonlinear_arith)
        requires
            exp2(64) == exp2(32) * exp2(32),
            exp2(32) == 0x1_0000_0000,
    ;
    lemma_log2_exp2(32);
    lemma_log2_exp2(64);
    lemma_log2_exp2(31);
    lemma_log2_exp2(63);
    assert(exp2(32) == 2 * exp2(31));
    assert(exp2(64) == 2 * exp2(63));
}

/// A multiple of a multiple of `a` is a multiple of `a`.
pub proof fn lemma_mod_trans(x: int, a: int, b: int)
    requires
        a > 0,
        b > 0,
        b % a == 0,
        x % b == 0,
    ensures
        x % a == 0,
{
    let c = b / a;
    assert(b == a * c && c > 0) by (nonlinear_arith)
        requires
            a > 0,
            b > 0,
            b % a == 0,
            c == b / a,
    ;
    lemma_mod_of_multiple(x, a, c);
}

/// `4096 * 2^k` is a power of two.
pub proof fn lemma_pages_pow2(k: nat)
    ensures
        is_pow2(4096 * exp2(k)),
{
    lemma_exp2_12();
    lemma_exp2_add(12, k);
    lemma_log2_exp2(12 + k);
}

/// `x` rounded up to a multiple of `a`: the smallest multiple of `a` that is
/// at least `x`.
pub open spec fn aligned_up(x: nat, a: nat) -> nat {
    (((x + a - 1) / (a as int)) * a) as nat
}

/// `aligned_up(x, a)` is the multiple of `a` in `[x, x + a)`.
pub proof fn lemma_aligned_up(x: nat, a: nat)
    requires
        a >= 1,
    ensures
        x <= aligned_up(x, a) < x + a,
        aligned_up(x, a) % a == 0,
{
    let y = (x + a - 1) as int;
    let d = a as int;
    let q = y / d;
    assert(q * d <= y < q * d + d && q >= 0) by (nonlinear_arith)
        requires
            q == y / d,
            d > 0,
            y >= 0,
    ;
    assert((q * d) % d == 0) by (nonlinear_arith)
        requires
            d > 0,
    ;
}

} // verus!
