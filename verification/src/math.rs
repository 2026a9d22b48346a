use vstd::prelude::*;
use vstd::assert_by_contradiction;
use vstd::arithmetic::div_mod::{
    lemma_div_of0, lemma_fundamental_div_mod, lemma_fundamental_div_mod_converse, lemma_mod_bound,
};

verus! {

/// Fee charged on a gross swap input, in thousandths: `floor(input * fee / 1000)`.
pub open spec fn spec_fee_amount(input: int, fee: int) -> int {
    input * fee / 1000
}

/// What remains of a gross swap input once the fee is deducted; only this
/// part is priced, though the full input enters the pool.
pub open spec fn spec_taxed_input(input: int, fee: int) -> int {
    input - spec_fee_amount(input, fee)
}

/// The constant-product quote: the output owed for `taxed` units entering a
/// pool whose input-side reserve is `reserve_in` and output-side reserve is
/// `reserve_out`, truncated toward zero.
pub open spec fn spec_swap_output(taxed: int, reserve_in: int, reserve_out: int) -> int
    recommends
        reserve_in + taxed > 0,
{
    taxed * reserve_out / (reserve_in + taxed)
}

/// The fee never exceeds the input, so the taxed input is a value between
/// zero and the input, and is positive whenever the input is.
pub proof fn lemma_taxed_input_bounds(input: int, fee: int)
    requires
        0 <= input,
        0 <= fee < 1000,
    ensures
        0 <= spec_fee_amount(input, fee),
        0 <= spec_taxed_input(input, fee) <= input,
        input > 0 ==> spec_taxed_input(input, fee) > 0,
{
    assert(0 <= input * fee <= 999 * input) by (nonlinear_arith)
        requires
            0 <= input,
            0 <= fee <= 999,
    ;
}

/// A completed swap never decreases the product of the two reserves: the full
/// input enters the pool while the quoted output, priced from the taxed input
/// alone and floor-rounded, leaves it.
pub proof fn lemma_swap_preserves_product(
    reserve_in: int,
    reserve_out: int,
    input: int,
    taxed: int,
)
    requires
        0 <= reserve_in,
        0 <= reserve_out,
        0 <= taxed <= input,
        reserve_in + taxed > 0,
    ensures
        0 <= spec_swap_output(taxed, reserve_in, reserve_out) <= reserve_out,
        (reserve_in + input) * (reserve_out - spec_swap_output(taxed, reserve_in, reserve_out))
            >= reserve_in * reserve_out,
{
    let d = reserve_in + taxed;
    let q = spec_swap_output(taxed, reserve_in, reserve_out);
    let rem = (taxed * reserve_out) % d;
    lemma_fundamental_div_mod(taxed * reserve_out, d);
    lemma_mod_bound(taxed * reserve_out, d);
    assert(0 <= q && q <= reserve_out) by (nonlinear_arith)
        requires
            d > 0,
            taxed * reserve_out == d * q + rem,
            0 <= rem < d,
            0 <= taxed <= d,
            0 <= reserve_out,
    ;
    assert((reserve_in + input) * (reserve_out - q) >= reserve_in * reserve_out)
        by (nonlinear_arith)
        requires
            d == reserve_in + taxed,
            d > 0,
            taxed * reserve_out == d * q + rem,
            0 <= rem,
            0 <= taxed <= input,
            0 <= reserve_in,
            0 <= q <= reserve_out,
    ;
}

/// Swapping one way and then swapping the entire proceeds back never returns
/// more than the original input: each leg floor-rounds and charges its fee, so
/// a round trip strictly loses value and the pool admits no self-arbitrage.
/// Here `x` is the first input, `t1` its taxed part, `y` the first output,
/// `t2` the taxed part of the second input `y`, and `z` the second output.
pub proof fn lemma_round_trip_output_bounded(
    a: int,
    b: int,
    x: int,
    t1: int,
    y: int,
    t2: int,
    z: int,
)
    requires
        0 <= a,
        0 <= b,
        0 <= t1 <= x,
        a + t1 > 0,
        y == spec_swap_output(t1, a, b),
        0 <= t2 <= y,
        (b - y) + t2 > 0,
        z == spec_swap_output(t2, b - y, a + x),
    ensures
        z <= x,
{
    let d1 = a + t1;
    let rem1 = (t1 * b) % d1;
    lemma_fundamental_div_mod(t1 * b, d1);
    lemma_mod_bound(t1 * b, d1);
    assert(0 <= y && y <= b) by (nonlinear_arith)
        requires
            d1 > 0,
            t1 * b == d1 * y + rem1,
            0 <= rem1 < d1,
            0 <= t1 <= d1,
            0 <= b,
    ;
    assert(d1 * y <= t1 * b);
    let d2 = (b - y) + t2;
    if t2 == 0 {
        assert(t2 * (a + x) == 0) by (nonlinear_arith)
            requires
                t2 == 0,
        ;
        lemma_div_of0(d2);
        assert(z == 0);
    } else {
        let rem2 = (t2 * (a + x)) % d2;
        lemma_fundamental_div_mod(t2 * (a + x), d2);
        lemma_mod_bound(t2 * (a + x), d2);
        assert(d2 * z <= t2 * (a + x));
        // The pool cannot owe a negative amount back.
        assert(0 <= z) by (nonlinear_arith)
            requires
                d2 > 0,
                t2 * (a + x) == d2 * z + rem2,
                0 <= rem2 < d2,
                0 <= t2,
                0 <= a,
                0 <= x,
        ;
        assert_by_contradiction!(z <= x, {
            // From the second quote: (x + 1) * (b - y) <= t2 * (a - 1).
            assert((x + 1) * (b - y) <= t2 * (a - 1)) by (nonlinear_arith)
                requires
                    d2 == (b - y) + t2,
                    d2 * z <= t2 * (a + x),
                    z >= x + 1,
                    d2 > 0,
            ;
            // From the first quote: the output side retained at least its share.
            assert((b - y) * d1 >= a * b) by (nonlinear_arith)
                requires
                    d1 == a + t1,
                    d1 * y <= t1 * b,
                    0 <= b,
            ;
            // The proceeds are themselves bounded by the first quote.
            assert(t2 * d1 <= x * b) by (nonlinear_arith)
                requires
                    d1 > 0,
                    0 <= t2 <= y,
                    d1 * y <= t1 * b,
                    t1 <= x,
                    0 <= b,
            ;
            assert(b >= 1);
            if a == 0 {
                assert((x + 1) * (b - y) >= 0) by (nonlinear_arith)
                    requires
                        x >= 0,
                        y <= b,
                ;
                assert(t2 * (0 - 1) < 0) by (nonlinear_arith)
                    requires
                        t2 >= 1,
                ;
                assert(false);
            } else {
                assert(false) by (nonlinear_arith)
                    requires
                        a >= 1,
                        b >= 1,
                        x >= 0,
                        t2 >= 1,
                        d1 >= 1,
                        y <= b,
                        (x + 1) * (b - y) <= t2 * (a - 1),
                        (b - y) * d1 >= a * b,
                        t2 * d1 <= x * b,
                ;
            }
        });
    }
}

/// With a zero fee nothing is deducted: the quote is exactly
/// `floor(input * reserve_out / (reserve_in + input))`.
pub proof fn lemma_zero_fee_exact(input: int, reserve_in: int, reserve_out: int)
    requires
        0 <= input,
    ensures
        spec_taxed_input(input, 0) == input,
        spec_swap_output(spec_taxed_input(input, 0), reserve_in, reserve_out) == input
            * reserve_out / (reserve_in + input),
{
    assert(input * 0 == 0);
    assert(0int / 1000 == 0);
}

/// Floor division stays below any bound the dividend stays below:
/// if `x < k * d` then `x / d < k`.
pub proof fn lemma_div_below(x: int, d: int, k: int)
    requires
        d > 0,
        0 <= x,
        x < k * d,
    ensures
        x / d < k,
{
    let q = x / d;
    let r = x % d;
    lemma_fundamental_div_mod(x, d);
    lemma_mod_bound(x, d);
    assert(q < k) by (nonlinear_arith)
        requires
            d > 0,
            x == d * q + r,
            0 <= r < d,
            0 <= x,
            x < k * d,
    ;
}

/// Multiplying a floor quotient back by the divisor never exceeds the
/// dividend.
pub proof fn lemma_div_mul_le(x: int, d: int)
    requires
        d > 0,
    ensures
        (x / d) * d <= x,
{
    let q = x / d;
    let r = x % d;
    lemma_fundamental_div_mod(x, d);
    lemma_mod_bound(x, d);
    assert(q * d <= x) by (nonlinear_arith)
        requires
            x == d * q + r,
            0 <= r,
    ;
}

/// A division that leaves no remainder is exact: if `x == q * d` then
/// `x / d == q`.
pub proof fn lemma_div_exact(x: int, d: int, q: int)
    requires
        d > 0,
        x == q * d,
    ensures
        x / d == q,
{
    lemma_fundamental_div_mod_converse(x, d, q, 0);
}

/// `r` is the integer square root of `n`: the largest integer whose square
/// does not exceed `n`.
pub open spec fn is_isqrt(r: int, n: int) -> bool {
    &&& 0 <= r
    &&& r * r <= n
    &&& n < (r + 1) * (r + 1)
}

/// The integer square root of `n`, as a value; `isqrt` computes it.
pub open spec fn spec_isqrt(n: int) -> int {
    choose|r: int| is_isqrt(r, n)
}

/// At most one integer is the square root of `n`.
pub proof fn lemma_isqrt_unique(r1: int, r2: int, n: int)
    requires
        is_isqrt(r1, n),
        is_isqrt(r2, n),
    ensures
        r1 == r2,
{
    assert(r1 == r2) by (nonlinear_arith)
        requires
            0 <= r1,
            0 <= r2,
            r1 * r1 <= n,
            n < (r1 + 1) * (r1 + 1),
            r2 * r2 <= n,
            n < (r2 + 1) * (r2 + 1),
    ;
}

/// Computes `floor(a * b / d)` exactly, in 128-bit intermediate precision, so
/// the product of two reserve-sized values can never overflow.
pub fn mul_div(a: u64, b: u64, d: u64) -> (r: u128)
    requires
        d > 0,
    ensures
        r == (a as int) * (b as int) / (d as int),
{
    proof {
        assert((a as int) * (b as int) <= 0xffff_ffff_ffff_ffff * 0xffff_ffff_ffff_ffff)
            by (nonlinear_arith)
            requires
                0 <= a as int <= 0xffff_ffff_ffff_ffff,
                0 <= b as int <= 0xffff_ffff_ffff_ffff,
        ;
    }
    let p: u128 = (a as u128) * (b as u128);
    p / (d as u128)
}

/// Deducts the fee from a gross swap input: `input - floor(input * fee / 1000)`.
pub fn taxed_input(input: u64, fee: u16) -> (r: u64)
    requires
        fee < 1000,
    ensures
        r == spec_taxed_input(input as int, fee as int),
        r <= input,
        input > 0 ==> r > 0,
{
    proof {
        lemma_taxed_input_bounds(input as int, fee as int);
        assert((input as int) * (fee as int) <= 0xffff_ffff_ffff_ffff * 999) by (nonlinear_arith)
            requires
                0 <= input as int <= 0xffff_ffff_ffff_ffff,
                0 <= fee as int <= 999,
        ;
    }
    let fee_amount: u128 = (input as u128) * (fee as u128) / 1000;
    input - (fee_amount as u64)
}

/// The constant-product quote in 128-bit intermediate precision. The result
/// never exceeds the output-side reserve, so it fits the reserve's width.
pub fn swap_output(taxed: u64, reserve_in: u64, reserve_out: u64) -> (r: u64)
    requires
        taxed + reserve_in > 0,
    ensures
        r == spec_swap_output(taxed as int, reserve_in as int, reserve_out as int),
        r <= reserve_out,
{
    proof {
        lemma_swap_preserves_product(
            reserve_in as int,
            reserve_out as int,
            taxed as int,
            taxed as int,
        );
        assert((taxed as int) * (reserve_out as int) <= 0xffff_ffff_ffff_ffff
            * 0xffff_ffff_ffff_ffff) by (nonlinear_arith)
            requires
                0 <= taxed as int <= 0xffff_ffff_ffff_ffff,
                0 <= reserve_out as int <= 0xffff_ffff_ffff_ffff,
        ;
    }
    let q: u128 = (taxed as u128) * (reserve_out as u128) / ((reserve_in as u128) + (taxed as u128));
    q as u64
}

/// The integer square root, found by binary search; the argument is at most
/// a product of two reserve-sized values, so the root fits in a reserve.
pub fn isqrt(n: u128) -> (r: u64)
    ensures
        is_isqrt(r as int, n as int),
        r as int == spec_isqrt(n as int),
{
    let mut lo: u128 = 0;
    let mut hi: u128 = 0x1_0000_0000_0000_0000;
    proof {
        assert((hi as int) * (hi as int) > n as int) by (nonlinear_arith)
            requires
                hi as int == 0x1_0000_0000_0000_0000,
                n as int <= 0xffff_ffff_ffff_ffff_ffff_ffff_ffff_ffff,
        ;
    }
    while lo + 1 < hi
        invariant
            0 <= lo < hi <= 0x1_0000_0000_0000_0000,
            (lo as int) * (lo as int) <= n as int,
            (n as int) < (hi as int) * (hi as int),
        decreases hi - lo,
    {
        let mid: u128 = lo + (hi - lo) / 2;
        proof {
            assert(lo < mid < hi);
            assert((mid as int) * (mid as int) <= 0xffff_ffff_ffff_ffff * 0xffff_ffff_ffff_ffff)
                by (nonlinear_arith)
                requires
                    0 <= mid as int <= 0xffff_ffff_ffff_ffff,
            ;
        }
        if mid * mid <= n {
            lo = mid;
        } else {
            hi = mid;
        }
    }
    proof {
        assert(is_isqrt(lo as int, n as int));
        assert(exists|r: int| is_isqrt(r, n as int));
        lemma_isqrt_unique(lo as int, spec_isqrt(n as int), n as int);
    }
    lo as u64
}

} // verus!
