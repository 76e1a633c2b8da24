//! Exact products of two 128-bit integers, as 256-bit pairs `(high, low)`.
use vstd::prelude::*;

verus! {

/// `2^64`.
pub const HALF: u128 = 0x1_0000_0000_0000_0000;

/// The value of the pair `(high, low)`: `high * 2^128 + low`.
pub open spec fn wide_value(w: (u128, u128)) -> int {
    w.0 as int * 0x1_0000_0000_0000_0000_0000_0000_0000_0000int + w.1 as int
}

proof fn lemma_split(x: int)
    requires
        0 <= x,
    ensures
        x == (x / 0x1_0000_0000_0000_0000int) * 0x1_0000_0000_0000_0000int + x % 0x1_0000_0000_0000_0000int,
        0 <= x % 0x1_0000_0000_0000_0000int < 0x1_0000_0000_0000_0000int,
{
}

/// The exact product `x * y`.
pub fn mul_wide(x: u128, y: u128) -> (r: (u128, u128))
    ensures
        wide_value(r) == x as int * y as int,
{
    let x0 = x % HALF;
    let x1 = x / HALF;
    let y0 = y % HALF;
    let y1 = y / HALF;
    proof {
        lemma_split(x as int);
        lemma_split(y as int);
        assert(x0 * y0 < HALF * HALF) by (nonlinear_arith)
            requires x0 < HALF, y0 < HALF;
        assert(x0 * y1 < HALF * HALF) by (nonlinear_arith)
            requires x0 < HALF, y1 < HALF, y1 == y / HALF, y < HALF * HALF;
        assert(x1 * y0 < HALF * HALF) by (nonlinear_arith)
            requires x1 < HALF, y0 < HALF, x1 == x / HALF, x < HALF * HALF;
        assert(x1 * y1 < HALF * HALF) by (nonlinear_arith)
            requires x1 < HALF, y1 < HALF;
    }
    let ll = x0 * y0;
    let lh = x0 * y1;
    let hl = x1 * y0;
    let hh = x1 * y1;
    let m = ll / HALF + lh % HALF + hl % HALF;
    let lo_part = ll % HALF + (m % HALF) * HALF;
    proof {
        lemma_split(ll as int);
        lemma_split(lh as int);
        lemma_split(hl as int);
        lemma_split(m as int);
        let b = HALF as int;
        let (xi, yi, x0i, x1i, y0i, y1i) = (x as int, y as int, x0 as int, x1 as int, y0 as int, y1 as int);
        let (lli, lhi, hli, hhi, mi, lo) = (ll as int, lh as int, hl as int, hh as int, m as int, lo_part as int);
        assert(xi * yi == (x1i * b) * yi + x0i * yi) by (nonlinear_arith)
            requires xi == x1i * b + x0i;
        assert((x1i * b) * yi == (x1i * b) * (y1i * b) + (x1i * b) * y0i) by (nonlinear_arith)
            requires yi == y1i * b + y0i;
        assert(x0i * yi == x0i * (y1i * b) + x0i * y0i) by (nonlinear_arith)
            requires yi == y1i * b + y0i;
        assert((x1i * b) * (y1i * b) == (x1i * y1i) * (b * b)) by (nonlinear_arith);
        assert((x1i * b) * y0i == (x1i * y0i) * b) by (nonlinear_arith);
        assert(x0i * (y1i * b) == (x0i * y1i) * b) by (nonlinear_arith);
        assert((lhi + hli) * b == lhi * b + hli * b) by (nonlinear_arith);
        assert(xi * yi == hhi * (b * b) + (lhi + hli) * b + lli);
        let top = hhi + lhi / b + hli / b + mi / b;
        let (lh1, lh0, hl1, hl0, ll1, ll0, m1, m0) = (lhi / b, lhi % b, hli / b, hli % b, lli / b, lli % b, mi / b, mi % b);
        assert((lhi + hli) * b == (lh1 + hl1) * (b * b) + (lh0 + hl0) * b) by (nonlinear_arith)
            requires lhi == lh1 * b + lh0, hli == hl1 * b + hl0;
        assert(mi * b == m1 * (b * b) + m0 * b) by (nonlinear_arith)
            requires mi == m1 * b + m0;
        assert((lh0 + hl0) * b + lli == mi * b + ll0) by (nonlinear_arith)
            requires mi == ll1 + lh0 + hl0, lli == ll1 * b + ll0;
        assert(hhi * (b * b) + (lh1 + hl1) * (b * b) + m1 * (b * b) == top * (b * b)) by (nonlinear_arith)
            requires top == hhi + lh1 + hl1 + m1;
        assert(xi * yi == top * (b * b) + lo);
        assert(xi * yi < (b * b) * (b * b)) by (nonlinear_arith)
            requires 0 <= xi < b * b, 0 <= yi < b * b;
        assert(top < b * b) by (nonlinear_arith)
            requires
                xi * yi == top * (b * b) + lo,
                0 <= lo,
                xi * yi < (b * b) * (b * b),
                b > 0;
    }
    let hi_part = hh + lh / HALF + hl / HALF + m / HALF;
    (hi_part, lo_part)
}

/// Whether the pair `a` is below the pair `b`.
pub fn wide_lt(a: (u128, u128), b: (u128, u128)) -> (r: bool)
    ensures
        r == (wide_value(a) < wide_value(b)),
{
    a.0 < b.0 || (a.0 == b.0 && a.1 < b.1)
}

} // verus!
