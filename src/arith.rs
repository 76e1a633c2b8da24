//! Real-number facts behind the exact comparison of sums of square roots.
use vstd::prelude::*;

verus! {

/// `rt` returns a square root of every natural number: it is the Euclidean
/// length of a vector whose squared length is its argument.
pub open spec fn is_root_fn(rt: spec_fn(int) -> real) -> bool {
    forall|d: int| d >= 0 ==> #[trigger] rt(d) >= 0real && rt(d) * rt(d) == d as real
}

proof fn lemma_cast_mul_nat(x: int, y: nat)
    ensures
        (x * y) as real == (x as real) * (y as real),
    decreases y,
{
    if y > 0 {
        let z = (y - 1) as nat;
        lemma_cast_mul_nat(x, z);
        assert(x * y == x * z + x) by (nonlinear_arith)
            requires y == z + 1;
        let xr = x as real;
        let zr = z as real;
        assert(y as real == zr + 1real);
        assert(xr * (zr + 1real) == xr * zr + xr) by (nonlinear_arith);
        assert((x * z + x) as real == (x * z) as real + xr);
    } else {
        assert(x * y == 0);
        assert((x as real) * 0real == 0real) by (nonlinear_arith);
    }
}

/// Casting to `real` commutes with products.
pub proof fn lemma_cast_mul(x: int, y: int)
    ensures
        (x * y) as real == (x as real) * (y as real),
{
    if y >= 0 {
        lemma_cast_mul_nat(x, y as nat);
    } else {
        lemma_cast_mul_nat(-x, (-y) as nat);
        assert(x * y == (-x) * (-y)) by (nonlinear_arith);
        let xr = x as real;
        let yr = y as real;
        assert((-x) as real == -xr);
        assert((-y) as real == -yr);
        assert((-xr) * (-yr) == xr * yr) by (nonlinear_arith);
    }
}

/// Exact integer test for `sqrt(p) - sqrt(q) < e`, with `p` and `q` not negative.
pub open spec fn diff_lt(p: int, q: int, e: int) -> bool {
    let f = p - q - e * e;
    let h = q - p - e * e;
    if e >= 0 {
        f < 0 || f * f < 4 * e * e * q
    } else {
        h > 0 && h * h > 4 * e * e * p
    }
}

/// Squaring keeps the order of non-negative reals.
pub proof fn lemma_sq_lt(u: real, v: real)
    requires
        u >= 0real,
        v >= 0real,
    ensures
        (u < v) == (u * u < v * v),
{
    assert((u < v) == (u * u < v * v)) by (nonlinear_arith)
        requires u >= 0real, v >= 0real;
}

/// `diff_lt` decides `sqrt(p) - sqrt(q) < e` for any roots `r1`, `r2` of `p`, `q`.
pub proof fn lemma_diff_lt(r1: real, r2: real, p: int, q: int, e: int)
    requires
        r1 >= 0real,
        r2 >= 0real,
        r1 * r1 == p as real,
        r2 * r2 == q as real,
    ensures
        (r1 - r2 < e as real) == diff_lt(p, q, e),
{
    let f = p - q - e * e;
    let er = e as real;
    let fr = f as real;
    let pr = p as real;
    let qr = q as real;
    lemma_cast_mul(e, e);
    lemma_cast_mul(f, f);
    let h = q - p - e * e;
    let hr = h as real;
    lemma_cast_mul(h, h);
    lemma_cast_mul(4 * e, e);
    lemma_cast_mul(4 * e * e, q);
    lemma_cast_mul(4 * e * e, p);
    lemma_cast_mul(4, e);
    assert(fr == pr - qr - er * er);
    assert(((4 * e * e * q) as real) == 4real * er * er * qr) by (nonlinear_arith)
        requires
            ((4 * e * e * q) as real) == ((4 * e * e) as real) * qr,
            ((4 * e * e) as real) == ((4 * e) as real) * er,
            ((4 * e) as real) == 4real * er;
    assert(((4 * e * e * p) as real) == 4real * er * er * pr) by (nonlinear_arith)
        requires
            ((4 * e * e * p) as real) == ((4 * e * e) as real) * pr,
            ((4 * e * e) as real) == ((4 * e) as real) * er,
            ((4 * e) as real) == 4real * er;
    if e >= 0 {
        let w = er + r2;
        lemma_sq_lt(r1, w);
        assert(w * w == er * er + qr + 2real * er * r2) by (nonlinear_arith)
            requires r2 * r2 == qr, w == er + r2;
        let t = 2real * er * r2;
        assert(t >= 0real) by (nonlinear_arith)
            requires er >= 0real, r2 >= 0real, t == 2real * er * r2;
        assert((r1 - r2 < er) == (fr < t));
        if f >= 0 {
            lemma_sq_lt(fr, t);
            assert(t * t == 4real * er * er * qr) by (nonlinear_arith)
                requires r2 * r2 == qr, t == 2real * er * r2;
            assert((fr < t) == (f * f < 4 * e * e * q));
        }
    } else {
        let g = -er;
        let w = g + r1;
        lemma_sq_lt(w, r2);
        assert(w * w == g * g + pr + 2real * g * r1) by (nonlinear_arith)
            requires r1 * r1 == pr, w == g + r1;
        assert(g * g == er * er) by (nonlinear_arith)
            requires g == -er;
        let t = 2real * g * r1;
        assert(t >= 0real) by (nonlinear_arith)
            requires g >= 0real, r1 >= 0real, t == 2real * g * r1;
        assert(g >= 0real);
        assert((r1 - r2 < er) == (w < r2));
        assert((w < r2) == (w * w < qr));
        assert(hr == qr - pr - er * er);
        assert((w * w < qr) == (t < hr));
        assert((r1 - r2 < er) == (t < hr));
        if h > 0 {
            lemma_sq_lt(t, hr);
            assert(t * t == 4real * er * er * pr) by (nonlinear_arith)
                requires r1 * r1 == pr, t == 2real * g * r1, g == -er;
            assert((t < hr) == (h * h > 4 * e * e * p));
        }
    }
}


/// Square roots grow with their argument.
pub proof fn lemma_root_mono(rt: spec_fn(int) -> real, a: int, b: int)
    requires
        is_root_fn(rt),
        0 <= a <= b,
    ensures
        rt(a) <= rt(b),
{
    let ra = rt(a);
    let rb = rt(b);
    assert(ra >= 0real && ra * ra == a as real);
    assert(rb >= 0real && rb * rb == b as real);
    lemma_sq_lt(rb, ra);
}

/// The root of `v * v` is `|v|`.
pub proof fn lemma_root_of_square(rt: spec_fn(int) -> real, v: int)
    requires
        is_root_fn(rt),
    ensures
        rt(v * v) == (if v >= 0 { v as real } else { -(v as real) }),
{
    let a = if v >= 0 { v } else { -v };
    assert(v * v == a * a) by (nonlinear_arith) requires a == v || a == -v;
    assert(v * v >= 0) by (nonlinear_arith);
    let r = rt(v * v);
    assert(r >= 0real && r * r == (v * v) as real);
    lemma_cast_mul(a, a);
    let ar = a as real;
    lemma_sq_lt(r, ar);
    lemma_sq_lt(ar, r);
}

} // verus!
