//! Points of the integer plane, squared lengths, and the exact order on star costs.
use vstd::prelude::*;
use core::cmp::Ordering;
use crate::wide::{mul_wide, wide_lt};
use crate::arith::{is_root_fn, diff_lt, lemma_cast_mul, lemma_sq_lt, lemma_diff_lt, lemma_root_mono, lemma_root_of_square};

verus! {

/// Largest absolute value that a coordinate may take.
pub const COORD_LIMIT: i64 = 536870912;

/// Largest squared distance between two points whose coordinates stay within
/// `COORD_LIMIT`: `2 * (2 * COORD_LIMIT)^2`, which is `2^61`.
pub const SQ_LIMIT: u64 = 2305843009213693952;

/// A point of the plane with integer coordinates.
#[derive(Clone, Copy, Debug, PartialEq, Eq, Structural)]
pub struct Punto {
    pub x: i64,
    pub y: i64,
}

/// Squared Euclidean distance between two points.
pub open spec fn sq_dist(a: Punto, b: Punto) -> int {
    (a.x - b.x) * (a.x - b.x) + (a.y - b.y) * (a.y - b.y)
}

/// The cost of a star: the sum of the Euclidean lengths of its two edges, each
/// held exactly as its squared length.
#[derive(Clone, Copy, Debug, PartialEq, Eq, Structural)]
pub struct Cost {
    pub first: u64,
    pub second: u64,
}

/// Squared distances of points within the limit fit `SQ_LIMIT`, are symmetric, and
/// bound the square of each coordinate gap.
pub proof fn lemma_sq_dist_bounds(a: Punto, b: Punto)
    requires
        a.in_range(),
        b.in_range(),
    ensures
        0 <= sq_dist(a, b) <= SQ_LIMIT,
        sq_dist(a, b) == sq_dist(b, a),
        (a.x - b.x) * (a.x - b.x) <= sq_dist(a, b),
        (a.y - b.y) * (a.y - b.y) <= sq_dist(a, b),
{
    let dx = a.x - b.x;
    let dy = a.y - b.y;
    assert(0 <= dx * dx <= 1152921504606846976) by (nonlinear_arith)
        requires -1073741824 <= dx <= 1073741824;
    assert(0 <= dy * dy <= 1152921504606846976) by (nonlinear_arith)
        requires -1073741824 <= dy <= 1073741824;
    assert(dx * dx == (b.x - a.x) * (b.x - a.x)) by (nonlinear_arith)
        requires dx == a.x - b.x;
    assert(dy * dy == (b.y - a.y) * (b.y - a.y)) by (nonlinear_arith)
        requires dy == a.y - b.y;
}

impl Punto {
    /// Both coordinates lie within `COORD_LIMIT`.
    pub open spec fn in_range(self) -> bool {
        -COORD_LIMIT <= self.x <= COORD_LIMIT && -COORD_LIMIT <= self.y <= COORD_LIMIT
    }

    /// Squared Euclidean distance to `a`, the exact form of the distance.
    pub fn distancia(&self, a: &Punto) -> (r: u64)
        requires
            self.in_range(),
            a.in_range(),
        ensures
            r == sq_dist(*self, *a),
            r <= SQ_LIMIT,
    {
        proof {
            lemma_sq_dist_bounds(*self, *a);
        }
        let dx = a.x - self.x;
        let dy = a.y - self.y;
        proof {
            assert(dx * dx == (self.x - a.x) * (self.x - a.x)) by (nonlinear_arith)
                requires dx == a.x - self.x;
            assert(dy * dy == (self.y - a.y) * (self.y - a.y)) by (nonlinear_arith)
                requires dy == a.y - self.y;
        }
        (dx * dx + dy * dy) as u64
    }

    /// Cost of the star centred on `self` with edges to `a` and `b`.
    pub fn distancia3(&self, a: &Punto, b: &Punto) -> (r: Cost)
        requires
            self.in_range(),
            a.in_range(),
            b.in_range(),
        ensures
            r.first == sq_dist(*self, *a),
            r.second == sq_dist(*self, *b),
            r.bounded(),
    {
        Cost { first: self.distancia(a), second: self.distancia(b) }
    }

    /// Identity of points: both coordinates agree.
    pub fn total_cmp(&self, other: &Punto) -> (r: bool)
        ensures
            r == (self.x == other.x && self.y == other.y),
    {
        self.x == other.x && self.y == other.y
    }

    /// Order of two points by their x coordinate alone.
    pub fn x_compare(&self, other: &Punto) -> (r: Ordering)
        ensures
            r == Ordering::Less <==> self.x < other.x,
            r == Ordering::Equal <==> self.x == other.x,
            r == Ordering::Greater <==> self.x > other.x,
    {
        self.x_compare_to(other.x)
    }

    /// Order of the point's x coordinate against the abscissa `x`.
    pub fn x_compare_to(&self, x: i64) -> (r: Ordering)
        ensures
            r == Ordering::Less <==> self.x < x,
            r == Ordering::Equal <==> self.x == x,
            r == Ordering::Greater <==> self.x > x,
    {
        if self.x < x {
            Ordering::Less
        } else if self.x == x {
            Ordering::Equal
        } else {
            Ordering::Greater
        }
    }

    /// Whether two points share their x coordinate.
    pub fn x_eq(&self, other: &Punto) -> (r: bool)
        ensures
            r == (self.x == other.x),
    {
        self.x == other.x
    }
}

impl Cost {
    /// Both squared lengths are those of points within `COORD_LIMIT`.
    pub open spec fn bounded(self) -> bool {
        self.first <= SQ_LIMIT && self.second <= SQ_LIMIT
    }

    /// The cost as a real number, for a square-root function `rt`.
    pub open spec fn value(self, rt: spec_fn(int) -> real) -> real {
        rt(self.first as int) + rt(self.second as int)
    }

    /// Exact integer test for `self < o`: with `u = sqrt(a) + sqrt(b)`, `u * u` is
    /// `a + b + sqrt(4ab)`, which reduces the test to one difference of roots.
    pub open spec fn lt_spec(self, o: Cost) -> bool {
        let a = self.first as int;
        let b = self.second as int;
        let c = o.first as int;
        let d = o.second as int;
        diff_lt(4 * a * b, 4 * c * d, (c + d) - (a + b))
    }

    /// The cost of a single edge of squared length `sq`.
    pub open spec fn edge(sq: int) -> Cost {
        Cost { first: sq as u64, second: 0 }
    }

    /// Whether `self` is strictly cheaper than `o`, decided exactly.
    pub fn lt(&self, o: &Cost) -> (r: bool)
        requires
            self.bounded(),
            o.bounded(),
        ensures
            r == self.lt_spec(*o),
    {
        let a = self.first as i128;
        let b = self.second as i128;
        let c = o.first as i128;
        let d = o.second as i128;
        proof {
            assert(0 <= a * b <= 0x400_0000_0000_0000_0000_0000_0000_0000) by (nonlinear_arith)
                requires 0 <= a <= 2305843009213693952, 0 <= b <= 2305843009213693952;
            assert(0 <= c * d <= 0x400_0000_0000_0000_0000_0000_0000_0000) by (nonlinear_arith)
                requires 0 <= c <= 2305843009213693952, 0 <= d <= 2305843009213693952;
        }
        let p = 4 * (a * b);
        let q = 4 * (c * d);
        let e = (c + d) - (a + b);
        proof {
            assert(0 <= e * e <= 0x1000_0000_0000_0000_0000_0000_0000_0000) by (nonlinear_arith)
                requires -4611686018427387904 <= e <= 4611686018427387904;
            assert(4 * a * b == 4 * (a * b)) by (nonlinear_arith);
            assert(4 * c * d == 4 * (c * d)) by (nonlinear_arith);
        }
        let ee = e * e;
        let f = p - q - ee;
        let h = q - p - ee;
        let g = 4 * ee;
        proof {
            assert(4 * e * e * q == g * q) by (nonlinear_arith)
                requires ee == e * e, g == 4 * ee;
            assert(4 * e * e * p == g * p) by (nonlinear_arith)
                requires ee == e * e, g == 4 * ee;
        }
        if e >= 0 {
            f < 0 || wide_lt(mul_wide(f as u128, f as u128), mul_wide(g as u128, q as u128))
        } else {
            h > 0 && wide_lt(mul_wide(g as u128, p as u128), mul_wide(h as u128, h as u128))
        }
    }
}

/// `c1` is at most `c2` for every square-root function.
#[verifier::opaque]
pub open spec fn cost_le(c1: Cost, c2: Cost) -> bool {
    forall|rt: spec_fn(int) -> real| #[trigger] is_root_fn(rt) ==> c1.value(rt) <= c2.value(rt)
}

/// `c1` is strictly below `c2` for every square-root function.
#[verifier::opaque]
pub open spec fn cost_lt(c1: Cost, c2: Cost) -> bool {
    forall|rt: spec_fn(int) -> real| #[trigger] is_root_fn(rt) ==> c1.value(rt) < c2.value(rt)
}

/// The exact test means what it says: `lt_spec` is the order of the real costs.
pub proof fn lemma_lt_spec_meaning(c1: Cost, c2: Cost, rt: spec_fn(int) -> real)
    requires
        is_root_fn(rt),
    ensures
        c1.lt_spec(c2) == (c1.value(rt) < c2.value(rt)),
{
    let a = c1.first as int;
    let b = c1.second as int;
    let c = c2.first as int;
    let d = c2.second as int;
    let (ra, rb, rc, rd) = (rt(a), rt(b), rt(c), rt(d));
    assert(ra >= 0real && ra * ra == a as real);
    assert(rb >= 0real && rb * rb == b as real);
    assert(rc >= 0real && rc * rc == c as real);
    assert(rd >= 0real && rd * rd == d as real);
    let u1 = ra + rb;
    let u2 = rc + rd;
    let r1 = 2real * ra * rb;
    let r2 = 2real * rc * rd;
    assert(u1 * u1 == a as real + b as real + r1) by (nonlinear_arith)
        requires ra * ra == a as real, rb * rb == b as real, u1 == ra + rb, r1 == 2real * ra * rb;
    assert(u2 * u2 == c as real + d as real + r2) by (nonlinear_arith)
        requires rc * rc == c as real, rd * rd == d as real, u2 == rc + rd, r2 == 2real * rc * rd;
    assert(r1 >= 0real && r1 * r1 == 4real * (a as real) * (b as real)) by (nonlinear_arith)
        requires ra * ra == a as real, rb * rb == b as real, ra >= 0real, rb >= 0real, r1 == 2real * ra * rb;
    assert(r2 >= 0real && r2 * r2 == 4real * (c as real) * (d as real)) by (nonlinear_arith)
        requires rc * rc == c as real, rd * rd == d as real, rc >= 0real, rd >= 0real, r2 == 2real * rc * rd;
    lemma_cast_mul(4 * a, b);
    lemma_cast_mul(4, a);
    lemma_cast_mul(4 * c, d);
    lemma_cast_mul(4, c);
    assert(((4 * a * b) as real) == 4real * (a as real) * (b as real));
    assert(((4 * c * d) as real) == 4real * (c as real) * (d as real));
    lemma_sq_lt(u1, u2);
    lemma_diff_lt(r1, r2, 4 * a * b, 4 * c * d, (c + d) - (a + b));
}

pub proof fn lemma_lt_spec_sound(c1: Cost, c2: Cost)
    ensures
        c1.lt_spec(c2) ==> cost_lt(c1, c2),
        !c1.lt_spec(c2) ==> cost_le(c2, c1),
{
    reveal(cost_lt);
    reveal(cost_le);
    assert forall|rt: spec_fn(int) -> real| #[trigger] is_root_fn(rt) implies
        c1.lt_spec(c2) == (c1.value(rt) < c2.value(rt)) by {
        lemma_lt_spec_meaning(c1, c2, rt);
    }
}

pub proof fn lemma_le_refl(c: Cost)
    ensures
        cost_le(c, c),
{
    reveal(cost_le);
}

pub proof fn lemma_le_trans(c1: Cost, c2: Cost, c3: Cost)
    requires
        cost_le(c1, c2),
        cost_le(c2, c3),
    ensures
        cost_le(c1, c3),
{
    reveal(cost_le);
    assert forall|rt: spec_fn(int) -> real| #[trigger] is_root_fn(rt) implies
        c1.value(rt) <= c3.value(rt) by {
        assert(c1.value(rt) <= c2.value(rt));
        assert(c2.value(rt) <= c3.value(rt));
    }
}

pub proof fn lemma_lt_le(c1: Cost, c2: Cost)
    requires
        cost_lt(c1, c2),
    ensures
        cost_le(c1, c2),
{
    reveal(cost_lt);
    reveal(cost_le);
    assert forall|rt: spec_fn(int) -> real| #[trigger] is_root_fn(rt) implies
        c1.value(rt) <= c2.value(rt) by {
        assert(c1.value(rt) < c2.value(rt));
    }
}

/// Exchanging the two edges of a star keeps its cost.
pub proof fn lemma_le_swap(c1: Cost, c2: Cost)
    requires
        cost_le(c1, c2),
    ensures
        cost_le(c1, Cost { first: c2.second, second: c2.first }),
{
    reveal(cost_le);
}

/// A cost is at least the length of any one of its edges, and a length grows
/// with its square.
pub proof fn lemma_le_edge(c: Cost, s: int, big: Cost)
    requires
        cost_le(c, Cost::edge(s)),
        0 <= s,
        s <= big.first || s <= big.second,
        s <= SQ_LIMIT,
    ensures
        cost_le(c, big),
{
    reveal(cost_le);
    assert forall|rt: spec_fn(int) -> real| #[trigger] is_root_fn(rt) implies
        c.value(rt) <= big.value(rt) by {
        assert(c.value(rt) <= Cost::edge(s).value(rt));
        let z = rt(0);
        assert(z >= 0real && z * z == 0real);
        assert(z == 0real) by (nonlinear_arith)
            requires z >= 0real, z * z == 0real;
        assert(rt(big.first as int) >= 0real);
        assert(rt(big.second as int) >= 0real);
        if s <= big.first {
            lemma_root_mono(rt, s, big.first as int);
        } else {
            lemma_root_mono(rt, s, big.second as int);
        }
    }
}

pub proof fn lemma_lt_trans(c1: Cost, c2: Cost, c3: Cost)
    requires
        cost_lt(c1, c2),
        cost_lt(c2, c3),
    ensures
        cost_lt(c1, c3),
{
    reveal(cost_lt);
    assert forall|rt: spec_fn(int) -> real| #[trigger] is_root_fn(rt) implies
        c1.value(rt) < c3.value(rt) by {
        assert(c1.value(rt) < c2.value(rt));
        assert(c2.value(rt) < c3.value(rt));
    }
}

/// The two edges of a star together are at least as long as the gap in x
/// between its leaves: `|d1|` and `|d2|` bound the lengths of the edges from below.
pub proof fn lemma_le_span(c: Cost, g: int, d1: int, d2: int, big: Cost)
    requires
        cost_le(c, Cost::edge(g * g)),
        0 <= g,
        g <= (if d1 >= 0 { d1 } else { -d1 }) + (if d2 >= 0 { d2 } else { -d2 }),
        d1 * d1 <= big.first,
        d2 * d2 <= big.second,
        g * g <= SQ_LIMIT,
    ensures
        cost_le(c, big),
{
    reveal(cost_le);
    assert(0 <= g * g) by (nonlinear_arith);
    assert(0 <= d1 * d1) by (nonlinear_arith);
    assert(0 <= d2 * d2) by (nonlinear_arith);
    assert forall|rt: spec_fn(int) -> real| #[trigger] is_root_fn(rt) implies
        c.value(rt) <= big.value(rt) by {
        assert(c.value(rt) <= Cost::edge(g * g).value(rt));
        lemma_root_of_square(rt, g);
        lemma_root_of_square(rt, d1);
        lemma_root_of_square(rt, d2);
        lemma_root_of_square(rt, 0);
        lemma_root_mono(rt, d1 * d1, big.first as int);
        lemma_root_mono(rt, d2 * d2, big.second as int);
    }
}

/// A cost strictly below the length of one edge of a star is strictly below the
/// star's cost.
pub proof fn lemma_lt_edge(c: Cost, s: int, big: Cost)
    requires
        cost_lt(c, Cost::edge(s)),
        0 <= s,
        s <= big.first || s <= big.second,
        s <= SQ_LIMIT,
    ensures
        cost_lt(c, big),
{
    reveal(cost_lt);
    assert forall|rt: spec_fn(int) -> real| #[trigger] is_root_fn(rt) implies
        c.value(rt) < big.value(rt) by {
        assert(c.value(rt) < Cost::edge(s).value(rt));
        let z = rt(0);
        assert(z >= 0real && z * z == 0real);
        assert(z == 0real) by (nonlinear_arith)
            requires z >= 0real, z * z == 0real;
        assert(rt(big.first as int) >= 0real);
        assert(rt(big.second as int) >= 0real);
        if s <= big.first {
            lemma_root_mono(rt, s, big.first as int);
        } else {
            lemma_root_mono(rt, s, big.second as int);
        }
    }
}

} // verus!
