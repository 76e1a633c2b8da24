//! Laws of the search, stated over real costs for any square-root function.
use vstd::prelude::*;
use crate::arith::is_root_fn;
use crate::punto::{Punto, cost_le, cost_lt, lemma_lt_spec_meaning};
use crate::star::{Star, well_formed, is_star, star_cost, tracks, bounds, bounds_all, improved};
use crate::strip::{straddles, merged};
use crate::engine::{optimal, solve_spec, Strategy};
use crate::block::tri_min;

verus! {

/// The star that `solve` returns costs no more than any star of the points, and
/// its cost is that of a star of the points: it is the minimum of an exhaustive
/// enumeration.
pub proof fn law_exhaustive_minimum(pts: Seq<Punto>, r: Option<Star>, rt: spec_fn(int) -> real)
    requires
        optimal(pts, r),
        pts.len() >= 3,
        is_root_fn(rt),
    ensures
        forall|c: int, p: int, q: int| #[trigger] is_star(0, pts.len() as int, c, p, q)
            ==> r.unwrap().cost.value(rt) <= star_cost(pts, c, p, q).value(rt),
        r.unwrap().cost == star_cost(pts, r.unwrap().center as int, r.unwrap().left as int, r.unwrap().right as int),
{
    reveal(cost_le);
    assert forall|c: int, p: int, q: int| #[trigger] is_star(0, pts.len() as int, c, p, q)
        implies r.unwrap().cost.value(rt) <= star_cost(pts, c, p, q).value(rt) by {
        assert(bounds(r, pts, c, p, q));
    }
}

/// Any two results of least cost on the same points agree in whether a star
/// exists and in its cost: repeated calls, and calls with different strategies,
/// return the same cost.
pub proof fn law_same_cost(pts: Seq<Punto>, a: Option<Star>, b: Option<Star>, rt: spec_fn(int) -> real)
    requires
        optimal(pts, a),
        optimal(pts, b),
        is_root_fn(rt),
    ensures
        a is Some <==> b is Some,
        a is Some ==> a.unwrap().cost.value(rt) == b.unwrap().cost.value(rt),
{
    if pts.len() >= 3 {
        law_exhaustive_minimum(pts, a, rt);
        law_exhaustive_minimum(pts, b, rt);
        let sa = a.unwrap();
        let sb = b.unwrap();
        assert(is_star(0, pts.len() as int, sb.center as int, sb.left as int, sb.right as int));
        assert(is_star(0, pts.len() as int, sa.center as int, sa.left as int, sa.right as int));
    }
}

/// An update never takes a star that costs as much as the tracked one or more.
pub proof fn law_strict_improvement(old: Option<Star>, cand: Star, rt: spec_fn(int) -> real)
    requires
        old is Some,
        is_root_fn(rt),
        cand.cost.value(rt) >= old.unwrap().cost.value(rt),
    ensures
        improved(old, cand) == old,
{
    lemma_lt_spec_meaning(cand.cost, old.unwrap().cost, rt);
}

/// After two halves are solved, the merge at `mid` replaces their result exactly
/// when some star straddling `mid` is strictly cheaper, and then by such a star.
pub proof fn law_straddle_found(pts: Seq<Punto>, lo: int, mid: int, hi: int, old: Option<Star>, new: Option<Star>, rt: spec_fn(int) -> real)
    requires
        well_formed(pts),
        0 <= lo <= mid < hi <= pts.len(),
        is_root_fn(rt),
        tracks(old, pts),
        bounds_all(old, pts, lo, mid),
        bounds_all(old, pts, mid, hi),
        merged(pts, lo, mid, hi, old, new),
    ensures
        (new != old) <==> exists|c: int, p: int, q: int| #[trigger] is_star(lo, hi, c, p, q) && straddles(c, p, q, mid)
            && (old is None || star_cost(pts, c, p, q).value(rt) < old.unwrap().cost.value(rt)),
        new != old ==> straddles(new.unwrap().center as int, new.unwrap().left as int, new.unwrap().right as int, mid),
{
    reveal(cost_le);
    reveal(cost_lt);
    if new != old {
        let s = new.unwrap();
        let (c, p, q) = (s.center as int, s.left as int, s.right as int);
        assert(is_star(lo, hi, c, p, q));
        if !straddles(c, p, q, mid) {
            if tri_min(c, p, q) >= mid {
                assert(is_star(mid, hi, c, p, q));
            } else {
                assert(is_star(lo, mid, c, p, q));
            }
            assert(bounds(old, pts, c, p, q));
            assert(old.unwrap().cost.value(rt) <= s.cost.value(rt));
            assert(s.cost.value(rt) < old.unwrap().cost.value(rt));
        }
        assert(is_star(lo, hi, c, p, q) && straddles(c, p, q, mid));
    } else {
        assert forall|c: int, p: int, q: int| #[trigger] is_star(lo, hi, c, p, q) && straddles(c, p, q, mid)
            implies !(old is None || star_cost(pts, c, p, q).value(rt) < old.unwrap().cost.value(rt)) by {
            assert(bounds(new, pts, c, p, q));
        }
    }
}

/// `solve` is a function of its input: repeated calls return the same star, and
/// the scan four points at a time returns the same star as the scan one by one.
pub proof fn law_same_star(pts: Seq<Punto>, fixed: int)
    ensures
        solve_spec(pts, fixed, Strategy::Sequential) == solve_spec(pts, fixed, Strategy::VectorizedScan),
{
}

} // verus!
