//! Stars over a sorted point sequence, and the tracker of the cheapest one found.
use vstd::prelude::*;
use crate::punto::{Punto, Cost, sq_dist, cost_le, cost_lt, lemma_lt_spec_sound, lemma_le_refl, lemma_le_trans, lemma_lt_le, lemma_lt_trans};

verus! {

/// A star: `center` joined to `left` and to `right`, with its cost.
#[derive(Clone, Copy, Debug, PartialEq, Eq, Structural)]
pub struct Star {
    pub center: usize,
    pub left: usize,
    pub right: usize,
    pub cost: Cost,
}

/// Every point lies within the coordinate limit and the points ascend by x.
pub open spec fn well_formed(pts: Seq<Punto>) -> bool {
    &&& forall|i: int| 0 <= i < pts.len() ==> (#[trigger] pts[i]).in_range()
    &&& forall|i: int, j: int| 0 <= i <= j < pts.len() ==> (#[trigger] pts[i]).x <= (#[trigger] pts[j]).x
}

/// Three distinct indices of `[lo, hi)`: a star with centre `c` and leaves `p`, `q`.
pub open spec fn is_star(lo: int, hi: int, c: int, p: int, q: int) -> bool {
    &&& lo <= c < hi
    &&& lo <= p < hi
    &&& lo <= q < hi
    &&& c != p
    &&& c != q
    &&& p != q
}

/// Cost of the star with centre `c` and leaves `p`, `q`.
pub open spec fn star_cost(pts: Seq<Punto>, c: int, p: int, q: int) -> Cost {
    Cost { first: sq_dist(pts[c], pts[p]) as u64, second: sq_dist(pts[c], pts[q]) as u64 }
}

impl Star {
    /// The star is one of `pts`, with its cost.
    pub open spec fn of(self, pts: Seq<Punto>) -> bool {
        &&& is_star(0, pts.len() as int, self.center as int, self.left as int, self.right as int)
        &&& self.cost == star_cost(pts, self.center as int, self.left as int, self.right as int)
        &&& self.cost.bounded()
    }
}

/// Nothing found yet, or a star of `pts`.
pub open spec fn tracks(best: Option<Star>, pts: Seq<Punto>) -> bool {
    match best {
        None => true,
        Some(s) => s.of(pts),
    }
}

/// A star is known that costs no more than the star `(c, p, q)`.
pub open spec fn bounds(best: Option<Star>, pts: Seq<Punto>, c: int, p: int, q: int) -> bool {
    &&& best is Some
    &&& cost_le(best.unwrap().cost, star_cost(pts, c, p, q))
}

/// `best` is at most every star of `[lo, hi)`.
pub open spec fn bounds_all(best: Option<Star>, pts: Seq<Punto>, lo: int, hi: int) -> bool {
    forall|c: int, p: int, q: int| #[trigger] is_star(lo, hi, c, p, q) ==> bounds(best, pts, c, p, q)
}

/// `new` is no worse than `old`.
pub open spec fn improves_on(new: Option<Star>, old: Option<Star>) -> bool {
    match old {
        None => true,
        Some(o) => new is Some && cost_le(new.unwrap().cost, o.cost),
    }
}

/// `new` is `old`, or a star of `[lo, hi)` strictly cheaper than `old`.
pub open spec fn found_in(new: Option<Star>, old: Option<Star>, lo: int, hi: int) -> bool {
    ||| new == old
    ||| {
        &&& new is Some
        &&& is_star(lo, hi, new.unwrap().center as int, new.unwrap().left as int, new.unwrap().right as int)
        &&& (old is None || cost_lt(new.unwrap().cost, old.unwrap().cost))
    }
}

/// The tracker after an update by `cand`.
pub open spec fn improved(old: Option<Star>, cand: Star) -> Option<Star> {
    if old is None || cand.cost.lt_spec(old.unwrap().cost) {
        Some(cand)
    } else {
        old
    }
}

/// Replaces the tracked star by `cand` when nothing is tracked yet or when `cand`
/// is strictly cheaper; keeps it otherwise, also on equal cost.
pub fn try_improve(best: &mut Option<Star>, cand: Star)
    requires
        cand.cost.bounded(),
        (*old(best)) is Some ==> (*old(best)).unwrap().cost.bounded(),
    ensures
        *final(best) == improved(*old(best), cand),
{
    let better = match best {
        None => true,
        Some(b) => cand.cost.lt(&b.cost),
    };
    if better {
        *best = Some(cand);
    }
}

/// What an update by `try_improve` gives: the tracker never gets worse, and it
/// ends at most at the candidate's cost.
pub proof fn lemma_improve(old: Option<Star>, new: Option<Star>, cand: Star)
    requires
        new == (if old is None || cand.cost.lt_spec(old.unwrap().cost) { Some(cand) } else { old }),
    ensures
        improves_on(new, old),
        new is Some,
        cost_le(new.unwrap().cost, cand.cost),
{
    if old is Some {
        lemma_lt_spec_sound(cand.cost, old.unwrap().cost);
        if cand.cost.lt_spec(old.unwrap().cost) {
            lemma_lt_le(cand.cost, old.unwrap().cost);
        } else {
            lemma_le_refl(old.unwrap().cost);
        }
    }
    lemma_le_refl(cand.cost);
    lemma_le_refl(new.unwrap().cost);
}

/// An update by `try_improve` with a star of `[lo, hi)` keeps `found_in`.
pub proof fn lemma_found_step(start: Option<Star>, old: Option<Star>, new: Option<Star>, cand: Star, lo: int, hi: int)
    requires
        found_in(old, start, lo, hi),
        is_star(lo, hi, cand.center as int, cand.left as int, cand.right as int),
        new == (if old is None || cand.cost.lt_spec(old.unwrap().cost) { Some(cand) } else { old }),
    ensures
        found_in(new, start, lo, hi),
{
    if new != old {
        if old is Some {
            lemma_lt_spec_sound(cand.cost, old.unwrap().cost);
            if old != start && start is Some {
                lemma_lt_trans(cand.cost, old.unwrap().cost, start.unwrap().cost);
            }
        }
    }
}

pub proof fn lemma_found_trans(a: Option<Star>, b: Option<Star>, c: Option<Star>, lo: int, hi: int)
    requires
        found_in(a, b, lo, hi),
        found_in(b, c, lo, hi),
    ensures
        found_in(a, c, lo, hi),
{
    if a != b && b != c && c is Some {
        lemma_lt_trans(a.unwrap().cost, b.unwrap().cost, c.unwrap().cost);
    }
}

pub proof fn lemma_improves_trans(a: Option<Star>, b: Option<Star>, c: Option<Star>)
    requires
        improves_on(a, b),
        improves_on(b, c),
    ensures
        improves_on(a, c),
{
    if c is Some {
        lemma_le_trans(a.unwrap().cost, b.unwrap().cost, c.unwrap().cost);
    }
}

pub proof fn lemma_improves_refl(a: Option<Star>)
    ensures
        improves_on(a, a),
{
    if a is Some {
        lemma_le_refl(a.unwrap().cost);
    }
}

/// A bound on a star carries over to any tracker that improves on it.
pub proof fn lemma_bounds_mono(old: Option<Star>, new: Option<Star>, pts: Seq<Punto>, c: int, p: int, q: int)
    requires
        bounds(old, pts, c, p, q),
        improves_on(new, old),
    ensures
        bounds(new, pts, c, p, q),
{
    lemma_le_trans(new.unwrap().cost, old.unwrap().cost, star_cost(pts, c, p, q));
}

pub proof fn lemma_bounds_all_mono(old: Option<Star>, new: Option<Star>, pts: Seq<Punto>, lo: int, hi: int)
    requires
        bounds_all(old, pts, lo, hi),
        improves_on(new, old),
    ensures
        bounds_all(new, pts, lo, hi),
{
    assert forall|c: int, p: int, q: int| #[trigger] is_star(lo, hi, c, p, q) implies bounds(new, pts, c, p, q) by {
        lemma_bounds_mono(old, new, pts, c, p, q);
    }
}

} // verus!
