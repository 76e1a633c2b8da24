//! The strip around a split: the only points that can form a cheaper star across it.
use vstd::prelude::*;
use crate::punto::{Punto, Cost, sq_dist, cost_le, cost_lt, SQ_LIMIT, COORD_LIMIT, lemma_sq_dist_bounds, lemma_lt_edge, lemma_le_span, lemma_lt_le, lemma_lt_spec_sound};
use crate::star::{Star, well_formed, is_star, tracks, bounds, bounds_all, improves_on, found_in, lemma_bounds_mono};
use crate::block::{tri_min, solve_block, sq_diff, block_search};

verus! {

/// `p` lies left of `split` by more than the tracked cost: outside the closed
/// strip `[split - d, split + d]`.
pub open spec fn left_out(p: Punto, split: int, best: Option<Star>) -> bool {
    &&& p.x < split
    &&& best is Some
    &&& cost_lt(best.unwrap().cost, Cost::edge((split - p.x) * (split - p.x)))
}

/// `p` lies right of `split` by more than the tracked cost: outside the closed
/// strip `[split - d, split + d]`.
pub open spec fn right_out(p: Punto, split: int, best: Option<Star>) -> bool {
    &&& p.x > split
    &&& best is Some
    &&& cost_lt(best.unwrap().cost, Cost::edge((p.x - split) * (p.x - split)))
}

/// The exact test: the tracked cost is strictly below an edge of squared length `sq`.
pub open spec fn beyond_spec(sq: int, best: Option<Star>) -> bool {
    best is Some && best.unwrap().cost.lt_spec(Cost::edge(sq))
}

/// Whether the tracked cost is strictly below an edge of squared length `sq`.
fn beyond(sq: u64, best: &Option<Star>) -> (r: bool)
    requires
        sq <= SQ_LIMIT,
        *best is Some ==> best.unwrap().cost.bounded(),
    ensures
        r == beyond_spec(sq as int, *best),
        r ==> cost_lt(best.unwrap().cost, Cost::edge(sq as int)),
{
    match best {
        None => false,
        Some(b) => {
            let e = Cost { first: sq, second: 0 };
            proof {
                lemma_lt_spec_sound(b.cost, e);
            }
            b.cost.lt(&e)
        },
    }
}

/// The star has indices on both sides of `mid`.
pub open spec fn straddles(c: int, p: int, q: int, mid: int) -> bool {
    &&& tri_min(c, p, q) < mid
    &&& (c >= mid || p >= mid || q >= mid)
}

/// `best` is at most every star of `[lo, hi)` that straddles `mid`.
pub open spec fn bounds_crossing(best: Option<Star>, pts: Seq<Punto>, lo: int, mid: int, hi: int) -> bool {
    forall|c: int, p: int, q: int| #[trigger] is_star(lo, hi, c, p, q) && straddles(c, p, q, mid)
        ==> bounds(best, pts, c, p, q)
}

/// What merging the two solved halves `[lo, mid)` and `[mid, hi)` gives, starting
/// from the tracker `old`: `new` bounds every star of `[lo, hi)`, and differs from
/// `old` only by a strictly cheaper star of `[lo, hi)`.
pub open spec fn merged(pts: Seq<Punto>, lo: int, mid: int, hi: int, old: Option<Star>, new: Option<Star>) -> bool {
    &&& tracks(new, pts)
    &&& improves_on(new, old)
    &&& bounds_all(new, pts, lo, hi)
    &&& found_in(new, old, lo, hi)
}

proof fn lemma_left_out_mono(pts: Seq<Punto>, split: int, best: Option<Star>, t: int, u: int)
    requires
        well_formed(pts),
        0 <= u <= t < pts.len(),
        -COORD_LIMIT <= split <= COORD_LIMIT,
        left_out(pts[t], split, best),
    ensures
        left_out(pts[u], split, best),
{
    let g = split - pts[t].x;
    let h = split - pts[u].x;
    assert(pts[u].x <= pts[t].x);
    assert(g * g <= h * h <= 1152921504606846976) by (nonlinear_arith)
        requires 0 < g <= h <= 1073741824;
    assert(0 <= g * g) by (nonlinear_arith);
    lemma_lt_edge(best.unwrap().cost, g * g, Cost::edge(h * h));
}

proof fn lemma_right_out_mono(pts: Seq<Punto>, split: int, best: Option<Star>, t: int, u: int)
    requires
        well_formed(pts),
        0 <= t <= u < pts.len(),
        -COORD_LIMIT <= split <= COORD_LIMIT,
        right_out(pts[t], split, best),
    ensures
        right_out(pts[u], split, best),
{
    let g = pts[t].x - split;
    let h = pts[u].x - split;
    assert(pts[t].x <= pts[u].x);
    assert(g * g <= h * h <= 1152921504606846976) by (nonlinear_arith)
        requires 0 < g <= h <= 1073741824;
    assert(0 <= g * g) by (nonlinear_arith);
    lemma_lt_edge(best.unwrap().cost, g * g, Cost::edge(h * h));
}

/// Whether `p` lies left of `split` by more than the tracked cost, decided exactly.
fn out_left(p: &Punto, split: i64, best: &Option<Star>) -> (r: bool)
    requires
        p.in_range(),
        -COORD_LIMIT <= split <= COORD_LIMIT,
        *best is Some ==> best.unwrap().cost.bounded(),
    ensures
        r ==> left_out(*p, split as int, *best),
        r == (p.x < split && beyond_spec((split - p.x) * (split - p.x), *best)),
{
    p.x < split && beyond(sq_diff(split, p.x), best)
}

/// Whether `p` lies right of `split` by more than the tracked cost, decided exactly.
fn out_right(p: &Punto, split: i64, best: &Option<Star>) -> (r: bool)
    requires
        p.in_range(),
        -COORD_LIMIT <= split <= COORD_LIMIT,
        *best is Some ==> best.unwrap().cost.bounded(),
    ensures
        r ==> right_out(*p, split as int, *best),
        r == (p.x > split && beyond_spec((p.x - split) * (p.x - split), *best)),
{
    p.x > split && beyond(sq_diff(p.x, split), best)
}

/// Start of the strip found by the binary search of `[a, b)`.
pub open spec fn strip_start(pts: Seq<Punto>, a: int, b: int, split: int, best: Option<Star>) -> int
    decreases b - a,
{
    if a >= b {
        a
    } else {
        let m = a + (b - a) / 2;
        if pts[m].x < split && beyond_spec((split - pts[m].x) * (split - pts[m].x), best) {
            strip_start(pts, m + 1, b, split, best)
        } else {
            strip_start(pts, a, m, split, best)
        }
    }
}

/// End of the strip found by the binary search of `[a, b)`.
pub open spec fn strip_end(pts: Seq<Punto>, a: int, b: int, split: int, best: Option<Star>) -> int
    decreases b - a,
{
    if a >= b {
        b
    } else {
        let m = a + (b - a) / 2;
        if pts[m].x > split && beyond_spec((pts[m].x - split) * (pts[m].x - split), best) {
            strip_end(pts, a, m, split, best)
        } else {
            strip_end(pts, m + 1, b, split, best)
        }
    }
}

/// The tracker after the strip search of `pts[lo..hi]` around the split at `mid`.
pub open spec fn strip_search(pts: Seq<Punto>, lo: int, mid: int, hi: int, best: Option<Star>) -> Option<Star> {
    let split = pts[mid].x as int;
    block_search(pts, strip_start(pts, lo, hi, split, best), strip_end(pts, lo, hi, split, best), best)
}

/// Index range `[s, e)` of the strip of `pts[lo..hi]` around the abscissa `split`,
/// found by binary search: the points before `s` lie left of `split`, and those from
/// `e` on lie right of it, by more than the tracked cost `d`. Points at exactly `d`
/// from `split` stay in the strip `[split - d, split + d]`.
pub fn get_points_between(pts: &[Punto], lo: usize, hi: usize, split: i64, best: &Option<Star>) -> (r: (usize, usize))
    requires
        well_formed(pts@),
        lo <= hi <= pts@.len(),
        -COORD_LIMIT <= split <= COORD_LIMIT,
        tracks(*best, pts@),
    ensures
        lo <= r.0 <= hi,
        lo <= r.1 <= hi,
        forall|t: int| lo <= t < r.0 ==> left_out(#[trigger] pts@[t], split as int, *best),
        forall|t: int| r.1 <= t < hi ==> right_out(#[trigger] pts@[t], split as int, *best),
        r.0 < hi ==> !(pts@[r.0 as int].x < split && beyond_spec((split - pts@[r.0 as int].x) * (split - pts@[r.0 as int].x), *best)),
        r.1 > lo ==> !(pts@[r.1 - 1].x > split && beyond_spec((pts@[r.1 - 1].x - split) * (pts@[r.1 - 1].x - split), *best)),
        r.0 == strip_start(pts@, lo as int, hi as int, split as int, *best),
        r.1 == strip_end(pts@, lo as int, hi as int, split as int, *best),
{
    let mut a = lo;
    let mut b = hi;
    while a < b
        invariant
            lo <= a <= b <= hi <= pts@.len(),
            well_formed(pts@),
            -COORD_LIMIT <= split <= COORD_LIMIT,
            tracks(*best, pts@),
            forall|t: int| lo <= t < a ==> left_out(#[trigger] pts@[t], split as int, *best),
            b < hi ==> !(pts@[b as int].x < split && beyond_spec((split - pts@[b as int].x) * (split - pts@[b as int].x), *best)),
            strip_start(pts@, lo as int, hi as int, split as int, *best) == strip_start(pts@, a as int, b as int, split as int, *best),
        decreases b - a,
    {
        let m = a + (b - a) / 2;
        if out_left(&pts[m], split, best) {
            proof {
                assert forall|t: int| lo <= t < m + 1 implies left_out(#[trigger] pts@[t], split as int, *best) by {
                    lemma_left_out_mono(pts@, split as int, *best, m as int, t);
                }
            }
            a = m + 1;
        } else {
            b = m;
        }
    }
    let s = a;
    let mut a = lo;
    let mut b = hi;
    while a < b
        invariant
            lo <= a <= b <= hi <= pts@.len(),
            well_formed(pts@),
            -COORD_LIMIT <= split <= COORD_LIMIT,
            tracks(*best, pts@),
            forall|t: int| b <= t < hi ==> right_out(#[trigger] pts@[t], split as int, *best),
            a > lo ==> !(pts@[a - 1].x > split && beyond_spec((pts@[a - 1].x - split) * (pts@[a - 1].x - split), *best)),
            strip_end(pts@, lo as int, hi as int, split as int, *best) == strip_end(pts@, a as int, b as int, split as int, *best),
        decreases b - a,
    {
        let m = a + (b - a) / 2;
        if out_right(&pts[m], split, best) {
            proof {
                assert forall|t: int| m <= t < hi implies right_out(#[trigger] pts@[t], split as int, *best) by {
                    lemma_right_out_mono(pts@, split as int, *best, m as int, t);
                }
            }
            b = m;
        } else {
            a = m + 1;
        }
    }
    (s, b)
}

/// A star with two indices `t` and `r` whose x gap reaches the tracked cost is
/// bounded by it.
proof fn lemma_span_bounds(best: Option<Star>, pts: Seq<Punto>, c: int, p: int, q: int, t: int, r: int, g: int)
    requires
        well_formed(pts),
        is_star(0, pts.len() as int, c, p, q),
        t == c || t == p || t == q,
        r == c || r == p || r == q,
        t != r,
        best is Some,
        cost_le(best.unwrap().cost, Cost::edge(g * g)),
        0 <= g,
        g <= pts[r].x - pts[t].x || g <= pts[t].x - pts[r].x,
        g * g <= SQ_LIMIT,
    ensures
        bounds(best, pts, c, p, q),
{
    lemma_sq_dist_bounds(pts[c], pts[p]);
    lemma_sq_dist_bounds(pts[c], pts[q]);
    let d1 = pts[c].x - pts[p].x;
    let d2 = pts[c].x - pts[q].x;
    let big = Cost { first: sq_dist(pts[c], pts[p]) as u64, second: sq_dist(pts[c], pts[q]) as u64 };
    assert(0 * 0 == 0);
    if (t == c && r == p) || (t == p && r == c) {
        lemma_le_span(best.unwrap().cost, g, d1, 0, big);
    } else if (t == c && r == q) || (t == q && r == c) {
        lemma_le_span(best.unwrap().cost, g, 0, d2, big);
    } else {
        lemma_le_span(best.unwrap().cost, g, d1, d2, big);
    }
}

/// Searches the strip of `pts[lo..hi]` around the split at `mid`: afterwards the
/// tracker bounds every star of `[lo, hi)` with indices on both sides of `mid`.
pub fn strip_merge(pts: &[Punto], lo: usize, mid: usize, hi: usize, best: &mut Option<Star>, wide: bool)
    requires
        well_formed(pts@),
        lo <= mid < hi <= pts@.len(),
        tracks(*old(best), pts@),
    ensures
        tracks(*final(best), pts@),
        improves_on(*final(best), *old(best)),
        found_in(*final(best), *old(best), lo as int, hi as int),
        bounds_crossing(*final(best), pts@, lo as int, mid as int, hi as int),
        *final(best) == strip_search(pts@, lo as int, mid as int, hi as int, *old(best)),
{
    let ghost b0 = *best;
    let split = pts[mid].x;
    let (s, e) = get_points_between(pts, lo, hi, split, best);
    proof {
        if s > mid {
            assert(left_out(pts@[mid as int], split as int, b0));
        }
        if e <= mid {
            assert(right_out(pts@[mid as int], split as int, b0));
        }
    }
    solve_block(pts, s, e, best, wide);
    proof {
        let b1 = *best;
        assert forall|c: int, p: int, q: int| #[trigger] is_star(lo as int, hi as int, c, p, q) && straddles(c, p, q, mid as int)
            implies bounds(b1, pts@, c, p, q) by {
            if is_star(s as int, e as int, c, p, q) {
                assert(is_star(s as int, e as int, c, p, q));
            } else {
                let m = tri_min(c, p, q);
                let top = if c >= mid { c } else if p >= mid { p } else { q };
                assert(pts@[mid as int].x <= pts@[top].x);
                assert(pts@[m].x <= pts@[mid as int].x);
                let t = if c < s || c >= e { c } else if p < s || p >= e { p } else { q };
                if t < s {
                    let g = split - pts@[t].x;
                    assert(left_out(pts@[t], split as int, b0));
                    lemma_lt_le(b0.unwrap().cost, Cost::edge(g * g));
                    assert(g * g <= 1152921504606846976) by (nonlinear_arith)
                        requires 0 < g <= 1073741824;
                    lemma_span_bounds(b0, pts@, c, p, q, t, top, g);
                } else {
                    let g = pts@[t].x - split;
                    assert(right_out(pts@[t], split as int, b0));
                    lemma_lt_le(b0.unwrap().cost, Cost::edge(g * g));
                    assert(g * g <= 1152921504606846976) by (nonlinear_arith)
                        requires 0 < g <= 1073741824;
                    lemma_span_bounds(b0, pts@, c, p, q, t, m, g);
                }
                lemma_bounds_mono(b0, b1, pts@, c, p, q);
            }
        }
    }
}

/// Merges the solved halves `[lo, mid)` and `[mid, hi)` by a search of the strip
/// around `mid`, made with the cost the two halves reached together.
pub fn recheck_actual_best(pts: &[Punto], lo: usize, mid: usize, hi: usize, best: &mut Option<Star>, wide: bool)
    requires
        well_formed(pts@),
        lo <= mid < hi <= pts@.len(),
        tracks(*old(best), pts@),
        bounds_all(*old(best), pts@, lo as int, mid as int),
        bounds_all(*old(best), pts@, mid as int, hi as int),
    ensures
        merged(pts@, lo as int, mid as int, hi as int, *old(best), *final(best)),
        *final(best) == strip_search(pts@, lo as int, mid as int, hi as int, *old(best)),
{
    let ghost b0 = *best;
    strip_merge(pts, lo, mid, hi, best, wide);
    proof {
        let b1 = *best;
        assert forall|c: int, p: int, q: int| #[trigger] is_star(lo as int, hi as int, c, p, q)
            implies bounds(b1, pts@, c, p, q) by {
            if !straddles(c, p, q, mid as int) {
                if tri_min(c, p, q) >= mid {
                    assert(is_star(mid as int, hi as int, c, p, q));
                } else {
                    assert(is_star(lo as int, mid as int, c, p, q));
                }
                lemma_bounds_mono(b0, b1, pts@, c, p, q);
            }
        }
    }
}

} // verus!
