//! Exhaustive search of a contiguous block of points, with pruning.
use vstd::prelude::*;
use crate::punto::{Punto, Cost, sq_dist, cost_le, SQ_LIMIT, COORD_LIMIT, lemma_sq_dist_bounds, lemma_lt_spec_sound, lemma_le_trans, lemma_le_swap, lemma_le_edge};
use crate::star::{Star, well_formed, is_star, star_cost, tracks, bounds, bounds_all, improves_on, found_in, improved, try_improve, lemma_found_step, lemma_improve, lemma_improves_trans, lemma_improves_refl, lemma_bounds_mono};

verus! {

/// Smallest index of a star.
pub open spec fn tri_min(c: int, p: int, q: int) -> int {
    if c <= p && c <= q { c } else if p <= q { p } else { q }
}

/// Second index of a star in the order of the search: the first leaf where the
/// centre comes first, the centre otherwise.
pub open spec fn tri_key(c: int, p: int, q: int) -> int {
    if c < p && c < q { p } else { c }
}

/// Third index of a star in the order of the search.
pub open spec fn tri_third(c: int, p: int, q: int) -> int {
    if c < p && c < q { q } else if p < q { q } else { p }
}

/// The search reaches the star `(c, p, q)` before the step `(i, j, k)`.
pub open spec fn lex_before(c: int, p: int, q: int, i: int, j: int, k: int) -> bool {
    let m = tri_min(c, p, q);
    ||| m < i
    ||| (m == i && tri_key(c, p, q) < j)
    ||| (m == i && tri_key(c, p, q) == j && tri_third(c, p, q) < k)
}

/// Every star of `[lo, hi)` that the search reaches before `(i, j, k)` is bounded.
pub open spec fn covered(best: Option<Star>, pts: Seq<Punto>, lo: int, hi: int, i: int, j: int, k: int) -> bool {
    forall|c: int, p: int, q: int| #[trigger] is_star(lo, hi, c, p, q) && lex_before(c, p, q, i, j, k)
        ==> bounds(best, pts, c, p, q)
}

proof fn lemma_sq_mono(u: int, v: int)
    requires
        0 <= u <= v,
    ensures
        u * u <= v * v,
{
    assert(u * u <= v * v) by (nonlinear_arith)
        requires 0 <= u <= v;
}

proof fn lemma_covered_mono(old: Option<Star>, new: Option<Star>, pts: Seq<Punto>, lo: int, hi: int, i: int, j: int, k: int)
    requires
        covered(old, pts, lo, hi, i, j, k),
        improves_on(new, old),
    ensures
        covered(new, pts, lo, hi, i, j, k),
{
    assert forall|c: int, p: int, q: int| #[trigger] is_star(lo, hi, c, p, q) && lex_before(c, p, q, i, j, k)
        implies bounds(new, pts, c, p, q) by {
        lemma_bounds_mono(old, new, pts, c, p, q);
    }
}

/// The step `(i, j, k)` reaches the stars centred on `i` with leaves `j`, `k`,
/// and those centred on `j` with leaves `i`, `k` in either order.
proof fn lemma_covered_step(best: Option<Star>, pts: Seq<Punto>, lo: int, hi: int, i: int, j: int, k: int)
    requires
        covered(best, pts, lo, hi, i, j, k),
        i < j,
        i < k,
        k != j ==> bounds(best, pts, i, j, k),
        k != j ==> bounds(best, pts, j, i, k),
        k != j ==> bounds(best, pts, j, k, i),
    ensures
        covered(best, pts, lo, hi, i, j, k + 1),
{
}

proof fn lemma_edge_bounds(best: Option<Star>, pts: Seq<Punto>, s: int, c: int, p: int, q: int)
    requires
        well_formed(pts),
        is_star(0, pts.len() as int, c, p, q),
        best is Some,
        cost_le(best.unwrap().cost, Cost::edge(s)),
        0 <= s,
        s <= sq_dist(pts[c], pts[p]) || s <= sq_dist(pts[c], pts[q]),
    ensures
        bounds(best, pts, c, p, q),
{
    lemma_sq_dist_bounds(pts[c], pts[p]);
    lemma_sq_dist_bounds(pts[c], pts[q]);
    lemma_le_edge(best.unwrap().cost, s, star_cost(pts, c, p, q));
}

/// All stars whose two first indices in the search are `i` and `j` cost at
/// least the length of the edge between them.
proof fn lemma_covered_skip(best: Option<Star>, pts: Seq<Punto>, lo: int, hi: int, i: int, j: int, s: int)
    requires
        well_formed(pts),
        0 <= lo <= i < j < hi <= pts.len(),
        covered(best, pts, lo, hi, i, j, 0),
        best is Some,
        cost_le(best.unwrap().cost, Cost::edge(s)),
        0 <= s <= sq_dist(pts[i], pts[j]),
    ensures
        covered(best, pts, lo, hi, i, j + 1, 0),
{
    lemma_sq_dist_bounds(pts[i], pts[j]);
    assert forall|c: int, p: int, q: int| #[trigger] is_star(lo, hi, c, p, q) && lex_before(c, p, q, i, j + 1, 0)
        implies bounds(best, pts, c, p, q) by {
        if !lex_before(c, p, q, i, j, 0) {
            assert(tri_min(c, p, q) == i && tri_key(c, p, q) == j);
            lemma_edge_bounds(best, pts, s, c, p, q);
        }
    }
}

/// Once the x gap from `i` to `j` reaches the tracked cost, no later `j` can help.
proof fn lemma_covered_stop(best: Option<Star>, pts: Seq<Punto>, lo: int, hi: int, i: int, j: int)
    requires
        well_formed(pts),
        0 <= lo <= i < j < hi <= pts.len(),
        covered(best, pts, lo, hi, i, j, 0),
        best is Some,
        cost_le(best.unwrap().cost, Cost::edge((pts[j].x - pts[i].x) * (pts[j].x - pts[i].x))),
    ensures
        covered(best, pts, lo, hi, i + 1, 0, 0),
{
    let dx = pts[j].x - pts[i].x;
    assert(pts[i].x <= pts[j].x);
    lemma_sq_mono(0, dx);
    assert forall|c: int, p: int, q: int| #[trigger] is_star(lo, hi, c, p, q) && lex_before(c, p, q, i + 1, 0, 0)
        implies bounds(best, pts, c, p, q) by {
        if !lex_before(c, p, q, i, j, 0) {
            let key = tri_key(c, p, q);
            assert(tri_min(c, p, q) == i && key >= j);
            assert(pts[j].x <= pts[key].x);
            lemma_sq_mono(dx, pts[key].x - pts[i].x);
            lemma_sq_dist_bounds(pts[i], pts[key]);
            lemma_sq_dist_bounds(pts[key], pts[i]);
            assert((pts[key].x - pts[i].x) * (pts[key].x - pts[i].x) == (pts[i].x - pts[key].x) * (pts[i].x - pts[key].x)) by (nonlinear_arith);
            lemma_edge_bounds(best, pts, dx * dx, c, p, q);
        }
    }
}

/// Squared difference of two coordinates.
pub(crate) fn sq_diff(a: i64, b: i64) -> (r: u64)
    requires
        -COORD_LIMIT <= a <= COORD_LIMIT,
        -COORD_LIMIT <= b <= COORD_LIMIT,
    ensures
        r == (a - b) * (a - b),
        r == (b - a) * (b - a),
        r <= SQ_LIMIT,
{
    let d = a - b;
    proof {
        assert(0 <= d * d <= 1152921504606846976) by (nonlinear_arith)
            requires -1073741824 <= d <= 1073741824;
        assert(d * d == (b - a) * (b - a)) by (nonlinear_arith)
            requires d == a - b;
    }
    (d * d) as u64
}

/// Whether an edge of squared length `sq` is at least as long as the tracked cost.
pub(crate) fn reaches(sq: u64, best: &Option<Star>) -> (r: bool)
    requires
        sq <= SQ_LIMIT,
        *best is Some ==> best.unwrap().cost.bounded(),
    ensures
        r == (*best is Some && !Cost::edge(sq as int).lt_spec(best.unwrap().cost)),
        r ==> cost_le(best.unwrap().cost, Cost::edge(sq as int)),
{
    match best {
        None => false,
        Some(b) => {
            let e = Cost { first: sq, second: 0 };
            proof {
                lemma_lt_spec_sound(e, b.cost);
            }
            !e.lt(&b.cost)
        },
    }
}

/// The exact test of `reaches`: an edge of squared length `sq` is not cheaper than
/// the tracked cost.
pub open spec fn reaches_spec(sq: int, best: Option<Star>) -> bool {
    best is Some && !Cost::edge(sq).lt_spec(best.unwrap().cost)
}

/// The x gap from point `i` to point `t` reaches the tracked cost.
pub open spec fn x_reach(pts: Seq<Punto>, i: int, t: int, best: Option<Star>) -> bool {
    reaches_spec((pts[t].x - pts[i].x) * (pts[t].x - pts[i].x), best)
}

/// The y gap from point `i` to point `t` reaches the tracked cost.
pub open spec fn y_reach(pts: Seq<Punto>, i: int, t: int, best: Option<Star>) -> bool {
    reaches_spec((pts[t].y - pts[i].y) * (pts[t].y - pts[i].y), best)
}

/// First partner of `i` from `j` on whose y gap stays below the tracked cost;
/// none once an x gap reaches it, since the points ascend by x.
pub open spec fn first_candidate(pts: Seq<Punto>, i: int, j: int, hi: int, best: Option<Star>) -> Option<int>
    decreases hi - j,
{
    if j >= hi {
        None
    } else if x_reach(pts, i, j, best) {
        None
    } else if !y_reach(pts, i, j, best) {
        Some(j)
    } else {
        first_candidate(pts, i, j + 1, hi, best)
    }
}

proof fn lemma_candidate_cover(best: Option<Star>, pts: Seq<Punto>, lo: int, hi: int, i: int, j: int)
    requires
        well_formed(pts),
        0 <= lo <= i < j <= hi <= pts.len(),
        tracks(best, pts),
        covered(best, pts, lo, hi, i, j, 0),
    ensures
        match first_candidate(pts, i, j, hi, best) {
            None => covered(best, pts, lo, hi, i + 1, 0, 0),
            Some(t) => j <= t < hi && covered(best, pts, lo, hi, i, t, 0),
        },
    decreases hi - j,
{
    if j >= hi {
        assert forall|c: int, p: int, q: int| #[trigger] is_star(lo, hi, c, p, q) && lex_before(c, p, q, i + 1, 0, 0)
            implies bounds(best, pts, c, p, q) by {
            assert(lex_before(c, p, q, i, j, 0));
        }
    } else {
        lemma_sq_dist_bounds(pts[i], pts[j]);
        let dx = pts[j].x - pts[i].x;
        let dy = pts[j].y - pts[i].y;
        assert(dx * dx == (pts[i].x - pts[j].x) * (pts[i].x - pts[j].x)) by (nonlinear_arith)
            requires dx == pts[j].x - pts[i].x;
        assert(dy * dy == (pts[i].y - pts[j].y) * (pts[i].y - pts[j].y)) by (nonlinear_arith)
            requires dy == pts[j].y - pts[i].y;
        assert(0 <= dy * dy) by (nonlinear_arith);
        if x_reach(pts, i, j, best) {
            lemma_lt_spec_sound(Cost::edge(dx * dx), best.unwrap().cost);
            lemma_covered_stop(best, pts, lo, hi, i, j);
        } else if y_reach(pts, i, j, best) {
            lemma_lt_spec_sound(Cost::edge(dy * dy), best.unwrap().cost);
            lemma_covered_skip(best, pts, lo, hi, i, j, dy * dy);
            lemma_candidate_cover(best, pts, lo, hi, i, j + 1);
        }
    }
}

/// Whether the scan for partners of `pi` stops at `pt`: its x gap reaches the
/// tracked cost, or its y gap stays below it.
fn lane_stops(pi: &Punto, pt: &Punto, best: &Option<Star>) -> (r: bool)
    requires
        pi.in_range(),
        pt.in_range(),
        *best is Some ==> best.unwrap().cost.bounded(),
    ensures
        r == (reaches_spec((pt.x - pi.x) * (pt.x - pi.x), *best) || !reaches_spec((pt.y - pi.y) * (pt.y - pi.y), *best)),
{
    reaches(sq_diff(pt.x, pi.x), best) || !reaches(sq_diff(pt.y, pi.y), best)
}

/// The first partner of `i` from `j` on, as `first_candidate` says. With `wide`,
/// blocks of four points are tested together before the scan goes one by one.
pub fn next_candidate(pts: &[Punto], i: usize, j: usize, hi: usize, best: &Option<Star>, wide: bool) -> (r: Option<usize>)
    requires
        well_formed(pts@),
        i < j <= hi <= pts@.len(),
        tracks(*best, pts@),
    ensures
        match r {
            None => first_candidate(pts@, i as int, j as int, hi as int, *best) is None,
            Some(t) => first_candidate(pts@, i as int, j as int, hi as int, *best) == Some(t as int),
        },
{
    let pi = pts[i];
    let mut t = j;
    if wide {
        while hi - t >= 4
            invariant
                i < j <= t <= hi <= pts@.len(),
                pi == pts@[i as int],
                well_formed(pts@),
                tracks(*best, pts@),
                first_candidate(pts@, i as int, j as int, hi as int, *best)
                    == first_candidate(pts@, i as int, t as int, hi as int, *best),
            decreases hi - t,
        {
            let s0 = lane_stops(&pi, &pts[t], best);
            let s1 = lane_stops(&pi, &pts[t + 1], best);
            let s2 = lane_stops(&pi, &pts[t + 2], best);
            let s3 = lane_stops(&pi, &pts[t + 3], best);
            if s0 || s1 || s2 || s3 {
                break;
            }
            proof {
                reveal_with_fuel(first_candidate, 5);
            }
            t = t + 4;
        }
    }
    while t < hi
        invariant
            i < j <= t <= hi <= pts@.len(),
            pi == pts@[i as int],
            well_formed(pts@),
            tracks(*best, pts@),
            first_candidate(pts@, i as int, j as int, hi as int, *best)
                == first_candidate(pts@, i as int, t as int, hi as int, *best),
        decreases hi - t,
    {
        let pt = pts[t];
        if reaches(sq_diff(pt.x, pi.x), best) {
            return None;
        }
        if !reaches(sq_diff(pt.y, pi.y), best) {
            return Some(t);
        }
        t += 1;
    }
    None
}

/// The star centred on `c` with leaves `p` and `q`, with its cost.
pub open spec fn candidate(pts: Seq<Punto>, c: int, p: int, q: int) -> Star {
    Star { center: c as usize, left: p as usize, right: q as usize, cost: star_cost(pts, c, p, q) }
}

/// The tracker after the block search has tried the third points from `k` on with
/// the pair `i`, `j`: each is skipped when its y gaps to both reach the tracked cost,
/// else offered with `i` as centre, then with `j` as centre.
pub open spec fn pair_search(pts: Seq<Punto>, i: int, j: int, k: int, hi: int, best: Option<Star>) -> Option<Star>
    decreases hi - k,
{
    if k >= hi {
        best
    } else if k == j {
        pair_search(pts, i, j, k + 1, hi, best)
    } else if y_reach(pts, i, k, best) && y_reach(pts, j, k, best) {
        pair_search(pts, i, j, k + 1, hi, best)
    } else {
        pair_search(pts, i, j, k + 1, hi, improved(improved(best, candidate(pts, i, j, k)), candidate(pts, j, i, k)))
    }
}

/// The tracker after the block search has tried the partners of `i` from `j` on.
pub open spec fn partner_search(pts: Seq<Punto>, i: int, j: int, hi: int, best: Option<Star>) -> Option<Star>
    decreases hi - j,
{
    if j >= hi {
        best
    } else {
        match first_candidate(pts, i, j, hi, best) {
            None => best,
            Some(t) => if t < j || t >= hi {
                best
            } else if reaches_spec(sq_dist(pts[i], pts[t]), best) {
                partner_search(pts, i, t + 1, hi, best)
            } else {
                partner_search(pts, i, t + 1, hi, pair_search(pts, i, t, i + 1, hi, best))
            },
        }
    }
}

/// The tracker after the block search of `pts[i..hi]`: the search as a function of
/// its input.
pub open spec fn block_search(pts: Seq<Punto>, i: int, hi: int, best: Option<Star>) -> Option<Star>
    decreases hi - i,
{
    if i >= hi {
        best
    } else {
        block_search(pts, i + 1, hi, partner_search(pts, i, i + 1, hi, best))
    }
}

/// Searches every star of `pts[lo..hi]`, pruning pairs and third points that the
/// tracked cost already rules out. With `wide`, candidate partners are scanned
/// four at a time; the result is the same.
pub fn solve_block(pts: &[Punto], lo: usize, hi: usize, best: &mut Option<Star>, wide: bool)
    requires
        well_formed(pts@),
        lo <= hi <= pts@.len(),
        tracks(*old(best), pts@),
    ensures
        tracks(*final(best), pts@),
        improves_on(*final(best), *old(best)),
        bounds_all(*final(best), pts@, lo as int, hi as int),
        found_in(*final(best), *old(best), lo as int, hi as int),
        *final(best) == block_search(pts@, lo as int, hi as int, *old(best)),
{
    let ghost start = *best;
    let ghost target = block_search(pts@, lo as int, hi as int, start);
    proof {
        lemma_improves_refl(start);
    }
    let mut i = lo;
    while i < hi
        invariant
            lo <= i <= hi <= pts@.len(),
            well_formed(pts@),
            tracks(*best, pts@),
            improves_on(*best, start),
            found_in(*best, start, lo as int, hi as int),
            covered(*best, pts@, lo as int, hi as int, i as int, 0, 0),
            target == block_search(pts@, lo as int, hi as int, start),
            target == block_search(pts@, i as int, hi as int, *best),
        decreases hi - i,
    {
        let pi = pts[i];
        let mut j = i + 1;
        let mut stop = false;
        while j < hi && !stop
            invariant
                lo <= i < hi <= pts@.len(),
                i < j <= hi,
                pi == pts@[i as int],
                well_formed(pts@),
                tracks(*best, pts@),
                improves_on(*best, start),
                found_in(*best, start, lo as int, hi as int),
                !stop ==> covered(*best, pts@, lo as int, hi as int, i as int, j as int, 0),
                stop ==> covered(*best, pts@, lo as int, hi as int, i as int + 1, 0, 0),
                target == block_search(pts@, lo as int, hi as int, start),
                !stop ==> target == block_search(pts@, i + 1, hi as int, partner_search(pts@, i as int, j as int, hi as int, *best)),
                stop ==> target == block_search(pts@, i + 1, hi as int, *best),
            decreases hi - j + (if stop { 0int } else { 1int }),
        {
            let next = next_candidate(pts, i, j, hi, best, wide);
            proof {
                lemma_candidate_cover(*best, pts@, lo as int, hi as int, i as int, j as int);
            }
            match next {
                None => {
                    stop = true;
                },
                Some(jj) => {
                    j = jj;
                    let pj = pts[j];
                    proof {
                        lemma_sq_dist_bounds(pi, pj);
                    }
                    let dij = pi.distancia(&pj);
                    if reaches(dij, best) {
                        proof {
                            lemma_covered_skip(*best, pts@, lo as int, hi as int, i as int, j as int, dij as int);
                        }
                    } else {
                    let mut k = i + 1;
                    while k < hi
                        invariant
                            lo <= i < j < hi <= pts@.len(),
                            i < k <= hi,
                            pi == pts@[i as int],
                            pj == pts@[j as int],
                            dij == sq_dist(pi, pj),
                            dij == sq_dist(pj, pi),
                            dij <= SQ_LIMIT,
                            well_formed(pts@),
                            tracks(*best, pts@),
                            improves_on(*best, start),
            found_in(*best, start, lo as int, hi as int),
                            covered(*best, pts@, lo as int, hi as int, i as int, j as int, k as int),
                            target == block_search(pts@, lo as int, hi as int, start),
                            target == block_search(pts@, i + 1, hi as int, partner_search(pts@, i as int, j + 1, hi as int,
                                pair_search(pts@, i as int, j as int, k as int, hi as int, *best))),
                        decreases hi - k,
                    {
                        if k != j {
                            let pk = pts[k];
                            proof {
                                lemma_sq_dist_bounds(pi, pk);
                                lemma_sq_dist_bounds(pj, pk);
                            }
                            let gi = sq_diff(pk.y, pi.y);
                            let gj = sq_diff(pk.y, pj.y);
                            if reaches(gi, best) && reaches(gj, best) {
                                proof {
                                    lemma_edge_bounds(*best, pts@, gi as int, i as int, j as int, k as int);
                                    lemma_edge_bounds(*best, pts@, gj as int, j as int, i as int, k as int);
                                    lemma_edge_bounds(*best, pts@, gj as int, j as int, k as int, i as int);
                                    lemma_covered_step(*best, pts@, lo as int, hi as int, i as int, j as int, k as int);
                                }
                            } else {
                                let ghost b0 = *best;
                                let c1 = Star { center: i, left: j, right: k, cost: Cost { first: dij, second: pi.distancia(&pk) } };
                                try_improve(best, c1);
                                let ghost b1 = *best;
                                let c2 = Star { center: j, left: i, right: k, cost: Cost { first: dij, second: pj.distancia(&pk) } };
                                try_improve(best, c2);
                                proof {
                                    lemma_improve(b0, b1, c1);
                                    lemma_improve(b1, *best, c2);
                                    lemma_found_step(start, b0, b1, c1, lo as int, hi as int);
                                    lemma_found_step(start, b1, *best, c2, lo as int, hi as int);
                                    lemma_improves_trans(*best, b1, b0);
                                    lemma_improves_trans(*best, b0, start);
                                    lemma_le_trans(best.unwrap().cost, b1.unwrap().cost, c1.cost);
                                    lemma_le_swap(best.unwrap().cost, c2.cost);
                                    lemma_covered_mono(b0, *best, pts@, lo as int, hi as int, i as int, j as int, k as int);
                                    lemma_covered_step(*best, pts@, lo as int, hi as int, i as int, j as int, k as int);
                                }
                            }
                        } else {
                            proof {
                                lemma_covered_step(*best, pts@, lo as int, hi as int, i as int, j as int, k as int);
                            }
                        }
                        k += 1;
                    }
                    }
                    j += 1;
                },
            }
        }
        i += 1;
    }
}

} // verus!
