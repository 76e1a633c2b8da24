//! Partition engine and execution strategies: the one entry point `solve`.
use vstd::prelude::*;
use crate::punto::{Punto, COORD_LIMIT, lemma_le_trans};
use crate::star::{Star, well_formed, is_star, improved, tracks, bounds, bounds_all, star_cost, improves_on, found_in, try_improve, lemma_improve, lemma_improves_trans, lemma_improves_refl, lemma_bounds_all_mono, lemma_found_trans};
use crate::block::{solve_block, block_search};
use crate::strip::{recheck_actual_best, strip_search};

verus! {

/// Default size of the blocks searched exhaustively.
pub const FIXED_POINTS: usize = 143;

/// How the search is carried out; every strategy returns a star of least cost.
#[derive(Clone, Copy, Debug, PartialEq, Eq, Structural)]
pub enum Strategy {
    /// Recursive halving down to blocks of the fixed size.
    Sequential,
    /// Fixed-size blocks searched one after another, then merged left to right.
    BlockIterative,
    /// One split at the x midpoint, two halves solved apart, one final merge.
    ParallelSplit,
    /// Recursive halving with partners scanned four at a time.
    VectorizedScan,
}

/// Why an input is refused.
#[derive(Clone, Copy, Debug, PartialEq, Eq, Structural)]
pub enum SolveError {
    /// A coordinate lies beyond `COORD_LIMIT`.
    OutOfRange,
    /// The points do not ascend by x.
    Unsorted,
}

/// `r` is a cheapest star of `pts`, or nothing when `pts` has fewer than three points.
pub open spec fn optimal(pts: Seq<Punto>, r: Option<Star>) -> bool {
    if pts.len() < 3 {
        r is None
    } else {
        &&& r is Some
        &&& tracks(r, pts)
        &&& bounds_all(r, pts, 0, pts.len() as int)
    }
}

/// What a search of `[lo, hi)` from the tracker `old` gives.
pub open spec fn searched(pts: Seq<Punto>, lo: int, hi: int, old: Option<Star>, new: Option<Star>) -> bool {
    &&& tracks(new, pts)
    &&& improves_on(new, old)
    &&& bounds_all(new, pts, lo, hi)
    &&& found_in(new, old, lo, hi)
}

/// The tracker after the recursive halving of `pts[lo..hi]`.
pub open spec fn halving_search(pts: Seq<Punto>, lo: int, hi: int, fixed: int, best: Option<Star>) -> Option<Star>
    decreases hi - lo,
{
    if hi - lo <= fixed || hi - lo < 3 {
        block_search(pts, lo, hi, best)
    } else {
        let mid = lo + (hi - lo) / 2;
        let left = halving_search(pts, lo, mid, fixed, best);
        let right = halving_search(pts, mid, hi, fixed, left);
        strip_search(pts, lo, mid, hi, right)
    }
}

/// End of the chunk of `fixed` points that starts at `a`, among `n` points.
pub open spec fn chunk_end(a: int, n: int, fixed: int) -> int {
    if n - a <= fixed { n } else { a + fixed }
}

/// The tracker after the chunks from `a` on are searched one by one.
pub open spec fn chunk_search(pts: Seq<Punto>, a: int, fixed: int, best: Option<Star>) -> Option<Star>
    decreases pts.len() - a,
{
    if a >= pts.len() || fixed <= 0 {
        best
    } else {
        let e = chunk_end(a, pts.len() as int, fixed);
        chunk_search(pts, e, fixed, block_search(pts, a, e, best))
    }
}

/// The tracker after the chunk boundaries from `b` on are merged left to right.
pub open spec fn boundary_search(pts: Seq<Punto>, b: int, fixed: int, best: Option<Star>) -> Option<Star>
    decreases pts.len() - b,
{
    if b >= pts.len() || fixed <= 0 {
        best
    } else {
        let e = chunk_end(b, pts.len() as int, fixed);
        boundary_search(pts, e, fixed, strip_search(pts, 0, b, e, best))
    }
}

/// The tracker after the block-iterative search.
pub open spec fn iterative_search(pts: Seq<Punto>, fixed: int, best: Option<Star>) -> Option<Star> {
    let chunks = chunk_search(pts, 0, fixed, best);
    if pts.len() <= fixed {
        chunks
    } else {
        boundary_search(pts, fixed, fixed, chunks)
    }
}

/// The split found by the binary search of `[a, b]` for twice the midpoint `total`.
pub open spec fn split_search(pts: Seq<Punto>, a: int, b: int, total: int) -> int
    decreases b - a,
{
    if a >= b {
        a
    } else {
        let m = a + (b - a) / 2;
        if 2 * pts[m].x < total {
            split_search(pts, m + 1, b, total)
        } else {
            split_search(pts, a, m, total)
        }
    }
}

/// Two halves joined: the right one replaces the left one only when strictly cheaper.
pub open spec fn join(left: Option<Star>, right: Option<Star>) -> Option<Star> {
    match right {
        None => left,
        Some(s) => improved(left, s),
    }
}

/// What `solve` returns: the search as a function of its input.
pub open spec fn solve_spec(pts: Seq<Punto>, fixed: int, strategy: Strategy) -> Option<Star> {
    let n = pts.len() as int;
    match strategy {
        Strategy::Sequential => halving_search(pts, 0, n, fixed, None),
        Strategy::VectorizedScan => halving_search(pts, 0, n, fixed, None),
        Strategy::BlockIterative => iterative_search(pts, if fixed == 0 { 1 } else { fixed }, None),
        Strategy::ParallelSplit => if n == 0 {
            None
        } else {
            let mid = split_search(pts, 0, n - 1, pts[0].x + pts[n - 1].x);
            strip_search(pts, 0, mid, n, join(halving_search(pts, 0, mid, fixed, None), halving_search(pts, mid, n, fixed, None)))
        },
    }
}

proof fn lemma_found_widen(a: Option<Star>, b: Option<Star>, lo: int, hi: int, lo2: int, hi2: int)
    requires
        found_in(a, b, lo2, hi2),
        lo <= lo2,
        hi2 <= hi,
    ensures
        found_in(a, b, lo, hi),
{
}

/// Recursive halving: blocks of at most `fixed` points are searched exhaustively,
/// larger ranges are split in two at their middle index and merged by a strip search.
fn divide_venceras(pts: &[Punto], lo: usize, hi: usize, fixed: usize, best: &mut Option<Star>, wide: bool)
    requires
        well_formed(pts@),
        lo <= hi <= pts@.len(),
        tracks(*old(best), pts@),
    ensures
        searched(pts@, lo as int, hi as int, *old(best), *final(best)),
        *final(best) == halving_search(pts@, lo as int, hi as int, fixed as int, *old(best)),
    decreases hi - lo,
{
    if hi - lo <= fixed || hi - lo < 3 {
        solve_block(pts, lo, hi, best, wide);
    } else {
        let ghost b0 = *best;
        let mid = lo + (hi - lo) / 2;
        divide_venceras(pts, lo, mid, fixed, best, wide);
        let ghost b1 = *best;
        divide_venceras(pts, mid, hi, fixed, best, wide);
        let ghost b2 = *best;
        proof {
            lemma_bounds_all_mono(b1, b2, pts@, lo as int, mid as int);
        }
        recheck_actual_best(pts, lo, mid, hi, best, wide);
        proof {
            let b3 = *best;
            lemma_improves_trans(b3, b2, b1);
            lemma_improves_trans(b3, b1, b0);
            lemma_found_widen(b1, b0, lo as int, hi as int, lo as int, mid as int);
            lemma_found_widen(b2, b1, lo as int, hi as int, mid as int, hi as int);
            lemma_found_trans(b2, b1, b0, lo as int, hi as int);
            lemma_found_trans(b3, b2, b0, lo as int, hi as int);
        }
    }
}

/// The chunk `k` of size `f` of a range of `n` points is bounded by `best`.
pub open spec fn chunk_done(best: Option<Star>, pts: Seq<Punto>, k: int, f: int, n: int) -> bool {
    bounds_all(best, pts, k * f, if (k + 1) * f <= n { (k + 1) * f } else { n })
}

proof fn lemma_chunks_mono(old: Option<Star>, new: Option<Star>, pts: Seq<Punto>, upto: int, f: int, n: int)
    requires
        forall|k: int| 0 <= k < upto ==> #[trigger] chunk_done(old, pts, k, f, n),
        improves_on(new, old),
    ensures
        forall|k: int| 0 <= k < upto ==> #[trigger] chunk_done(new, pts, k, f, n),
{
    assert forall|k: int| 0 <= k < upto implies #[trigger] chunk_done(new, pts, k, f, n) by {
        assert(chunk_done(old, pts, k, f, n));
        lemma_bounds_all_mono(old, new, pts, k * f, if (k + 1) * f <= n { (k + 1) * f } else { n });
    }
}

/// Block-iterative search: every chunk of `fixed` points is searched on its own,
/// then the chunk boundaries are merged from left to right, each by a strip search
/// over the prefix that ends with the next chunk.
fn divide_venceras_it(pts: &[Punto], fixed: usize, best: &mut Option<Star>)
    requires
        well_formed(pts@),
        fixed >= 1,
        tracks(*old(best), pts@),
    ensures
        searched(pts@, 0, pts@.len() as int, *old(best), *final(best)),
        *final(best) == iterative_search(pts@, fixed as int, *old(best)),
{
    let n = pts.len();
    let ghost b0 = *best;
    let ghost f = fixed as int;
    proof {
        lemma_improves_refl(b0);
    }
    let mut a: usize = 0;
    let ghost mut k: int = 0;
    while a < n
        invariant
            well_formed(pts@),
            n == pts@.len(),
            fixed >= 1,
            f == fixed as int,
            0 <= k,
            a == n || a == k * f,
            a == n ==> k * f >= n,
            a <= n,
            tracks(*best, pts@),
            improves_on(*best, b0),
            found_in(*best, b0, 0, n as int),
            forall|c: int| 0 <= c < k ==> #[trigger] chunk_done(*best, pts@, c, f, n as int),
            chunk_search(pts@, 0, f, b0) == chunk_search(pts@, a as int, f, *best),
        decreases n - a,
    {
        let e = if n - a <= fixed { n } else { a + fixed };
        proof {
            assert((k + 1) * f == k * f + f) by (nonlinear_arith);
        }
        let ghost bb = *best;
        solve_block(pts, a, e, best, false);
        proof {
            lemma_chunks_mono(bb, *best, pts@, k, f, n as int);
            lemma_improves_trans(*best, bb, b0);
            lemma_found_widen(*best, bb, 0, n as int, a as int, e as int);
            lemma_found_trans(*best, bb, b0, 0, n as int);
            assert(chunk_done(*best, pts@, k, f, n as int));
            k = k + 1;
        }
        a = e;
    }
    let ghost kk = k;
    if n <= fixed {
        proof {
            if n > 0 {
                assert(0 < kk) by (nonlinear_arith)
                    requires kk * f >= n, n > 0, kk >= 0;
                assert(chunk_done(*best, pts@, 0, f, n as int));
                assert(0 * f == 0);
                assert((0 + 1) * f == f);
            }
        }
        return;
    }
    let mut b: usize = fixed;
    let ghost mut j: int = 1;
    proof {
        assert(chunk_done(*best, pts@, 0, f, n as int)) by {
            assert(0 < kk) by (nonlinear_arith)
                requires kk * f >= n, n > f, f >= 1;
        }
        assert(0 * f == 0);
        assert((0 + 1) * f == f);
        assert(1 * f == f);
    }
    while b < n
        invariant
            well_formed(pts@),
            n == pts@.len(),
            n > fixed,
            fixed >= 1,
            f == fixed as int,
            1 <= j,
            b == n || b == j * f,
            b == n ==> j * f >= n,
            b <= n,
            kk * f >= n,
            tracks(*best, pts@),
            improves_on(*best, b0),
            found_in(*best, b0, 0, n as int),
            forall|c: int| 0 <= c < kk ==> #[trigger] chunk_done(*best, pts@, c, f, n as int),
            bounds_all(*best, pts@, 0, b as int),
            iterative_search(pts@, f, b0) == boundary_search(pts@, b as int, f, *best),
        decreases n - b,
    {
        let e = if n - b <= fixed { n } else { b + fixed };
        proof {
            assert((j + 1) * f == j * f + f) by (nonlinear_arith);
            assert(j < kk) by (nonlinear_arith)
                requires j * f < n, kk * f >= n, f >= 1;
            assert(chunk_done(*best, pts@, j, f, n as int));
        }
        let ghost bb = *best;
        recheck_actual_best(pts, 0, b, e, best, false);
        proof {
            lemma_chunks_mono(bb, *best, pts@, kk, f, n as int);
            lemma_improves_trans(*best, bb, b0);
            lemma_found_widen(*best, bb, 0, n as int, 0, e as int);
            lemma_found_trans(*best, bb, b0, 0, n as int);
            j = j + 1;
        }
        b = e;
    }
}

/// Searches `pts[lo..hi]` on its own, from an empty tracker.
pub fn solve_range(pts: &[Punto], lo: usize, hi: usize, fixed: usize, wide: bool) -> (r: Option<Star>)
    requires
        well_formed(pts@),
        lo <= hi <= pts@.len(),
    ensures
        tracks(r, pts@),
        bounds_all(r, pts@, lo as int, hi as int),
        r is Some <==> hi - lo >= 3,
        r is Some ==> is_star(lo as int, hi as int, r.unwrap().center as int, r.unwrap().left as int, r.unwrap().right as int),
        r == halving_search(pts@, lo as int, hi as int, fixed as int, None),
{
    let mut best: Option<Star> = None;
    divide_venceras(pts, lo, hi, fixed, &mut best, wide);
    proof {
        if hi - lo >= 3 {
            assert(is_star(lo as int, hi as int, lo as int, lo + 1, lo + 2));
        }
    }
    best
}

/// Index of the first point whose x reaches the midpoint of the x extent of `pts`.
pub fn split_index(pts: &[Punto]) -> (r: usize)
    requires
        well_formed(pts@),
        pts@.len() >= 1,
    ensures
        r < pts@.len(),
        forall|t: int| 0 <= t < r ==> 2 * (#[trigger] pts@[t]).x < pts@[0].x + pts@[pts@.len() - 1].x,
        2 * pts@[r as int].x >= pts@[0].x + pts@[pts@.len() - 1].x,
        r == split_search(pts@, 0, pts@.len() - 1, pts@[0].x + pts@[pts@.len() - 1].x),
{
    let n = pts.len();
    let total = pts[0].x + pts[n - 1].x;
    let mut a: usize = 0;
    let mut b: usize = n - 1;
    while a < b
        invariant
            well_formed(pts@),
            n == pts@.len(),
            a <= b < n,
            total == pts@[0].x + pts@[n - 1].x,
            forall|t: int| 0 <= t < a ==> 2 * (#[trigger] pts@[t]).x < total,
            2 * pts@[b as int].x >= total,
            split_search(pts@, 0, n - 1, total as int) == split_search(pts@, a as int, b as int, total as int),
        decreases b - a,
    {
        let m = a + (b - a) / 2;
        if 2 * pts[m].x < total {
            a = m + 1;
        } else {
            b = m;
        }
    }
    a
}

/// Joins two halves solved apart at `mid` and merges them by one strip search over
/// all of `pts`, made with the joined cost.
pub fn merge_halves(pts: &[Punto], mid: usize, left: Option<Star>, right: Option<Star>, wide: bool) -> (r: Option<Star>)
    requires
        well_formed(pts@),
        mid < pts@.len(),
        tracks(left, pts@),
        tracks(right, pts@),
        bounds_all(left, pts@, 0, mid as int),
        bounds_all(right, pts@, mid as int, pts@.len() as int),
    ensures
        optimal(pts@, r),
        r == strip_search(pts@, 0, mid as int, pts@.len() as int, join(left, right)),
{
    let mut best = left;
    match right {
        None => {
            proof {
                lemma_improves_refl(best);
            }
        },
        Some(s) => {
            try_improve(&mut best, s);
            proof {
                lemma_improve(left, best, s);
                lemma_bounds_all_mono(left, best, pts@, 0, mid as int);
                assert forall|c: int, p: int, q: int| #[trigger] is_star(mid as int, pts@.len() as int, c, p, q)
                    implies bounds(best, pts@, c, p, q) by {
                    lemma_le_trans(best.unwrap().cost, s.cost, star_cost(pts@, c, p, q));
                }
            }
        },
    }
    proof {
        if right is None {
            assert forall|c: int, p: int, q: int| #[trigger] is_star(mid as int, pts@.len() as int, c, p, q)
                implies bounds(best, pts@, c, p, q) by {
                assert(bounds(right, pts@, c, p, q));
            }
        }
    }
    let ghost b0 = best;
    recheck_actual_best(pts, 0, mid, pts.len(), &mut best, wide);
    proof {
        if pts@.len() >= 3 {
            assert(is_star(0, pts@.len() as int, 0, 1, 2));
        } else if best is Some {
            assert(found_in(best, b0, 0, pts@.len() as int));
        }
    }
    best
}

/// The cheapest star of `points`, which ascend by x; nothing for fewer than three
/// points. `fixed` is the size of the blocks searched exhaustively.
#[verifier::rlimit(50)]
pub fn solve(points: &[Punto], fixed: usize, strategy: Strategy) -> (r: Option<Star>)
    requires
        well_formed(points@),
    ensures
        optimal(points@, r),
        r == solve_spec(points@, fixed as int, strategy),
{
    let n = points.len();
    let mut best: Option<Star> = None;
    match strategy {
        Strategy::Sequential => {
            divide_venceras(points, 0, n, fixed, &mut best, false);
        },
        Strategy::VectorizedScan => {
            divide_venceras(points, 0, n, fixed, &mut best, true);
        },
        Strategy::BlockIterative => {
            let f = if fixed == 0 { 1 } else { fixed };
            divide_venceras_it(points, f, &mut best);
        },
        Strategy::ParallelSplit => {
            if n == 0 {
                return None;
            }
            let mid = split_index(points);
            let left = solve_range(points, 0, mid, fixed, false);
            let right = solve_range(points, mid, n, fixed, false);
            return merge_halves(points, mid, left, right, false);
        },
    }
    proof {
        if n >= 3 {
            assert(is_star(0, n as int, 0, 1, 2));
        } else if best is Some {
            assert(found_in(best, None, 0, n as int));
        }
    }
    best
}

/// Checks that `points` ascend by x and stay within `COORD_LIMIT`, then solves.
pub fn solve_checked(points: &[Punto], fixed: usize, strategy: Strategy) -> (r: Result<Option<Star>, SolveError>)
    ensures
        match r {
            Ok(s) => well_formed(points@) && optimal(points@, s),
            Err(SolveError::OutOfRange) => exists|i: int| 0 <= i < points@.len() && !(#[trigger] points@[i]).in_range(),
            Err(SolveError::Unsorted) => (forall|i: int| 0 <= i < points@.len() ==> (#[trigger] points@[i]).in_range())
                && !well_formed(points@),
        },
{
    let n = points.len();
    let mut i: usize = 0;
    while i < n
        invariant
            n == points@.len(),
            i <= n,
            forall|t: int| 0 <= t < i ==> (#[trigger] points@[t]).in_range(),
        decreases n - i,
    {
        let p = points[i];
        if p.x < -COORD_LIMIT || p.x > COORD_LIMIT || p.y < -COORD_LIMIT || p.y > COORD_LIMIT {
            return Err(SolveError::OutOfRange);
        }
        i += 1;
    }
    let mut i: usize = 1;
    while i < n
        invariant
            n == points@.len(),
            1 <= i,
            i <= n || n == 0,
            forall|t: int| 0 <= t < n ==> (#[trigger] points@[t]).in_range(),
            forall|s: int, t: int| 0 <= s <= t < i && t < n ==> (#[trigger] points@[s]).x <= (#[trigger] points@[t]).x,
        decreases n - i,
    {
        if points[i - 1].x > points[i].x {
            return Err(SolveError::Unsorted);
        }
        i += 1;
    }
    Ok(solve(points, fixed, strategy))
}

} // verus!
