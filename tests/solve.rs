use rand::rngs::StdRng;
use rand::{Rng, SeedableRng};
use star_triple::dyv::{DyV, DyVAlt, DyVIT, DyVMT, DyVSIMD};
use star_triple::engine::{
    merge_halves, solve, solve_checked, solve_range, split_index, SolveError, Strategy,
};
use star_triple::punto::{Cost, Punto};
use star_triple::star::{try_improve, Star};
use star_triple::strip::{get_points_between, recheck_actual_best};
use star_triple::block::{next_candidate, solve_block};
use star_triple::wide::{mul_wide, wide_lt};

const STRATEGIES: [Strategy; 4] = [
    Strategy::Sequential,
    Strategy::BlockIterative,
    Strategy::ParallelSplit,
    Strategy::VectorizedScan,
];

fn pts(v: &[(i64, i64)]) -> Vec<Punto> {
    v.iter().map(|&(x, y)| Punto { x, y }).collect()
}

fn value(c: &Cost) -> f64 {
    (c.first as f64).sqrt() + (c.second as f64).sqrt()
}

fn sq(a: &Punto, b: &Punto) -> u64 {
    let dx = a.x - b.x;
    let dy = a.y - b.y;
    (dx * dx + dy * dy) as u64
}

/// Exhaustive enumeration of all stars, in floating point.
fn oracle(p: &[Punto]) -> Option<f64> {
    let mut best: Option<f64> = None;
    for c in 0..p.len() {
        for a in 0..p.len() {
            for b in 0..p.len() {
                if a == b || a == c || b == c {
                    continue;
                }
                let v = (sq(&p[c], &p[a]) as f64).sqrt() + (sq(&p[c], &p[b]) as f64).sqrt();
                if best.map_or(true, |m| v < m) {
                    best = Some(v);
                }
            }
        }
    }
    best
}

fn random_points(rng: &mut StdRng, n: usize, span: i64) -> Vec<Punto> {
    let mut v: Vec<Punto> = (0..n)
        .map(|_| Punto { x: rng.gen_range(-span..=span), y: rng.gen_range(-span..=span) })
        .collect();
    v.sort_by_key(|p| p.x);
    v
}

fn check_star(p: &[Punto], s: &Star) {
    assert!(s.center != s.left && s.center != s.right && s.left != s.right);
    assert_eq!(s.cost.first, sq(&p[s.center], &p[s.left]));
    assert_eq!(s.cost.second, sq(&p[s.center], &p[s.right]));
}

#[test]
fn four_points_pivot_at_origin() {
    let p = pts(&[(0, 0), (0, 5), (1, 0), (5, 5)]);
    for strategy in STRATEGIES {
        for fixed in [1usize, 2, 3, 4, 143] {
            let s = solve(&p, fixed, strategy).unwrap();
            check_star(&p, &s);
            assert_eq!(s.center, 0);
            assert_eq!(value(&s.cost), 6.0);
            let mut leaves = [s.left, s.right];
            leaves.sort();
            assert_eq!(leaves, [1, 2]);
        }
    }
}

#[test]
fn three_collinear_points() {
    let p = pts(&[(0, 0), (1, 0), (2, 0)]);
    for strategy in STRATEGIES {
        for fixed in 3usize..8 {
            let s = solve(&p, fixed, strategy).unwrap();
            assert_eq!(s.center, 1);
            assert_eq!(value(&s.cost), 2.0);
        }
    }
}

#[test]
fn two_points_give_nothing() {
    let p = pts(&[(0, 0), (3, 4)]);
    for strategy in STRATEGIES {
        assert_eq!(solve(&p, 143, strategy), None);
    }
    assert_eq!(solve(&[], 143, Strategy::Sequential), None);
    assert_eq!(solve(&pts(&[(1, 1)]), 143, Strategy::ParallelSplit), None);
}

#[test]
fn random_inputs_match_exhaustive_enumeration() {
    let mut rng = StdRng::seed_from_u64(7);
    for round in 0..60 {
        let n = 3 + round * 3 % 200;
        let span = if round % 3 == 0 { 20 } else { 8000 };
        let p = random_points(&mut rng, n, span);
        let expected = oracle(&p).unwrap();
        for strategy in STRATEGIES {
            for fixed in [3usize, 10, 143] {
                let s = solve(&p, fixed, strategy).unwrap();
                check_star(&p, &s);
                assert!((value(&s.cost) - expected).abs() <= 1e-9 * expected.max(1.0));
            }
        }
    }
}

#[test]
fn sequential_is_deterministic() {
    let mut rng = StdRng::seed_from_u64(11);
    let p = random_points(&mut rng, 150, 500);
    let a = solve(&p, 10, Strategy::Sequential);
    let b = solve(&p, 10, Strategy::Sequential);
    assert_eq!(a, b);
}

#[test]
fn strategies_agree_on_cost() {
    let mut rng = StdRng::seed_from_u64(3);
    let p = random_points(&mut rng, 180, 100);
    let costs: Vec<f64> = STRATEGIES
        .iter()
        .map(|&s| value(&solve(&p, 12, s).unwrap().cost))
        .collect();
    for c in &costs {
        assert_eq!(*c, costs[0]);
    }
}

#[test]
fn equal_cost_is_no_improvement() {
    let first = Star { center: 0, left: 1, right: 2, cost: Cost { first: 1, second: 4 } };
    let tie = Star { center: 3, left: 4, right: 5, cost: Cost { first: 9, second: 0 } };
    let worse = Star { center: 3, left: 4, right: 5, cost: Cost { first: 9, second: 1 } };
    let better = Star { center: 6, left: 7, right: 8, cost: Cost { first: 2, second: 2 } };
    let mut best = None;
    try_improve(&mut best, first);
    assert_eq!(best, Some(first));
    try_improve(&mut best, tie);
    assert_eq!(best, Some(first));
    try_improve(&mut best, worse);
    assert_eq!(best, Some(first));
    try_improve(&mut best, better);
    assert_eq!(best, Some(better));
}

#[test]
fn exact_comparison_of_root_sums() {
    // sqrt(1) + sqrt(4) == sqrt(9) + sqrt(0)
    let a = Cost { first: 1, second: 4 };
    let b = Cost { first: 9, second: 0 };
    assert!(!a.lt(&b));
    assert!(!b.lt(&a));
    // sqrt(2) + sqrt(2) == sqrt(8)
    let c = Cost { first: 2, second: 2 };
    let d = Cost { first: 8, second: 0 };
    assert!(!c.lt(&d));
    assert!(!d.lt(&c));
    // sqrt(2) + sqrt(3) < sqrt(10)
    let e = Cost { first: 2, second: 3 };
    let f = Cost { first: 10, second: 0 };
    assert!(e.lt(&f));
    assert!(!f.lt(&e));
    // sqrt(5) + sqrt(5) < sqrt(1) + sqrt(11)? 4.472 < 4.316 is false
    assert!(!Cost { first: 5, second: 5 }.lt(&Cost { first: 1, second: 11 }));
    assert!(Cost { first: 1, second: 11 }.lt(&Cost { first: 5, second: 5 }));
}

#[test]
fn distances_are_exact_squares() {
    let a = Punto { x: -3, y: 2 };
    let b = Punto { x: 1, y: -1 };
    assert_eq!(a.distancia(&b), 25);
    let c = a.distancia3(&b, &Punto { x: -3, y: 0 });
    assert_eq!(c, Cost { first: 25, second: 4 });
    assert_eq!(value(&c), 7.0);
    assert!(a.total_cmp(&Punto { x: -3, y: 2 }));
    assert!(!a.total_cmp(&Punto { x: -3, y: 5 }));
    assert!(a.x_eq(&Punto { x: -3, y: 5 }));
    assert_eq!(a.x_compare(&b), std::cmp::Ordering::Less);
    assert_eq!(b.x_compare(&a), std::cmp::Ordering::Greater);
    assert_eq!(a.x_compare_to(-3), std::cmp::Ordering::Equal);
}

#[test]
fn rejects_out_of_range_and_unsorted() {
    let far = pts(&[(0, 0), (1, 600_000_000), (2, 0)]);
    assert_eq!(solve_checked(&far, 143, Strategy::Sequential), Err(SolveError::OutOfRange));
    let unsorted = pts(&[(0, 0), (2, 0), (1, 0)]);
    assert_eq!(solve_checked(&unsorted, 143, Strategy::Sequential), Err(SolveError::Unsorted));
    let good = pts(&[(0, 0), (1, 0), (2, 0)]);
    let s = solve_checked(&good, 143, Strategy::Sequential).unwrap().unwrap();
    assert_eq!(value(&s.cost), 2.0);
}

#[test]
fn same_x_block_is_still_searched() {
    let p = pts(&[(4, 0), (4, 3), (4, 7), (4, 20)]);
    for strategy in STRATEGIES {
        let s = solve(&p, 2, strategy).unwrap();
        assert_eq!(s.center, 1);
        assert_eq!(value(&s.cost), 7.0);
    }
}

#[test]
fn strip_bounds_around_split() {
    let p = pts(&[(0, 0), (5, 0), (8, 0), (10, 0), (11, 0), (13, 0), (20, 0)]);
    let best = Some(Star { center: 0, left: 1, right: 2, cost: Cost { first: 9, second: 0 } });
    // strip around x = 10 with cost 3: points with |x - 10| <= 3
    assert_eq!(get_points_between(&p, 0, 7, 10, &best), (2, 6));
    // points exactly the cost away from the split belong to the strip
    let q = pts(&[(7, 0), (7, 0), (10, 0)]);
    assert_eq!(get_points_between(&q, 0, 3, 10, &best), (0, 3));
    let r = pts(&[(6, 0), (7, 0), (10, 0), (13, 0), (14, 0)]);
    assert_eq!(get_points_between(&r, 0, 5, 10, &best), (1, 4));
    assert_eq!(get_points_between(&p, 0, 7, 10, &None), (0, 7));
}

#[test]
fn straddling_star_found_only_when_cheaper() {
    // halves [0, 3) and [3, 6); the cheapest star straddles the split
    let p = pts(&[(0, 0), (0, 10), (0, 20), (1, 0), (1, 10), (1, 20)]);
    let left = solve_range(&p, 0, 3, 143, false);
    let right = solve_range(&p, 3, 6, 143, false);
    assert_eq!(value(&left.unwrap().cost), 20.0);
    assert_eq!(value(&right.unwrap().cost), 20.0);
    let mut best = left;
    try_improve(&mut best, right.unwrap());
    let before = best;
    recheck_actual_best(&p, 0, 3, 6, &mut best, false);
    assert_ne!(best, before);
    let s = best.unwrap();
    assert_eq!(value(&s.cost), 11.0);
    assert!([s.center, s.left, s.right].iter().any(|&t| t < 3));
    assert!([s.center, s.left, s.right].iter().any(|&t| t >= 3));

    // here no star across the split beats the halves
    let q = pts(&[(0, 0), (0, 1), (0, 2), (50, 0), (50, 1), (50, 2)]);
    let mut best = solve_range(&q, 0, 3, 143, false);
    try_improve(&mut best, solve_range(&q, 3, 6, 143, false).unwrap());
    let before = best;
    recheck_actual_best(&q, 0, 3, 6, &mut best, true);
    assert_eq!(best, before);
}

#[test]
fn split_and_merge_by_hand() {
    let mut rng = StdRng::seed_from_u64(5);
    let p = random_points(&mut rng, 120, 300);
    let mid = split_index(&p);
    let twice_mid = p[0].x + p[p.len() - 1].x;
    assert!(2 * p[mid].x >= twice_mid);
    assert!(mid == 0 || 2 * p[mid - 1].x < twice_mid);
    let left = solve_range(&p, 0, mid, 16, false);
    let right = solve_range(&p, mid, p.len(), 16, false);
    let merged = merge_halves(&p, mid, left, right, false).unwrap();
    assert_eq!(value(&merged.cost), oracle(&p).unwrap());
}

#[test]
fn wide_and_scalar_scans_agree() {
    let mut rng = StdRng::seed_from_u64(9);
    let p = random_points(&mut rng, 60, 40);
    let best = Some(Star { center: 0, left: 1, right: 2, cost: Cost { first: 49, second: 0 } });
    for i in 0..p.len() - 1 {
        for j in i + 1..=p.len() {
            let a = next_candidate(&p, i, j, p.len(), &best, false);
            let b = next_candidate(&p, i, j, p.len(), &best, true);
            assert_eq!(a, b);
        }
    }
}

#[test]
fn block_search_is_exhaustive() {
    let mut rng = StdRng::seed_from_u64(13);
    let p = random_points(&mut rng, 40, 1000);
    let mut best = None;
    solve_block(&p, 0, p.len(), &mut best, false);
    assert_eq!(value(&best.unwrap().cost), oracle(&p).unwrap());
}

#[test]
fn search_value_reports_cost_and_indices() {
    let p = pts(&[(0, 0), (0, 5), (1, 0), (5, 5)]);
    let mut d = DyV::new(&p);
    assert_eq!(d.get_points(), None);
    let c = d.start().unwrap();
    assert_eq!(value(&c), 6.0);
    let idx = d.get_points().unwrap();
    assert_eq!(idx[0], 0);
    let mut e = DyV::new_with_fixed(&p, 2);
    assert_eq!(e.start_it(), Some(c));
    let mut f = DyV::with_strategy(&p, 2, Strategy::VectorizedScan);
    assert_eq!(f.start(), Some(c));
}

#[test]
fn wide_products_are_exact() {
    assert_eq!(mul_wide(u128::MAX, u128::MAX), (u128::MAX - 1, 1));
    assert_eq!(mul_wide(1 << 64, 1 << 64), (1, 0));
    assert_eq!(mul_wide(3, 5), (0, 15));
    assert!(wide_lt((0, u128::MAX), (1, 0)));
    assert!(!wide_lt((1, 0), (1, 0)));
}

#[test]
fn exact_ties_at_the_coordinate_limit() {
    let k: u64 = 1 << 29;
    // 2k == k + k
    let a = Cost { first: 4 * k * k, second: 0 };
    let b = Cost { first: k * k, second: k * k };
    assert!(!a.lt(&b));
    assert!(!b.lt(&a));
    let c = Cost { first: k * k, second: k * k - 1 };
    assert!(c.lt(&a));
    assert!(!a.lt(&c));
}

#[test]
fn large_coordinates_match_exhaustive_enumeration() {
    let mut rng = StdRng::seed_from_u64(17);
    for n in [3usize, 7, 40, 120] {
        let p = random_points(&mut rng, n, 536_870_912);
        let expected = oracle(&p).unwrap();
        for strategy in STRATEGIES {
            let s = solve(&p, 8, strategy).unwrap();
            check_star(&p, &s);
            assert!((value(&s.cost) - expected).abs() <= 1e-9 * expected);
        }
    }
}

#[test]
fn every_engine_finds_the_same_cost() {
    let mut rng = StdRng::seed_from_u64(21);
    let p = random_points(&mut rng, 400, 2000);
    let expected = DyV::new(&p).start().unwrap();
    let mut it = DyVIT::new(&p);
    let mut alt = DyVAlt::new_with_fixed(&p, 17);
    let mut simd = DyVSIMD::new(&p);
    let mut mt = DyVMT::new(&p);
    for c in [it.start(), alt.start(), simd.start(), mt.start()] {
        assert_eq!(value(&c.unwrap()), value(&expected));
    }
    for idx in [it.get_points(), alt.get_points(), simd.get_points(), mt.get_points()] {
        let [c, a, b] = idx.unwrap();
        assert_eq!(value(&Cost { first: sq(&p[c], &p[a]), second: sq(&p[c], &p[b]) }), value(&expected));
    }
}

#[test]
fn repeated_runs_return_the_same_star() {
    let mut rng = StdRng::seed_from_u64(23);
    let p = random_points(&mut rng, 300, 60);
    let mut a = DyV::new(&p);
    a.start();
    let mut b = DyV::new(&p);
    b.start();
    assert_eq!(a.get_points(), b.get_points());
    assert_eq!(
        solve(&p, 20, Strategy::Sequential),
        solve(&p, 20, Strategy::VectorizedScan)
    );
}
