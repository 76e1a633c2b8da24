//! A search bound to one borrowed point sequence, as a value with a life of its own.
use vstd::prelude::*;
use crate::punto::{Punto, Cost};
use crate::star::{Star, well_formed};
use crate::engine::{solve, optimal, solve_spec, Strategy, FIXED_POINTS};

verus! {

/// Search over points that ascend by x, with the strategy chosen at construction.
pub struct DyV<'a> {
    pub puntos: &'a [Punto],
    pub best: Option<Star>,
    pub fixed_points: usize,
    pub strategy: Strategy,
}

impl<'a> DyV<'a> {
    /// The points searched.
    pub open spec fn points(&self) -> Seq<Punto> {
        self.puntos@
    }

    /// The cheapest star found so far.
    pub open spec fn found(&self) -> Option<Star> {
        self.best
    }

    /// A search with blocks of `fixed_points` points and the sequential strategy.
    pub fn new_with_fixed(puntos: &'a [Punto], fixed_points: usize) -> (r: Self)
        ensures
            r.points() == puntos@,
            r.found() is None,
            r.fixed_points == fixed_points,
            r.strategy == Strategy::Sequential,
    {
        DyV { puntos, best: None, fixed_points, strategy: Strategy::Sequential }
    }

    /// A search with the default block size and the sequential strategy.
    pub fn new(puntos: &'a [Punto]) -> (r: Self)
        ensures
            r.points() == puntos@,
            r.found() is None,
            r.fixed_points == FIXED_POINTS,
            r.strategy == Strategy::Sequential,
    {
        Self::new_with_fixed(puntos, FIXED_POINTS)
    }

    /// A search with blocks of `fixed_points` points and the given strategy.
    pub fn with_strategy(puntos: &'a [Punto], fixed_points: usize, strategy: Strategy) -> (r: Self)
        ensures
            r.points() == puntos@,
            r.found() is None,
            r.fixed_points == fixed_points,
            r.strategy == strategy,
    {
        DyV { puntos, best: None, fixed_points, strategy }
    }

    /// Runs the search with the chosen strategy and returns the least cost.
    pub fn start(&mut self) -> (r: Option<Cost>)
        requires
            well_formed(old(self).points()),
        ensures
            final(self).points() == old(self).points(),
            final(self).fixed_points == old(self).fixed_points,
            final(self).strategy == old(self).strategy,
            optimal(final(self).points(), final(self).found()),
            final(self).found() == solve_spec(old(self).points(), old(self).fixed_points as int, old(self).strategy),
            r == (match final(self).found() {
                Some(s) => Some(s.cost),
                None => None,
            }),
    {
        self.best = solve(self.puntos, self.fixed_points, self.strategy);
        match self.best {
            Some(s) => Some(s.cost),
            None => None,
        }
    }

    /// Runs the block-iterative search and returns the least cost.
    pub fn start_it(&mut self) -> (r: Option<Cost>)
        requires
            well_formed(old(self).points()),
        ensures
            final(self).points() == old(self).points(),
            final(self).fixed_points == old(self).fixed_points,
            final(self).strategy == old(self).strategy,
            optimal(final(self).points(), final(self).found()),
            final(self).found() == solve_spec(old(self).points(), old(self).fixed_points as int, Strategy::BlockIterative),
            r == (match final(self).found() {
                Some(s) => Some(s.cost),
                None => None,
            }),
    {
        self.best = solve(self.puntos, self.fixed_points, Strategy::BlockIterative);
        match self.best {
            Some(s) => Some(s.cost),
            None => None,
        }
    }

    /// Indices of the centre and of the two leaves of the star found.
    pub fn get_points(&self) -> (r: Option<[usize; 3]>)
        ensures
            r is Some <==> self.found() is Some,
            r is Some ==> r.unwrap()@ == seq![
                self.found().unwrap().center,
                self.found().unwrap().left,
                self.found().unwrap().right,
            ],
    {
        match self.best {
            Some(s) => {
                let a = [s.center, s.left, s.right];
                proof {
                    assert(a@ =~= seq![s.center, s.left, s.right]);
                }
                Some(a)
            },
            None => None,
        }
    }
}

/// Block-iterative search: chunks searched one by one, then merged left to right.
pub struct DyVIT<'a> {
    pub search: DyV<'a>,
}

impl<'a> DyVIT<'a> {
    /// The points searched.
    pub open spec fn points(&self) -> Seq<Punto> {
        self.search.puntos@
    }

    /// The cheapest star found so far.
    pub open spec fn found(&self) -> Option<Star> {
        self.search.best
    }

    /// A search with blocks of `fixed_points` points.
    pub fn new_with_fixed(puntos: &'a [Punto], fixed_points: usize) -> (r: Self)
        ensures
            r.points() == puntos@,
            r.found() is None,
            r.search.fixed_points == fixed_points,
            r.search.strategy == Strategy::BlockIterative,
    {
        DyVIT { search: DyV::with_strategy(puntos, fixed_points, Strategy::BlockIterative) }
    }

    /// A search with the default block size of this strategy.
    pub fn new(puntos: &'a [Punto]) -> (r: Self)
        ensures
            r.points() == puntos@,
            r.found() is None,
            r.search.fixed_points == 108,
            r.search.strategy == Strategy::BlockIterative,
    {
        Self::new_with_fixed(puntos, 108)
    }

    /// Runs the search and returns the least cost.
    pub fn start(&mut self) -> (r: Option<Cost>)
        requires
            well_formed(old(self).points()),
        ensures
            final(self).points() == old(self).points(),
            final(self).search.fixed_points == old(self).search.fixed_points,
            final(self).search.strategy == old(self).search.strategy,
            optimal(final(self).points(), final(self).found()),
            final(self).found() == solve_spec(old(self).points(), old(self).search.fixed_points as int, old(self).search.strategy),
            r == (match final(self).found() {
                Some(s) => Some(s.cost),
                None => None,
            }),
    {
        self.search.start()
    }

    /// Indices of the centre and of the two leaves of the star found.
    pub fn get_points(&self) -> (r: Option<[usize; 3]>)
        ensures
            r is Some <==> self.found() is Some,
            r is Some ==> r.unwrap()@ == seq![
                self.found().unwrap().center,
                self.found().unwrap().left,
                self.found().unwrap().right,
            ],
    {
        self.search.get_points()
    }
}

/// Block-iterative search with its own default block size.
pub struct DyVAlt<'a> {
    pub search: DyV<'a>,
}

impl<'a> DyVAlt<'a> {
    /// The points searched.
    pub open spec fn points(&self) -> Seq<Punto> {
        self.search.puntos@
    }

    /// The cheapest star found so far.
    pub open spec fn found(&self) -> Option<Star> {
        self.search.best
    }

    /// A search with blocks of `fixed_points` points.
    pub fn new_with_fixed(puntos: &'a [Punto], fixed_points: usize) -> (r: Self)
        ensures
            r.points() == puntos@,
            r.found() is None,
            r.search.fixed_points == fixed_points,
            r.search.strategy == Strategy::BlockIterative,
    {
        DyVAlt { search: DyV::with_strategy(puntos, fixed_points, Strategy::BlockIterative) }
    }

    /// A search with the default block size of this strategy.
    pub fn new(puntos: &'a [Punto]) -> (r: Self)
        ensures
            r.points() == puntos@,
            r.found() is None,
            r.search.fixed_points == 130,
            r.search.strategy == Strategy::BlockIterative,
    {
        Self::new_with_fixed(puntos, 130)
    }

    /// Runs the search and returns the least cost.
    pub fn start(&mut self) -> (r: Option<Cost>)
        requires
            well_formed(old(self).points()),
        ensures
            final(self).points() == old(self).points(),
            final(self).search.fixed_points == old(self).search.fixed_points,
            final(self).search.strategy == old(self).search.strategy,
            optimal(final(self).points(), final(self).found()),
            final(self).found() == solve_spec(old(self).points(), old(self).search.fixed_points as int, old(self).search.strategy),
            r == (match final(self).found() {
                Some(s) => Some(s.cost),
                None => None,
            }),
    {
        self.search.start()
    }

    /// Indices of the centre and of the two leaves of the star found.
    pub fn get_points(&self) -> (r: Option<[usize; 3]>)
        ensures
            r is Some <==> self.found() is Some,
            r is Some ==> r.unwrap()@ == seq![
                self.found().unwrap().center,
                self.found().unwrap().left,
                self.found().unwrap().right,
            ],
    {
        self.search.get_points()
    }
}

/// Recursive search whose partner scan tests four points at a time.
pub struct DyVSIMD<'a> {
    pub search: DyV<'a>,
}

impl<'a> DyVSIMD<'a> {
    /// The points searched.
    pub open spec fn points(&self) -> Seq<Punto> {
        self.search.puntos@
    }

    /// The cheapest star found so far.
    pub open spec fn found(&self) -> Option<Star> {
        self.search.best
    }

    /// A search with blocks of `fixed_points` points.
    pub fn new_with_fixed(puntos: &'a [Punto], fixed_points: usize) -> (r: Self)
        ensures
            r.points() == puntos@,
            r.found() is None,
            r.search.fixed_points == fixed_points,
            r.search.strategy == Strategy::VectorizedScan,
    {
        DyVSIMD { search: DyV::with_strategy(puntos, fixed_points, Strategy::VectorizedScan) }
    }

    /// A search with the default block size of this strategy.
    pub fn new(puntos: &'a [Punto]) -> (r: Self)
        ensures
            r.points() == puntos@,
            r.found() is None,
            r.search.fixed_points == 98,
            r.search.strategy == Strategy::VectorizedScan,
    {
        Self::new_with_fixed(puntos, 98)
    }

    /// Runs the search and returns the least cost.
    pub fn start(&mut self) -> (r: Option<Cost>)
        requires
            well_formed(old(self).points()),
        ensures
            final(self).points() == old(self).points(),
            final(self).search.fixed_points == old(self).search.fixed_points,
            final(self).search.strategy == old(self).search.strategy,
            optimal(final(self).points(), final(self).found()),
            final(self).found() == solve_spec(old(self).points(), old(self).search.fixed_points as int, old(self).search.strategy),
            r == (match final(self).found() {
                Some(s) => Some(s.cost),
                None => None,
            }),
    {
        self.search.start()
    }

    /// Indices of the centre and of the two leaves of the star found.
    pub fn get_points(&self) -> (r: Option<[usize; 3]>)
        ensures
            r is Some <==> self.found() is Some,
            r is Some ==> r.unwrap()@ == seq![
                self.found().unwrap().center,
                self.found().unwrap().left,
                self.found().unwrap().right,
            ],
    {
        self.search.get_points()
    }
}

/// Search split once at the x midpoint, the two halves solved apart and merged;
/// the halves are independent, so a caller may solve them on two threads with
/// `engine::solve_range` and join them with `engine::merge_halves`.
pub struct DyVMT<'a> {
    pub search: DyV<'a>,
}

impl<'a> DyVMT<'a> {
    /// The points searched.
    pub open spec fn points(&self) -> Seq<Punto> {
        self.search.puntos@
    }

    /// The cheapest star found so far.
    pub open spec fn found(&self) -> Option<Star> {
        self.search.best
    }

    /// A search with blocks of `fixed_points` points.
    pub fn new_with_fixed(puntos: &'a [Punto], fixed_points: usize) -> (r: Self)
        ensures
            r.points() == puntos@,
            r.found() is None,
            r.search.fixed_points == fixed_points,
            r.search.strategy == Strategy::ParallelSplit,
    {
        DyVMT { search: DyV::with_strategy(puntos, fixed_points, Strategy::ParallelSplit) }
    }

    /// A search with the default block size of this strategy.
    pub fn new(puntos: &'a [Punto]) -> (r: Self)
        ensures
            r.points() == puntos@,
            r.found() is None,
            r.search.fixed_points == 126,
            r.search.strategy == Strategy::ParallelSplit,
    {
        Self::new_with_fixed(puntos, 126)
    }

    /// Runs the search and returns the least cost.
    pub fn start(&mut self) -> (r: Option<Cost>)
        requires
            well_formed(old(self).points()),
        ensures
            final(self).points() == old(self).points(),
            final(self).search.fixed_points == old(self).search.fixed_points,
            final(self).search.strategy == old(self).search.strategy,
            optimal(final(self).points(), final(self).found()),
            final(self).found() == solve_spec(old(self).points(), old(self).search.fixed_points as int, old(self).search.strategy),
            r == (match final(self).found() {
                Some(s) => Some(s.cost),
                None => None,
            }),
    {
        self.search.start()
    }

    /// Indices of the centre and of the two leaves of the star found.
    pub fn get_points(&self) -> (r: Option<[usize; 3]>)
        ensures
            r is Some <==> self.found() is Some,
            r is Some ==> r.unwrap()@ == seq![
                self.found().unwrap().center,
                self.found().unwrap().left,
                self.found().unwrap().right,
            ],
    {
        self.search.get_points()
    }
}

} // verus!
