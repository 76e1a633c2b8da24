//! The minimum star triple of a set of points in the plane: three distinct
//! points, a centre and two leaves, whose two edges from the centre have the
//! least total Euclidean length.
//!
//! Points have integer coordinates. A length is held exactly as its square, and
//! costs, sums of two square roots, are compared exactly in integer arithmetic
//! (`punto::Cost::lt`). Contracts speak of real costs through any function `rt`
//! that returns square roots (`arith::is_root_fn`): a statement holds for every
//! such `rt`, hence for the square root itself.
//!
//! The search is a divide and conquer over points sorted by x: exhaustive search
//! of small blocks (`block`), a merge that searches the strip around each split
//! (`strip`), and several strategies behind one entry point (`engine::solve`).
pub mod arith;
pub mod wide;
pub mod punto;
pub mod star;
pub mod block;
pub mod strip;
pub mod engine;
pub mod laws;
pub mod dyv;
