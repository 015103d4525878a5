//! Exhaustive tiling of a finite, irregular 2D region with labeled polyomino
//! shapes. The board tracks the filled/unfilled partition of a fixed cell
//! domain, the variant generator expands each shape into its rotations and
//! reflections, and the solver enumerates every full covering by explicit-stack
//! backtracking with a flood-fill reachability prune. A decomposer harvests
//! every placement of a shape prefix so that independent solvers can continue
//! the search in parallel.

pub mod board;
pub mod geometry;
pub mod parallel;
pub mod solver;
pub mod stringify;
