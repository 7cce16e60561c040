//! Edge-matching tiling puzzles on a square grid of at most four by four tiles:
//! the packed encoding of edges, tiles and boards, the symmetry transforms of a
//! tile, a whole-word validity test, a permutation enumerator and a
//! backtracking placement search.

pub mod edge;
pub mod tile;
pub mod grid;
pub mod rule;
pub mod solver;
pub mod word;
pub mod board;
pub mod permute;
