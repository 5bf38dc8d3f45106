//! Enumerates the ways to lay the eight tiles of a calendar puzzle on its
//! board so that exactly the chosen cells stay uncovered.
//!
//! [`piece`] holds the grid type shared by the board and the tiles, with its
//! symmetries; [`board`] the fixed board, tiles and cell labels;
//! [`placement`] every position of a tile; [`solver`] the backtracking search
//! and the parallel driver; [`solution`] what is reported of a solution;
//! [`cover`] the count of filled cells, and why a flat complete solution
//! covers the board exactly.
pub mod board;
pub mod cover;
pub mod piece;
pub mod placement;
pub mod solution;
pub mod solver;
