//! A maze construction and solving engine.
//!
//! A rectangular grid of cells is connected by removable walls.  Eight
//! incremental generation engines carve a perfect maze (a spanning tree
//! of the grid: every pair of cells joined by exactly one path), one
//! small step at a time, and a depth-first solver finds the path
//! between two cells of a finished maze.

pub mod aldousbroder;
pub mod binarytree;
pub mod cellset;
pub mod depthfirstsearch;
pub mod grid;
pub mod huntandkill;
pub mod kruskal;
pub mod maze;
pub mod path;
pub mod prim;
pub mod randomizedprim;
pub mod rng;
pub mod solver;
pub mod tree;
pub mod wilson;
