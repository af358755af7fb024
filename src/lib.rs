//! A random perfect-maze generator over a rectangular grid, built on a
//! randomized Kruskal construction whose correctness is proved.
pub mod direction;
pub mod edge;
pub mod maze;
pub mod carve;
pub mod generate;
