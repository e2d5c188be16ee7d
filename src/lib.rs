//! Dense boolean matrices stored one bit per cell, and directed graphs that
//! use such a matrix as their adjacency relation.
pub mod booleanmatrix;
pub mod graph;
pub mod imaging;
