//! A perfect-maze generator driven one step at a time by a randomized,
//! stack-based depth-first carving algorithm.

pub mod grid;
pub mod model;
pub mod theorems;
pub mod maze;
