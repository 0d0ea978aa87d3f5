//! Perfect-maze generation by randomised depth-first backtracking, and
//! rendering of the finished maze into an RGB pixel buffer.

pub mod canvas;
pub mod maze;
pub mod render;
pub mod rng;
