//! Perfect mazes on the surface of a cylinder: a grid of cells whose columns
//! wrap around while its rows stop at the top and bottom, carved by Wilson's
//! algorithm (loop-erased random walks) into a uniform spanning tree, with a
//! breadth-first solver that checks which cells reach which.
pub mod count;
pub mod generated;
pub mod maze;
pub mod tree;
pub mod wilson;

pub use maze::{Cell, CylinderMaze};
pub use wilson::Wilson;
