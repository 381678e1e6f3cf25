//! Reachability and routing on a rectangular grid of cells: movement ranges
//! under a caller-supplied edge cost, action ranges as unions of Manhattan
//! rings, and cheapest paths between two cells.

pub mod action;
pub mod geometry;
pub mod movement;
pub mod path;
pub mod queue;
pub mod route;
