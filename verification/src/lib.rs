//! Core library of verified utilities: an incremental A* pathfinding
//! engine over pluggable search spaces, integer math helpers, and
//! generic role traits.

pub mod astar;
pub mod math_lib;
pub mod role;
