//! A* algorithm for path planning.
//!
//! The engine performs an incremental, resumable best-first search over a
//! search space supplied through the [`cartographer::Cartographer`] trait:
//! the caller seeds the search with [`engine::AStar::reset`], steps it with
//! [`engine::AStar::loop_once`] until that returns false, then reads the
//! outcome with [`engine::AStar::get_path`], [`engine::AStar::get_first_step`]
//! and [`engine::AStar::is_goal_found`].
//!
//! Costs are unsigned integers; cost arithmetic saturates at `u64::MAX`,
//! which stands for an unreachable (infinite) total.

pub mod cartographer;
pub mod engine;
pub mod grid;
pub mod node;
pub mod node_info;
pub mod node_map;
