//! Tabular Q-learning on a square grid world.
//!
//! Values in the learned table are fixed-point integers: `q_table::SCALE`
//! units stand for one unit of reward.

pub mod action;
pub mod grid_world;
pub mod q_table;
pub mod state;
