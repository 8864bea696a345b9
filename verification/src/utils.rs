//! Helpers shared by the models and the planner.

pub mod distance;
pub mod finite;
pub mod leg_key;
pub mod ordered;
pub mod skyline;
