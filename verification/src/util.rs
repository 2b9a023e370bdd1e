//! Small containers and helpers.

pub mod iter;
pub mod vec_or_deque;
