//! Solvers for a collection of small daily puzzles.
//!
//! The centrepiece is the bounded-horizon production scheduler in
//! [`scheduler`]: a breadth-first search over production states with
//! dominance pruning and frontier deduplication, driven from [`task19`].
//! The remaining modules are self-contained solvers for other days, and
//! [`text`] holds the byte-string parsing they share.

pub mod scheduler;
pub mod task2;
pub mod task4;
pub mod task5;
pub mod task10;
pub mod task12;
pub mod task19;
pub mod task20;
pub mod task25;
pub mod text;
