//! Search for Game-of-Life seed configurations that score well under a
//! population-survival fitness measure, driven by an epsilon-greedy agent that
//! keeps a bounded cache of evaluated seeds and evolves it with a genetic
//! algorithm.
//!
//! Scores, rates and the exploration probability are fixed-point integers:
//! `ONE` (one million) stands for 1.0.

pub mod agent;
pub mod bits;
pub mod constants;
pub mod fitness;
pub mod ga;
pub mod grid;
pub mod random;
pub mod space;
