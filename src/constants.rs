//! Tuning constants. Fractions are fixed-point integers over `ONE`.
use vstd::prelude::*;

verus! {

/// The fixed-point representation of 1.0 for scores, rates and probabilities.
pub const ONE: u64 = 1_000_000;

/// The fixed-point representation of 1.0 for standard deviations of population sizes.
pub const STD_ONE: u64 = 1000;

/// A cell's side is this fraction (as a divisor) of the window's side.
pub const SCALE_DIVISOR: usize = 20;

pub const WINDOW_WIDTH_MAX: usize = 800;
pub const WINDOW_HEIGHT_MAX: usize = 800;

/// The largest number of cells a grid may hold; it keeps the exact running
/// statistics of a run within 128-bit arithmetic.
pub const MAX_GRID_CELLS: usize = 16_777_216;

/// The largest number of steps a grid may take.
pub const MAX_STEPS: usize = 16_777_216;

// Simulation limits.
pub const MAX_POPULATION_REPEATS: usize = 24;
pub const MAX_POPULATION_AGE: usize = 2000;
pub const MAX_CYCLE_LENGTH: usize = 24;

// The agent.
pub const MAX_STATE_SPACE_SIZE: usize = 820;
pub const MIN_DIVERSITY: usize = 5;

// Exploration and exploitation.
pub const EPSILON: u64 = 200_000;
pub const MAX_EPSILON: u64 = 800_000;
pub const MIN_EPSILON: u64 = 50_000;
pub const INCREASE_FACTOR: u64 = 200;
pub const DECREASE_FACTOR: u64 = 100;

// The genetic algorithm.
pub const TOURNAMENT_WINNERS_PERCENTAGE: u64 = 700_000;
pub const SELECTION_PRESSURE: u64 = 780_000;
pub const MUTATION_RATE: u64 = 200_000;
pub const CROSSOVER_RATE: u64 = 720_000;
pub const MAX_CROSSOVER_POINTS: u64 = 500_000;
pub const MAX_CROSSOVER_SECTION_SIZE: u64 = 500_000;
pub const MAX_MUTATION_POINTS: u64 = 300_000;

} // verus!
