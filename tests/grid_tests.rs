use life_search::bits::State;
use life_search::grid::{get_num_cells, integer_sqrt, simulate, Grid};

fn seed(cols: usize, rows: usize, alive: &[(usize, usize)]) -> State {
    let mut cells = vec![false; cols * rows];
    for &(x, y) in alive {
        cells[y * cols + x] = true;
    }
    State::from_bools(&cells)
}

fn blinker() -> State {
    seed(5, 5, &[(1, 2), (2, 2), (3, 2)])
}

#[test]
fn num_cells_is_fixed_by_scale() {
    assert_eq!(get_num_cells(800, 800), 400);
    assert_eq!(get_num_cells(400, 800), 400);
    assert_eq!(get_num_cells(17, 1234), 400);
    assert_eq!(get_num_cells(0, 800), 0);
}

#[test]
fn window_grid_has_twenty_by_twenty_cells() {
    let state = State::from_bools(&vec![false; 400]);
    let grid = Grid::new(800, 600, &state);
    assert_eq!(grid.columns, 20);
    assert_eq!(grid.rows, 20);
    assert_eq!(grid.num_cells, 400);
    assert_eq!(grid.population, 0);
}

#[test]
fn seed_sets_initial_population() {
    let grid = Grid::from_dimensions(5, 5, &blinker());
    assert_eq!(grid.population, 3);
    assert_eq!(grid.initial_population, 3);
    assert_eq!(grid.final_population, 0);
    assert_eq!(grid.population_age, 0);
}

#[test]
fn blinker_oscillates_with_period_two() {
    let mut grid = Grid::from_dimensions(5, 5, &blinker());
    let start = grid.cells.clone();
    grid.update();
    let mut vertical = vec![false; 25];
    vertical[1 * 5 + 2] = true;
    vertical[2 * 5 + 2] = true;
    vertical[3 * 5 + 2] = true;
    assert_eq!(grid.cells, vertical);
    assert_eq!(grid.population, 3);
    grid.update();
    assert_eq!(grid.cells, start);
    assert_eq!(grid.population, 3);
    assert_eq!(grid.population_age, 2);
    assert_eq!(grid.final_population, 3);
}

#[test]
fn blinker_population_repeats_every_step() {
    let mut grid = Grid::from_dimensions(5, 5, &blinker());
    let mut populations = vec![grid.population];
    for _ in 0..10 {
        grid.update();
        populations.push(grid.population);
    }
    for t in 0..populations.len() - 2 {
        assert_eq!(populations[t], populations[t + 2]);
    }
}

#[test]
fn blinker_run_stops_on_repeats_before_max_age() {
    let outcome = simulate(5, 5, &blinker(), 2000, 24);
    assert_eq!(outcome.initial_population, 3);
    assert_eq!(outcome.final_population, 3);
    assert_eq!(outcome.age, 24);
    assert_eq!(outcome.standard_deviation, 0);
}

#[test]
fn blinker_in_window_grid_stops_early() {
    let mut cells = vec![false; 400];
    cells[10 * 20 + 9] = true;
    cells[10 * 20 + 10] = true;
    cells[10 * 20 + 11] = true;
    let outcome = simulate(20, 20, &State::from_bools(&cells), 2000, 24);
    assert_eq!(outcome.age, 24);
    assert_eq!(outcome.final_population, 3);
}

#[test]
fn dead_three_by_three_goes_extinct() {
    let state = State::from_bools(&vec![false; 9]);
    let mut grid = Grid::from_dimensions(3, 3, &state);
    grid.update();
    assert_eq!(grid.population, 0);
    assert_eq!(grid.final_population, 0);
    let outcome = simulate(3, 3, &state, 2000, 24);
    assert_eq!(outcome.age, 0);
    assert_eq!(outcome.final_population, 0);
    assert_eq!(outcome.standard_deviation, 0);
}

#[test]
fn lone_cell_dies_in_one_step() {
    let outcome = simulate(3, 3, &seed(3, 3, &[(1, 1)]), 2000, 24);
    assert_eq!(outcome.initial_population, 1);
    assert_eq!(outcome.final_population, 0);
    assert_eq!(outcome.age, 1);
}

#[test]
fn block_is_still() {
    let state = seed(4, 4, &[(1, 1), (2, 1), (1, 2), (2, 2)]);
    let mut grid = Grid::from_dimensions(4, 4, &state);
    let before = grid.cells.clone();
    grid.update();
    assert_eq!(grid.cells, before);
}

#[test]
fn corner_cells_have_no_wraparound() {
    // Three live cells in a corner L: the fourth corner cell is born, nothing wraps.
    let state = seed(4, 4, &[(0, 0), (1, 0), (0, 1)]);
    let mut grid = Grid::from_dimensions(4, 4, &state);
    grid.update();
    let mut expected = vec![false; 16];
    expected[0] = true;
    expected[1] = true;
    expected[4] = true;
    expected[5] = true;
    assert_eq!(grid.cells, expected);
}

#[test]
fn glider_settles_into_a_block() {
    let state = seed(6, 6, &[(1, 0), (2, 1), (0, 2), (1, 2), (2, 2)]);
    let outcome = simulate(6, 6, &state, 2000, 24);
    assert_eq!(outcome.initial_population, 5);
    assert_eq!(outcome.final_population, 4);
    assert_eq!(outcome.age, 39);
    assert_eq!(outcome.standard_deviation, 510);
}

#[test]
fn r_pentomino_in_small_box_dies() {
    let state = seed(8, 8, &[(2, 2), (3, 2), (1, 3), (2, 3), (2, 4)]);
    let outcome = simulate(8, 8, &state, 2000, 24);
    assert_eq!(outcome.initial_population, 5);
    assert_eq!(outcome.final_population, 0);
    assert_eq!(outcome.age, 20);
    assert_eq!(outcome.standard_deviation, 3662);
}

#[test]
fn max_age_bounds_the_run() {
    let outcome = simulate(5, 5, &blinker(), 5, 24);
    assert_eq!(outcome.age, 5);
    let outcome = simulate(5, 5, &blinker(), 0, 24);
    assert_eq!(outcome.age, 0);
    assert_eq!(outcome.final_population, 3);
}

#[test]
fn simulation_is_deterministic() {
    let state = seed(8, 8, &[(2, 2), (3, 2), (1, 3), (2, 3), (2, 4), (6, 6)]);
    let a = simulate(8, 8, &state, 2000, 24);
    let b = simulate(8, 8, &state, 2000, 24);
    assert_eq!(a.final_population, b.final_population);
    assert_eq!(a.age, b.age);
    assert_eq!(a.standard_deviation, b.standard_deviation);
}

#[test]
fn standard_deviation_of_steps() {
    // Populations after each step of the glider run start 5, 5, 5, 5, ...: no spread.
    let state = seed(6, 6, &[(1, 0), (2, 1), (0, 2), (1, 2), (2, 2)]);
    let mut grid = Grid::from_dimensions(6, 6, &state);
    assert_eq!(grid.standard_deviation(), 0);
    grid.update();
    assert_eq!(grid.standard_deviation(), 0);
    grid.update();
    assert_eq!(grid.population_sum, 10);
    assert_eq!(grid.population_sq_sum, 50);
    assert_eq!(grid.standard_deviation(), 0);
}

#[test]
fn cycle_average_is_sampled_every_cycle() {
    let mut grid = Grid::from_dimensions(5, 5, &blinker());
    for _ in 0..23 {
        grid.update();
    }
    assert_eq!(grid.cycle_sum, 69);
    grid.update();
    assert_eq!(grid.cycle_sum, 0);
    assert_eq!(grid.cycle_average, 2);
}

#[test]
fn integer_square_roots() {
    assert_eq!(integer_sqrt(0), 0);
    assert_eq!(integer_sqrt(1), 1);
    assert_eq!(integer_sqrt(15), 3);
    assert_eq!(integer_sqrt(16), 4);
    assert_eq!(integer_sqrt(400), 20);
    assert_eq!(integer_sqrt(u128::MAX), u64::MAX);
}

#[test]
fn state_bits_round_trip() {
    let bits = vec![true, false, false, true, true];
    let state = State::from_bools(&bits);
    assert_eq!(state.to_bools(), bits);
    assert_eq!(State::from_bools(&vec![]).to_bools(), Vec::<bool>::new());
}
