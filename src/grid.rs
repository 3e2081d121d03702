//! The Game-of-Life simulator: a grid of cells seeded from a state, stepped
//! synchronously, with exact running statistics of its population.
use crate::bits::State;
use crate::constants::{MAX_CYCLE_LENGTH, MAX_GRID_CELLS, MAX_STEPS, SCALE_DIVISOR, STD_ONE};
use vstd::arithmetic::div_mod::{lemma_fundamental_div_mod, lemma_div_pos_is_pos};
use vstd::prelude::*;

verus! {

/// The number of live cells.
pub open spec fn alive_count(s: Seq<bool>) -> nat
    decreases s.len(),
{
    if s.len() == 0 {
        0
    } else {
        alive_count(s.drop_last()) + if s.last() { 1nat } else { 0nat }
    }
}

/// 1 when `(x, y)` lies on the grid and its cell is alive, else 0.
pub open spec fn alive_at(cells: Seq<bool>, cols: int, rows: int, x: int, y: int) -> nat {
    if 0 <= x < cols && 0 <= y < rows && cells[y * cols + x] {
        1
    } else {
        0
    }
}

/// The live cells among the eight around `(x, y)`; cells off the grid are absent.
pub open spec fn live_neighbors(cells: Seq<bool>, cols: int, rows: int, x: int, y: int) -> nat {
    alive_at(cells, cols, rows, x - 1, y - 1) + alive_at(cells, cols, rows, x, y - 1)
        + alive_at(cells, cols, rows, x + 1, y - 1) + alive_at(cells, cols, rows, x - 1, y)
        + alive_at(cells, cols, rows, x + 1, y) + alive_at(cells, cols, rows, x - 1, y + 1)
        + alive_at(cells, cols, rows, x, y + 1) + alive_at(cells, cols, rows, x + 1, y + 1)
}

/// Conway's rule: survival on 2 or 3 live neighbours, birth on exactly 3.
pub open spec fn next_alive(alive: bool, neighbors: nat) -> bool {
    neighbors == 3 || (alive && neighbors == 2)
}

/// One synchronous step of the whole row-major grid.
pub open spec fn life_step(cells: Seq<bool>, cols: nat, rows: nat) -> Seq<bool> {
    Seq::new(
        cells.len(),
        |i: int| next_alive(cells[i], live_neighbors(cells, cols as int, rows as int, i % (cols as int), i / (cols as int))),
    )
}

/// Cells along one side of a window of side `w`: a cell's side is `w / SCALE_DIVISOR`.
pub open spec fn side_cells(w: nat) -> nat {
    if w == 0 { 0 } else { SCALE_DIVISOR as nat }
}

/// `r` is the integer square root of `v`.
pub open spec fn is_sqrt(v: nat, r: nat) -> bool {
    r * r <= v < (r + 1) * (r + 1)
}

/// The integer square root (floor of the real one).
pub open spec fn isqrt(v: nat) -> nat {
    choose|r: nat| is_sqrt(v, r)
}

/// `STD_ONE * STD_ONE` times the sample variance of `n` values with sum `s1`
/// and sum of squares `s2`, rounded down; 0 for fewer than two values.
pub open spec fn scaled_variance(n: nat, s1: nat, s2: nat) -> nat {
    if n < 2 {
        0
    } else {
        ((STD_ONE * STD_ONE) as int * (n * s2 - s1 * s1) / (n * (n - 1) as nat) as int) as nat
    }
}

/// The sample standard deviation in units of `1 / STD_ONE`, rounded down.
pub open spec fn std_dev_of(n: nat, s1: nat, s2: nat) -> nat {
    isqrt(scaled_variance(n, s1, s2))
}

proof fn lemma_sqrt_unique(v: nat, r: nat, q: nat)
    requires
        is_sqrt(v, r),
        is_sqrt(v, q),
    ensures
        r == q,
{
    if r < q {
        assert((r + 1) * (r + 1) <= q * q) by (nonlinear_arith)
            requires
                r + 1 <= q,
        ;
    } else if q < r {
        assert((q + 1) * (q + 1) <= r * r) by (nonlinear_arith)
            requires
                q + 1 <= r,
        ;
    }
}

/// The integer square root, by bisection.
pub fn integer_sqrt(v: u128) -> (r: u64)
    ensures
        r == isqrt(v as nat),
        is_sqrt(v as nat, r as nat),
{
    let mut lo: u128 = 0;
    let mut hi: u128 = 0x1_0000_0000_0000_0000;
    assert(v < hi * hi) by (nonlinear_arith)
        requires
            hi == 0x1_0000_0000_0000_0000u128,
            v <= u128::MAX,
    ;
    while lo + 1 < hi
        invariant
            lo < hi <= 0x1_0000_0000_0000_0000u128,
            lo * lo <= v,
            v < hi * hi,
        decreases hi - lo,
    {
        let mid = lo + (hi - lo) / 2;
        assert(mid * mid <= 0xffff_ffff_ffff_ffffu128 * 0xffff_ffff_ffff_ffffu128) by (nonlinear_arith)
            requires
                mid <= 0xffff_ffff_ffff_ffffu128,
        ;
        if mid * mid <= v {
            lo = mid;
        } else {
            hi = mid;
        }
    }
    assert(is_sqrt(v as nat, lo as nat));
    proof {
        let q = isqrt(v as nat);
        lemma_sqrt_unique(v as nat, lo as nat, q);
    }
    lo as u64
}

proof fn lemma_alive_count_push(s: Seq<bool>, b: bool)
    ensures
        alive_count(s.push(b)) == alive_count(s) + if b { 1nat } else { 0nat },
{
    assert(s.push(b).drop_last() =~= s);
}

proof fn lemma_alive_count_bound(s: Seq<bool>)
    ensures
        alive_count(s) <= s.len(),
    decreases s.len(),
{
    if s.len() > 0 {
        lemma_alive_count_bound(s.drop_last());
    }
}

/// Row and column of the cell at `idx` of a row-major grid.
proof fn lemma_cell_coords(idx: int, cols: int, rows: int)
    requires
        0 <= idx < cols * rows,
        cols > 0,
    ensures
        0 <= idx % cols < cols,
        0 <= idx / cols < rows,
        (idx / cols) * cols + idx % cols == idx,
{
    lemma_fundamental_div_mod(idx, cols);
    lemma_div_pos_is_pos(idx, cols);
    let y = idx / cols;
    let x = idx % cols;
    if y >= rows {
        assert(y * cols >= rows * cols) by (nonlinear_arith)
            requires
                y >= rows,
                cols > 0,
        ;
        assert(cols * y == y * cols) by (nonlinear_arith);
        assert(cols * rows == rows * cols) by (nonlinear_arith);
    }
    assert(cols * y == y * cols) by (nonlinear_arith);
}

pub(crate) proof fn lemma_cell_index(x: int, y: int, cols: int, rows: int)
    requires
        0 <= x < cols,
        0 <= y < rows,
    ensures
        0 <= y * cols + x < cols * rows,
{
    assert(0 <= y * cols + x < cols * rows) by (nonlinear_arith)
        requires
            0 <= x < cols,
            0 <= y < rows,
    ;
}

/// One step of the running sums keeps `s1 * s1 <= n * s2` (Cauchy-Schwarz).
proof fn lemma_sums_step(n: int, s1: int, s2: int, p: int)
    requires
        n >= 0,
        s1 >= 0,
        s2 >= 0,
        p >= 0,
        s1 * s1 <= n * s2,
        n == 0 ==> s1 == 0,
    ensures
        (s1 + p) * (s1 + p) <= (n + 1) * (s2 + p * p),
{
    if n == 0 {
        assert((s1 + p) * (s1 + p) <= (n + 1) * (s2 + p * p)) by (nonlinear_arith)
            requires
                n == 0,
                s1 == 0,
                s2 >= 0,
        ;
    } else {
        assert(n * (s2 + n * p * p) >= n * (2 * p * s1)) by (nonlinear_arith)
            requires
                s1 * s1 <= n * s2,
                n > 0,
        {
            assert((n * p - s1) * (n * p - s1) >= 0);
        }
        assert(s2 + n * p * p >= 2 * p * s1) by (nonlinear_arith)
            requires
                n * (s2 + n * p * p) >= n * (2 * p * s1),
                n > 0,
        ;
        assert((s1 + p) * (s1 + p) <= (n + 1) * (s2 + p * p)) by (nonlinear_arith)
            requires
                s2 + n * p * p >= 2 * p * s1,
                s1 * s1 <= n * s2,
        ;
    }
}

/// A rectangular Game-of-Life grid with the statistics of its run so far.
pub struct Grid {
    pub cells: Vec<bool>,
    pub columns: usize,
    pub rows: usize,
    pub num_cells: usize,
    /// Live cells now.
    pub population: usize,
    /// Steps taken.
    pub population_age: usize,
    /// Sum of the populations after each step.
    pub population_sum: u128,
    /// Sum of the squares of the populations after each step.
    pub population_sq_sum: u128,
    /// Populations summed since the last cycle sample.
    pub cycle_sum: usize,
    /// The last cycle sample: the summed populations over `MAX_CYCLE_LENGTH`, rounded down.
    pub cycle_average: usize,
    /// The seed the grid started from.
    pub grid_state: State,
    pub initial_population: usize,
    /// The population after the latest step (0 before the first).
    pub final_population: usize,
}

impl Grid {
    /// The cells form a row-major `columns` by `rows` grid of bounded size.
    pub open spec fn shape_ok(&self) -> bool {
        &&& self.num_cells == self.columns * self.rows
        &&& self.num_cells <= MAX_GRID_CELLS
        &&& self.cells@.len() == self.num_cells
    }

    pub open spec fn wf(&self) -> bool {
        &&& self.shape_ok()
        &&& self.population == alive_count(self.cells@)
        &&& self.population_age <= MAX_STEPS
        &&& self.population_sum <= self.population_age * self.num_cells
        &&& self.population_sq_sum <= self.population_age * (self.num_cells * self.num_cells)
        &&& self.population_sum * self.population_sum <= self.population_age
            * self.population_sq_sum
        &&& self.cycle_sum <= (self.population_age % MAX_CYCLE_LENGTH) * self.num_cells
        &&& self.initial_population <= self.num_cells
        &&& self.final_population <= self.num_cells
    }

    /// A grid of `columns` by `rows` cells seeded row-major from the first
    /// `columns * rows` bits of `grid_state`.
    pub fn from_dimensions(columns: usize, rows: usize, grid_state: &State) -> (r: Grid)
        requires
            columns * rows <= MAX_GRID_CELLS,
            grid_state@.len() >= columns * rows,
        ensures
            r.wf(),
            r.columns == columns,
            r.rows == rows,
            r.cells@ == grid_state@.take(columns * rows),
            r.grid_state@ == grid_state@,
            r.population_age == 0,
            r.population_sum == 0,
            r.population_sq_sum == 0,
            r.cycle_sum == 0,
            r.cycle_average == 0,
            r.initial_population == r.population,
            r.final_population == 0,
    {
        let num_cells = columns * rows;
        let mut cells: Vec<bool> = Vec::new();
        let mut population: usize = 0;
        let mut idx: usize = 0;
        while idx < num_cells
            invariant
                num_cells == columns * rows,
                num_cells <= grid_state@.len(),
                idx <= num_cells,
                cells@ == grid_state@.take(idx as int),
                population == alive_count(cells@),
                population <= idx,
            decreases num_cells - idx,
        {
            let state = grid_state.bit_at(idx);
            proof {
                lemma_alive_count_push(cells@, state);
            }
            cells.push(state);
            if state {
                population = population + 1;
            }
            idx = idx + 1;
            assert(cells@ =~= grid_state@.take(idx as int));
        }
        Grid {
            cells,
            columns,
            rows,
            num_cells,
            population,
            population_age: 0,
            population_sum: 0,
            population_sq_sum: 0,
            cycle_sum: 0,
            cycle_average: 0,
            grid_state: grid_state.copy(),
            initial_population: population,
            final_population: 0,
        }
    }

    /// A grid for a window of `window_width` by `window_height`: a cell's side is
    /// `1 / SCALE_DIVISOR` of the window's, so each positive side holds
    /// `SCALE_DIVISOR` cells.
    pub fn new(window_width: usize, window_height: usize, grid_state: &State) -> (r: Grid)
        requires
            grid_state@.len() >= side_cells(window_width as nat) * side_cells(
                window_height as nat,
            ),
        ensures
            r.wf(),
            r.columns == side_cells(window_width as nat),
            r.rows == side_cells(window_height as nat),
            r.cells@ == grid_state@.take(r.num_cells as int),
            r.grid_state@ == grid_state@,
            r.population_age == 0,
            r.population_sum == 0,
            r.population_sq_sum == 0,
            r.initial_population == r.population,
            r.final_population == 0,
    {
        let cols = get_side_cells(window_width);
        let rows = get_side_cells(window_height);
        assert(cols * rows <= 400) by (nonlinear_arith)
            requires
                cols <= 20,
                rows <= 20,
        ;
        Grid::from_dimensions(cols, rows, grid_state)
    }

    /// 1 when the cell at `(x + dx - 1, y + dy - 1)` is on the grid and alive.
    fn alive_offset(&self, x: usize, y: usize, dx: usize, dy: usize) -> (r: usize)
        requires
            self.shape_ok(),
            x < self.columns,
            y < self.rows,
            dx <= 2,
            dy <= 2,
        ensures
            r == alive_at(
                self.cells@,
                self.columns as int,
                self.rows as int,
                x + dx - 1,
                y + dy - 1,
            ),
    {
        proof {
            assert(self.columns <= MAX_GRID_CELLS && self.rows <= MAX_GRID_CELLS) by (nonlinear_arith)
                requires
                    self.columns * self.rows <= MAX_GRID_CELLS,
                    x < self.columns,
                    y < self.rows,
            ;
        }
        if x + dx == 0 || y + dy == 0 {
            return 0;
        }
        let nx = x + dx - 1;
        let ny = y + dy - 1;
        if nx >= self.columns || ny >= self.rows {
            return 0;
        }
        proof {
            lemma_cell_index(nx as int, ny as int, self.columns as int, self.rows as int);
        }
        if self.cells[ny * self.columns + nx] {
            1
        } else {
            0
        }
    }

    /// The live cells among the eight around `(x, y)`.
    fn count_live_neighbors(&self, x: usize, y: usize) -> (r: usize)
        requires
            self.shape_ok(),
            x < self.columns,
            y < self.rows,
        ensures
            r == live_neighbors(self.cells@, self.columns as int, self.rows as int, x as int, y as int),
    {
        self.alive_offset(x, y, 0, 0) + self.alive_offset(x, y, 1, 0) + self.alive_offset(x, y, 2, 0)
            + self.alive_offset(x, y, 0, 1) + self.alive_offset(x, y, 2, 1)
            + self.alive_offset(x, y, 0, 2) + self.alive_offset(x, y, 1, 2)
            + self.alive_offset(x, y, 2, 2)
    }

    /// Advances the grid one synchronous step and updates its statistics.
    pub fn update(&mut self)
        requires
            old(self).wf(),
            old(self).population_age < MAX_STEPS,
        ensures
            final(self).wf(),
            final(self).cells@ == life_step(
                old(self).cells@,
                old(self).columns as nat,
                old(self).rows as nat,
            ),
            final(self).columns == old(self).columns,
            final(self).rows == old(self).rows,
            final(self).num_cells == old(self).num_cells,
            final(self).grid_state@ == old(self).grid_state@,
            final(self).initial_population == old(self).initial_population,
            final(self).population_age == old(self).population_age + 1,
            final(self).population_sum == old(self).population_sum + final(self).population,
            final(self).population_sq_sum == old(self).population_sq_sum + final(self).population
                * final(self).population,
            final(self).final_population == final(self).population,
            (old(self).population_age + 1) % (MAX_CYCLE_LENGTH as int) == 0 ==> {
                &&& final(self).cycle_average == old(self).cycle_sum / MAX_CYCLE_LENGTH
                &&& final(self).cycle_sum == 0
            },
            (old(self).population_age + 1) % (MAX_CYCLE_LENGTH as int) != 0 ==> {
                &&& final(self).cycle_sum == old(self).cycle_sum + old(self).population
                &&& final(self).cycle_average == old(self).cycle_average
            },
    {
        let ghost before = self.cells@;
        let ghost next = life_step(before, self.columns as nat, self.rows as nat);
        let n = self.num_cells;
        let mut new_states: Vec<bool> = Vec::new();
        let mut count: usize = 0;
        let mut idx: usize = 0;
        while idx < n
            invariant
                self.shape_ok(),
                self.cells@ == before,
                n == self.num_cells,
                next == life_step(before, self.columns as nat, self.rows as nat),
                idx <= n,
                new_states@ == next.take(idx as int),
                count == alive_count(new_states@),
                count <= idx,
            decreases n - idx,
        {
            proof {
                lemma_cell_coords(idx as int, self.columns as int, self.rows as int);
            }
            let x = idx % self.columns;
            let y = idx / self.columns;
            let alive = self.cells[idx];
            let neighbors = self.count_live_neighbors(x, y);
            let next_state = neighbors == 3 || (alive && neighbors == 2);
            proof {
                lemma_alive_count_push(new_states@, next_state);
            }
            new_states.push(next_state);
            if next_state {
                count = count + 1;
            }
            idx = idx + 1;
            assert(new_states@ =~= next.take(idx as int));
        }
        assert(new_states@ =~= next);
        let old_population = self.population;
        self.cells = new_states;
        self.population = count;
        self.final_population = count;
        proof {
            lemma_alive_count_bound(old(self).cells@);
            let a = old(self).population_age as int;
            let nn = n as int;
            let p = count as int;
            let s1 = old(self).population_sum as int;
            let s2 = old(self).population_sq_sum as int;
            let cs = old(self).cycle_sum as int;
            assert(p * p <= nn * nn) by (nonlinear_arith)
                requires
                    0 <= p <= nn,
            ;
            assert(s1 + p <= (a + 1) * nn) by (nonlinear_arith)
                requires
                    s1 <= a * nn,
                    p <= nn,
            ;
            assert(s2 + p * p <= (a + 1) * (nn * nn)) by (nonlinear_arith)
                requires
                    s2 <= a * (nn * nn),
                    p * p <= nn * nn,
            ;
            if a == 0 {
                assert(s1 == 0) by (nonlinear_arith)
                    requires
                        0 <= s1 <= a * nn,
                        a == 0,
                ;
            }
            assert((a + 1) * nn <= MAX_STEPS * MAX_GRID_CELLS) by (nonlinear_arith)
                requires
                    0 <= a + 1 <= MAX_STEPS,
                    0 <= nn <= MAX_GRID_CELLS,
            ;
            lemma_sums_step(
                a,
                s1 as int,
                s2 as int,
                p,
            );
            assert(nn * nn <= MAX_GRID_CELLS * MAX_GRID_CELLS) by (nonlinear_arith)
                requires
                    0 <= nn <= MAX_GRID_CELLS,
            ;
            assert((a + 1) * (nn * nn) <= MAX_STEPS * (MAX_GRID_CELLS * MAX_GRID_CELLS))
                by (nonlinear_arith)
                requires
                    0 <= a + 1 <= MAX_STEPS,
                    nn * nn <= MAX_GRID_CELLS * MAX_GRID_CELLS,
                    nn * nn >= 0,
            ;
        }
        self.population_sum = self.population_sum + count as u128;
        self.population_sq_sum = self.population_sq_sum + (count as u128) * (count as u128);
        self.population_age = self.population_age + 1;
        if self.population_age % MAX_CYCLE_LENGTH == 0 {
            self.cycle_average = self.cycle_sum / MAX_CYCLE_LENGTH;
            self.cycle_sum = 0;
        } else {
            proof {
                let a = old(self).population_age as int;
                let cs = old(self).cycle_sum as int;
                assert((a + 1) % 24 == a % 24 + 1);
                assert(cs + old_population <= (a % 24 + 1) * n) by (nonlinear_arith)
                    requires
                        cs <= (a % 24) * n,
                        old_population <= n,
                ;
                assert((a % 24 + 1) * n <= 24 * MAX_GRID_CELLS) by (nonlinear_arith)
                    requires
                        0 <= a % 24 < 24,
                        n <= MAX_GRID_CELLS,
                ;
            }
            self.cycle_sum = self.cycle_sum + old_population;
        }
    }

    /// The sample standard deviation of the populations after each step, in
    /// units of `1 / STD_ONE`, rounded down; 0 before the second step.
    pub fn standard_deviation(&self) -> (r: u64)
        requires
            self.wf(),
        ensures
            r == std_dev_of(
                self.population_age as nat,
                self.population_sum as nat,
                self.population_sq_sum as nat,
            ),
    {
        if self.population_age < 2 {
            proof {
                assert((0nat + 1) * (0nat + 1) == 1) by (nonlinear_arith);
                assert(is_sqrt(0, 0));
                lemma_sqrt_unique(0, 0, isqrt(0));
            }
            return 0;
        }
        let n = self.population_age as u128;
        let s1 = self.population_sum;
        let s2 = self.population_sq_sum;
        proof {
            let nc = self.num_cells as int;
            assert(nc * nc <= MAX_GRID_CELLS * MAX_GRID_CELLS) by (nonlinear_arith)
                requires
                    0 <= nc <= MAX_GRID_CELLS,
            ;
            assert(n * s2 <= MAX_STEPS * (MAX_STEPS * (MAX_GRID_CELLS * MAX_GRID_CELLS)))
                by (nonlinear_arith)
                requires
                    n <= MAX_STEPS,
                    s2 <= n * (nc * nc),
                    nc * nc <= MAX_GRID_CELLS * MAX_GRID_CELLS,
                    nc * nc >= 0,
            ;
            assert(0 < n * (n - 1) <= MAX_STEPS * MAX_STEPS) by (nonlinear_arith)
                requires
                    2 <= n <= MAX_STEPS,
            ;
        }
        let spread = n * s2 - s1 * s1;
        proof {
            assert((STD_ONE * STD_ONE) as int * spread <= 1_000_000 * (MAX_STEPS * (MAX_STEPS * (
            MAX_GRID_CELLS * MAX_GRID_CELLS)))) by (nonlinear_arith)
                requires
                    0 <= spread <= n * s2,
                    n * s2 <= MAX_STEPS * (MAX_STEPS * (MAX_GRID_CELLS * MAX_GRID_CELLS)),
            ;
        }
        let scaled = (STD_ONE as u128 * STD_ONE as u128) * spread / (n * (n - 1));
        integer_sqrt(scaled)
    }
}

/// Cells along one side of a window of side `w`.
pub fn get_side_cells(w: usize) -> (r: usize)
    ensures
        r == side_cells(w as nat),
{
    if w == 0 {
        0
    } else {
        SCALE_DIVISOR
    }
}

/// Cells in a grid for a window of `window_width` by `window_height`.
pub fn get_num_cells(window_width: usize, window_height: usize) -> (r: usize)
    ensures
        r == side_cells(window_width as nat) * side_cells(window_height as nat),
{
    let cols = get_side_cells(window_width);
    let rows = get_side_cells(window_height);
    assert(cols * rows <= 400) by (nonlinear_arith)
        requires
            cols <= 20,
            rows <= 20,
    ;
    cols * rows
}

/// The mathematical state of a simulation run.
pub struct Run {
    pub cells: Seq<bool>,
    /// Steps taken.
    pub age: nat,
    /// Sum of the populations after each step.
    pub sum: nat,
    /// Sum of their squares.
    pub sq_sum: nat,
    /// The latest population.
    pub last: nat,
    /// Consecutive steps that left the population unchanged.
    pub repeats: nat,
}

/// The run before its first step.
pub open spec fn seed_run(cells: Seq<bool>) -> Run {
    Run { cells, age: 0, sum: 0, sq_sum: 0, last: alive_count(cells), repeats: 0 }
}

/// One step of a run.
pub open spec fn run_step(r: Run, cols: nat, rows: nat) -> Run {
    let cells = life_step(r.cells, cols, rows);
    let p = alive_count(cells);
    Run {
        cells,
        age: r.age + 1,
        sum: r.sum + p,
        sq_sum: r.sq_sum + p * p,
        last: p,
        repeats: if p == r.last { r.repeats + 1 } else { 0 },
    }
}

/// A run goes on while the population is alive, younger than `max_age`, and
/// has not stayed unchanged for `max_repeats` consecutive steps.
pub open spec fn run_continues(r: Run, max_age: nat, max_repeats: nat) -> bool {
    alive_count(r.cells) > 0 && r.age < max_age && r.repeats < max_repeats
}

/// The run stepped until it stops.
pub open spec fn run_until(r: Run, cols: nat, rows: nat, max_age: nat, max_repeats: nat) -> Run
    decreases max_age - r.age,
{
    if run_continues(r, max_age, max_repeats) {
        run_until(run_step(r, cols, rows), cols, rows, max_age, max_repeats)
    } else {
        r
    }
}

/// The finished run from a seed on a `cols` by `rows` grid.
pub open spec fn simulation(seed: Seq<bool>, cols: nat, rows: nat, max_age: nat, max_repeats: nat) -> Run {
    run_until(seed_run(seed.take((cols * rows) as int)), cols, rows, max_age, max_repeats)
}

/// What a finished simulation reports.
pub struct Outcome {
    pub initial_population: usize,
    pub final_population: usize,
    /// Steps taken.
    pub age: usize,
    /// Sample standard deviation of the population after each step, in units of `1 / STD_ONE`.
    pub standard_deviation: u64,
}

/// Runs the grid seeded by `seed` until its population dies out, `max_age`
/// steps pass, or the population stays unchanged for `max_repeats` steps.
pub fn simulate(columns: usize, rows: usize, seed: &State, max_age: usize, max_repeats: usize) -> (r: Outcome)
    requires
        columns * rows <= MAX_GRID_CELLS,
        seed@.len() >= columns * rows,
        max_age <= MAX_STEPS,
    ensures
        ({
            let run = simulation(seed@, columns as nat, rows as nat, max_age as nat, max_repeats as nat);
            &&& r.initial_population == alive_count(seed@.take(columns * rows))
            &&& r.final_population == alive_count(run.cells)
            &&& r.age == run.age
            &&& r.standard_deviation == std_dev_of(run.age, run.sum, run.sq_sum)
        }),
        r.age <= max_age,
        r.initial_population <= columns * rows,
        r.final_population <= columns * rows,
{
    let mut grid = Grid::from_dimensions(columns, rows, seed);
    let ghost cols = columns as nat;
    let ghost rs = rows as nat;
    let ghost target = simulation(seed@, cols, rs, max_age as nat, max_repeats as nat);
    let mut iterations: usize = 0;
    let mut population_repeats: usize = 0;
    let mut last_population = grid.population;
    while grid.population > 0 && iterations < max_age && population_repeats < max_repeats
        invariant
            grid.wf(),
            grid.columns == columns,
            grid.rows == rows,
            cols == columns,
            rs == rows,
            grid.initial_population == alive_count(seed@.take(columns * rows)),
            iterations == grid.population_age,
            iterations <= max_age,
            max_age <= MAX_STEPS,
            population_repeats <= iterations,
            run_until(
                Run {
                    cells: grid.cells@,
                    age: grid.population_age as nat,
                    sum: grid.population_sum as nat,
                    sq_sum: grid.population_sq_sum as nat,
                    last: last_population as nat,
                    repeats: population_repeats as nat,
                },
                cols,
                rs,
                max_age as nat,
                max_repeats as nat,
            ) == target,
        decreases max_age - iterations,
    {
        let ghost cur = Run {
            cells: grid.cells@,
            age: grid.population_age as nat,
            sum: grid.population_sum as nat,
            sq_sum: grid.population_sq_sum as nat,
            last: last_population as nat,
            repeats: population_repeats as nat,
        };
        assert(run_continues(cur, max_age as nat, max_repeats as nat));
        assert(run_until(cur, cols, rs, max_age as nat, max_repeats as nat) == run_until(
            run_step(cur, cols, rs),
            cols,
            rs,
            max_age as nat,
            max_repeats as nat,
        ));
        grid.update();
        iterations = iterations + 1;
        if grid.population == last_population {
            population_repeats = population_repeats + 1;
        } else {
            last_population = grid.population;
            population_repeats = 0;
        }
        assert(run_step(cur, cols, rs).cells =~= grid.cells@);
        assert(run_step(cur, cols, rs) == Run {
            cells: grid.cells@,
            age: grid.population_age as nat,
            sum: grid.population_sum as nat,
            sq_sum: grid.population_sq_sum as nat,
            last: last_population as nat,
            repeats: population_repeats as nat,
        });
    }
    proof {
        lemma_alive_count_bound(grid.cells@);
    }
    Outcome {
        initial_population: grid.initial_population,
        final_population: grid.population,
        age: grid.population_age,
        standard_deviation: grid.standard_deviation(),
    }
}

/// Simulation is deterministic: the same seed on the same grid with the same
/// limits always finishes with the same population, age and standard deviation.
pub proof fn lemma_simulation_deterministic(
    seed1: Seq<bool>,
    seed2: Seq<bool>,
    cols: nat,
    rows: nat,
    max_age: nat,
    max_repeats: nat,
)
    requires
        seed1 == seed2,
    ensures
        ({
            let r1 = simulation(seed1, cols, rows, max_age, max_repeats);
            let r2 = simulation(seed2, cols, rows, max_age, max_repeats);
            &&& alive_count(r1.cells) == alive_count(r2.cells)
            &&& r1.age == r2.age
            &&& std_dev_of(r1.age, r1.sum, r1.sq_sum) == std_dev_of(r2.age, r2.sum, r2.sq_sum)
        }),
{
}

} // verus!
