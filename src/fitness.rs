//! The fitness score of a finished simulation, in fixed point over `ONE`.
use crate::constants::{MAX_GRID_CELLS, MAX_STEPS, ONE, STD_ONE};
use vstd::arithmetic::div_mod::{lemma_div_is_ordered, lemma_div_multiples_vanish};
use vstd::prelude::*;

verus! {

/// The fixed-point representation of 1.0 inside the exponential.
pub const EXP_ONE: u128 = 1_000_000_000_000;

/// The highest power kept from the exponential's series; for exponents in
/// `[-1, 1]` the terms left out sum to less than `1e-14`.
pub const EXP_TERMS: u64 = 16;

/// The `k`-th term of the series of `e^(a / n)`, over `EXP_ONE`, each term
/// derived from the previous one and rounded down.
pub open spec fn exp_term(a: nat, n: nat, k: nat) -> nat
    decreases k,
{
    if k == 0 {
        EXP_ONE as nat
    } else {
        exp_term(a, n, (k - 1) as nat) * a / (n * k)
    }
}

/// The terms `0..=k` of the series of `e^(a / n)`, over `EXP_ONE`.
pub open spec fn exp_sum(a: nat, n: nat, k: nat) -> nat
    decreases k,
{
    if k == 0 {
        EXP_ONE as nat
    } else {
        exp_sum(a, n, (k - 1) as nat) + exp_term(a, n, k)
    }
}

/// The logistic function `1 / (1 + e^(-growth / n))`, over `ONE`, rounded down.
pub open spec fn sigmoid(growth: int, n: nat) -> nat {
    let a: nat = if growth >= 0 { growth as nat } else { (-growth) as nat };
    let e = exp_sum(a, n, EXP_TERMS as nat);
    if growth >= 0 {
        (ONE * e / (e + EXP_ONE)) as nat
    } else {
        (ONE * EXP_ONE / (EXP_ONE + e)) as nat
    }
}

/// The score of a run, over `ONE`: growth squashed by the logistic function,
/// times the age as a fraction of `max_age`, times the standard deviation
/// (in units of `1 / STD_ONE`) as a fraction of the cell count, rounded down
/// and capped at `ONE`; 0 when there are no cells or no steps allowed.
pub open spec fn fitness_value(
    initial_population: nat,
    final_population: nat,
    age: nat,
    std_dev: nat,
    num_cells: nat,
    max_age: nat,
) -> nat {
    if num_cells == 0 || max_age == 0 {
        0
    } else {
        let num: int = (sigmoid(final_population - initial_population, num_cells) * age * std_dev) as int;
        let den: int = max_age * STD_ONE * num_cells;
        let v = (num / den) as nat;
        if v > ONE {
            ONE as nat
        } else {
            v
        }
    }
}

/// Every score lies in `[0, ONE]`.
pub proof fn lemma_fitness_in_range(
    initial_population: nat,
    final_population: nat,
    age: nat,
    std_dev: nat,
    num_cells: nat,
    max_age: nat,
)
    ensures
        0 <= fitness_value(initial_population, final_population, age, std_dev, num_cells, max_age)
            <= ONE,
{
}

/// `c * x / y <= c` when `x <= y`.
proof fn lemma_fraction_at_most(c: nat, x: nat, y: nat)
    requires
        x <= y,
        y > 0,
    ensures
        c * x / y <= c,
{
    assert(c * x <= y * c) by (nonlinear_arith)
        requires
            x <= y,
    ;
    lemma_div_is_ordered((c * x) as int, (y * c) as int, y as int);
    lemma_div_multiples_vanish(c as int, y as int);
}

/// `e^(a / n)` over `EXP_ONE`, from its series.
fn exp_series(a: u128, n: u128) -> (r: u128)
    requires
        0 < n <= MAX_GRID_CELLS,
        a <= n,
    ensures
        r == exp_sum(a as nat, n as nat, EXP_TERMS as nat),
        EXP_ONE <= r <= (EXP_TERMS + 1) * EXP_ONE,
{
    let mut term: u128 = EXP_ONE;
    let mut sum: u128 = EXP_ONE;
    let mut k: u128 = 0;
    while k < EXP_TERMS as u128
        invariant
            0 < n <= MAX_GRID_CELLS,
            a <= n,
            k <= EXP_TERMS,
            term == exp_term(a as nat, n as nat, k as nat),
            sum == exp_sum(a as nat, n as nat, k as nat),
            term <= EXP_ONE,
            EXP_ONE <= sum <= (k + 1) * EXP_ONE,
        decreases EXP_TERMS - k,
    {
        k = k + 1;
        proof {
            assert(term * a <= EXP_ONE * MAX_GRID_CELLS) by (nonlinear_arith)
                requires
                    term <= EXP_ONE,
                    a <= n <= MAX_GRID_CELLS,
            ;
            assert(n * k <= MAX_GRID_CELLS * EXP_TERMS) by (nonlinear_arith)
                requires
                    n <= MAX_GRID_CELLS,
                    k <= EXP_TERMS,
            ;
            assert(n * k > 0) by (nonlinear_arith)
                requires
                    n > 0,
                    k > 0,
            ;
            assert(a <= n * k) by (nonlinear_arith)
                requires
                    a <= n,
                    k >= 1,
            ;
            lemma_fraction_at_most(term as nat, a as nat, (n * k) as nat);
        }
        term = term * a / (n * k);
        sum = sum + term;
    }
    sum
}

/// The score of a finished run (see `fitness_value`); never above `ONE`.
pub fn fitness(
    initial_population: usize,
    final_population: usize,
    age: usize,
    std_dev: u64,
    num_cells: usize,
    max_age: usize,
) -> (r: u64)
    requires
        num_cells <= MAX_GRID_CELLS,
        initial_population <= num_cells,
        final_population <= num_cells,
        age <= MAX_STEPS,
    ensures
        r == fitness_value(
            initial_population as nat,
            final_population as nat,
            age as nat,
            std_dev as nat,
            num_cells as nat,
            max_age as nat,
        ),
        r <= ONE,
{
    if num_cells == 0 || max_age == 0 {
        return 0;
    }
    let growing = final_population >= initial_population;
    let a: usize = if growing {
        final_population - initial_population
    } else {
        initial_population - final_population
    };
    let e = exp_series(a as u128, num_cells as u128);
    let sig: u128 = if growing {
        proof {
            lemma_fraction_at_most(ONE as nat, e as nat, (e + EXP_ONE) as nat);
        }
        ONE as u128 * e / (e + EXP_ONE)
    } else {
        proof {
            lemma_fraction_at_most(ONE as nat, EXP_ONE as nat, (EXP_ONE + e) as nat);
        }
        ONE as u128 * EXP_ONE / (EXP_ONE + e)
    };
    proof {
        assert(sig * age <= ONE * MAX_STEPS) by (nonlinear_arith)
            requires
                sig <= ONE,
                age <= MAX_STEPS,
        ;
        assert(sig * age * std_dev <= ONE * MAX_STEPS * 0xffff_ffff_ffff_ffff) by (nonlinear_arith)
            requires
                sig <= ONE,
                age <= MAX_STEPS,
                std_dev <= 0xffff_ffff_ffff_ffffu64,
        ;
        assert(max_age * STD_ONE * num_cells <= 0xffff_ffff_ffff_ffff * STD_ONE * MAX_GRID_CELLS)
            by (nonlinear_arith)
            requires
                max_age <= 0xffff_ffff_ffff_ffffu64,
                num_cells <= MAX_GRID_CELLS,
        ;
        assert(max_age * STD_ONE * num_cells > 0) by (nonlinear_arith)
            requires
                max_age > 0,
                num_cells > 0,
        ;
    }
    let v = sig * age as u128 * std_dev as u128 / (max_age as u128 * STD_ONE as u128
        * num_cells as u128);
    if v > ONE as u128 {
        ONE
    } else {
        v as u64
    }
}

} // verus!
